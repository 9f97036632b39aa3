use boom_moc_index::benchmark::{moc_id, skymap_path, trigger_time, Tally};
use boom_moc_index::keys::{all_keys, cell_key, fits_key, meta_key};
use boom_moc_index::text::{decimal_text, holds_text, padded_text, same_text, strip_text};

#[test]
fn numbers_in_decimal() {
    for n in [0, 7, 9, 10, 42, 100, 49_151, u64::MAX] {
        assert_eq!(decimal_text(n), format!("{}", n));
    }
    for n in [0, 7, 59, 100, 123_456, 1_234_567] {
        assert_eq!(padded_text(n, 6), format!("{:06}", n));
        assert_eq!(padded_text(n, 2), format!("{:02}", n));
        assert_eq!(padded_text(n, 0), format!("{}", n));
    }
}

#[test]
fn texts_compared() {
    assert!(same_text("", ""));
    assert!(same_text("igwn.gwalert", "igwn.gwalert"));
    assert!(!same_text("igwn.gwalert", "igwn.gwalerT"));
    assert!(!same_text("igwn", "igwn.gwalert"));
    assert!(same_text("µ≥é", "µ≥é"));
}

#[test]
fn texts_searched() {
    assert!(holds_text("gcn.notices.swift.bat.guano", "swift.bat"));
    assert!(holds_text("swift.bat", "swift.bat"));
    assert!(holds_text("x swift.bat", "swift.bat"));
    assert!(holds_text("anything", ""));
    assert!(holds_text("aab", "ab"));
    assert!(!holds_text("swift.ba", "swift.bat"));
    assert!(!holds_text("swift-bat", "swift.bat"));
    assert!(!holds_text("", "a"));
}

#[test]
fn prefixes_stripped() {
    assert_eq!(strip_text("gcn.notices.x", "gcn.notices."), Some("x"));
    assert_eq!(strip_text("gcn.", "gcn."), Some(""));
    assert_eq!(strip_text("µ≥é", "µ"), Some("≥é"));
    assert_eq!(strip_text("gcn", "gcn."), None);
    assert_eq!(strip_text("xgcn.", "gcn."), None);
}

#[test]
fn key_families() {
    assert_eq!(cell_key(6, 12_345), "mocidx:cell:6:12345");
    assert_eq!(cell_key(29, 0), "mocidx:cell:29:0");
    assert_eq!(fits_key("LVK-S260101a"), "mocidx:fits:LVK-S260101a");
    assert_eq!(meta_key("LVK-S260101a"), "mocidx:meta:LVK-S260101a");
    assert_eq!(all_keys(), "mocidx:*");
}

#[test]
fn keys_of_different_things_differ() {
    let mut keys = vec![];
    for depth in [1, 11, 111] {
        for cell in [1, 11, 111] {
            keys.push(cell_key(depth, cell));
        }
    }
    for id in ["", "a", "1:1", "cell:1:1"] {
        keys.push(fits_key(id));
        keys.push(meta_key(id));
    }
    let count = keys.len();
    assert!(keys.iter().all(|key| key.starts_with("mocidx:")));
    keys.sort();
    keys.dedup();
    assert_eq!(keys.len(), count);
}

#[test]
fn benchmark_names() {
    assert_eq!(moc_id(7), "ORIGIN-O4HL-000007");
    assert_eq!(moc_id(1_234_567), "ORIGIN-O4HL-1234567");
    assert_eq!(trigger_time(5), "2026-01-01T00:00:05Z");
    assert_eq!(trigger_time(60), "2026-01-01T00:00:00Z");
    assert_eq!(trigger_time(119), "2026-01-01T00:00:59Z");
    assert_eq!(skymap_path("/data", 12), "/data/12.fits");
}

#[test]
fn benchmark_tally() {
    let mut tally = Tally::new();
    tally.count(true, 3);
    tally.count(true, 0);
    tally.count(false, 1);
    tally.count(false, 0);
    assert_eq!(tally, Tally { with_candidates: 2, with_hits: 1 });
}
