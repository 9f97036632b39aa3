use boom_moc_index::cache::{MocCache, ParsedMoc};
use boom_moc_index::hpx_moc::HpxMoc;
use std::sync::Arc;

fn moc(depth_max: u8) -> Arc<ParsedMoc> {
    let moc = Arc::new(HpxMoc { depth_max, ranges: vec![0..1] });
    Arc::new(ParsedMoc { fits_bytes: vec![depth_max], moc })
}

#[test]
fn cache_gives_back() {
    let mut cache = MocCache::new(4);
    assert!(cache.get("a").is_none());
    cache.put("a", moc(1));
    cache.put("b", moc(2));
    assert_eq!(cache.get("a").unwrap().moc.depth_max, 1);
    assert_eq!(cache.get("b").unwrap().moc.depth_max, 2);
    cache.put("a", moc(3));
    assert_eq!(cache.get("a").unwrap().moc.depth_max, 3);
    assert_eq!(cache.get("b").unwrap().moc.depth_max, 2);
}

#[test]
fn cache_forgets_the_least_recently_used() {
    let mut cache = MocCache::new(2);
    cache.put("a", moc(1));
    cache.put("b", moc(2));
    assert!(cache.get("a").is_some());
    cache.put("c", moc(3));
    assert!(cache.get("b").is_none());
    assert_eq!(cache.get("a").unwrap().moc.depth_max, 1);
    assert_eq!(cache.get("c").unwrap().moc.depth_max, 3);
}

#[test]
fn cache_updates_in_place_when_full() {
    let mut cache = MocCache::new(2);
    cache.put("a", moc(1));
    cache.put("b", moc(2));
    cache.put("a", moc(4));
    assert_eq!(cache.get("b").unwrap().moc.depth_max, 2);
    assert_eq!(cache.get("a").unwrap().moc.depth_max, 4);
}

#[test]
fn cache_drops() {
    let mut cache = MocCache::new(4);
    cache.put("a", moc(1));
    cache.put("b", moc(2));
    cache.remove("a");
    cache.remove("c");
    assert!(cache.get("a").is_none());
    assert_eq!(cache.get("b").unwrap().moc.depth_max, 2);
}

#[test]
fn used_mocs_stay_cached() {
    let mut cache = MocCache::new(3);
    cache.put("a", moc(1));
    let first = cache.get("a").unwrap();
    for _ in 0..5 {
        cache.put("b", moc(2));
        cache.put("c", moc(3));
        cache.get("b");
        cache.remove("c");
    }
    assert!(Arc::ptr_eq(&first, &cache.get("a").unwrap()));
    for id in ["b", "c", "d"] {
        cache.put(id, moc(4));
    }
    assert!(cache.get("a").is_none());
}
