use boom_moc_index::hpx_moc::{moc_to_fits_bytes, MocError};
use boom_moc_index::keys::fits_key;
use boom_moc_index::lookup::{Answer, Question};
use boom_moc_index::store::Command;
use boom_moc_index::{HpxMoc, MocHit, MocIndex, MocMetadata, DEFAULT_INDEX_DEPTH};
use std::collections::{BTreeMap, BTreeSet};
use std::ops::Range;
use std::sync::Arc;

/// A store with a clock, in milliseconds, that drops keys when they expire.
#[derive(Default)]
struct Valkey {
    now: i64,
    bytes: BTreeMap<String, (Vec<u8>, i64)>,
    sets: BTreeMap<String, (BTreeSet<String>, Option<i64>)>,
}

impl Valkey {
    fn wait(&mut self, seconds: i64) {
        self.now += 1000 * seconds;
        let now = self.now;
        self.bytes.retain(|_, (_, expires)| now < *expires);
        self.sets.retain(|_, (_, expires)| expires.map_or(true, |expires| now < expires));
    }

    fn send(&mut self, command: Command) {
        match command {
            Command::SetEx { key, value, ttl } => {
                self.bytes.insert(key, (value, self.now + 1000 * ttl as i64));
            }
            Command::AddMember { key, member } => {
                self.sets.entry(key).or_default().0.insert(member);
            }
            Command::Extend { key, seconds } => {
                let deadline = self.now + 1000 * seconds;
                let expires = &mut self.sets.get_mut(&key).unwrap().1;
                if expires.map_or(true, |expires| deadline > expires) {
                    *expires = Some(deadline);
                }
            }
            Command::Delete { keys } => {
                for key in keys {
                    self.bytes.remove(&key);
                    self.sets.remove(&key);
                }
            }
        }
    }

    fn get(&self, key: &str) -> Option<Vec<u8>> {
        self.bytes.get(key).map(|(value, _)| value.clone())
    }

    fn members(&self, key: &str) -> Vec<String> {
        self.sets.get(key).map(|(ids, _)| ids.iter().cloned().collect()).unwrap_or_default()
    }

    fn register(&mut self, index: &mut MocIndex, moc_id: &str, moc: &HpxMoc, ttl: u64) -> usize {
        let fits = moc_to_fits_bytes(moc).unwrap();
        let metadata = metadata_of(moc_id, ttl);
        let plan = index.register(moc_id, moc, &fits, &metadata, moc_id.as_bytes());
        for command in plan.commands {
            self.send(command);
        }
        plan.n_cells
    }

    /// Looks up the position in a pixel.
    fn lookup(&mut self, index: &mut MocIndex, pixel: u64) -> Result<Vec<MocHit>, MocError> {
        let (mut lookup, mut question) = index.lookup(cell_of(pixel, index.depth()));
        loop {
            let answer = match question {
                Question::Members { key } => Answer::Members(self.members(&key)),
                Question::Fits { key } => Answer::Fits(self.get(&key)),
                Question::Cell { depth } => Answer::Cell(cell_of(pixel, depth)),
                Question::Metadata { key } => Answer::Metadata(
                    self.get(&key).map(|id| metadata_of(&String::from_utf8(id).unwrap(), 1)),
                ),
                Question::Nothing => return Ok(lookup.hits()),
            };
            question = lookup.advance(index, answer)?;
        }
    }
}

fn metadata_of(source: &str, validity_seconds: u64) -> MocMetadata {
    MocMetadata {
        source: source.to_string(),
        trigger_time: "2026-01-01T00:00:00Z".to_string(),
        credible_level: 0.95f64.to_bits(),
        validity_seconds,
        coverage_fraction: 0.01f64.to_bits(),
        native_depth: 8,
    }
}

fn cell_of(pixel: u64, depth: u8) -> u64 {
    pixel >> (2 * (29 - depth))
}

fn pixels(depth: u8, cell: u64) -> Range<u64> {
    let width = 1u64 << (2 * (29 - depth));
    cell * width..(cell + 1) * width
}

fn ids(hits: &[MocHit]) -> Vec<&str> {
    hits.iter().map(|hit| hit.moc_id.as_str()).collect()
}

#[test]
fn registration_commands_in_order() {
    let mut index = MocIndex::open(2);
    let moc = HpxMoc { depth_max: 3, ranges: vec![pixels(3, 17), pixels(3, 40)] };
    let metadata = metadata_of("LVK", 60);
    let plan = index.register("m", &moc, &[1, 2], &metadata, b"{}");
    assert_eq!(plan.n_cells, 2);
    let sent: Vec<String> = plan.commands.iter().map(|c| format!("{:?}", c)).collect();
    assert_eq!(
        sent,
        vec![
            r#"SetEx { key: "mocidx:fits:m", value: [1, 2], ttl: 60 }"#,
            r#"SetEx { key: "mocidx:meta:m", value: [123, 125], ttl: 60 }"#,
            r#"AddMember { key: "mocidx:cell:2:4", member: "m" }"#,
            r#"Extend { key: "mocidx:cell:2:4", seconds: 60 }"#,
            r#"AddMember { key: "mocidx:cell:2:10", member: "m" }"#,
            r#"Extend { key: "mocidx:cell:2:10", seconds: 60 }"#,
        ]
    );
}

#[test]
fn candidate_keys() {
    let index = MocIndex::open(DEFAULT_INDEX_DEPTH);
    assert_eq!(index.depth(), 6);
    assert_eq!(index.cell_key(7), "mocidx:cell:6:7");
    assert_eq!(index.candidates(7), "mocidx:cell:6:7");
    assert_eq!(index.lookup_candidates_only(7), "mocidx:cell:6:7");
}

#[test]
fn registered_mocs_are_hit_where_they_contain() {
    let mut valkey = Valkey::default();
    let mut index = MocIndex::open(6);
    let a = HpxMoc { depth_max: 8, ranges: vec![pixels(8, 1600), pixels(8, 5000)] };
    let b = HpxMoc { depth_max: 4, ranges: vec![pixels(4, 6)] };
    assert_eq!(valkey.register(&mut index, "a", &a, 60), 2);
    assert_eq!(valkey.register(&mut index, "b", &b, 90), 16);
    // Cell 1600 of depth 8 is in cell 6 of depth 4.
    let both = valkey.lookup(&mut index, pixels(8, 1600).start).unwrap();
    assert_eq!(ids(&both), vec!["a", "b"]);
    assert_eq!(both[0].source(), "a");
    assert_eq!(both[1].metadata.as_ref().unwrap().source, "b");
    // A neighbour in the same index cell is a candidate of both, a hit of one.
    let neighbour = pixels(8, 1601).start;
    assert_eq!(valkey.members(&index.candidates(cell_of(neighbour, 6))), vec!["a", "b"]);
    assert_eq!(ids(&valkey.lookup(&mut index, neighbour).unwrap()), vec!["b"]);
    assert_eq!(ids(&valkey.lookup(&mut index, pixels(8, 5000).end - 1).unwrap()), vec!["a"]);
    assert!(valkey.lookup(&mut index, 0).unwrap().is_empty());
}

#[test]
fn coarse_mocs_are_found_in_a_finer_index() {
    let mut valkey = Valkey::default();
    let mut index = MocIndex::open(9);
    let moc = HpxMoc { depth_max: 5, ranges: vec![pixels(5, 77)] };
    assert_eq!(valkey.register(&mut index, "m", &moc, 60), 256);
    for pixel in [pixels(5, 77).start, pixels(5, 77).end - 1] {
        assert_eq!(ids(&valkey.lookup(&mut index, pixel).unwrap()), vec!["m"]);
    }
    assert!(valkey.lookup(&mut index, pixels(5, 78).start).unwrap().is_empty());
}

#[test]
fn parsed_mocs_are_cached() {
    let mut valkey = Valkey::default();
    let mut index = MocIndex::open(6);
    let moc = HpxMoc { depth_max: 8, ranges: vec![pixels(8, 1600)] };
    valkey.register(&mut index, "m", &moc, 60);
    assert!(index.get_moc("m").is_none());
    assert_eq!(valkey.lookup(&mut index, pixels(8, 1600).start).unwrap().len(), 1);
    let parsed = index.get_moc("m").unwrap();
    for _ in 0..3 {
        assert_eq!(valkey.lookup(&mut index, pixels(8, 1600).start).unwrap().len(), 1);
        assert!(Arc::ptr_eq(&parsed, &index.get_moc("m").unwrap()));
    }
    let mut index = index.with_cache_size(0);
    assert_eq!(index.depth(), 6);
    assert!(index.get_moc("m").is_none());
    assert_eq!(valkey.lookup(&mut index, pixels(8, 1600).start).unwrap().len(), 1);
    assert!(index.get_moc("m").is_some());
}

#[test]
fn mocs_are_loaded_from_what_is_stored() {
    let mut index = MocIndex::open(6);
    let one = moc_to_fits_bytes(&HpxMoc { depth_max: 8, ranges: vec![pixels(8, 1)] }).unwrap();
    let two = moc_to_fits_bytes(&HpxMoc { depth_max: 8, ranges: vec![pixels(8, 2)] }).unwrap();
    let first = index.load_moc("m", &one).unwrap();
    assert!(Arc::ptr_eq(&first, &index.load_moc("m", &one).unwrap()));
    let second = index.load_moc("m", &two).unwrap();
    assert_eq!(second.ranges, vec![pixels(8, 2)]);
    assert!(Arc::ptr_eq(&second, &index.get_moc("m").unwrap()));
    assert!(index.load_moc("m", b"").is_err());
    assert!(Arc::ptr_eq(&second, &index.get_moc("m").unwrap()));
}

#[test]
fn small_caches_still_find_everything() {
    let mut valkey = Valkey::default();
    let mut index = MocIndex::open(6).with_cache_size(1);
    let moc = HpxMoc { depth_max: 8, ranges: vec![pixels(8, 1600)] };
    for moc_id in ["a", "b", "c"] {
        valkey.register(&mut index, moc_id, &moc, 60);
    }
    for _ in 0..2 {
        let hits = valkey.lookup(&mut index, pixels(8, 1600).start).unwrap();
        assert_eq!(ids(&hits), vec!["a", "b", "c"]);
    }
}

#[test]
fn candidates_without_fits_are_skipped() {
    let mut valkey = Valkey::default();
    let mut index = MocIndex::open(6);
    let moc = HpxMoc { depth_max: 8, ranges: vec![pixels(8, 1600)] };
    valkey.register(&mut index, "a", &moc, 60);
    valkey.register(&mut index, "b", &moc, 60);
    valkey.bytes.remove(&fits_key("a"));
    valkey.bytes.remove("mocidx:meta:b");
    let hits = valkey.lookup(&mut index, pixels(8, 1600).start).unwrap();
    assert_eq!(ids(&hits), vec!["b"]);
    assert!(hits[0].metadata.is_none());
    assert_eq!(hits[0].source(), "?");
}

#[test]
fn unreadable_fits_fail_the_lookup() {
    let mut valkey = Valkey::default();
    let mut index = MocIndex::open(6);
    let moc = HpxMoc { depth_max: 8, ranges: vec![pixels(8, 1600)] };
    valkey.register(&mut index, "a", &moc, 60);
    valkey.bytes.insert(fits_key("a"), (b"no FITS".to_vec(), 60_000));
    let res = valkey.lookup(&mut index, pixels(8, 1600).start);
    assert!(matches!(res, Err(MocError::Parse(_))));
    assert!(index.get_moc("a").is_none());
    assert!(matches!(index.load_moc("a", b""), Err(MocError::Parse(_))));
}

#[test]
fn flushing_drops_every_key() {
    let mut valkey = Valkey::default();
    let mut index = MocIndex::open(6);
    assert!(index.flush_all(vec![]).is_none());
    let moc = HpxMoc { depth_max: 8, ranges: vec![pixels(8, 1600)] };
    valkey.register(&mut index, "a", &moc, 60);
    let keys: Vec<String> = valkey.bytes.keys().chain(valkey.sets.keys()).cloned().collect();
    assert!(keys.iter().all(|key| key.starts_with("mocidx:")));
    valkey.send(index.flush_all(keys).unwrap());
    assert!(valkey.bytes.is_empty() && valkey.sets.is_empty());
    assert!(valkey.lookup(&mut index, pixels(8, 1600).start).unwrap().is_empty());
}

#[test]
fn windows_that_wrap() {
    let mut index = MocIndex::open(0);
    let moc = HpxMoc { depth_max: 0, ranges: vec![pixels(0, 3)] };
    let plan = index.register("m", &moc, &[], &metadata_of("s", u64::MAX), &[]);
    assert!(matches!(plan.commands[0], Command::SetEx { ttl: u64::MAX, .. }));
    assert!(matches!(plan.commands[3], Command::Extend { seconds: -1, .. }));
}

#[test]
fn every_key_expires_with_the_moc() {
    let mut valkey = Valkey::default();
    let mut index = MocIndex::open(6);
    let moc = HpxMoc { depth_max: 8, ranges: vec![pixels(8, 1600), pixels(8, 9000)] };
    valkey.register(&mut index, "a", &moc, 1_209_600);
    assert_eq!((valkey.bytes.len(), valkey.sets.len()), (2, 2));
    valkey.wait(1_209_599);
    assert_eq!((valkey.bytes.len(), valkey.sets.len()), (2, 2));
    valkey.wait(1);
    assert_eq!((valkey.bytes.len(), valkey.sets.len()), (0, 0));
    assert!(valkey.lookup(&mut index, pixels(8, 1600).start).unwrap().is_empty());
}

#[test]
fn shorter_windows_do_not_cut_longer_ones() {
    let mut valkey = Valkey::default();
    let mut index = MocIndex::open(6);
    let moc = HpxMoc { depth_max: 8, ranges: vec![pixels(8, 1600)] };
    valkey.register(&mut index, "a", &moc, 1000);
    valkey.register(&mut index, "b", &moc, 10);
    let pixel = pixels(8, 1600).start;
    assert_eq!(ids(&valkey.lookup(&mut index, pixel).unwrap()), vec!["a", "b"]);
    valkey.wait(20);
    assert!(valkey.members(&index.candidates(cell_of(pixel, 6))).contains(&"a".to_string()));
    assert_eq!(ids(&valkey.lookup(&mut index, pixel).unwrap()), vec!["a"]);
    let mut fresh = MocIndex::open(6);
    assert_eq!(ids(&valkey.lookup(&mut fresh, pixel).unwrap()), vec!["a"]);
    valkey.wait(980);
    assert!(valkey.lookup(&mut index, pixel).unwrap().is_empty());
}

#[test]
fn expired_mocs_fall_out_though_they_are_cached() {
    let mut valkey = Valkey::default();
    let mut index = MocIndex::open(6);
    let moc = HpxMoc { depth_max: 8, ranges: vec![pixels(8, 1600)] };
    valkey.register(&mut index, "a", &moc, 10);
    valkey.register(&mut index, "b", &moc, 1000);
    let pixel = pixels(8, 1600).start;
    valkey.wait(5);
    assert_eq!(ids(&valkey.lookup(&mut index, pixel).unwrap()), vec!["a", "b"]);
    valkey.wait(15);
    assert_eq!(valkey.members(&index.candidates(cell_of(pixel, 6))), vec!["a", "b"]);
    assert_eq!(ids(&valkey.lookup(&mut index, pixel).unwrap()), vec!["b"]);
    assert!(index.get_moc("a").is_none());
    assert!(index.get_moc("b").is_some());
}

#[test]
fn replaced_mocs_are_not_answered_from_the_cache() {
    let mut valkey = Valkey::default();
    let mut index = MocIndex::open(6);
    let (old, new) = (pixels(8, 1600), pixels(8, 1601));
    let other = HpxMoc { depth_max: 8, ranges: vec![pixels(8, 77)] };
    valkey.register(&mut index, "m", &HpxMoc { depth_max: 8, ranges: vec![old.clone()] }, 60);
    valkey.register(&mut index, "n", &other, 60);
    assert_eq!(ids(&valkey.lookup(&mut index, old.start).unwrap()), vec!["m"]);
    assert_eq!(ids(&valkey.lookup(&mut index, pixels(8, 77).start).unwrap()), vec!["n"]);
    valkey.register(&mut index, "m", &HpxMoc { depth_max: 8, ranges: vec![new.clone()] }, 60);
    assert!(index.get_moc("m").is_none());
    assert!(index.get_moc("n").is_some());
    assert!(valkey.lookup(&mut index, old.start).unwrap().is_empty());
    assert_eq!(ids(&valkey.lookup(&mut index, new.start).unwrap()), vec!["m"]);
}

#[test]
fn mocs_replaced_through_another_handle_are_seen() {
    let mut valkey = Valkey::default();
    let (mut listener, mut index) = (MocIndex::open(6), MocIndex::open(6));
    let (old, new) = (pixels(8, 1600), pixels(8, 1601));
    let moc = |range: &Range<u64>| HpxMoc { depth_max: 8, ranges: vec![range.clone()] };
    valkey.register(&mut listener, "m", &moc(&old), 60);
    assert_eq!(ids(&valkey.lookup(&mut index, old.start).unwrap()), vec!["m"]);
    valkey.register(&mut listener, "m", &moc(&new), 60);
    assert!(index.get_moc("m").is_some());
    assert!(valkey.lookup(&mut index, old.start).unwrap().is_empty());
    assert_eq!(ids(&valkey.lookup(&mut index, new.start).unwrap()), vec!["m"]);
}

#[test]
fn candidates_after_several_registrations() {
    let mut valkey = Valkey::default();
    let mut index = MocIndex::open(4);
    let cells = [("a", vec![5u64, 9]), ("b", vec![9]), ("c", vec![7, 9, 11])];
    for (moc_id, cells) in &cells {
        let ranges = cells.iter().map(|cell| pixels(4, *cell)).collect();
        valkey.register(&mut index, moc_id, &HpxMoc { depth_max: 4, ranges }, 60);
    }
    for cell in 0..12u64 {
        let expected: Vec<&str> =
            cells.iter().filter(|(_, cells)| cells.contains(&cell)).map(|(id, _)| *id).collect();
        assert_eq!(valkey.members(&index.candidates(cell)), expected);
    }
}

#[test]
fn registering_keeps_other_mocs() {
    let mut valkey = Valkey::default();
    let mut index = MocIndex::open(6);
    let moc = HpxMoc { depth_max: 8, ranges: vec![pixels(8, 1600)] };
    let wide = HpxMoc { depth_max: 2, ranges: vec![pixels(2, 0)] };
    valkey.register(&mut index, "a", &moc, 60);
    valkey.register(&mut index, "b", &wide, 60);
    valkey.register(&mut index, "a", &moc, 60);
    let hits = valkey.lookup(&mut index, pixels(8, 1600).start).unwrap();
    assert_eq!(ids(&hits), vec!["a", "b"]);
}

#[test]
fn lookups_by_sky_position() {
    let hash = |depth: u8, (ra, dec): (f64, f64)| {
        cdshealpix::nested::get(depth).hash(ra.to_radians(), dec.to_radians())
    };
    let mut valkey = Valkey::default();
    let mut index = MocIndex::open(DEFAULT_INDEX_DEPTH);
    let inside = [(120.0, 30.0), (213.04, 60.91), (0.0, -90.0), (359.9, 0.0)];
    for (i, position) in inside.iter().enumerate() {
        let cell = hash(10, *position);
        let moc = HpxMoc { depth_max: 10, ranges: vec![pixels(10, cell)] };
        assert_eq!(valkey.register(&mut index, &format!("moc{}", i), &moc, 60), 1);
    }
    for (i, position) in inside.iter().enumerate() {
        let pixel = hash(29, *position);
        for depth in 0..29 {
            assert_eq!(hash(depth, *position), cell_of(pixel, depth));
        }
        let hits = valkey.lookup(&mut index, pixel).unwrap();
        assert_eq!(ids(&hits), vec![format!("moc{}", i)]);
    }
    assert!(valkey.lookup(&mut index, hash(29, (45.0, 45.0))).unwrap().is_empty());
}
