//! Meta-MOC inverted index in Valkey.
//!
//! For each registered MOC Valkey holds three things:
//!
//! - Per-cell sets (`mocidx:cell:{depth}:{cell}`, a set of MOC ids): the inverted index. Given an
//!   alert's HEALPix cell at the index depth, its members are the MOCs that touch that cell.
//! - Per-MOC FITS (`mocidx:fits:{moc_id}`, bytes): the full MOC, for the precise check.
//! - Per-MOC metadata (`mocidx:meta:{moc_id}`, JSON).
//!
//! A MOC's own keys are written with its validity window as their time to live, so that an expired
//! skymap falls out by itself: without its FITS bytes it is no hit. A cell set lives as long as the
//! longest-lived MOC in it.
use crate::cache::{CacheView, MocCache, ParsedMoc, ParsedView};
use crate::fits::same_bytes;
use crate::healpix::MAX_DEPTH;
use crate::hpx_moc::{degraded_cells_at_depth, moc_from_fits_bytes, HpxMoc, MocError, MocView};
use crate::keys;
use crate::store::{Command, CommandView, Entry, Store, Held};
use std::sync::Arc;
use vstd::prelude::*;
use vstd::slice::slice_to_vec;
#[allow(unused_imports)]
use vstd::string::*;

verus! {

/// Default meta-index depth.
pub const DEFAULT_INDEX_DEPTH: u8 = 6;

/// How many parsed MOCs an index keeps in process by default.
pub const DEFAULT_CACHE_SIZE: usize = 1024;

/// Metadata stored alongside each registered MOC.
#[derive(Debug, Clone)]
pub struct MocMetadata {
    /// MOC source (e.g. "LVK", "Fermi-GBM", "IceCube", "Swift-BAT").
    pub source: String,
    /// Trigger time as ISO-8601 UTC.
    pub trigger_time: String,
    /// Credible level used (e.g. 0.95 for the 95% region), as the bits of a 64-bit float.
    pub credible_level: u64,
    /// Validity window in seconds.
    pub validity_seconds: u64,
    /// Sky coverage as a fraction (0..1), as the bits of a 64-bit float.
    pub coverage_fraction: u64,
    /// MOC's native max depth.
    pub native_depth: u8,
}

/// Metadata, over text.
#[verifier::ext_equal]
pub struct MetadataView {
    pub source: Seq<char>,
    pub trigger_time: Seq<char>,
    pub credible_level: u64,
    pub validity_seconds: u64,
    pub coverage_fraction: u64,
    pub native_depth: u8,
}

impl View for MocMetadata {
    type V = MetadataView;

    open spec fn view(&self) -> MetadataView {
        MetadataView {
            source: self.source@,
            trigger_time: self.trigger_time@,
            credible_level: self.credible_level,
            validity_seconds: self.validity_seconds,
            coverage_fraction: self.coverage_fraction,
            native_depth: self.native_depth,
        }
    }
}

/// Meta-index of HEALPix MOCs in Valkey: its depth, and the parsed MOCs kept in process.
pub struct MocIndex {
    depth: u8,
    moc_cache: MocCache,
}

/// An index, over views.
#[verifier::ext_equal]
pub struct IndexView {
    pub depth: u8,
    pub cache: CacheView,
}

impl View for MocIndex {
    type V = IndexView;

    closed spec fn view(&self) -> IndexView {
        IndexView { depth: self.depth, cache: self.moc_cache@ }
    }
}

impl IndexView {
    /// What every index keeps: its cache does what a cache of parsed MOCs does.
    pub open spec fn well_formed(self) -> bool {
        is_parsed(self.cache)
    }
}

/// Whether there is room in a cache, and every MOC in it is what its FITS bytes hold.
pub open spec fn is_parsed(cache: CacheView) -> bool {
    &&& cache.capacity > 0
    &&& forall|moc_id: Seq<char>|
        (#[trigger] cache.get(moc_id)) matches Some(parsed) ==> crate::hpx_moc::moc_in_fits(
            parsed.fits_bytes,
        ) == Some(parsed.moc)
}

/// Asking for a MOC, putting in what bytes hold, and dropping a MOC leave a cache one of parsed
/// MOCs.
pub proof fn lemma_stays_parsed(cache: CacheView, moc_id: Seq<char>, parsed: ParsedView)
    requires
        is_parsed(cache),
    ensures
        is_parsed(cache.touch(moc_id)),
        is_parsed(cache.without(moc_id)),
        crate::hpx_moc::moc_in_fits(parsed.fits_bytes) == Some(parsed.moc) ==> is_parsed(
            cache.load(moc_id, parsed),
        ),
{
    let asked = cache.touch(moc_id);
    assert forall|other: Seq<char>| #[trigger] asked.get(other) == cache.get(other) by {
        crate::cache::law_asking_keeps_the_cache(cache, moc_id, other);
    }
    assert forall|other: Seq<char>| (#[trigger] cache.without(moc_id).get(other)) is Some implies
        cache.without(moc_id).get(other) == cache.get(other) by {
        crate::cache::law_dropping_keeps_the_others(cache, moc_id, other);
    }
    assert forall|other: Seq<char>| (#[trigger] asked.put(moc_id, parsed).get(other)) is Some implies
        asked.put(moc_id, parsed).get(other) == if other == moc_id {
        Some(parsed)
    } else {
        cache.get(other)
    } by {
        crate::cache::law_cache_gives_back(asked, moc_id, parsed, other);
    }
}

/// What there is to write for a MOC, and into how many cell sets. The commands are sent in this
/// order; where Valkey refuses one, such as for a validity window of zero, the rest is not sent.
#[derive(Debug)]
pub struct Registration {
    pub commands: Vec<Command>,
    pub n_cells: usize,
}

/// The commands that add `moc_id` to the sets of these cells.
pub open spec fn cell_commands(
    depth: u8,
    moc_id: Seq<char>,
    cells: Seq<u64>,
    ttl: u64,
) -> Seq<CommandView>
    decreases cells.len(),
{
    if cells.len() == 0 {
        Seq::empty()
    } else {
        let key = keys::cell_key_text(depth, cells.last());
        cell_commands(depth, moc_id, cells.drop_last(), ttl).push(
            CommandView::AddMember { key, member: moc_id },
        ).push(CommandView::Extend { key, seconds: ttl as i64 })
    }
}

/// The commands that set a MOC's own two keys.
pub open spec fn moc_commands(
    moc_id: Seq<char>,
    fits_bytes: Seq<u8>,
    metadata_json: Seq<u8>,
    ttl: u64,
) -> Seq<CommandView> {
    seq![
        CommandView::SetEx { key: keys::fits_key_text(moc_id), value: fits_bytes, ttl },
        CommandView::SetEx { key: keys::meta_key_text(moc_id), value: metadata_json, ttl },
    ]
}

/// The commands that register a MOC: its FITS bytes, its metadata, then one cell after the other.
pub open spec fn registration_commands(
    depth: u8,
    moc_id: Seq<char>,
    cells: Seq<u64>,
    fits_bytes: Seq<u8>,
    metadata_json: Seq<u8>,
    ttl: u64,
) -> Seq<CommandView> {
    moc_commands(moc_id, fits_bytes, metadata_json, ttl) + cell_commands(
        depth,
        moc_id,
        cells,
        ttl,
    )
}

impl MocIndex {
    /// An index of the given depth, with the default cache size; change that with
    /// [`Self::with_cache_size`].
    pub fn open(depth: u8) -> (res: MocIndex)
        ensures
            res@.depth == depth,
            res@.cache.capacity == 1024,
            res@.cache == (CacheView {
                capacity: DEFAULT_CACHE_SIZE as nat,
                entries: Seq::empty(),
            }),
            res@.well_formed(),
    {
        MocIndex { depth, moc_cache: MocCache::new(DEFAULT_CACHE_SIZE) }
    }

    /// The index with an empty cache of the given size, at least one.
    pub fn with_cache_size(self, cap: usize) -> (res: MocIndex)
        requires
            cap <= usize::MAX / 128,
        ensures
            res@.depth == self@.depth,
            res@.cache == (CacheView {
                capacity: if cap == 0 {
                    1
                } else {
                    cap as nat
                },
                entries: Seq::empty(),
            }),
            res@.well_formed(),
    {
        let cap: usize = if cap == 0 {
            1
        } else {
            cap
        };
        MocIndex { depth: self.depth, moc_cache: MocCache::new(cap) }
    }

    /// The HEALPix depth of the index.
    pub fn depth(&self) -> (res: u8)
        ensures
            res == self@.depth,
    {
        self.depth
    }

    /// The key of the set of MOC ids that touch a cell of the index depth.
    pub fn cell_key(&self, cell: u64) -> (res: String)
        ensures
            res@ == keys::cell_key_text(self@.depth, cell),
    {
        keys::cell_key(self.depth, cell)
    }

    /// Registers a MOC in the index: plans what to write.
    ///
    /// - The full MOC FITS bytes under `mocidx:fits:{moc_id}` with TTL
    /// - The metadata JSON under `mocidx:meta:{moc_id}` with TTL
    /// - One `SADD` per touched cell into `mocidx:cell:{depth}:{cell}` (each set also TTL'd to
    ///   live at least as long as the MOC)
    ///
    /// The MOC kept in process under this id, if any, is replaced and therefore dropped.
    pub fn register(
        &mut self,
        moc_id: &str,
        moc: &HpxMoc,
        fits_bytes: &[u8],
        metadata: &MocMetadata,
        metadata_json: &[u8],
    ) -> (res: Registration)
        requires
            moc@.consistent(),
            old(self)@.depth <= MAX_DEPTH,
        ensures
            crate::store::command_views(res.commands@) == registration_commands(
                old(self)@.depth,
                moc_id@,
                moc@.touched_cells(old(self)@.depth),
                fits_bytes@,
                metadata_json@,
                metadata.validity_seconds,
            ),
            res.n_cells == moc@.touched_cells(old(self)@.depth).len(),
            final(self)@.depth == old(self)@.depth,
            final(self)@.cache == old(self)@.cache.without(moc_id@),
            final(self)@.cache.get(moc_id@) is None,
            forall|other: Seq<char>|
                other != moc_id@ ==> #[trigger] final(self)@.cache.get(other) == old(
                    self,
                )@.cache.get(other),
            old(self)@.well_formed() ==> final(self)@.well_formed(),
    {
        self.drop_moc(moc_id);
        let cells: Vec<u64> = degraded_cells_at_depth(moc, self.depth);
        let ttl: u64 = metadata.validity_seconds;
        let mut commands: Vec<Command> = Vec::new();
        commands.push(
            Command::SetEx {
                key: keys::fits_key(moc_id),
                value: slice_to_vec(fits_bytes),
                ttl,
            },
        );
        commands.push(
            Command::SetEx {
                key: keys::meta_key(moc_id),
                value: slice_to_vec(metadata_json),
                ttl,
            },
        );
        let mut i: usize = 0;
        assert(crate::store::command_views(commands@) =~= moc_commands(
            moc_id@,
            fits_bytes@,
            metadata_json@,
            ttl,
        ) + cell_commands(self@.depth, moc_id@, cells@.take(0), ttl));
        while i < cells.len()
            invariant
                i <= cells.len(),
                self@.depth == old(self)@.depth,
                crate::store::command_views(commands@) == moc_commands(
                    moc_id@,
                    fits_bytes@,
                    metadata_json@,
                    ttl,
                ) + cell_commands(self@.depth, moc_id@, cells@.take(i as int), ttl),
            decreases cells.len() - i,
        {
            let ghost before = commands@;
            commands.push(
                Command::AddMember { key: self.cell_key(cells[i]), member: moc_id.to_owned() },
            );
            commands.push(
                Command::Extend {
                    key: self.cell_key(cells[i]),
                    seconds: #[verifier::truncate] (ttl as i64),
                },
            );
            proof {
                assert(cells@.take(i + 1).drop_last() =~= cells@.take(i as int));
                assert(crate::store::command_views(commands@) =~= crate::store::command_views(
                    before,
                ).push(commands@[before.len() as int]@).push(commands@[before.len() as int + 1]@));
                assert(crate::store::command_views(commands@) =~= moc_commands(
                    moc_id@,
                    fits_bytes@,
                    metadata_json@,
                    ttl,
                ) + cell_commands(self@.depth, moc_id@, cells@.take(i + 1), ttl));
            }
            i += 1;
        }
        assert(cells@.take(i as int) =~= cells@);
        Registration { commands, n_cells: cells.len() }
    }

    /// The parsed MOC of this id, if it is kept in process.
    pub fn get_moc(&mut self, moc_id: &str) -> (res: Option<Arc<HpxMoc>>)
        ensures
            match res {
                Some(moc) => old(self)@.cache.get(moc_id@) matches Some(parsed) && parsed.moc
                    == moc@,
                None => old(self)@.cache.get(moc_id@) is None,
            },
            final(self)@.depth == old(self)@.depth,
            final(self)@.cache == old(self)@.cache.touch(moc_id@),
            old(self)@.well_formed() ==> final(self)@.well_formed(),
    {
        proof {
            if self@.well_formed() {
                lemma_stays_parsed(
                    self@.cache,
                    moc_id@,
                    ParsedView {
                        fits_bytes: Seq::empty(),
                        moc: MocView { depth_max: 0, ranges: Seq::empty() },
                    },
                );
            }
        }
        match self.moc_cache.get(moc_id) {
            Some(parsed) => Some(parsed.moc.clone()),
            None => None,
        }
    }

    /// The MOC that the FITS bytes stored under this id hold. It is parsed, and kept in process,
    /// where it is not kept already as parsed from these same bytes.
    pub fn load_moc(&mut self, moc_id: &str, bytes: &[u8]) -> (res: Result<Arc<HpxMoc>, MocError>)
        requires
            old(self)@.well_formed(),
        ensures
            match res {
                Ok(moc) => {
                    &&& crate::hpx_moc::moc_in_fits(bytes@) == Some(moc@)
                    &&& moc@.depth_max <= MAX_DEPTH
                    &&& final(self)@.cache == old(self)@.cache.load(
                        moc_id@,
                        ParsedView { fits_bytes: bytes@, moc: moc@ },
                    )
                },
                Err(e) => {
                    &&& crate::hpx_moc::moc_in_fits(bytes@) is None
                    &&& e.refuses(bytes@)
                    &&& final(self)@.cache == old(self)@.cache.touch(moc_id@)
                },
            },
            final(self)@.depth == old(self)@.depth,
            final(self)@.well_formed(),
    {
        let ghost before = self@.cache;
        proof {
            lemma_stays_parsed(
                before,
                moc_id@,
                ParsedView {
                    fits_bytes: bytes@,
                    moc: crate::hpx_moc::moc_in_fits(bytes@).unwrap(),
                },
            );
        }
        if let Some(parsed) = self.moc_cache.get(moc_id) {
            if same_bytes(parsed.fits_bytes.as_slice(), bytes) {
                return Ok(parsed.moc.clone());
            }
        }
        match moc_from_fits_bytes(bytes) {
            Ok(moc) => {
                let moc: Arc<HpxMoc> = Arc::new(moc);
                let parsed: ParsedMoc = ParsedMoc {
                    fits_bytes: slice_to_vec(bytes),
                    moc: moc.clone(),
                };
                self.moc_cache.put(moc_id, Arc::new(parsed));
                Ok(moc)
            },
            Err(e) => Err(e),
        }
    }

    /// Drops the parsed MOC of this id, if it is kept in process.
    pub fn drop_moc(&mut self, moc_id: &str)
        ensures
            final(self)@.depth == old(self)@.depth,
            final(self)@.cache == old(self)@.cache.without(moc_id@),
            forall|other: Seq<char>| #[trigger]
                final(self)@.cache.get(other) == if other == moc_id@ {
                    None
                } else {
                    old(self)@.cache.get(other)
                },
            old(self)@.well_formed() ==> final(self)@.well_formed(),
    {
        proof {
            assert forall|other: Seq<char>| #[trigger]
                self@.cache.without(moc_id@).get(other) == if other == moc_id@ {
                    None
                } else {
                    self@.cache.get(other)
                } by {
                crate::cache::law_dropping_keeps_the_others(self@.cache, moc_id@, other);
            }
        }
        self.moc_cache.remove(moc_id);
    }

    /// Where the coarse candidates for a position are: the set whose members are the MOCs that
    /// touch the position's cell at the index depth.
    pub fn candidates(&self, cell: u64) -> (res: String)
        ensures
            res@ == keys::cell_key_text(self@.depth, cell),
    {
        self.cell_key(cell)
    }

    /// Where only the candidate ids are, for a lookup without the precise check.
    pub fn lookup_candidates_only(&self, cell: u64) -> (res: String)
        ensures
            res@ == keys::cell_key_text(self@.depth, cell),
    {
        self.candidates(cell)
    }

    /// Drops all keys of the index, given the keys that match the pattern of [`keys::all_keys`]. There
    /// is nothing to send where there is no such key.
    pub fn flush_all(&self, keys: Vec<String>) -> (res: Option<Command>)
        ensures
            match res {
                Some(command) => keys.len() > 0 && command@ == (CommandView::Delete {
                    keys: crate::store::texts(keys@),
                }),
                None => keys.len() == 0,
            },
    {
        if keys.len() == 0 {
            None
        } else {
            Some(Command::Delete { keys })
        }
    }
}

/// Whether `key` is the key of one of these cells.
pub open spec fn is_cell_key(depth: u8, cells: Seq<u64>, key: Seq<char>) -> bool {
    exists|cell: u64| #[trigger]
        cells.contains(cell) && key == keys::cell_key_text(depth, cell)
}

/// What the commands for the cells do to a store: the set of every cell gains the id and lives at
/// least as long as the MOC, and no other key changes.
proof fn lemma_cell_commands(
    store: Store,
    now: int,
    depth: u8,
    moc_id: Seq<char>,
    cells: Seq<u64>,
    ttl: u64,
)
    requires
        store.cells_hold_ids(),
        crate::store::is_ttl(ttl as int, now),
    ensures
        ({
            let after = store.apply_all(cell_commands(depth, moc_id, cells, ttl), now);
            forall|key: Seq<char>|
                #![trigger after.entries[key]]
                #![trigger after.entries.contains_key(key)]
                if is_cell_key(depth, cells, key) {
                    &&& after.entries.contains_key(key)
                    &&& after.entries[key] == (Entry {
                        value: Held::Ids(store.members(key, now).insert(moc_id)),
                        expires: Some(store.extended(key, now, now + 1000 * ttl)),
                    })
                } else {
                    &&& after.entries.contains_key(key) == store.entries.contains_key(key)
                    &&& after.entries[key] == store.entries[key]
                }
        }),
    decreases cells.len(),
{
    if cells.len() > 0 {
        let last = cells.last();
        let key = keys::cell_key_text(depth, last);
        let commands = cell_commands(depth, moc_id, cells, ttl);
        let rest = cells.drop_last();
        let before = cell_commands(depth, moc_id, rest, ttl);
        lemma_cell_commands(store, now, depth, moc_id, rest, ttl);
        let s0 = store.apply_all(before, now);
        let add = CommandView::AddMember { key, member: moc_id };
        let extend = CommandView::Extend { key, seconds: ttl as i64 };
        let s1 = s0.apply(add, now);
        let s2 = s1.apply(extend, now);
        assert(commands.drop_last() =~= before.push(add));
        assert(before.push(add).drop_last() =~= before);
        assert(store.apply_all(before.push(add), now) == s1);
        assert(store.apply_all(commands, now) == s2);
        assert(cells.contains(last));
        assert(is_cell_key(depth, cells, key));
        assert(store.entries.contains_key(key) ==> store.entries[key].value is Ids);
        let gained = store.members(key, now).insert(moc_id);
        assert(s1.live(key, now) && s1.entries[key].value == Held::Ids(gained)) by {
            assert(s0.entries.contains_key(key) || !is_cell_key(depth, rest, key));
            assert(gained.insert(moc_id) =~= gained);
            assert(Set::<Seq<char>>::empty().insert(moc_id) =~= set![moc_id]);
        }
        assert(s1.extended(key, now, now + 1000 * ttl) == store.extended(
            key,
            now,
            now + 1000 * ttl,
        ));
        assert forall|other: Seq<char>| other != key implies is_cell_key(depth, cells, other)
            == is_cell_key(depth, rest, other) by {
            if is_cell_key(depth, cells, other) {
                let cell = choose|cell: u64| #[trigger]
                    cells.contains(cell) && other == keys::cell_key_text(depth, cell);
                let i = choose|i: int| 0 <= i < cells.len() && cells[i] == cell;
                assert(rest[i] == cell);
                assert(rest.contains(cell));
            }
            if is_cell_key(depth, rest, other) {
                let cell = choose|cell: u64| #[trigger]
                    rest.contains(cell) && other == keys::cell_key_text(depth, cell);
                let i = choose|i: int| 0 <= i < rest.len() && rest[i] == cell;
                assert(cells[i] == cell);
                assert(cells.contains(cell));
            }
        }
    } else {
        assert forall|key: Seq<char>| !is_cell_key(depth, cells, key) by {}
    }
}

/// What a registration writes, and that it writes nothing else: the MOC's FITS bytes and its
/// metadata, which expire with its validity window, and its id into the set of every touched cell,
/// next to the ids that were there. Such a set expires with the window too, or when it did before
/// where that is later.
pub proof fn law_registration_effect(
    store: Store,
    now: int,
    depth: u8,
    moc_id: Seq<char>,
    cells: Seq<u64>,
    fits_bytes: Seq<u8>,
    metadata_json: Seq<u8>,
    ttl: u64,
)
    requires
        store.cells_hold_ids(),
        crate::store::is_ttl(ttl as int, now),
    ensures
        ({
            let after = store.apply_all(
                registration_commands(depth, moc_id, cells, fits_bytes, metadata_json, ttl),
                now,
            );
            &&& after.entries.contains_key(keys::fits_key_text(moc_id))
            &&& after.entries[keys::fits_key_text(moc_id)] == (Entry {
                value: Held::Bytes(fits_bytes),
                expires: Some(now + 1000 * ttl),
            })
            &&& after.entries.contains_key(keys::meta_key_text(moc_id))
            &&& after.entries[keys::meta_key_text(moc_id)] == (Entry {
                value: Held::Bytes(metadata_json),
                expires: Some(now + 1000 * ttl),
            })
            &&& forall|cell: u64| #[trigger]
                cells.contains(cell) ==> {
                    let key = keys::cell_key_text(depth, cell);
                    &&& after.entries.contains_key(key)
                    &&& after.entries[key] == (Entry {
                        value: Held::Ids(store.members(key, now).insert(moc_id)),
                        expires: Some(store.extended(key, now, now + 1000 * ttl)),
                    })
                }
            &&& forall|key: Seq<char>|
                #![trigger after.entries[key]]
                #![trigger after.entries.contains_key(key)]
                key != keys::fits_key_text(moc_id) && key != keys::meta_key_text(moc_id)
                    && !is_cell_key(depth, cells, key) ==> {
                    &&& after.entries.contains_key(key) == store.entries.contains_key(key)
                    &&& after.entries[key] == store.entries[key]
                }
            &&& after.cells_hold_ids()
        }),
{
    let first = moc_commands(moc_id, fits_bytes, metadata_json, ttl);
    let second = cell_commands(depth, moc_id, cells, ttl);
    let (fits_key, meta_key) = (keys::fits_key_text(moc_id), keys::meta_key_text(moc_id));
    let half = store.apply_all(first, now);
    crate::store::lemma_apply_all_concat(store, first, second, now);
    assert(first.drop_last() =~= seq![first[0]]);
    assert(seq![first[0]].drop_last() =~= Seq::<CommandView>::empty());
    reveal_with_fuel(Store::apply_all, 3);
    assert(half == store.apply(first[0], now).apply(first[1], now));
    assert forall|d: u8, cell: u64| #[trigger]
        half.entries.contains_key(keys::cell_key_text(d, cell)) implies half.entries[keys::cell_key_text(
        d,
        cell,
    )].value is Ids && half.entries[keys::cell_key_text(d, cell)].expires is Some by {
        keys::law_key_families_are_disjoint(d, cell, moc_id, moc_id);
    }
    keys::law_key_families_are_disjoint(depth, 0, moc_id, moc_id);
    lemma_cell_commands(half, now, depth, moc_id, cells, ttl);
    let after = half.apply_all(second, now);
    assert forall|cell: u64| #[trigger] cells.contains(cell) implies half.members(
        keys::cell_key_text(depth, cell),
        now,
    ) == store.members(keys::cell_key_text(depth, cell), now) && half.extended(
        keys::cell_key_text(depth, cell),
        now,
        now + 1000 * ttl,
    ) == store.extended(keys::cell_key_text(depth, cell), now, now + 1000 * ttl) && is_cell_key(
        depth,
        cells,
        keys::cell_key_text(depth, cell),
    ) by {
        keys::law_key_families_are_disjoint(depth, cell, moc_id, moc_id);
    }
    assert(!is_cell_key(depth, cells, fits_key) && !is_cell_key(depth, cells, meta_key)) by {
        assert forall|cell: u64| keys::cell_key_text(depth, cell) != fits_key
            && keys::cell_key_text(depth, cell) != meta_key by {
            keys::law_key_families_are_disjoint(depth, cell, moc_id, moc_id);
        }
    }
    assert forall|d: u8, cell: u64| #[trigger]
        after.entries.contains_key(keys::cell_key_text(d, cell)) implies after.entries[keys::cell_key_text(
        d,
        cell,
    )].value is Ids && after.entries[keys::cell_key_text(d, cell)].expires is Some by {
        assert(half.entries.contains_key(keys::cell_key_text(d, cell))
            ==> half.entries[keys::cell_key_text(d, cell)].value is Ids && half.entries[keys::cell_key_text(
            d,
            cell,
        )].expires is Some);
    }
}

/// Until its validity window ends, a registered MOC is a candidate for exactly the cells that it
/// touches, besides those where it was one before. Its FITS bytes and metadata are there, and the
/// candidates of its cells are those from before, and itself.
pub proof fn law_registered_until_expiry(
    store: Store,
    now: int,
    later: int,
    depth: u8,
    moc_id: Seq<char>,
    moc: MocView,
    fits_bytes: Seq<u8>,
    metadata_json: Seq<u8>,
    ttl: u64,
)
    requires
        store.cells_hold_ids(),
        crate::store::is_ttl(ttl as int, now),
        now <= later < now + 1000 * ttl,
        moc.consistent(),
        depth <= MAX_DEPTH,
    ensures
        ({
            let cells = moc.touched_cells(depth);
            let after = store.apply_all(
                registration_commands(depth, moc_id, cells, fits_bytes, metadata_json, ttl),
                now,
            );
            &&& after.bytes(keys::fits_key_text(moc_id), later) == Some(fits_bytes)
            &&& after.bytes(keys::meta_key_text(moc_id), later) == Some(metadata_json)
            &&& forall|cell: u64|
                #![trigger keys::cell_key_text(depth, cell)]
                after.members(keys::cell_key_text(depth, cell), later) == if moc.touches(
                    depth,
                    cell as int,
                ) {
                    store.members(keys::cell_key_text(depth, cell), now).insert(moc_id)
                } else {
                    store.members(keys::cell_key_text(depth, cell), later)
                }
        }),
{
    let cells = moc.touched_cells(depth);
    let after = store.apply_all(
        registration_commands(depth, moc_id, cells, fits_bytes, metadata_json, ttl),
        now,
    );
    law_registration_effect(
        store,
        now,
        depth,
        moc_id,
        cells,
        fits_bytes,
        metadata_json,
        ttl,
    );
    crate::hpx_moc::lemma_touched_cells_listed(moc, depth);
    assert forall|cell: u64|
        #![trigger keys::cell_key_text(depth, cell)]
        after.members(keys::cell_key_text(depth, cell), later) == if moc.touches(
            depth,
            cell as int,
        ) {
            store.members(keys::cell_key_text(depth, cell), now).insert(moc_id)
        } else {
            store.members(keys::cell_key_text(depth, cell), later)
        } by {
        let key = keys::cell_key_text(depth, cell);
        if !moc.touches(depth, cell as int) {
            lemma_other_cell(depth, cells, cell);
            keys::law_key_families_are_disjoint(depth, cell, moc_id, moc_id);
            assert(after.entries.contains_key(key) == store.entries.contains_key(key));
        } else {
            assert(cells.contains(cell));
        }
    }
}

/// A cell that is not among `cells` does not have the key of one of them.
pub proof fn lemma_other_cell(depth: u8, cells: Seq<u64>, cell: u64)
    requires
        !cells.contains(cell),
    ensures
        !is_cell_key(depth, cells, keys::cell_key_text(depth, cell)),
{
    if is_cell_key(depth, cells, keys::cell_key_text(depth, cell)) {
        let other = choose|other: u64| #[trigger]
            cells.contains(other) && keys::cell_key_text(depth, cell) == keys::cell_key_text(
                depth,
                other,
            );
        keys::law_cell_keys_are_distinct(depth, cell, depth, other);
    }
}

/// Registering a MOC keeps the others: at every later time each other MOC is a candidate wherever it
/// would be one without it, and the other MOCs' FITS bytes and metadata are what they would be.
pub proof fn law_registration_keeps_other_mocs(
    store: Store,
    now: int,
    later: int,
    depth: u8,
    moc_id: Seq<char>,
    moc: MocView,
    fits_bytes: Seq<u8>,
    metadata_json: Seq<u8>,
    ttl: u64,
    other: Seq<char>,
)
    requires
        store.cells_hold_ids(),
        crate::store::is_ttl(ttl as int, now),
        now <= later,
        moc.consistent(),
        depth <= MAX_DEPTH,
        other != moc_id,
    ensures
        ({
            let after = store.apply_all(
                registration_commands(
                    depth,
                    moc_id,
                    moc.touched_cells(depth),
                    fits_bytes,
                    metadata_json,
                    ttl,
                ),
                now,
            );
            &&& forall|cell: u64|
                (#[trigger] store.members(keys::cell_key_text(depth, cell), later)).contains(other)
                    ==> after.members(keys::cell_key_text(depth, cell), later).contains(other)
            &&& after.bytes(keys::fits_key_text(other), later) == store.bytes(
                keys::fits_key_text(other),
                later,
            )
            &&& after.bytes(keys::meta_key_text(other), later) == store.bytes(
                keys::meta_key_text(other),
                later,
            )
        }),
{
    let cells = moc.touched_cells(depth);
    let after = store.apply_all(
        registration_commands(depth, moc_id, cells, fits_bytes, metadata_json, ttl),
        now,
    );
    law_registration_effect(store, now, depth, moc_id, cells, fits_bytes, metadata_json, ttl);
    crate::hpx_moc::lemma_touched_cells_listed(moc, depth);
    assert forall|cell: u64|
        (#[trigger] store.members(keys::cell_key_text(depth, cell), later)).contains(
            other,
        ) implies after.members(keys::cell_key_text(depth, cell), later).contains(other) by {
        let key = keys::cell_key_text(depth, cell);
        keys::law_key_families_are_disjoint(depth, cell, moc_id, moc_id);
        if cells.contains(cell) {
            assert(store.members(key, now).contains(other));
        } else {
            lemma_other_cell(depth, cells, cell);
            assert(after.entries.contains_key(key) == store.entries.contains_key(key));
        }
    }
    let (fits_key, meta_key) = (keys::fits_key_text(other), keys::meta_key_text(other));
    assert forall|cell: u64| keys::cell_key_text(depth, cell) != fits_key && keys::cell_key_text(
        depth,
        cell,
    ) != meta_key by {
        keys::law_key_families_are_disjoint(depth, cell, other, other);
    }
    keys::law_key_families_are_disjoint(depth, 0, other, moc_id);
    keys::law_key_families_are_disjoint(depth, 0, moc_id, other);
    if fits_key == keys::fits_key_text(moc_id) || meta_key == keys::meta_key_text(moc_id) {
        keys::law_moc_keys_are_distinct(other, moc_id);
    }
    assert(after.entries.contains_key(fits_key) == store.entries.contains_key(fits_key));
    assert(after.entries.contains_key(meta_key) == store.entries.contains_key(meta_key));
}

/// Flushing drops the whole index and nothing else: after the command for all keys that match the
/// pattern, no key of the index is left, so that no cell has a candidate and no MOC is stored, and
/// every other key is as before.
pub proof fn law_flush_drops_the_index(store: Store, now: int, all: Seq<Seq<char>>)
    requires
        forall|key: Seq<char>| #[trigger]
            all.contains(key) <==> store.entries.contains_key(key) && keys::is_ours(key),
    ensures
        ({
            let after = store.apply(CommandView::Delete { keys: all }, now);
            &&& forall|key: Seq<char>|
                #![trigger after.entries.contains_key(key)]
                if keys::is_ours(key) {
                    !after.entries.contains_key(key)
                } else {
                    &&& after.entries.contains_key(key) == store.entries.contains_key(key)
                    &&& store.entries.contains_key(key) ==> after.entries[key]
                        == store.entries[key]
                }
            &&& after.cells_hold_ids()
            &&& forall|depth: u8, cell: u64, later: int| #[trigger]
                after.members(keys::cell_key_text(depth, cell), later) == Set::<Seq<char>>::empty()
            &&& forall|moc_id: Seq<char>, later: int|
                (#[trigger] after.bytes(keys::fits_key_text(moc_id), later)) is None
            &&& forall|moc_id: Seq<char>, later: int|
                (#[trigger] after.bytes(keys::meta_key_text(moc_id), later)) is None
        }),
{
    let after = store.apply(CommandView::Delete { keys: all }, now);
    assert forall|key: Seq<char>| all.to_set().contains(key) == all.contains(key) by {}
    assert forall|depth: u8, cell: u64|
        !#[trigger] after.entries.contains_key(keys::cell_key_text(depth, cell)) by {
        keys::law_every_key_is_ours(depth, cell, Seq::empty());
    }
    assert forall|moc_id: Seq<char>, later: int|
        (#[trigger] after.bytes(keys::fits_key_text(moc_id), later)) is None by {
        keys::law_every_key_is_ours(0, 0, moc_id);
    }
    assert forall|moc_id: Seq<char>, later: int|
        (#[trigger] after.bytes(keys::meta_key_text(moc_id), later)) is None by {
        keys::law_every_key_is_ours(0, 0, moc_id);
    }
}

/// The commands of a registration, one by one: the FITS bytes and the metadata under the MOC's own
/// keys with the validity window as their time to live, then for each cell in turn the id into the
/// set of that cell, and the life of that set.
pub proof fn law_registration_is_planned_in_order(
    depth: u8,
    moc_id: Seq<char>,
    cells: Seq<u64>,
    fits_bytes: Seq<u8>,
    metadata_json: Seq<u8>,
    ttl: u64,
    i: int,
)
    ensures
        ({
            let commands = registration_commands(
                depth,
                moc_id,
                cells,
                fits_bytes,
                metadata_json,
                ttl,
            );
            &&& commands.len() == 2 + 2 * cells.len()
            &&& commands[0] == (CommandView::SetEx {
                key: "mocidx:fits:"@ + moc_id,
                value: fits_bytes,
                ttl,
            })
            &&& commands[1] == (CommandView::SetEx {
                key: "mocidx:meta:"@ + moc_id,
                value: metadata_json,
                ttl,
            })
            &&& 0 <= i < cells.len() ==> commands[2 + 2 * i] == (CommandView::AddMember {
                key: keys::cell_key_text(depth, cells[i]),
                member: moc_id,
            })
            &&& 0 <= i < cells.len() ==> commands[3 + 2 * i] == (CommandView::Extend {
                key: keys::cell_key_text(depth, cells[i]),
                seconds: ttl as i64,
            })
        }),
{
    lemma_cell_commands_in_order(depth, moc_id, cells, ttl, i);
}

proof fn lemma_cell_commands_in_order(
    depth: u8,
    moc_id: Seq<char>,
    cells: Seq<u64>,
    ttl: u64,
    i: int,
)
    ensures
        ({
            let commands = cell_commands(depth, moc_id, cells, ttl);
            &&& commands.len() == 2 * cells.len()
            &&& 0 <= i < cells.len() ==> commands[2 * i] == (CommandView::AddMember {
                key: keys::cell_key_text(depth, cells[i]),
                member: moc_id,
            })
            &&& 0 <= i < cells.len() ==> commands[2 * i + 1] == (CommandView::Extend {
                key: keys::cell_key_text(depth, cells[i]),
                seconds: ttl as i64,
            })
        }),
    decreases cells.len(),
{
    if cells.len() > 0 {
        lemma_cell_commands_in_order(depth, moc_id, cells.drop_last(), ttl, i);
    }
}

/// Metadata is viewed field by field, and the defaults are those that are documented.
pub proof fn law_metadata_is_viewed_by_field(metadata: MocMetadata)
    ensures
        metadata@.source == metadata.source@,
        metadata@.trigger_time == metadata.trigger_time@,
        metadata@.credible_level == metadata.credible_level,
        metadata@.validity_seconds == metadata.validity_seconds,
        metadata@.coverage_fraction == metadata.coverage_fraction,
        metadata@.native_depth == metadata.native_depth,
        DEFAULT_INDEX_DEPTH == 6,
        DEFAULT_CACHE_SIZE == 1024,
{
}

} // verus!
