//! What the index answers after any history of registrations.
use crate::cache::CacheView;
use crate::healpix::MAX_DEPTH;
use crate::hpx_moc::MocView;
use crate::index::MetadataView;
use crate::keys;
use crate::lookup::{HitView, LookupView, Oracle, QuestionView, World};
use crate::store::{CommandView, Entry, Held, Store};
#[allow(unused_imports)]
use vstd::arithmetic::power2::*;
use vstd::prelude::*;

verus! {

/// A MOC that was registered, with the time of that, in milliseconds.
pub struct Registered {
    pub at: int,
    pub moc_id: Seq<char>,
    pub moc: MocView,
    pub fits_bytes: Seq<u8>,
    pub metadata_json: Seq<u8>,
    pub ttl: u64,
}

impl Registered {
    /// What can be registered: a consistent MOC, with FITS bytes that hold it and a validity window
    /// that Valkey accepts.
    pub open spec fn is_valid(self) -> bool {
        &&& crate::store::is_ttl(self.ttl as int, self.at)
        &&& self.moc.consistent()
        &&& crate::hpx_moc::moc_in_fits(self.fits_bytes) == Some(self.moc)
    }

    /// When the validity window ends.
    pub open spec fn deadline(self) -> int {
        self.at + 1000 * self.ttl
    }

    /// The commands of the registration.
    pub open spec fn commands(self, depth: u8) -> Seq<CommandView> {
        crate::index::registration_commands(
            depth,
            self.moc_id,
            self.moc.touched_cells(depth),
            self.fits_bytes,
            self.metadata_json,
            self.ttl,
        )
    }

    /// Whether the MOC contains the position in `pixel`.
    pub open spec fn contains(self, pixel: int) -> bool {
        self.moc.contains(self.moc.depth_max, crate::healpix::cell_of(pixel, self.moc.depth_max))
    }
}

/// Whether these are valid registrations, one after the other.
pub open spec fn is_history(history: Seq<Registered>) -> bool {
    &&& forall|i: int| 0 <= i < history.len() ==> (#[trigger] history[i]).is_valid()
    &&& forall|i: int, j: int|
        0 <= i < j < history.len() ==> (#[trigger] history[i]).at <= (#[trigger] history[j]).at
}

/// Whether all of this has happened by the time `now`.
pub open spec fn is_past(history: Seq<Registered>, now: int) -> bool {
    forall|i: int| 0 <= i < history.len() ==> (#[trigger] history[i]).at <= now
}

/// Whether a store holds no key of the index, as after a flush.
pub open spec fn is_blank(store: Store) -> bool {
    forall|key: Seq<char>| #[trigger] store.entries.contains_key(key) ==> !keys::is_ours(key)
}

/// The store after these registrations.
pub open spec fn store_after(base: Store, depth: u8, history: Seq<Registered>) -> Store
    decreases history.len(),
{
    if history.len() == 0 {
        base
    } else {
        store_after(base, depth, history.drop_last()).apply_all(
            history.last().commands(depth),
            history.last().at,
        )
    }
}

/// The last registration of an id, if any.
pub open spec fn last_of(history: Seq<Registered>, moc_id: Seq<char>) -> Option<Registered>
    decreases history.len(),
{
    if history.len() == 0 {
        None
    } else if history.last().moc_id == moc_id {
        Some(history.last())
    } else {
        last_of(history.drop_last(), moc_id)
    }
}

/// The registration that is in force for an id at time `now`: its last one, until that expires.
pub open spec fn in_force(history: Seq<Registered>, moc_id: Seq<char>, now: int) -> Option<
    Registered,
> {
    match last_of(history, moc_id) {
        Some(registered) if now < registered.deadline() => Some(registered),
        _ => None,
    }
}

/// Whether a registration has put its id into the set of this cell.
pub open spec fn has_touched(
    history: Seq<Registered>,
    i: int,
    depth: u8,
    cell: u64,
    moc_id: Seq<char>,
) -> bool {
    &&& 0 <= i < history.len()
    &&& history[i].moc_id == moc_id
    &&& history[i].moc.touches(depth, cell as int)
}

/// The part of a history before its last registration is a history.
proof fn lemma_before(history: Seq<Registered>)
    requires
        is_history(history),
        history.len() > 0,
    ensures
        is_history(history.drop_last()),
        history.last().is_valid(),
        is_past(history.drop_last(), history.last().at),
{
    let before = history.drop_last();
    assert(history[history.len() - 1].is_valid());
    assert forall|i: int| 0 <= i < before.len() implies (#[trigger] before[i]).is_valid()
        && before[i].at <= history.last().at by {
        assert(before[i] == history[i]);
        assert(history[i].at <= history[history.len() - 1].at);
    }
    assert forall|i: int, j: int| 0 <= i < j < before.len() implies (#[trigger] before[i]).at <= (
    #[trigger] before[j]).at by {
        assert(before[i] == history[i] && before[j] == history[j]);
    }
}

/// The last registration of an id is a valid one of that id.
proof fn lemma_last(history: Seq<Registered>, moc_id: Seq<char>) -> (i: int)
    requires
        is_history(history),
        last_of(history, moc_id) is Some,
    ensures
        0 <= i < history.len(),
        last_of(history, moc_id) == Some(history[i]),
        history[i].moc_id == moc_id,
        history[i].is_valid(),
        forall|j: int| i < j < history.len() ==> (#[trigger] history[j]).moc_id != moc_id,
    decreases history.len(),
{
    lemma_before(history);
    if history.last().moc_id == moc_id {
        history.len() - 1
    } else {
        let before = history.drop_last();
        let i = lemma_last(before, moc_id);
        assert forall|j: int| i < j < history.len() implies (#[trigger] history[j]).moc_id
            != moc_id by {
            if j < before.len() {
                assert(before[j] == history[j]);
            }
        }
        i
    }
}

/// A registration that no later one has the id of is the last of its id.
proof fn lemma_is_last(history: Seq<Registered>, i: int)
    requires
        0 <= i < history.len(),
        forall|j: int|
            i < j < history.len() ==> (#[trigger] history[j]).moc_id != history[i].moc_id,
    ensures
        last_of(history, history[i].moc_id) == Some(history[i]),
    decreases history.len(),
{
    if i < history.len() - 1 {
        let before = history.drop_last();
        assert(history[history.len() - 1].moc_id != history[i].moc_id);
        assert(before[i] == history[i]);
        assert forall|j: int| i < j < before.len() implies (#[trigger] before[j]).moc_id
            != before[i].moc_id by {
            assert(before[j] == history[j]);
        }
        lemma_is_last(before, i);
    }
}

/// What the store holds under a MOC's own keys: the FITS bytes and the metadata of the id's last
/// registration, to expire with that.
proof fn lemma_moc_keys(base: Store, depth: u8, history: Seq<Registered>, moc_id: Seq<char>)
    requires
        is_blank(base),
        is_history(history),
        depth <= MAX_DEPTH,
    ensures
        ({
            let store = store_after(base, depth, history);
            let (fits_key, meta_key) = (keys::fits_key_text(moc_id), keys::meta_key_text(moc_id));
            &&& store.cells_hold_ids()
            &&& match last_of(history, moc_id) {
                Some(registered) => {
                    &&& store.entries.contains_key(fits_key)
                    &&& store.entries[fits_key] == (Entry {
                        value: Held::Bytes(registered.fits_bytes),
                        expires: Some(registered.deadline()),
                    })
                    &&& store.entries.contains_key(meta_key)
                    &&& store.entries[meta_key] == (Entry {
                        value: Held::Bytes(registered.metadata_json),
                        expires: Some(registered.deadline()),
                    })
                },
                None => {
                    &&& !store.entries.contains_key(fits_key)
                    &&& !store.entries.contains_key(meta_key)
                },
            }
        }),
    decreases history.len(),
{
    let (fits_key, meta_key) = (keys::fits_key_text(moc_id), keys::meta_key_text(moc_id));
    if history.len() == 0 {
        keys::law_every_key_is_ours(0, 0, moc_id);
        assert forall|d: u8, cell: u64|
            !#[trigger] base.entries.contains_key(keys::cell_key_text(d, cell)) by {
            keys::law_every_key_is_ours(d, cell, moc_id);
        }
    } else {
        lemma_before(history);
        lemma_moc_keys(base, depth, history.drop_last(), moc_id);
        let last = history.last();
        let before = store_after(base, depth, history.drop_last());
        let store = store_after(base, depth, history);
        let cells = last.moc.touched_cells(depth);
        crate::index::law_registration_effect(
            before,
            last.at,
            depth,
            last.moc_id,
            cells,
            last.fits_bytes,
            last.metadata_json,
            last.ttl,
        );
        if last.moc_id != moc_id {
            assert forall|cell: u64| keys::cell_key_text(depth, cell) != fits_key
                && keys::cell_key_text(depth, cell) != meta_key by {
                keys::law_key_families_are_disjoint(depth, cell, moc_id, moc_id);
            }
            keys::law_key_families_are_disjoint(depth, 0, moc_id, last.moc_id);
            keys::law_key_families_are_disjoint(depth, 0, last.moc_id, moc_id);
            if fits_key == keys::fits_key_text(last.moc_id) || meta_key == keys::meta_key_text(
                last.moc_id,
            ) {
                keys::law_moc_keys_are_distinct(moc_id, last.moc_id);
            }
            assert(store.entries.contains_key(fits_key) == before.entries.contains_key(fits_key));
            assert(store.entries.contains_key(meta_key) == before.entries.contains_key(meta_key));
        }
    }
}

/// A MOC's FITS bytes and metadata are there exactly while its last registration has not expired:
/// whatever else is registered, an expired MOC falls out by itself.
pub proof fn law_moc_is_stored_until_it_expires(
    base: Store,
    depth: u8,
    history: Seq<Registered>,
    now: int,
    moc_id: Seq<char>,
)
    requires
        is_blank(base),
        is_history(history),
        depth <= MAX_DEPTH,
    ensures
        ({
            let store = store_after(base, depth, history);
            match in_force(history, moc_id, now) {
                Some(registered) => {
                    &&& store.bytes(keys::fits_key_text(moc_id), now) == Some(
                        registered.fits_bytes,
                    )
                    &&& store.bytes(keys::meta_key_text(moc_id), now) == Some(
                        registered.metadata_json,
                    )
                },
                None => {
                    &&& store.bytes(keys::fits_key_text(moc_id), now) is None
                    &&& store.bytes(keys::meta_key_text(moc_id), now) is None
                },
            }
        }),
{
    lemma_moc_keys(base, depth, history, moc_id);
}

/// What the store holds under a cell's key: ids of MOCs that touch the cell, and all those that
/// have not expired by the last registration, for as long as they do not.
proof fn lemma_cell_keys(base: Store, depth: u8, history: Seq<Registered>, cell: u64)
    requires
        is_blank(base),
        is_history(history),
        depth <= MAX_DEPTH,
    ensures
        ({
            let store = store_after(base, depth, history);
            let key = keys::cell_key_text(depth, cell);
            &&& store.cells_hold_ids()
            &&& store.entries.contains_key(key) ==> forall|moc_id: Seq<char>|
                (#[trigger] store.entries[key].value->Ids_0.contains(moc_id)) ==> exists|i: int|
                    has_touched(history, i, depth, cell, moc_id)
            &&& forall|i: int, moc_id: Seq<char>| #[trigger]
                has_touched(history, i, depth, cell, moc_id) && history[i].deadline()
                    > history.last().at ==> {
                    &&& store.entries.contains_key(key)
                    &&& store.entries[key].value->Ids_0.contains(moc_id)
                    &&& store.entries[key].expires.unwrap() >= history[i].deadline()
                }
        }),
    decreases history.len(),
{
    let key = keys::cell_key_text(depth, cell);
    if history.len() == 0 {
        lemma_moc_keys(base, depth, history, Seq::empty());
        keys::law_every_key_is_ours(depth, cell, Seq::empty());
    } else {
        lemma_before(history);
        let early = history.drop_last();
        lemma_cell_keys(base, depth, early, cell);
        let last = history.last();
        let before = store_after(base, depth, early);
        let store = store_after(base, depth, history);
        let cells = last.moc.touched_cells(depth);
        crate::index::law_registration_effect(
            before,
            last.at,
            depth,
            last.moc_id,
            cells,
            last.fits_bytes,
            last.metadata_json,
            last.ttl,
        );
        crate::hpx_moc::lemma_touched_cells_listed(last.moc, depth);
        keys::law_key_families_are_disjoint(depth, cell, last.moc_id, last.moc_id);
        let touched = last.moc.touches(depth, cell as int);
        if touched {
            assert(cells.contains(cell));
        } else {
            crate::index::lemma_other_cell(depth, cells, cell);
            assert(store.entries.contains_key(key) == before.entries.contains_key(key));
        }
        assert forall|i: int, moc_id: Seq<char>|
            has_touched(early, i, depth, cell, moc_id) implies has_touched(
            history,
            i,
            depth,
            cell,
            moc_id,
        ) by {
            assert(early[i] == history[i]);
        }
        if store.entries.contains_key(key) {
            assert forall|moc_id: Seq<char>|
                #[trigger] store.entries[key].value->Ids_0.contains(moc_id) implies exists|i: int|
                has_touched(history, i, depth, cell, moc_id) by {
                if touched && moc_id == last.moc_id {
                    assert(has_touched(history, history.len() - 1, depth, cell, moc_id));
                } else {
                    assert(before.entries[key].value->Ids_0.contains(moc_id));
                    let i = choose|i: int| has_touched(early, i, depth, cell, moc_id);
                    assert(has_touched(history, i, depth, cell, moc_id));
                }
            }
        }
        assert forall|i: int, moc_id: Seq<char>| #[trigger]
            has_touched(history, i, depth, cell, moc_id) && history[i].deadline()
                > last.at implies {
            &&& store.entries.contains_key(key)
            &&& store.entries[key].value->Ids_0.contains(moc_id)
            &&& store.entries[key].expires.unwrap() >= history[i].deadline()
        } by {
            if i < early.len() {
                assert(early[i] == history[i]);
                assert(has_touched(early, i, depth, cell, moc_id));
                assert(early.last().at <= last.at) by {
                    assert(early[early.len() - 1] == early.last());
                }
                assert(before.live(key, last.at));
            }
        }
    }
}

/// The candidates of a cell, after any registrations: among them is every MOC with a registration
/// that touches the cell and has not expired, and every one of them has been registered with a MOC
/// that touches the cell. So, as long as nothing has expired, they are exactly the ids that were
/// registered with a MOC that touches the cell.
pub proof fn law_candidates_after_registrations(
    base: Store,
    depth: u8,
    history: Seq<Registered>,
    now: int,
    cell: u64,
)
    requires
        is_blank(base),
        is_history(history),
        is_past(history, now),
        depth <= MAX_DEPTH,
    ensures
        ({
            let members = store_after(base, depth, history).members(
                keys::cell_key_text(depth, cell),
                now,
            );
            &&& forall|i: int, moc_id: Seq<char>| #[trigger]
                has_touched(history, i, depth, cell, moc_id) && now < history[i].deadline()
                    ==> members.contains(moc_id)
            &&& forall|moc_id: Seq<char>| #[trigger]
                members.contains(moc_id) ==> exists|i: int|
                    has_touched(history, i, depth, cell, moc_id)
            &&& (forall|i: int| 0 <= i < history.len() ==> now < (#[trigger] history[i]).deadline())
                ==> forall|moc_id: Seq<char>| #[trigger]
                members.contains(moc_id) <==> exists|i: int|
                    has_touched(history, i, depth, cell, moc_id)
        }),
{
    lemma_cell_keys(base, depth, history, cell);
    let store = store_after(base, depth, history);
    let key = keys::cell_key_text(depth, cell);
    let members = store.members(key, now);
    assert forall|i: int, moc_id: Seq<char>| #[trigger]
        has_touched(history, i, depth, cell, moc_id) && now
            < history[i].deadline() implies members.contains(moc_id) by {
        assert(history[history.len() - 1].at <= now);
    }
}

/// Whether the hits are exactly the MOCs in force that contain the position, each once and with the
/// metadata of its last registration.
pub open spec fn are_the_hits(
    hits: Seq<HitView>,
    history: Seq<Registered>,
    now: int,
    pixel: int,
    decode: spec_fn(Seq<u8>) -> Option<MetadataView>,
) -> bool {
    &&& forall|moc_id: Seq<char>|
        (#[trigger] in_force(history, moc_id, now)) matches Some(registered) ==> (
        registered.contains(pixel) ==> hits.contains(
            HitView { moc_id, metadata: decode(registered.metadata_json) },
        ))
    &&& forall|i: int|
        0 <= i < hits.len() ==> {
            &&& in_force(history, (#[trigger] hits[i]).moc_id, now) matches Some(registered)
            &&& registered.contains(pixel)
            &&& hits[i].metadata == decode(registered.metadata_json)
        }
    &&& forall|i: int, j: int| 0 <= i < j < hits.len() ==> hits[i].moc_id != hits[j].moc_id
}

/// The index keeps its promise. After any registrations, through whatever handles, for every
/// position and time, and with anything in the cache of the handle that looks it up, a lookup ends
/// and its hits are exactly the MOCs whose last registration has not expired and that contain the
/// position. The cache stays one of parsed MOCs, as it is in every index.
pub proof fn law_lookup_finds_every_active_moc(
    base: Store,
    depth: u8,
    history: Seq<Registered>,
    now: int,
    pixel: int,
    decode: spec_fn(Seq<u8>) -> Option<MetadataView>,
    world: World,
    cache: CacheView,
)
    requires
        is_blank(base),
        is_history(history),
        is_past(history, now),
        depth <= MAX_DEPTH,
        crate::lookup::answered_from(
            world,
            store_after(base, depth, history),
            now,
            depth,
            pixel,
            decode,
        ),
        crate::index::is_parsed(cache),
    ensures
        crate::lookup::driven(
            world,
            LookupView::new(),
            cache,
            3 * world.members.len() + 1,
        ) matches Some((end, after)) && {
            &&& end.stage is Over
            &&& are_the_hits(end.hits, history, now, pixel, decode)
            &&& crate::index::is_parsed(after)
        },
{
    let store = store_after(base, depth, history);
    let cell = crate::healpix::cell_of(pixel, depth);
    crate::healpix::lemma_cell_of_pixel(pixel, depth);
    crate::healpix::lemma_cells_tile_the_sky(depth);
    assert(cell <= pixel) by (nonlinear_arith)
        requires
            cell * crate::healpix::cell_width(depth) <= pixel,
            crate::healpix::cell_width(depth) >= 1,
            0 <= cell,
    ;
    assert forall|moc_id: Seq<char>| #[trigger] (world.fits)(moc_id) is Some implies {
        &&& in_force(history, moc_id, now) is Some
        &&& world.stored_moc(moc_id) == Some(in_force(history, moc_id, now).unwrap().moc)
    } by {
        law_moc_is_stored_until_it_expires(base, depth, history, now, moc_id);
        let i = lemma_last(history, moc_id);
    }
    assert(world.is_readable());
    crate::lookup::law_lookup_completes(world, cache);
    let answers = 3 * world.members.len() + 1;
    let (end, after) = crate::lookup::driven(world, LookupView::new(), cache, answers).unwrap();
    crate::lookup::law_lookup_finds_the_hits(world, end);
    assert forall|moc_id: Seq<char>| #[trigger] in_force(history, moc_id, now) is Some implies {
        let registered = in_force(history, moc_id, now).unwrap();
        &&& world.is_hit(moc_id) == registered.contains(pixel)
        &&& registered.contains(pixel) ==> world.members.contains(moc_id)
        &&& world.hit(moc_id) == (HitView { moc_id, metadata: decode(registered.metadata_json) })
    } by {
        let registered = in_force(history, moc_id, now).unwrap();
        law_moc_is_stored_until_it_expires(base, depth, history, now, moc_id);
        let i = lemma_last(history, moc_id);
        assert((world.fits)(moc_id) == Some(registered.fits_bytes));
        assert((world.metadata)(moc_id) == decode(registered.metadata_json));
        assert((world.cell)(registered.moc.depth_max) as int == crate::healpix::cell_of(
            pixel,
            registered.moc.depth_max,
        ));
        if registered.contains(pixel) {
            crate::hpx_moc::law_contained_position_is_indexed(registered.moc, pixel, depth);
            law_candidates_after_registrations(base, depth, history, now, cell as u64);
            assert(has_touched(history, i, depth, cell as u64, moc_id));
        }
    }
}

/// The index keeps its promise to whoever answers its questions and sees nothing but these. After
/// any registrations, through whatever handles, for every position and time, and with anything in
/// the cache, a lookup whose every question is answered from the store, or by the position's cell at
/// the depth asked for, ends. A registration `i` is among its hits, with its metadata, if no later
/// one has its id, its validity window has not ended, and its MOC covers all of the position's cell
/// at its own depth. Every hit `h` comes from such a registration, and no MOC is hit twice.
pub proof fn law_answered_questions_find_every_active_moc(
    base: Store,
    depth: u8,
    history: Seq<Registered>,
    now: int,
    pixel: int,
    oracle: Oracle,
    cache: CacheView,
    i: int,
    h: int,
)
    requires
        is_blank(base),
        is_history(history),
        is_past(history, now),
        depth <= MAX_DEPTH,
        0 <= pixel < crate::healpix::FULL_SKY,
        forall|key: Seq<char>| #[trigger] (oracle.members)(key).no_duplicates(),
        forall|key: Seq<char>, moc_id: Seq<char>| #[trigger]
            (oracle.members)(key).contains(moc_id) <==> store_after(base, depth, history).members(
                key,
                now,
            ).contains(moc_id),
        forall|key: Seq<char>| #[trigger]
            (oracle.bytes)(key) == store_after(base, depth, history).bytes(key, now),
        forall|d: u8|
            d <= MAX_DEPTH ==> #[trigger] (oracle.cell)(d) as int == pixel / pow2(
                (2 * (29 - d)) as nat,
            ) as int,
        crate::index::is_parsed(cache),
    ensures
        ({
            let key = keys::cell_key_text(
                depth,
                (pixel / pow2((2 * (29 - depth)) as nat) as int) as u64,
            );
            &&& crate::lookup::asked(
                oracle,
                LookupView::new(),
                QuestionView::Members { key },
                cache,
                3 * (oracle.members)(key).len() + 1,
            ) matches Some((end, after))
            &&& end.stage is Over
            &&& end.question() is Nothing
            &&& crate::index::is_parsed(after)
            &&& 0 <= i < history.len() && now < history[i].at + 1000 * history[i].ttl && (forall|
                j: int,
            |
                i < j < history.len() ==> (#[trigger] history[j]).moc_id != history[i].moc_id) && (
            forall|q: int|
                q / pow2((2 * (29 - history[i].moc.depth_max)) as nat) as int == pixel / pow2(
                    (2 * (29 - history[i].moc.depth_max)) as nat,
                ) as int ==> #[trigger] crate::hpx_moc::covers(history[i].moc.ranges, q))
                ==> end.hits.contains(
                HitView {
                    moc_id: history[i].moc_id,
                    metadata: (oracle.decode)(history[i].metadata_json),
                },
            )
            &&& 0 <= h < end.hits.len() ==> exists|k: int|
                {
                    &&& 0 <= k < history.len()
                    &&& (#[trigger] history[k]).moc_id == end.hits[h].moc_id
                    &&& forall|j: int|
                        k < j < history.len() ==> (#[trigger] history[j]).moc_id
                            != history[k].moc_id
                    &&& now < history[k].at + 1000 * history[k].ttl
                    &&& forall|q: int|
                        q / pow2((2 * (29 - history[k].moc.depth_max)) as nat) as int == pixel
                            / pow2((2 * (29 - history[k].moc.depth_max)) as nat) as int
                            ==> #[trigger] crate::hpx_moc::covers(history[k].moc.ranges, q)
                    &&& end.hits[h].metadata == (oracle.decode)(history[k].metadata_json)
                }
            &&& forall|j: int|
                0 <= j < end.hits.len() && 0 <= h < end.hits.len() && j != h
                    ==> (#[trigger] end.hits[j]).moc_id != end.hits[h].moc_id
        }),
{
    let store = store_after(base, depth, history);
    let cell = crate::healpix::cell_of(pixel, depth);
    let key = keys::cell_key_text(depth, cell as u64);
    let world = oracle.world(key);
    let answers = 3 * (oracle.members)(key).len() + 1;
    assert forall|d: u8| d <= MAX_DEPTH implies #[trigger] (world.cell)(d) as int
        == crate::healpix::cell_of(pixel, d) by {}
    assert(world.members.no_duplicates());
    assert(crate::lookup::answered_from(world, store, now, depth, pixel, oracle.decode));
    law_lookup_finds_every_active_moc(
        base,
        depth,
        history,
        now,
        pixel,
        oracle.decode,
        world,
        cache,
    );
    crate::lookup::lemma_asked(
        oracle,
        key,
        LookupView::new(),
        QuestionView::Members { key },
        cache,
        answers,
    );
    let (end, after) = crate::lookup::driven(world, LookupView::new(), cache, answers).unwrap();
    if 0 <= i < history.len() && forall|j: int|
        i < j < history.len() ==> (#[trigger] history[j]).moc_id != history[i].moc_id {
        lemma_is_last(history, i);
        assert(now < history[i].deadline() ==> in_force(history, history[i].moc_id, now) == Some(
            history[i],
        ));
    }
    if 0 <= h < end.hits.len() {
        let moc_id = end.hits[h].moc_id;
        assert(in_force(history, moc_id, now) is Some);
        let k = lemma_last(history, moc_id);
        assert(history[k].contains(pixel));
    }
}

} // verus!
