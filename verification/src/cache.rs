//! The in-process cache of parsed MOCs, keyed by MOC id, which forgets the least recently used.
//!
//! A MOC is kept together with the FITS bytes that it was parsed from, so that it can be seen whether
//! it is the MOC that is stored without parsing anything.
use crate::hpx_moc::{HpxMoc, MocView};
use lru::LruCache;
use std::num::NonZeroUsize;
use std::sync::Arc;
use vstd::prelude::*;

verus! {

/// The `LruCache` of the `lru` crate.
#[verifier::external_type_specification]
#[verifier::external_body]
#[verifier::reject_recursive_types(K)]
#[verifier::reject_recursive_types(V)]
#[verifier::reject_recursive_types(S)]
pub struct ExLruCache<K, V, S>(LruCache<K, V, S>);

/// The hasher that `LruCache` uses by default.
#[verifier::external_type_specification]
#[verifier::external_body]
pub struct ExDefaultHasher(lru::DefaultHasher);

/// A MOC with the FITS bytes that it was parsed from.
#[derive(Debug)]
pub struct ParsedMoc {
    pub fits_bytes: Vec<u8>,
    pub moc: Arc<HpxMoc>,
}

/// A MOC with the FITS bytes that it was parsed from, over views.
#[verifier::ext_equal]
pub struct ParsedView {
    pub fits_bytes: Seq<u8>,
    pub moc: MocView,
}

impl View for ParsedMoc {
    type V = ParsedView;

    open spec fn view(&self) -> ParsedView {
        ParsedView { fits_bytes: self.fits_bytes@, moc: self.moc@ }
    }
}

/// The MOC ids and MOCs in an `LruCache`, the most recently used first.
pub uninterp spec fn lru_entries(cache: LruCache<String, Arc<ParsedMoc>>) -> Seq<
    (Seq<char>, ParsedView),
>;

/// How many entries an `LruCache` was made for.
pub uninterp spec fn lru_capacity(cache: LruCache<String, Arc<ParsedMoc>>) -> nat;

/// The MOC kept under `moc_id`, if any.
pub open spec fn found(entries: Seq<(Seq<char>, ParsedView)>, moc_id: Seq<char>) -> Option<ParsedView>
    decreases entries.len(),
{
    if entries.len() == 0 {
        None
    } else if entries[0].0 == moc_id {
        Some(entries[0].1)
    } else {
        found(entries.skip(1), moc_id)
    }
}

/// The entries other than the one under `moc_id`, in the same order.
pub open spec fn others(entries: Seq<(Seq<char>, ParsedView)>, moc_id: Seq<char>) -> Seq<
    (Seq<char>, ParsedView),
>
    decreases entries.len(),
{
    if entries.len() == 0 {
        entries
    } else if entries[0].0 == moc_id {
        others(entries.skip(1), moc_id)
    } else {
        seq![entries[0]] + others(entries.skip(1), moc_id)
    }
}

/// The entries after `moc` was used under `moc_id`: that entry first, then the others.
pub open spec fn used(
    entries: Seq<(Seq<char>, ParsedView)>,
    moc_id: Seq<char>,
    moc: ParsedView,
) -> Seq<(Seq<char>, ParsedView)> {
    seq![(moc_id, moc)] + others(entries, moc_id)
}

/// The first entries, as many as the capacity allows.
pub open spec fn kept(entries: Seq<(Seq<char>, ParsedView)>, capacity: nat) -> Seq<
    (Seq<char>, ParsedView),
> {
    if entries.len() <= capacity {
        entries
    } else {
        entries.take(capacity as int)
    }
}

/// Calls `lru::LruCache::new`, which claims room for `capacity` entries at once.
///
/// Claims that the cache is empty and made for `capacity` entries. A capacity whose table of
/// entries could not be addressed is left out: there the function panics.
#[verifier::external_body]
fn lru_new(capacity: usize) -> (res: LruCache<String, Arc<ParsedMoc>>)
    requires
        0 < capacity <= usize::MAX / 128,
    ensures
        lru_entries(res) == Seq::<(Seq<char>, ParsedView)>::empty(),
        lru_capacity(res) == capacity,
{
    LruCache::new(NonZeroUsize::new(capacity).unwrap())
}

/// Calls `lru::LruCache::get`.
///
/// Claims that it gives the MOC kept under `moc_id`, if any, and makes that entry the most
/// recently used one; without such an entry nothing changes.
#[verifier::external_body]
fn lru_get(cache: &mut LruCache<String, Arc<ParsedMoc>>, moc_id: &str) -> (res: Option<Arc<ParsedMoc>>)
    ensures
        match res {
            Some(moc) => found(lru_entries(*old(cache)), moc_id@) == Some(moc@) && lru_entries(
                *final(cache),
            ) == used(lru_entries(*old(cache)), moc_id@, moc@),
            None => found(lru_entries(*old(cache)), moc_id@) is None && lru_entries(*final(cache))
                == lru_entries(*old(cache)),
        },
        lru_capacity(*final(cache)) == lru_capacity(*old(cache)),
{
    cache.get(moc_id).cloned()
}

/// Calls `lru::LruCache::put`.
///
/// Claims that the MOC is then kept under `moc_id`, as the most recently used entry, and that the
/// least recently used one is forgotten where the capacity would be exceeded.
#[verifier::external_body]
fn lru_put(cache: &mut LruCache<String, Arc<ParsedMoc>>, moc_id: &str, moc: Arc<ParsedMoc>)
    ensures
        lru_entries(*final(cache)) == kept(
            used(lru_entries(*old(cache)), moc_id@, moc@),
            lru_capacity(*old(cache)),
        ),
        lru_capacity(*final(cache)) == lru_capacity(*old(cache)),
{
    cache.put(moc_id.to_string(), moc);
}

/// Calls `lru::LruCache::pop`.
///
/// Claims that nothing is then kept under `moc_id`, and that the other entries stay as they are.
#[verifier::external_body]
fn lru_pop(cache: &mut LruCache<String, Arc<ParsedMoc>>, moc_id: &str)
    ensures
        lru_entries(*final(cache)) == others(lru_entries(*old(cache)), moc_id@),
        lru_capacity(*final(cache)) == lru_capacity(*old(cache)),
{
    cache.pop(moc_id);
}

/// A cache of parsed MOCs.
pub struct MocCache {
    entries: LruCache<String, Arc<ParsedMoc>>,
}

/// What a cache of parsed MOCs holds.
#[verifier::ext_equal]
pub struct CacheView {
    /// How many MOCs it keeps at most.
    pub capacity: nat,
    /// The MOCs with their ids, the most recently used first.
    pub entries: Seq<(Seq<char>, ParsedView)>,
}

impl View for MocCache {
    type V = CacheView;

    closed spec fn view(&self) -> CacheView {
        CacheView { capacity: lru_capacity(self.entries), entries: lru_entries(self.entries) }
    }
}

impl CacheView {
    /// The MOC kept under `moc_id`, if any.
    pub open spec fn get(self, moc_id: Seq<char>) -> Option<ParsedView> {
        found(self.entries, moc_id)
    }

    /// The cache after the MOC under `moc_id` was asked for.
    pub open spec fn touch(self, moc_id: Seq<char>) -> CacheView {
        match self.get(moc_id) {
            Some(moc) => CacheView { entries: used(self.entries, moc_id, moc), ..self },
            None => self,
        }
    }

    /// The cache after `moc` was put under `moc_id`.
    pub open spec fn put(self, moc_id: Seq<char>, moc: ParsedView) -> CacheView {
        CacheView { entries: kept(used(self.entries, moc_id, moc), self.capacity), ..self }
    }

    /// The cache after the MOC under `moc_id` was wanted as these bytes hold it: asked for, and put
    /// in where what is kept was not parsed from them.
    pub open spec fn load(self, moc_id: Seq<char>, parsed: ParsedView) -> CacheView {
        if self.get(moc_id) matches Some(kept) && kept.fits_bytes == parsed.fits_bytes {
            self.touch(moc_id)
        } else {
            self.touch(moc_id).put(moc_id, parsed)
        }
    }

    /// The cache after the MOC under `moc_id`, if any, was dropped.
    pub open spec fn without(self, moc_id: Seq<char>) -> CacheView {
        CacheView { entries: others(self.entries, moc_id), ..self }
    }
}

impl MocCache {
    /// A cache that keeps at most `capacity` MOCs.
    pub fn new(capacity: usize) -> (res: MocCache)
        requires
            0 < capacity <= usize::MAX / 128,
        ensures
            res@ == (CacheView { capacity: capacity as nat, entries: Seq::empty() }),
    {
        MocCache { entries: lru_new(capacity) }
    }

    /// The MOC kept under `moc_id`, if any; it is then the most recently used one.
    pub fn get(&mut self, moc_id: &str) -> (res: Option<Arc<ParsedMoc>>)
        ensures
            match res {
                Some(moc) => old(self)@.get(moc_id@) == Some(moc@),
                None => old(self)@.get(moc_id@) is None,
            },
            final(self)@ == old(self)@.touch(moc_id@),
    {
        lru_get(&mut self.entries, moc_id)
    }

    /// Keeps `moc` under `moc_id`, as the most recently used one. The least recently used MOC is
    /// forgotten where there would be too many.
    pub fn put(&mut self, moc_id: &str, moc: Arc<ParsedMoc>)
        ensures
            final(self)@ == old(self)@.put(moc_id@, moc@),
    {
        lru_put(&mut self.entries, moc_id, moc);
    }

    /// Drops the MOC kept under `moc_id`, if any.
    pub fn remove(&mut self, moc_id: &str)
        ensures
            final(self)@ == old(self)@.without(moc_id@),
    {
        lru_pop(&mut self.entries, moc_id);
    }
}

/// Taking one entry out leaves what is found under other ids.
proof fn lemma_others(entries: Seq<(Seq<char>, ParsedView)>, moc_id: Seq<char>, other: Seq<char>)
    ensures
        found(others(entries, moc_id), other) == if other == moc_id {
            None
        } else {
            found(entries, other)
        },
        others(entries, moc_id).len() <= entries.len(),
        found(entries, moc_id) is Some ==> others(entries, moc_id).len() < entries.len(),
    decreases entries.len(),
{
    if entries.len() > 0 {
        let rest = entries.skip(1);
        lemma_others(rest, moc_id, other);
        if entries[0].0 != moc_id {
            let all = seq![entries[0]] + others(rest, moc_id);
            assert(all.skip(1) =~= others(rest, moc_id));
        }
    }
}

/// Keeping only the first entries changes what is found under an id to nothing at most.
proof fn lemma_kept(entries: Seq<(Seq<char>, ParsedView)>, count: int, moc_id: Seq<char>)
    requires
        0 <= count <= entries.len(),
    ensures
        found(entries.take(count), moc_id) is Some ==> found(entries.take(count), moc_id) == found(
            entries,
            moc_id,
        ),
    decreases entries.len(),
{
    if count > 0 && entries[0].0 != moc_id {
        lemma_kept(entries.skip(1), count - 1, moc_id);
        assert(entries.take(count).skip(1) =~= entries.skip(1).take(count - 1));
    }
}

/// A cache gives back what was put in: after `put` the MOC is found under its id, what is found
/// under other ids is what was found there before, and no more MOCs are kept than the capacity.
pub proof fn law_cache_gives_back(cache: CacheView, moc_id: Seq<char>, moc: ParsedView, other: Seq<char>)
    requires
        cache.capacity > 0,
    ensures
        cache.put(moc_id, moc).get(moc_id) == Some(moc),
        other != moc_id && cache.put(moc_id, moc).get(other) is Some ==> cache.put(
            moc_id,
            moc,
        ).get(other) == cache.get(other),
        cache.put(moc_id, moc).entries.len() <= cache.capacity,
{
    let all = used(cache.entries, moc_id, moc);
    lemma_others(cache.entries, moc_id, other);
    assert(all.skip(1) =~= others(cache.entries, moc_id));
    if all.len() > cache.capacity {
        lemma_kept(all, cache.capacity as int, other);
    }
}

/// Asking for a MOC changes nothing of what is found, under any id, nor grows the cache.
pub proof fn law_asking_keeps_the_cache(cache: CacheView, moc_id: Seq<char>, other: Seq<char>)
    ensures
        cache.touch(moc_id).get(other) == cache.get(other),
        cache.touch(moc_id).entries.len() <= cache.entries.len(),
{
    if let Some(moc) = cache.get(moc_id) {
        let all = used(cache.entries, moc_id, moc);
        lemma_others(cache.entries, moc_id, other);
        assert(all.skip(1) =~= others(cache.entries, moc_id));
    }
}

/// Dropping a MOC leaves nothing under its id, and what is found under other ids as it is.
pub proof fn law_dropping_keeps_the_others(cache: CacheView, moc_id: Seq<char>, other: Seq<char>)
    ensures
        cache.without(moc_id).get(other) == if other == moc_id {
            None
        } else {
            cache.get(other)
        },
        cache.without(moc_id).entries.len() <= cache.entries.len(),
{
    lemma_others(cache.entries, moc_id, other);
}

/// A use of the cache.
pub enum CacheUse {
    /// The MOC under this id is asked for.
    Get(Seq<char>),
    /// A MOC is kept under this id.
    Put(Seq<char>, ParsedView),
    /// The MOC under this id is dropped.
    Drop(Seq<char>),
}

impl CacheUse {
    /// The id that is used.
    pub open spec fn moc_id(self) -> Seq<char> {
        match self {
            CacheUse::Get(moc_id) => moc_id,
            CacheUse::Put(moc_id, _) => moc_id,
            CacheUse::Drop(moc_id) => moc_id,
        }
    }
}

impl CacheView {
    /// The cache after one use.
    pub open spec fn after(self, use_: CacheUse) -> CacheView {
        match use_ {
            CacheUse::Get(moc_id) => self.touch(moc_id),
            CacheUse::Put(moc_id, moc) => self.put(moc_id, moc),
            CacheUse::Drop(moc_id) => self.without(moc_id),
        }
    }

    /// The cache after several uses, one after the other.
    pub open spec fn after_all(self, uses: Seq<CacheUse>) -> CacheView
        decreases uses.len(),
    {
        if uses.len() == 0 {
            self
        } else {
            self.after_all(uses.drop_last()).after(uses.last())
        }
    }
}

/// Whether the entry at `place` is this one, and different ids of `ids` stand before it.
spec fn stands_behind(
    entries: Seq<(Seq<char>, ParsedView)>,
    place: int,
    moc_id: Seq<char>,
    moc: ParsedView,
    ids: Set<Seq<char>>,
) -> bool {
    &&& 0 <= place < entries.len()
    &&& entries[place] == (moc_id, moc)
    &&& forall|i: int| 0 <= i < place ==> ids.contains((#[trigger] entries[i]).0)
    &&& forall|i: int, j: int| 0 <= i < j < place ==> entries[i].0 != entries[j].0
}

/// Taking out an id other than `moc_id` leaves its entry behind ids of the same set, without the
/// one taken out.
proof fn lemma_others_stand(
    entries: Seq<(Seq<char>, ParsedView)>,
    place: int,
    moc_id: Seq<char>,
    moc: ParsedView,
    ids: Set<Seq<char>>,
    other: Seq<char>,
) -> (res: int)
    requires
        stands_behind(entries, place, moc_id, moc, ids),
        other != moc_id,
    ensures
        stands_behind(others(entries, other), res, moc_id, moc, ids.remove(other)),
        res <= place,
    decreases entries.len(),
{
    let rest = entries.skip(1);
    if place == 0 {
        assert(others(entries, other)[0] == entries[0]);
        0
    } else {
        assert forall|i: int| 0 <= i < rest.len() implies rest[i] == entries[i + 1] by {}
        assert(stands_behind(rest, place - 1, moc_id, moc, ids.remove(entries[0].0))) by {
            assert forall|i: int| 0 <= i < place - 1 implies ids.remove(entries[0].0).contains(
                (#[trigger] rest[i]).0,
            ) by {
                assert(rest[i] == entries[i + 1]);
                assert(entries[0].0 != entries[i + 1].0);
            }
        }
        let p = lemma_others_stand(rest, place - 1, moc_id, moc, ids.remove(entries[0].0), other);
        let tail = others(rest, other);
        if entries[0].0 == other {
            assert(stands_behind(tail, p, moc_id, moc, ids.remove(other)));
            p
        } else {
            let all = seq![entries[0]] + tail;
            assert forall|i: int| 1 <= i < all.len() implies all[i] == tail[i - 1] by {}
            assert forall|i: int| 0 <= i < p + 1 implies ids.remove(other).contains(
                (#[trigger] all[i]).0,
            ) by {
                if i > 0 {
                    assert(all[i] == tail[i - 1]);
                }
            }
            assert forall|i: int, j: int| 0 <= i < j < p + 1 implies all[i].0 != all[j].0 by {
                assert(all[j] == tail[j - 1]);
                if i > 0 {
                    assert(all[i] == tail[i - 1]);
                }
            }
            p + 1
        }
    }
}

/// Different ids of a set that stand before an entry are no more than the set has.
proof fn lemma_place_bound(
    entries: Seq<(Seq<char>, ParsedView)>,
    place: int,
    moc_id: Seq<char>,
    moc: ParsedView,
    ids: Set<Seq<char>>,
)
    requires
        stands_behind(entries, place, moc_id, moc, ids),
        ids.finite(),
    ensures
        place <= ids.len(),
    decreases place,
{
    if place > 0 {
        let first = entries[0].0;
        let rest = entries.skip(1);
        assert forall|i: int| 0 <= i < rest.len() implies rest[i] == entries[i + 1] by {}
        assert forall|i: int| 0 <= i < place - 1 implies ids.remove(first).contains(
            (#[trigger] rest[i]).0,
        ) by {
            assert(rest[i] == entries[i + 1]);
            assert(entries[0].0 != entries[i + 1].0);
        }
        lemma_place_bound(rest, place - 1, moc_id, moc, ids.remove(first));
    }
}

/// A parsed MOC stays cached: once it was asked for and found, it is found again, as long as it is
/// not itself dropped or replaced and fewer other ids than the capacity are used in between.
pub proof fn law_used_moc_stays_cached(
    cache: CacheView,
    moc_id: Seq<char>,
    moc: ParsedView,
    uses: Seq<CacheUse>,
    other_ids: Set<Seq<char>>,
)
    requires
        cache.get(moc_id) == Some(moc),
        other_ids.finite(),
        other_ids.len() < cache.capacity,
        forall|i: int|
            0 <= i < uses.len() ==> #[trigger] uses[i] == CacheUse::Get(moc_id) || (
            uses[i].moc_id() != moc_id && other_ids.contains(uses[i].moc_id())),
    ensures
        cache.touch(moc_id).after_all(uses).get(moc_id) == Some(moc),
{
    let place = lemma_stays(cache, moc_id, moc, uses, other_ids);
    let entries = cache.touch(moc_id).after_all(uses).entries;
    lemma_found_behind(entries, place, moc_id, moc, other_ids.remove(moc_id));
}

/// An entry behind other ids is found.
proof fn lemma_found_behind(
    entries: Seq<(Seq<char>, ParsedView)>,
    place: int,
    moc_id: Seq<char>,
    moc: ParsedView,
    ids: Set<Seq<char>>,
)
    requires
        stands_behind(entries, place, moc_id, moc, ids),
        !ids.contains(moc_id),
    ensures
        found(entries, moc_id) == Some(moc),
    decreases place,
{
    if place > 0 {
        let rest = entries.skip(1);
        assert forall|i: int| 0 <= i < rest.len() implies rest[i] == entries[i + 1] by {}
        lemma_found_behind(rest, place - 1, moc_id, moc, ids);
    }
}

/// Where the entry stands after the uses.
proof fn lemma_stays(
    cache: CacheView,
    moc_id: Seq<char>,
    moc: ParsedView,
    uses: Seq<CacheUse>,
    ids: Set<Seq<char>>,
) -> (place: int)
    requires
        cache.get(moc_id) == Some(moc),
        ids.finite(),
        ids.len() < cache.capacity,
        forall|i: int|
            0 <= i < uses.len() ==> #[trigger] uses[i] == CacheUse::Get(moc_id) || (
            uses[i].moc_id() != moc_id && ids.contains(uses[i].moc_id())),
    ensures
        stands_behind(
            cache.touch(moc_id).after_all(uses).entries,
            place,
            moc_id,
            moc,
            ids.remove(moc_id),
        ),
        cache.touch(moc_id).after_all(uses).capacity == cache.capacity,
    decreases uses.len(),
{
    let own = ids.remove(moc_id);
    if uses.len() == 0 {
        0
    } else {
        let before = cache.touch(moc_id).after_all(uses.drop_last());
        let place = lemma_stays(cache, moc_id, moc, uses.drop_last(), ids);
        let last = uses.last();
        assert(uses[uses.len() - 1] == last);
        lemma_found_behind(before.entries, place, moc_id, moc, own);
        if last == CacheUse::Get(moc_id) {
            0
        } else {
            let other = last.moc_id();
            let p = lemma_others_stand(before.entries, place, moc_id, moc, own, other);
            let tail = others(before.entries, other);
            match last {
                CacheUse::Drop(_) => p,
                CacheUse::Get(_) => match before.get(other) {
                    Some(kept_moc) => {
                        lemma_pushed_stands(tail, p, moc_id, moc, own, other, kept_moc);
                        p + 1
                    },
                    None => place,
                },
                CacheUse::Put(_, kept_moc) => {
                    lemma_pushed_stands(tail, p, moc_id, moc, own, other, kept_moc);
                    let all = used(before.entries, other, kept_moc);
                    lemma_place_bound(all, p + 1, moc_id, moc, own);
                    if all.len() > before.capacity {
                        let cut = all.take(before.capacity as int);
                        assert forall|i: int| 0 <= i < p + 2 implies cut[i] == all[i] by {}
                        assert(stands_behind(cut, p + 1, moc_id, moc, own));
                    }
                    p + 1
                },
            }
        }
    }
}

/// Another entry put in front stands before.
proof fn lemma_pushed_stands(
    tail: Seq<(Seq<char>, ParsedView)>,
    place: int,
    moc_id: Seq<char>,
    moc: ParsedView,
    ids: Set<Seq<char>>,
    other: Seq<char>,
    other_moc: ParsedView,
)
    requires
        stands_behind(tail, place, moc_id, moc, ids.remove(other)),
        ids.contains(other),
    ensures
        stands_behind(seq![(other, other_moc)] + tail, place + 1, moc_id, moc, ids),
{
    let all = seq![(other, other_moc)] + tail;
    assert forall|i: int| 1 <= i < all.len() implies all[i] == tail[i - 1] by {}
    assert forall|i: int| 0 <= i < place + 1 implies ids.contains((#[trigger] all[i]).0) by {
        if i > 0 {
            assert(all[i] == tail[i - 1]);
        }
    }
    assert forall|i: int, j: int| 0 <= i < j < place + 1 implies all[i].0 != all[j].0 by {
        assert(all[j] == tail[j - 1]);
        if i > 0 {
            assert(all[i] == tail[i - 1]);
        }
    }
}

/// A cache, entry by entry. What is kept under an id is found in its first entry with that id. To
/// drop an id is to take out its entries and leave the others in their order. To ask for a MOC moves
/// it in front of the others, and to put one in does so too, and forgets what is then beyond the
/// capacity.
pub proof fn law_cache_is_kept_in_order_of_use(
    cache: CacheView,
    moc_id: Seq<char>,
    moc: ParsedView,
    is_other: spec_fn((Seq<char>, ParsedView)) -> bool,
)
    requires
        forall|entry: (Seq<char>, ParsedView)| #[trigger] is_other(entry) == (entry.0 != moc_id),
    ensures
        ({
            let rest = cache.entries.filter(is_other);
            let front = seq![(moc_id, moc)] + rest;
            &&& cache.get(moc_id) == Some(moc) <==> exists|i: int|
                {
                    &&& 0 <= i < cache.entries.len()
                    &&& #[trigger] cache.entries[i] == (moc_id, moc)
                    &&& forall|j: int| 0 <= j < i ==> (#[trigger] cache.entries[j]).0 != moc_id
                }
            &&& cache.get(moc_id) is None <==> forall|i: int|
                0 <= i < cache.entries.len() ==> (#[trigger] cache.entries[i]).0 != moc_id
            &&& cache.without(moc_id) == (CacheView { capacity: cache.capacity, entries: rest })
            &&& cache.get(moc_id) == Some(moc) ==> cache.touch(moc_id) == (CacheView {
                capacity: cache.capacity,
                entries: front,
            })
            &&& cache.get(moc_id) is None ==> cache.touch(moc_id) == cache
            &&& cache.put(moc_id, moc) == (CacheView {
                capacity: cache.capacity,
                entries: if front.len() > cache.capacity {
                    front.take(cache.capacity as int)
                } else {
                    front
                },
            })
        }),
{
    lemma_others_filtered(cache.entries, moc_id, is_other);
    lemma_found_first(cache.entries, moc_id, moc);
}

proof fn lemma_others_filtered(
    entries: Seq<(Seq<char>, ParsedView)>,
    moc_id: Seq<char>,
    is_other: spec_fn((Seq<char>, ParsedView)) -> bool,
)
    requires
        forall|entry: (Seq<char>, ParsedView)| #[trigger] is_other(entry) == (entry.0 != moc_id),
    ensures
        others(entries, moc_id) == entries.filter(is_other),
    decreases entries.len(),
{
    reveal(Seq::filter);
    if entries.len() > 0 {
        let first = seq![entries[0]];
        let rest = entries.skip(1);
        lemma_others_filtered(rest, moc_id, is_other);
        Seq::filter_distributes_over_add(first, rest, is_other);
        assert(first + rest =~= entries);
        assert(first.drop_last() =~= Seq::<(Seq<char>, ParsedView)>::empty());
        assert(first.last() == entries[0]);
        assert(is_other(first.last()) == (entries[0].0 != moc_id));
        reveal_with_fuel(Seq::filter, 2);
        if entries[0].0 == moc_id {
            assert(first.filter(is_other) =~= Seq::<(Seq<char>, ParsedView)>::empty());
            assert(first.filter(is_other) + rest.filter(is_other) =~= rest.filter(is_other));
        } else {
            assert(first.filter(is_other) =~= first);
        }
    }
}

proof fn lemma_found_first(
    entries: Seq<(Seq<char>, ParsedView)>,
    moc_id: Seq<char>,
    moc: ParsedView,
)
    ensures
        found(entries, moc_id) == Some(moc) <==> exists|i: int|
            {
                &&& 0 <= i < entries.len()
                &&& #[trigger] entries[i] == (moc_id, moc)
                &&& forall|j: int| 0 <= j < i ==> (#[trigger] entries[j]).0 != moc_id
            },
        found(entries, moc_id) is None <==> forall|i: int|
            0 <= i < entries.len() ==> (#[trigger] entries[i]).0 != moc_id,
    decreases entries.len(),
{
    if entries.len() > 0 {
        let rest = entries.skip(1);
        lemma_found_first(rest, moc_id, moc);
        assert forall|i: int| 0 <= i < rest.len() implies rest[i] == entries[i + 1] by {}
        if entries[0].0 != moc_id {
            if found(rest, moc_id) == Some(moc) {
                let i = choose|i: int|
                    {
                        &&& 0 <= i < rest.len()
                        &&& #[trigger] rest[i] == (moc_id, moc)
                        &&& forall|j: int| 0 <= j < i ==> (#[trigger] rest[j]).0 != moc_id
                    };
                assert(entries[i + 1] == (moc_id, moc));
                assert forall|j: int| 0 <= j < i + 1 implies (#[trigger] entries[j]).0 != moc_id by {
                    if j > 0 {
                        assert(rest[j - 1] == entries[j]);
                    }
                }
            }
            assert forall|i: int| {
                &&& 0 <= i < entries.len()
                &&& #[trigger] entries[i] == (moc_id, moc)
                &&& forall|j: int| 0 <= j < i ==> (#[trigger] entries[j]).0 != moc_id
            } implies found(rest, moc_id) == Some(moc) by {
                assert(rest[i - 1] == entries[i]);
                assert forall|j: int| 0 <= j < i - 1 implies (#[trigger] rest[j]).0 != moc_id by {
                    assert(rest[j] == entries[j + 1]);
                }
            }
            if found(rest, moc_id) is None {
                assert forall|i: int| 0 <= i < entries.len() implies (#[trigger] entries[i]).0
                    != moc_id by {
                    if i > 0 {
                        assert(rest[i - 1] == entries[i]);
                    }
                }
            } else {
                let i = choose|i: int| 0 <= i < rest.len() && (#[trigger] rest[i]).0 == moc_id;
                assert(entries[i + 1].0 == moc_id);
            }
        } else {
            assert(entries[0].0 == moc_id);
        }
    }
}

/// Wanting a MOC as some bytes hold it keeps it as parsed from these bytes: what is then found under
/// its id was parsed from them, and is what was put in, unless it was there already. What is found
/// under other ids is what was found there before.
pub proof fn law_loaded_moc_is_of_its_bytes(
    cache: CacheView,
    moc_id: Seq<char>,
    parsed: ParsedView,
    other: Seq<char>,
)
    requires
        cache.capacity > 0,
    ensures
        ({
            let after = cache.load(moc_id, parsed);
            &&& after.get(moc_id) matches Some(kept) && kept.fits_bytes == parsed.fits_bytes
            &&& after.get(moc_id) == Some(parsed) || after.get(moc_id) == cache.get(moc_id)
            &&& other != moc_id && after.get(other) is Some ==> after.get(other) == cache.get(other)
            &&& after.capacity == cache.capacity
        }),
{
    law_asking_keeps_the_cache(cache, moc_id, moc_id);
    law_asking_keeps_the_cache(cache, moc_id, other);
    law_cache_gives_back(cache.touch(moc_id), moc_id, parsed, other);
}

/// A parsed MOC is viewed field by field.
pub proof fn law_parsed_moc_is_viewed_by_field(parsed: ParsedMoc)
    ensures
        parsed@.fits_bytes == parsed.fits_bytes@,
        parsed@.moc.depth_max == parsed.moc.depth_max,
        parsed@.moc.ranges == parsed.moc.ranges@,
{
}

} // verus!
