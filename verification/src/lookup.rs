//! Looking up the MOCs that contain a position.
//!
//! A lookup asks, one question at a time, for what it cannot know itself: what Valkey holds, and
//! the position's cell at a MOC's depth. Whoever runs it answers each [`Question`] by
//! [`Lookup::advance`] until there is none left.
use crate::cache::{CacheView, ParsedView};
use crate::healpix::MAX_DEPTH;
use crate::hpx_moc::{is_in_moc, HpxMoc, MocError, MocView};
use crate::index::{MetadataView, MocIndex, MocMetadata};
use crate::keys;
use crate::store::Store;
use std::sync::Arc;
use vstd::prelude::*;

verus! {

/// A single hit of a [`Lookup`].
#[derive(Debug, Clone)]
pub struct MocHit {
    pub moc_id: String,
    pub metadata: Option<MocMetadata>,
}

/// A hit, over text.
#[verifier::ext_equal]
pub struct HitView {
    pub moc_id: Seq<char>,
    pub metadata: Option<MetadataView>,
}

impl View for MocHit {
    type V = HitView;

    open spec fn view(&self) -> HitView {
        HitView { moc_id: self.moc_id@, metadata: metadata_view(self.metadata) }
    }
}

impl MocHit {
    /// The source label of the MOC, a question mark where there is no metadata.
    pub fn source(&self) -> (res: &str)
        ensures
            res@ == match self.metadata {
                Some(metadata) => metadata.source@,
                None => "?"@,
            },
    {
        match &self.metadata {
            Some(metadata) => metadata.source.as_str(),
            None => "?",
        }
    }
}

/// Optional metadata, over text.
pub open spec fn metadata_view(metadata: Option<MocMetadata>) -> Option<MetadataView> {
    match metadata {
        Some(metadata) => Some(metadata@),
        None => None,
    }
}

/// The hits of a list, over text.
pub open spec fn hit_views(hits: Seq<MocHit>) -> Seq<HitView> {
    hits.map_values(|h: MocHit| h@)
}

/// What a lookup needs to know next.
#[derive(Debug)]
pub enum Question {
    /// The members of the set at `key`.
    Members { key: String },
    /// The bytes at `key`, which are a MOC's FITS file.
    Fits { key: String },
    /// The position's cell at `depth`.
    Cell { depth: u8 },
    /// The metadata that the JSON at `key` holds.
    Metadata { key: String },
    /// Nothing: the lookup is over.
    Nothing,
}

/// A question, over text.
#[verifier::ext_equal]
pub enum QuestionView {
    Members { key: Seq<char> },
    Fits { key: Seq<char> },
    Cell { depth: u8 },
    Metadata { key: Seq<char> },
    Nothing,
}

impl View for Question {
    type V = QuestionView;

    open spec fn view(&self) -> QuestionView {
        match self {
            Question::Members { key } => QuestionView::Members { key: key@ },
            Question::Fits { key } => QuestionView::Fits { key: key@ },
            Question::Cell { depth } => QuestionView::Cell { depth: *depth },
            Question::Metadata { key } => QuestionView::Metadata { key: key@ },
            Question::Nothing => QuestionView::Nothing,
        }
    }
}

/// The answer to a [`Question`].
#[derive(Debug)]
pub enum Answer {
    /// The members of the set.
    Members(Vec<String>),
    /// The bytes, if any.
    Fits(Option<Vec<u8>>),
    /// The cell.
    Cell(u64),
    /// The metadata, if it is there and can be parsed.
    Metadata(Option<MocMetadata>),
}

/// An answer, over text and bytes.
#[verifier::ext_equal]
pub enum AnswerView {
    Members(Seq<Seq<char>>),
    Fits(Option<Seq<u8>>),
    Cell(u64),
    Metadata(Option<MetadataView>),
}

impl View for Answer {
    type V = AnswerView;

    open spec fn view(&self) -> AnswerView {
        match self {
            Answer::Members(ids) => AnswerView::Members(crate::store::texts(ids@)),
            Answer::Fits(Some(bytes)) => AnswerView::Fits(Some(bytes@)),
            Answer::Fits(None) => AnswerView::Fits(None),
            Answer::Cell(cell) => AnswerView::Cell(*cell),
            Answer::Metadata(metadata) => AnswerView::Metadata(metadata_view(*metadata)),
        }
    }
}

/// Which answer a lookup waits for.
#[derive(Debug, Clone, Copy, PartialEq, Eq, Structural)]
pub enum Stage {
    Members,
    Fits,
    Cell,
    Metadata,
    Over,
}

/// A lookup: candidate set from Valkey, then the precise check against the parsed MOC of each
/// candidate.
pub struct Lookup {
    stage: Stage,
    candidates: Vec<String>,
    at: usize,
    moc: Option<Arc<HpxMoc>>,
    hits: Vec<MocHit>,
}

/// A lookup, over views.
#[verifier::ext_equal]
pub struct LookupView {
    /// Which answer it waits for.
    pub stage: Stage,
    /// The ids of the candidates.
    pub candidates: Seq<Seq<char>>,
    /// Which candidate is looked at.
    pub at: int,
    /// The MOC of that candidate, once it is known.
    pub moc: Option<MocView>,
    /// The hits so far.
    pub hits: Seq<HitView>,
}

impl View for Lookup {
    type V = LookupView;

    closed spec fn view(&self) -> LookupView {
        LookupView {
            stage: self.stage,
            candidates: crate::store::texts(self.candidates@),
            at: self.at as int,
            moc: match self.moc {
                Some(moc) => Some(moc@),
                None => None,
            },
            hits: hit_views(self.hits@),
        }
    }
}

impl LookupView {
    /// A lookup that waits for its candidates.
    pub open spec fn new() -> LookupView {
        LookupView {
            stage: Stage::Members,
            candidates: Seq::empty(),
            at: 0,
            moc: None,
            hits: Seq::empty(),
        }
    }

    /// What every lookup keeps: while it looks at a candidate there is one, and it has the MOC that
    /// a cell is asked for.
    pub open spec fn well_formed(self) -> bool {
        &&& 0 <= self.at <= self.candidates.len()
        &&& self.stage !is Members && self.stage !is Over ==> self.at < self.candidates.len()
        &&& self.stage is Cell ==> self.moc is Some && self.moc.unwrap().depth_max <= MAX_DEPTH
    }

    /// The id of the candidate that is looked at.
    pub open spec fn candidate(self) -> Seq<char> {
        self.candidates[self.at]
    }

    /// Whether this is an answer to what the lookup asks. A cell has to be one of the MOC's depth.
    pub open spec fn awaits(self, answer: AnswerView) -> bool {
        match answer {
            AnswerView::Members(_) => self.stage is Members,
            AnswerView::Fits(_) => self.stage is Fits,
            AnswerView::Cell(cell) => self.stage is Cell && cell < crate::healpix::cells_at(
                self.moc.unwrap().depth_max,
            ),
            AnswerView::Metadata(_) => self.stage is Metadata,
        }
    }

    /// What the lookup asks once the candidates are known.
    pub open spec fn question(self) -> QuestionView {
        match self.stage {
            Stage::Fits => QuestionView::Fits { key: keys::fits_key_text(self.candidate()) },
            Stage::Cell => QuestionView::Cell { depth: self.moc.unwrap().depth_max },
            Stage::Metadata => QuestionView::Metadata {
                key: keys::meta_key_text(self.candidate()),
            },
            _ => QuestionView::Nothing,
        }
    }

    /// The lookup once the candidate at `at` is taken up. What is stored of it has to be fetched;
    /// after the last candidate the lookup is over.
    pub open spec fn taking_up(self, at: int) -> LookupView {
        LookupView {
            stage: if at >= self.candidates.len() {
                Stage::Over
            } else {
                Stage::Fits
            },
            at,
            moc: None,
            ..self
        }
    }

    /// The lookup, and the cache, after an answer; nothing where the lookup fails on it, which is
    /// when the FITS bytes hold no MOC. A candidate without FITS bytes has expired.
    pub open spec fn advanced(self, cache: CacheView, answer: AnswerView) -> Option<
        (LookupView, CacheView),
    > {
        match answer {
            AnswerView::Members(ids) => Some(
                (LookupView { candidates: ids, ..self }.taking_up(0), cache),
            ),
            AnswerView::Fits(None) => Some(
                (self.taking_up(self.at + 1), cache.without(self.candidate())),
            ),
            AnswerView::Fits(Some(fits_bytes)) => match crate::hpx_moc::moc_in_fits(fits_bytes) {
                Some(moc) => Some(
                    (
                        LookupView { stage: Stage::Cell, moc: Some(moc), ..self },
                        cache.load(self.candidate(), ParsedView { fits_bytes, moc }),
                    ),
                ),
                None => None,
            },
            AnswerView::Cell(cell) => if crate::hpx_moc::precise_check(self.moc.unwrap(), cell) {
                Some((LookupView { stage: Stage::Metadata, ..self }, cache))
            } else {
                Some((self.taking_up(self.at + 1), cache))
            },
            AnswerView::Metadata(metadata) => Some(
                (
                    LookupView {
                        hits: self.hits.push(HitView { moc_id: self.candidate(), metadata }),
                        ..self
                    }.taking_up(self.at + 1),
                    cache,
                ),
            ),
        }
    }
}

impl MocIndex {
    /// Full lookup of a position, given its cell at the depth of the index: the candidate set from
    /// Valkey, then the precise check against the parsed MOC of each candidate. The first question
    /// is for the candidates.
    pub fn lookup(&self, cell: u64) -> (res: (Lookup, Question))
        ensures
            res.0@ == LookupView::new(),
            res.0@.well_formed(),
            res.1@ == (QuestionView::Members { key: keys::cell_key_text(self@.depth, cell) }),
    {
        let res: Lookup = Lookup {
            stage: Stage::Members,
            candidates: Vec::new(),
            at: 0,
            moc: None,
            hits: Vec::new(),
        };
        assert(res@.candidates =~= Seq::<Seq<char>>::empty());
        assert(res@.hits =~= Seq::<HitView>::empty());
        (res, Question::Members { key: self.candidates(cell) })
    }
}

impl Lookup {
    /// The hits found so far, all of them once the lookup is over.
    pub fn hits(self) -> (res: Vec<MocHit>)
        ensures
            hit_views(res@) == self@.hits,
    {
        self.hits
    }

    /// Takes up the candidate at `at`.
    fn take_up(&mut self, at: usize) -> (res: Question)
        requires
            at <= old(self)@.candidates.len(),
        ensures
            final(self)@ == old(self)@.taking_up(at as int),
            final(self)@.well_formed(),
            res@ == final(self)@.question(),
    {
        self.at = at;
        self.moc = None;
        if at >= self.candidates.len() {
            self.stage = Stage::Over;
            Question::Nothing
        } else {
            self.stage = Stage::Fits;
            Question::Fits { key: keys::fits_key(self.candidates[at].as_str()) }
        }
    }

    /// Goes on with the answer to the last question, and asks the next one.
    ///
    /// Fails on FITS bytes that hold no MOC; the lookup is then over.
    pub fn advance(&mut self, index: &mut MocIndex, answer: Answer) -> (res: Result<
        Question,
        MocError,
    >)
        requires
            old(index)@.well_formed(),
            old(self)@.well_formed(),
            old(self)@.awaits(answer@),
        ensures
            match res {
                Ok(question) => {
                    &&& old(self)@.advanced(old(index)@.cache, answer@) == Some(
                        (final(self)@, final(index)@.cache),
                    )
                    &&& question@ == final(self)@.question()
                },
                Err(e) => {
                    &&& old(self)@.advanced(old(index)@.cache, answer@) is None
                    &&& answer@ matches AnswerView::Fits(Some(bytes)) && e.refuses(bytes)
                    &&& final(self)@ == (LookupView { stage: Stage::Over, ..old(self)@ })
                    &&& final(index)@.cache == old(index)@.cache.touch(old(self)@.candidate())
                },
            },
            res is Err <==> (answer@ matches AnswerView::Fits(Some(bytes))
                && crate::hpx_moc::moc_in_fits(bytes) is None),
            answer@ matches AnswerView::Fits(Some(bytes)) ==> (crate::hpx_moc::moc_in_fits(
                bytes,
            ) matches Some(moc) ==> res is Ok && res->Ok_0@ == (QuestionView::Cell {
                depth: moc.depth_max,
            })),
            final(index)@.depth == old(index)@.depth,
            final(index)@.well_formed(),
            final(self)@.well_formed(),
    {
        assert(self@.candidates.len() == self.candidates.len());
        match answer {
            Answer::Members(ids) => {
                self.candidates = ids;
                Ok(self.take_up(0))
            },
            Answer::Fits(None) => {
                index.drop_moc(self.candidates[self.at].as_str());
                Ok(self.take_up(self.at + 1))
            },
            Answer::Fits(Some(bytes)) => {
                match index.load_moc(self.candidates[self.at].as_str(), bytes.as_slice()) {
                    Ok(moc) => {
                        let depth: u8 = moc.depth_max;
                        self.moc = Some(moc);
                        self.stage = Stage::Cell;
                        Ok(Question::Cell { depth })
                    },
                    Err(e) => {
                        self.stage = Stage::Over;
                        Err(e)
                    },
                }
            },
            Answer::Cell(cell) => {
                let inside: bool = match &self.moc {
                    Some(moc) => is_in_moc(moc, cell),
                    None => false,
                };
                if inside {
                    self.stage = Stage::Metadata;
                    Ok(
                        Question::Metadata {
                            key: keys::meta_key(self.candidates[self.at].as_str()),
                        },
                    )
                } else {
                    Ok(self.take_up(self.at + 1))
                }
            },
            Answer::Metadata(metadata) => {
                let ghost before = self.hits@;
                let hit: MocHit = MocHit { moc_id: self.candidates[self.at].clone(), metadata };
                self.hits.push(hit);
                assert(hit_views(self.hits@) =~= hit_views(before).push(hit@));
                Ok(self.take_up(self.at + 1))
            },
        }
    }
}

/// What a lookup is answered from: the candidates, what Valkey holds of each MOC, and the
/// position's cell at each depth.
pub struct World {
    pub members: Seq<Seq<char>>,
    pub fits: spec_fn(Seq<char>) -> Option<Seq<u8>>,
    pub metadata: spec_fn(Seq<char>) -> Option<MetadataView>,
    pub cell: spec_fn(u8) -> u64,
}

impl World {
    /// The answer to what the lookup asks.
    pub open spec fn answer(self, run: LookupView) -> AnswerView {
        match run.stage {
            Stage::Members => AnswerView::Members(self.members),
            Stage::Fits => AnswerView::Fits((self.fits)(run.candidate())),
            Stage::Cell => AnswerView::Cell((self.cell)(run.moc.unwrap().depth_max)),
            _ => AnswerView::Metadata((self.metadata)(run.candidate())),
        }
    }

    /// The MOC that is stored under an id, if any.
    pub open spec fn stored_moc(self, moc_id: Seq<char>) -> Option<MocView> {
        match (self.fits)(moc_id) {
            Some(bytes) => crate::hpx_moc::moc_in_fits(bytes),
            None => None,
        }
    }

    /// Whether the MOC contains the position.
    pub open spec fn inside(self, moc: MocView) -> bool {
        crate::hpx_moc::precise_check(moc, (self.cell)(moc.depth_max))
    }

    /// Whether the MOC stored under an id contains the position.
    pub open spec fn is_hit(self, moc_id: Seq<char>) -> bool {
        self.stored_moc(moc_id) matches Some(moc) && self.inside(moc)
    }

    /// The hit for an id.
    pub open spec fn hit(self, moc_id: Seq<char>) -> HitView {
        HitView { moc_id, metadata: (self.metadata)(moc_id) }
    }

    /// Whether what is stored under each of the candidates, if anything, is a MOC.
    pub open spec fn is_readable(self) -> bool {
        forall|i: int|
            0 <= i < self.members.len() && (self.fits)(#[trigger] self.members[i]) is Some
                ==> self.stored_moc(self.members[i]) is Some
    }

    /// The hits among the first `count` candidates, in their order.
    pub open spec fn hits_among(self, count: int) -> Seq<HitView>
        decreases count,
    {
        if count <= 0 {
            Seq::empty()
        } else if self.is_hit(self.members[count - 1]) {
            self.hits_among(count - 1).push(self.hit(self.members[count - 1]))
        } else {
            self.hits_among(count - 1)
        }
    }

    /// Where a lookup that is answered from here stands: the hits so far are those among the
    /// candidates before the one that is looked at, whose MOC, once known, is the stored one.
    pub open spec fn is_on_track(self, run: LookupView) -> bool {
        &&& run.well_formed()
        &&& run.stage is Members ==> run == LookupView::new()
        &&& run.stage !is Members ==> run.candidates == self.members
        &&& run.stage is Over ==> run.at == self.members.len()
        &&& run.hits == self.hits_among(run.at)
        &&& run.stage is Cell ==> run.moc == self.stored_moc(run.candidate())
        &&& run.stage is Metadata ==> self.is_hit(run.candidate())
    }
}

/// How many answers a lookup still takes at most, once it has its candidates.
pub open spec fn answers_left(run: LookupView) -> int {
    let rest = 3 * (run.candidates.len() - run.at);
    match run.stage {
        Stage::Cell => rest - 1,
        Stage::Metadata => rest - 2,
        _ => rest,
    }
}

/// Every answer after the first brings a lookup closer to its end, and while it is not over it
/// still takes one: a lookup ends after at most three answers per candidate.
pub proof fn law_lookup_ends(run: LookupView, cache: CacheView, answer: AnswerView)
    requires
        run.well_formed(),
        run.awaits(answer),
        run.stage !is Members,
    ensures
        answers_left(run) > 0,
        run.advanced(cache, answer) matches Some((next, _)) ==> 0 <= answers_left(next)
            < answers_left(run),
{
}

/// A lookup stays on track, whatever is in the cache: answered truthfully it does not fail, and the
/// hits it has found are again those among the candidates it has dealt with. The cache stays one of
/// parsed MOCs.
pub proof fn law_lookup_stays_on_track(world: World, run: LookupView, cache: CacheView)
    requires
        world.is_on_track(run),
        run.stage is Fits && (world.fits)(run.candidate()) is Some ==> world.stored_moc(
            run.candidate(),
        ) is Some,
        crate::index::is_parsed(cache),
        run.stage !is Over,
    ensures
        run.advanced(cache, world.answer(run)) matches Some((next, after)) && world.is_on_track(next)
            && crate::index::is_parsed(after),
{
    if run.stage is Fits {
        assert(run.candidate() == world.members[run.at]);
        crate::index::lemma_stays_parsed(
            cache,
            run.candidate(),
            ParsedView {
                fits_bytes: (world.fits)(run.candidate()).unwrap(),
                moc: world.stored_moc(run.candidate()).unwrap(),
            },
        );
    }
}

/// A lookup returns exactly the hits: when it is over, it has found the candidates whose stored
/// MOC contains the position, each with its metadata, in the order of the candidates, and each
/// once where no candidate is listed twice.
pub proof fn law_lookup_finds_the_hits(world: World, run: LookupView)
    requires
        world.is_on_track(run),
        run.stage is Over,
    ensures
        run.hits == world.hits_among(world.members.len() as int),
        forall|moc_id: Seq<char>|
            world.members.contains(moc_id) && #[trigger] world.is_hit(moc_id) ==> run.hits.contains(
                world.hit(moc_id),
            ),
        forall|i: int|
            0 <= i < run.hits.len() ==> {
                &&& world.members.contains((#[trigger] run.hits[i]).moc_id)
                &&& world.is_hit(run.hits[i].moc_id)
                &&& run.hits[i] == world.hit(run.hits[i].moc_id)
            },
        world.members.no_duplicates() ==> forall|i: int, j: int|
            0 <= i < j < run.hits.len() ==> run.hits[i].moc_id != run.hits[j].moc_id,
{
    lemma_hits_among(world, world.members.len() as int);
    if world.members.no_duplicates() {
        lemma_hits_differ(world, world.members.len() as int);
    }
    assert forall|moc_id: Seq<char>|
        world.members.contains(moc_id) && #[trigger] world.is_hit(moc_id) implies run.hits.contains(
        world.hit(moc_id),
    ) by {
        let i = choose|i: int| 0 <= i < world.members.len() && world.members[i] == moc_id;
        assert(run.hits.contains(world.hit(world.members[i])));
    }
}

/// The hits among the first candidates are those of them that are hits.
proof fn lemma_hits_among(world: World, count: int)
    requires
        0 <= count <= world.members.len(),
    ensures
        forall|i: int|
            0 <= i < count && world.is_hit(#[trigger] world.members[i]) ==> world.hits_among(
                count,
            ).contains(world.hit(world.members[i])),
        forall|i: int|
            0 <= i < world.hits_among(count).len() ==> {
                &&& world.members.contains((#[trigger] world.hits_among(count)[i]).moc_id)
                &&& world.is_hit(world.hits_among(count)[i].moc_id)
                &&& world.hits_among(count)[i] == world.hit(world.hits_among(count)[i].moc_id)
            },
    decreases count,
{
    if count > 0 {
        lemma_hits_among(world, count - 1);
        let before = world.hits_among(count - 1);
        let now = world.hits_among(count);
        let last = world.members[count - 1];
        assert forall|hit: HitView| before.contains(hit) implies now.contains(hit) by {
            let i = choose|i: int| 0 <= i < before.len() && before[i] == hit;
            assert(now[i] == hit);
        }
        if world.is_hit(last) {
            assert(now[before.len() as int] == world.hit(last));
        }
        assert forall|i: int|
            0 <= i < count && world.is_hit(#[trigger] world.members[i]) implies now.contains(
            world.hit(world.members[i]),
        ) by {
            if i < count - 1 {
                assert(before.contains(world.hit(world.members[i])));
            }
        }
        assert forall|i: int| 0 <= i < now.len() implies {
            &&& world.members.contains((#[trigger] now[i]).moc_id)
            &&& world.is_hit(now[i].moc_id)
            &&& now[i] == world.hit(now[i].moc_id)
        } by {
            if i < before.len() {
                assert(now[i] == before[i]);
            }
        }
    }
}

/// The hits among candidates that are listed once are among them, and differ.
proof fn lemma_hits_differ(world: World, count: int)
    requires
        0 <= count <= world.members.len(),
        world.members.no_duplicates(),
    ensures
        forall|i: int|
            0 <= i < world.hits_among(count).len() ==> exists|j: int|
                0 <= j < count && (#[trigger] world.hits_among(count)[i]).moc_id
                    == #[trigger] world.members[j],
        forall|i: int, j: int|
            0 <= i < j < world.hits_among(count).len() ==> world.hits_among(count)[i].moc_id
                != world.hits_among(count)[j].moc_id,
    decreases count,
{
    if count > 0 {
        lemma_hits_differ(world, count - 1);
        let before = world.hits_among(count - 1);
        let now = world.hits_among(count);
        assert forall|i: int| 0 <= i < now.len() implies exists|j: int|
            0 <= j < count && (#[trigger] now[i]).moc_id == #[trigger] world.members[j] by {
            if i < before.len() {
                assert(now[i] == before[i]);
                let j = choose|j: int|
                    0 <= j < count - 1 && before[i].moc_id == #[trigger] world.members[j];
                assert(now[i].moc_id == world.members[j]);
            } else {
                assert(now[i].moc_id == world.members[count - 1]);
            }
        }
        assert forall|i: int, j: int| 0 <= i < j < now.len() implies now[i].moc_id
            != now[j].moc_id by {
            assert(now[i] == before[i]);
            if j < before.len() {
                assert(now[j] == before[j]);
            } else {
                let k = choose|k: int|
                    0 <= k < count - 1 && before[i].moc_id == #[trigger] world.members[k];
                assert(now[j].moc_id == world.members[count - 1]);
            }
        }
    }
}

/// A lookup and the cache, once up to `answers` questions have been answered.
pub open spec fn driven(world: World, run: LookupView, cache: CacheView, answers: nat) -> Option<
    (LookupView, CacheView),
>
    decreases answers,
{
    if answers == 0 || run.stage is Over {
        Some((run, cache))
    } else {
        match run.advanced(cache, world.answer(run)) {
            Some((next, after)) => driven(world, next, after, (answers - 1) as nat),
            None => None,
        }
    }
}

/// A lookup that is on track and gets enough answers ends on track.
proof fn lemma_driven(world: World, run: LookupView, cache: CacheView, answers: nat)
    requires
        world.is_on_track(run),
        world.is_readable(),
        crate::index::is_parsed(cache),
        run.stage is Members ==> answers > 3 * world.members.len(),
        run.stage !is Members ==> answers >= answers_left(run),
    ensures
        driven(world, run, cache, answers) matches Some((end, after)) && end.stage is Over
            && world.is_on_track(end) && crate::index::is_parsed(after),
    decreases answers,
{
    if run.stage !is Over {
        if run.stage is Fits {
            assert(run.candidate() == world.members[run.at]);
        }
        law_lookup_stays_on_track(world, run, cache);
        let (next, after) = run.advanced(cache, world.answer(run)).unwrap();
        lemma_driven(world, next, after, (answers - 1) as nat);
    }
}

/// Every lookup finds what it should: with at most one answer for the candidates and three for
/// each of them it is over, and its hits are the candidates whose stored MOC contains the
/// position. What is in the cache makes no difference to that.
pub proof fn law_lookup_completes(world: World, cache: CacheView)
    requires
        world.is_readable(),
        crate::index::is_parsed(cache),
    ensures
        driven(world, LookupView::new(), cache, 3 * world.members.len() + 1) matches Some(
            (end, after),
        ) && {
            &&& end.stage is Over
            &&& end.hits == world.hits_among(world.members.len() as int)
            &&& world.is_on_track(end)
            &&& crate::index::is_parsed(after)
        },
{
    lemma_driven(world, LookupView::new(), cache, 3 * world.members.len() + 1);
}

/// Whether a lookup of the position in `pixel`, in an index of this depth, is answered from what
/// the store holds at time `now`. `decode` is how metadata is parsed.
pub open spec fn answered_from(
    world: World,
    store: Store,
    now: int,
    depth: u8,
    pixel: int,
    decode: spec_fn(Seq<u8>) -> Option<MetadataView>,
) -> bool {
    let cell = crate::healpix::cell_of(pixel, depth);
    &&& 0 <= pixel < crate::healpix::FULL_SKY
    &&& world.members.no_duplicates()
    &&& forall|moc_id: Seq<char>| #[trigger]
        world.members.contains(moc_id) <==> store.members(
            keys::cell_key_text(depth, cell as u64),
            now,
        ).contains(moc_id)
    &&& forall|moc_id: Seq<char>| #[trigger]
        (world.fits)(moc_id) == store.bytes(keys::fits_key_text(moc_id), now)
    &&& forall|moc_id: Seq<char>| #[trigger]
        (world.metadata)(moc_id) == match store.bytes(keys::meta_key_text(moc_id), now) {
            Some(json) => decode(json),
            None => None,
        }
    &&& forall|d: u8|
        d <= MAX_DEPTH ==> #[trigger] (world.cell)(d) as int == crate::healpix::cell_of(pixel, d)
}

/// Whoever answers questions, and sees nothing but the question: what there is at each key of
/// Valkey, how metadata is parsed, and which cell of each depth the position is in.
pub struct Oracle {
    pub members: spec_fn(Seq<char>) -> Seq<Seq<char>>,
    pub bytes: spec_fn(Seq<char>) -> Option<Seq<u8>>,
    pub decode: spec_fn(Seq<u8>) -> Option<MetadataView>,
    pub cell: spec_fn(u8) -> u64,
}

impl Oracle {
    /// The answer to a question, by the question alone.
    pub open spec fn answer(self, question: QuestionView) -> AnswerView {
        match question {
            QuestionView::Members { key } => AnswerView::Members((self.members)(key)),
            QuestionView::Fits { key } => AnswerView::Fits((self.bytes)(key)),
            QuestionView::Cell { depth } => AnswerView::Cell((self.cell)(depth)),
            QuestionView::Metadata { key } => AnswerView::Metadata(
                match (self.bytes)(key) {
                    Some(json) => (self.decode)(json),
                    None => None,
                },
            ),
            QuestionView::Nothing => AnswerView::Members(Seq::empty()),
        }
    }

    /// What these answers amount to for the candidates at `key`.
    pub open spec fn world(self, key: Seq<char>) -> World {
        World {
            members: (self.members)(key),
            fits: |moc_id: Seq<char>| (self.bytes)("mocidx:fits:"@ + moc_id),
            metadata: |moc_id: Seq<char>|
                match (self.bytes)("mocidx:meta:"@ + moc_id) {
                    Some(json) => (self.decode)(json),
                    None => None,
                },
            cell: self.cell,
        }
    }
}

/// A lookup and the cache, once up to `answers` questions have been answered: each question that the
/// lookup returns is answered by itself, until it asks for nothing.
pub open spec fn asked(
    oracle: Oracle,
    run: LookupView,
    question: QuestionView,
    cache: CacheView,
    answers: nat,
) -> Option<(LookupView, CacheView)>
    decreases answers,
{
    if answers == 0 || question is Nothing {
        Some((run, cache))
    } else {
        match run.advanced(cache, oracle.answer(question)) {
            Some((next, after)) => asked(
                oracle,
                next,
                next.question(),
                after,
                (answers - 1) as nat,
            ),
            None => None,
        }
    }
}

/// Every question asks for exactly what the lookup waits for: the FITS bytes of the candidate that
/// it looks at, the position's cell at the very depth of that candidate's MOC, or the metadata of
/// that candidate; and it asks for nothing once it is over.
pub proof fn law_questions_ask_for_what_is_awaited(run: LookupView)
    ensures
        run.stage is Fits ==> run.question() == (QuestionView::Fits {
            key: "mocidx:fits:"@ + run.candidates[run.at],
        }),
        run.stage is Cell ==> run.question() == (QuestionView::Cell {
            depth: run.moc.unwrap().depth_max,
        }),
        run.stage is Metadata ==> run.question() == (QuestionView::Metadata {
            key: "mocidx:meta:"@ + run.candidates[run.at],
        }),
        run.stage is Over ==> run.question() is Nothing,
{
}

/// The answer to the question that a lookup asks is one that it waits for, as long as the cells that
/// are answered exist.
pub proof fn law_answers_to_questions_are_awaited(oracle: Oracle, run: LookupView)
    requires
        run.well_formed(),
        run.stage !is Members,
        run.question() !is Nothing,
        forall|d: u8|
            d <= MAX_DEPTH ==> #[trigger] (oracle.cell)(d) < crate::healpix::cells_at(d),
    ensures
        run.awaits(oracle.answer(run.question())),
{
}

/// Answering the questions answers what the lookup waits for.
pub proof fn lemma_asked(
    oracle: Oracle,
    key: Seq<char>,
    run: LookupView,
    question: QuestionView,
    cache: CacheView,
    answers: nat,
)
    requires
        run.stage is Members ==> question == (QuestionView::Members { key }),
        run.stage !is Members ==> question == run.question(),
    ensures
        asked(oracle, run, question, cache, answers) == driven(
            oracle.world(key),
            run,
            cache,
            answers,
        ),
    decreases answers,
{
    law_questions_ask_for_what_is_awaited(run);
    if answers > 0 && run.stage !is Over {
        let world = oracle.world(key);
        assert(oracle.answer(question) == world.answer(run));
        if let Some((next, after)) = run.advanced(cache, world.answer(run)) {
            lemma_asked(oracle, key, next, next.question(), after, (answers - 1) as nat);
        }
    }
}

/// The hits among the first candidates are what is left of them without the others.
proof fn lemma_hits_filtered(
    world: World,
    count: int,
    is_hit: spec_fn(Seq<char>) -> bool,
    hit: spec_fn(Seq<char>) -> HitView,
)
    requires
        0 <= count <= world.members.len(),
        forall|moc_id: Seq<char>| #[trigger] is_hit(moc_id) == world.is_hit(moc_id),
        forall|moc_id: Seq<char>| #[trigger] hit(moc_id) == world.hit(moc_id),
    ensures
        world.hits_among(count) == world.members.take(count).filter(is_hit).map_values(hit),
    decreases count,
{
    reveal(Seq::filter);
    let now = world.members.take(count);
    if count > 0 {
        lemma_hits_filtered(world, count - 1, is_hit, hit);
        let before = world.members.take(count - 1);
        assert(now.drop_last() =~= before);
        assert(now.last() == world.members[count - 1]);
        assert(is_hit(now.last()) == world.is_hit(now.last()));
        if is_hit(now.last()) {
            assert(before.filter(is_hit).push(now.last()).map_values(hit) =~= before.filter(
                is_hit,
            ).map_values(hit).push(hit(now.last())));
        }
    }
    assert(world.hits_among(count) =~= now.filter(is_hit).map_values(hit));
}

/// A lookup whose questions are answered one by one finds what it should. Where what is stored of
/// the candidates can be read, it is over after at most one answer for the candidates and three for
/// each of them, and its hits are the candidates whose stored MOC contains the position, in their
/// order and each with its metadata. Where something stored cannot be read, it fails.
pub proof fn law_questions_lead_to_the_hits(
    oracle: Oracle,
    key: Seq<char>,
    cache: CacheView,
    is_hit: spec_fn(Seq<char>) -> bool,
    hit: spec_fn(Seq<char>) -> HitView,
)
    requires
        crate::index::is_parsed(cache),
        forall|moc_id: Seq<char>| #[trigger]
            is_hit(moc_id) == match (oracle.bytes)("mocidx:fits:"@ + moc_id) {
                Some(fits_bytes) => match crate::hpx_moc::moc_in_fits(fits_bytes) {
                    Some(moc) => crate::hpx_moc::precise_check(moc, (oracle.cell)(moc.depth_max)),
                    None => false,
                },
                None => false,
            },
        forall|moc_id: Seq<char>| #[trigger]
            hit(moc_id) == (HitView {
                moc_id,
                metadata: match (oracle.bytes)("mocidx:meta:"@ + moc_id) {
                    Some(json) => (oracle.decode)(json),
                    None => None,
                },
            }),
    ensures
        ({
            let members = (oracle.members)(key);
            let answered = asked(
                oracle,
                LookupView::new(),
                QuestionView::Members { key },
                cache,
                3 * members.len() + 1,
            );
            let readable = forall|i: int|
                0 <= i < members.len() ==> ((oracle.bytes)("mocidx:fits:"@ + #[trigger] members[i])
                    matches Some(fits_bytes) ==> crate::hpx_moc::moc_in_fits(fits_bytes) is Some);
            &&& readable ==> {
                &&& answered matches Some((end, after))
                &&& end.stage is Over
                &&& end.question() is Nothing
                &&& end.hits == members.filter(is_hit).map_values(hit)
                &&& crate::index::is_parsed(after)
            }
            &&& !readable ==> answered is None
        }),
{
    let world = oracle.world(key);
    let members = (oracle.members)(key);
    let answers = 3 * members.len() + 1;
    lemma_asked(
        oracle,
        key,
        LookupView::new(),
        QuestionView::Members { key },
        cache,
        answers,
    );
    let readable = forall|i: int|
        0 <= i < members.len() ==> ((oracle.bytes)("mocidx:fits:"@ + #[trigger] members[i])
            matches Some(fits_bytes) ==> crate::hpx_moc::moc_in_fits(fits_bytes) is Some);
    if readable {
        law_lookup_completes(world, cache);
        lemma_hits_filtered(world, members.len() as int, is_hit, hit);
        assert(members.take(members.len() as int) =~= members);
    } else {
        let i = choose|i: int|
            0 <= i < members.len() && !((oracle.bytes)("mocidx:fits:"@ + #[trigger] members[i])
                matches Some(fits_bytes) ==> crate::hpx_moc::moc_in_fits(fits_bytes) is Some);
        lemma_driven_fails(world, LookupView::new(), cache, answers, i);
    }
}

/// A lookup that is on track and comes to a candidate whose FITS bytes hold no MOC fails.
proof fn lemma_driven_fails(
    world: World,
    run: LookupView,
    cache: CacheView,
    answers: nat,
    bad: int,
)
    requires
        world.is_on_track(run),
        crate::index::is_parsed(cache),
        run.at <= bad < world.members.len(),
        (world.fits)(world.members[bad]) is Some,
        world.stored_moc(world.members[bad]) is None,
        run.stage is Members ==> answers > 3 * world.members.len(),
        run.stage !is Members ==> answers >= answers_left(run),
    ensures
        driven(world, run, cache, answers) is None,
    decreases answers,
{
    if run.stage is Fits {
        assert(run.candidate() == world.members[run.at]);
    }
    if !(run.stage is Fits && (world.fits)(run.candidate()) is Some && world.stored_moc(
        run.candidate(),
    ) is None) {
        law_lookup_stays_on_track(world, run, cache);
        let (next, after) = run.advanced(cache, world.answer(run)).unwrap();
        lemma_driven_fails(world, next, after, (answers - 1) as nat, bad);
    }
}

/// A question, an answer and a hit are viewed field by field.
pub proof fn law_questions_are_viewed_by_field(
    key: String,
    depth: u8,
    ids: Vec<String>,
    bytes: Vec<u8>,
    cell: u64,
    metadata: MocMetadata,
    hits: Seq<MocHit>,
    i: int,
)
    requires
        0 <= i < hits.len(),
    ensures
        (Question::Members { key })@ == (QuestionView::Members { key: key@ }),
        (Question::Fits { key })@ == (QuestionView::Fits { key: key@ }),
        (Question::Cell { depth })@ == (QuestionView::Cell { depth }),
        (Question::Metadata { key })@ == (QuestionView::Metadata { key: key@ }),
        Question::Nothing@ is Nothing,
        Answer::Members(ids)@ == AnswerView::Members(ids@.map_values(|id: String| id@)),
        Answer::Fits(Some(bytes))@ == AnswerView::Fits(Some(bytes@)),
        Answer::Fits(None)@ == AnswerView::Fits(None),
        Answer::Cell(cell)@ == AnswerView::Cell(cell),
        Answer::Metadata(Some(metadata))@ == AnswerView::Metadata(Some(metadata@)),
        Answer::Metadata(None)@ == AnswerView::Metadata(None),
        hit_views(hits).len() == hits.len(),
        hit_views(hits)[i].moc_id == hits[i].moc_id@,
        hit_views(hits)[i].metadata == match hits[i].metadata {
            Some(metadata) => Some(metadata@),
            None => None,
        },
{
    assert(crate::store::texts(ids@) =~= ids@.map_values(|id: String| id@));
}

/// What an answer does to the MOCs kept in process. A candidate that has expired is dropped; one with
/// FITS bytes is kept as parsed from these bytes; every other answer leaves the cache as it is. What
/// is found under other ids is what was found there before.
pub proof fn law_answers_keep_the_cache_true(
    run: LookupView,
    cache: CacheView,
    answer: AnswerView,
    other: Seq<char>,
)
    requires
        cache.capacity > 0,
        run.advanced(cache, answer) is Some,
    ensures
        ({
            let after = run.advanced(cache, answer).unwrap().1;
            let moc_id = run.candidates[run.at];
            &&& answer == AnswerView::Fits(None) ==> after.get(moc_id) is None
            &&& answer matches AnswerView::Fits(Some(bytes)) ==> (after.get(moc_id) matches Some(kept)
                && kept.fits_bytes == bytes)
            &&& answer !is Fits ==> after == cache
            &&& other != moc_id && after.get(other) is Some ==> after.get(other) == cache.get(other)
        }),
{
    let moc_id = run.candidates[run.at];
    crate::cache::law_dropping_keeps_the_others(cache, moc_id, moc_id);
    crate::cache::law_dropping_keeps_the_others(cache, moc_id, other);
    if let AnswerView::Fits(Some(fits_bytes)) = answer {
        let moc = crate::hpx_moc::moc_in_fits(fits_bytes).unwrap();
        crate::cache::law_loaded_moc_is_of_its_bytes(
            cache,
            moc_id,
            ParsedView { fits_bytes, moc },
            other,
        );
    }
}

} // verus!
