//! HEALPix MOCs: reading and writing them, and asking which cells they cover.
//!
//! A MOC (Multi-Order Coverage map) is a region of the sky. It is kept as intervals of pixels,
//! the cells of the deepest HEALPix depth, together with the depth of its smallest cells.
use crate::fits::{self, FitsForm};
use crate::healpix::{pixels_per_cell, MAX_DEPTH};
use moc::deser::fits::error::FitsError;
use moc::deser::fits::{from_fits_ivoa, MocIdxType, MocQtyType, MocType};
use moc::elem::range::MocRange;
use moc::elemset::range::MocRanges;
use moc::moc::range::RangeMOC;
use moc::moc::{CellMOCIntoIterator, CellMOCIterator, HasMaxDepth};
use moc::moc::{RangeMOCIntoIterator, RangeMOCIterator};
use moc::qty::Hpx;
use moc::ranges::{BorrowedRanges, SNORanges};
use std::io::{BufReader, Cursor};
use std::ops::Range;
#[allow(unused_imports)]
use vstd::arithmetic::div_mod::*;
#[allow(unused_imports)]
use vstd::arithmetic::power2::*;
use vstd::prelude::*;

verus! {

/// The error type of the FITS reader and writer of the `moc` crate.
#[verifier::external_type_specification]
#[verifier::external_body]
pub struct ExFitsError(FitsError);

/// A HEALPix MOC.
#[derive(Debug)]
pub struct HpxMoc {
    /// The depth of the smallest cells.
    pub depth_max: u8,
    /// The pixels covered, as half-open intervals in ascending order.
    pub ranges: Vec<Range<u64>>,
}

/// What a MOC is: its depth and its intervals of pixels.
pub struct MocView {
    pub depth_max: u8,
    pub ranges: Seq<Range<u64>>,
}

impl View for HpxMoc {
    type V = MocView;

    open spec fn view(&self) -> MocView {
        MocView { depth_max: self.depth_max, ranges: self.ranges@ }
    }
}

/// Why a MOC could not be read or written.
#[derive(Debug)]
pub enum MocError {
    /// The FITS reader panics on the file: see [`fits::readable_form`].
    Malformed,
    /// The file holds no spatial MOC with 64-bit indices.
    UnexpectedType,
    /// The FITS reader reported an error.
    Parse(FitsError),
    /// The FITS writer reported an error.
    Serialize(FitsError),
}

/// Whether one of the intervals holds `pixel`.
pub open spec fn covers(ranges: Seq<Range<u64>>, pixel: int) -> bool {
    exists|i: int| 0 <= i < ranges.len() && (#[trigger] ranges[i]).start <= pixel < ranges[i].end
}

/// Whether every interval holds a pixel, and pixels of the sky only.
pub open spec fn on_the_sky(ranges: Seq<Range<u64>>) -> bool {
    forall|i: int|
        0 <= i < ranges.len() ==> (#[trigger] ranges[i]).start < ranges[i].end
            <= crate::healpix::FULL_SKY
}

/// Whether the intervals are in ascending order, with a gap between any two.
pub open spec fn separated(ranges: Seq<Range<u64>>) -> bool {
    forall|i: int, j: int|
        0 <= i < j < ranges.len() ==> (#[trigger] ranges[i]).end < (#[trigger] ranges[j]).start
}

/// Whether every interval is made of whole cells of depth `depth`.
pub open spec fn aligned(ranges: Seq<Range<u64>>, depth: u8) -> bool {
    forall|i: int|
        0 <= i < ranges.len() ==> (#[trigger] ranges[i]).start as int
            % crate::healpix::cell_width(depth) == 0 && ranges[i].end as int
            % crate::healpix::cell_width(depth) == 0
}

impl MocView {
    /// What makes intervals a MOC: a depth that exists, and intervals of the sky in ascending
    /// order with a gap between any two.
    pub open spec fn consistent(self) -> bool {
        &&& self.depth_max <= MAX_DEPTH
        &&& on_the_sky(self.ranges)
        &&& separated(self.ranges)
    }

    /// Whether the MOC covers a pixel of this cell.
    pub open spec fn touches(self, depth: u8, cell: int) -> bool {
        exists|pixel: int| #[trigger]
            covers(self.ranges, pixel) && crate::healpix::cell_of(pixel, depth) == cell
    }

    /// Whether the MOC covers every pixel of this cell.
    pub open spec fn contains(self, depth: u8, cell: int) -> bool {
        forall|pixel: int|
            crate::healpix::cell_of(pixel, depth) == cell ==> #[trigger] covers(self.ranges, pixel)
    }

    /// Whether `cells` lists, in ascending order, the cells of depth `depth` that the MOC touches.
    pub open spec fn lists_touched_cells(self, depth: u8, cells: Seq<u64>) -> bool {
        &&& forall|i: int, j: int| 0 <= i < j < cells.len() ==> cells[i] < cells[j]
        &&& forall|cell: u64| #[trigger] cells.contains(cell) <==> self.touches(depth, cell as int)
    }

    /// The cells of depth `depth` that the MOC touches, in ascending order.
    pub open spec fn touched_cells(self, depth: u8) -> Seq<u64> {
        choose|cells: Seq<u64>| self.lists_touched_cells(depth, cells)
    }
}

/// What the FITS reader makes of a file.
pub enum FitsReading {
    /// It reports an error.
    Unreadable,
    /// It finds something other than a spatial MOC with 64-bit indices.
    Other,
    /// It finds a MOC, with the depth that the header gives.
    Moc { depth: u8, ranges: Seq<Range<u64>> },
}

/// What `moc::deser::fits::from_fits_ivoa` makes of these bytes.
pub uninterp spec fn fits_reading(bytes: Seq<u8>) -> FitsReading;

/// The bytes that `moc::moc::RangeMOCIterator::to_fits_ivoa` writes for these intervals.
pub uninterp spec fn fits_encoding(depth: u8, ranges: Seq<Range<u64>>) -> Seq<u8>;

/// Whether `moc::ranges::SNORanges::contains_range` finds the cell in these intervals.
pub uninterp spec fn range_found(ranges: Seq<Range<u64>>, depth: u8, cell: u64) -> bool;

/// What was found in a FITS file.
#[derive(Debug)]
pub enum FitsContent {
    /// Something other than a spatial MOC with 64-bit indices.
    Other,
    /// A MOC, with the depth that the header gives.
    Moc { depth: u8, ranges: Vec<Range<u64>> },
}

impl FitsContent {
    /// This content, as what the FITS reader makes of a file.
    pub open spec fn reading(self) -> FitsReading {
        match self {
            FitsContent::Other => FitsReading::Other,
            FitsContent::Moc { depth, ranges } => FitsReading::Moc { depth, ranges: ranges@ },
        }
    }
}

/// The MOC that a reading of a file gives, if any. A depth that does not exist counts as the
/// deepest one.
pub open spec fn moc_of_reading(reading: FitsReading) -> Option<MocView> {
    match reading {
        FitsReading::Moc { depth, ranges } => Some(
            MocView {
                depth_max: if depth <= MAX_DEPTH {
                    depth
                } else {
                    MAX_DEPTH
                },
                ranges,
            },
        ),
        _ => None,
    }
}

/// What is made of a file: a reading, or nothing where the reader panics on it.
///
/// NUNIQ rows that code no cell are skipped. A file that declares more rows than can be addressed
/// is read without them: where that gives intervals or cells, the reader would panic.
pub open spec fn outcome(bytes: Seq<u8>) -> Option<FitsReading> {
    if fits::header_panics(bytes) {
        None
    } else if fits::declares_too_many(bytes) {
        match fits_reading(fits::uncounted(bytes)) {
            FitsReading::Unreadable => Some(FitsReading::Unreadable),
            FitsReading::Other if !fits::holds_nuniq(bytes) => Some(FitsReading::Other),
            _ => None,
        }
    } else if fits::holds_rootless_rows(bytes) {
        Some(fits_reading(fits::mended(bytes)))
    } else {
        Some(fits_reading(bytes))
    }
}

/// The MOC that these bytes hold, if any.
pub open spec fn moc_in_fits(bytes: Seq<u8>) -> Option<MocView> {
    match outcome(bytes) {
        Some(reading) => moc_of_reading(reading),
        None => None,
    }
}

impl MocError {
    /// Whether this is the error on these bytes, which hold no MOC.
    pub open spec fn refuses(self, bytes: Seq<u8>) -> bool {
        match self {
            MocError::Malformed => outcome(bytes) is None,
            MocError::UnexpectedType => outcome(bytes) == Some(FitsReading::Other),
            MocError::Parse(_) => outcome(bytes) == Some(FitsReading::Unreadable),
            MocError::Serialize(_) => false,
        }
    }
}

/// Calls `moc::deser::fits::from_fits_ivoa` and collects the intervals of a spatial MOC with
/// 64-bit indices, whether the file codes intervals or cells.
///
/// Claims that the outcome is [`fits_reading`] of the bytes. The bytes have to be loadable: on
/// others the reader panics.
#[verifier::external_body]
fn read_fits(bytes: &[u8]) -> (res: Result<FitsContent, FitsError>)
    requires
        fits::loadable(bytes@),
    ensures
        match res {
            Ok(content) => content.reading() == fits_reading(bytes@),
            Err(_) => fits_reading(bytes@) == FitsReading::Unreadable,
        },
{
    match from_fits_ivoa(BufReader::new(Cursor::new(bytes))) {
        Ok(MocIdxType::U64(MocQtyType::Hpx(MocType::Ranges(moc)))) => {
            Ok(FitsContent::Moc { depth: moc.depth_max(), ranges: moc.collect() })
        },
        Ok(MocIdxType::U64(MocQtyType::Hpx(MocType::Cells(moc)))) => {
            let depth: u8 = moc.depth_max();
            Ok(FitsContent::Moc { depth, ranges: moc.into_cell_moc_iter().ranges().collect() })
        },
        Ok(_) => Ok(FitsContent::Other),
        Err(e) => Err(e),
    }
}

/// Calls `moc::moc::RangeMOCIterator::to_fits_ivoa` with a `Vec` as the writer, which takes all
/// bytes it is given.
///
/// Claims that it succeeds, that the bytes are [`fits_encoding`] of the MOC, and that the FITS
/// reader can be given them and finds that MOC in them: the header holds the depth, and every
/// interval is written and read back as two big-endian numbers.
#[verifier::external_body]
fn write_fits(moc: &HpxMoc) -> (res: Result<Vec<u8>, FitsError>)
    requires
        moc.depth_max <= MAX_DEPTH,
    ensures
        res is Ok,
        res->Ok_0@ == fits_encoding(moc.depth_max, moc.ranges@),
        fits::loadable(res->Ok_0@),
        fits_reading(res->Ok_0@) == (FitsReading::Moc {
            depth: moc.depth_max,
            ranges: moc.ranges@,
        }),
{
    let mut buf: Vec<u8> = Vec::new();
    let ranges = MocRanges::<u64, Hpx<u64>>::new_unchecked(moc.ranges.clone());
    RangeMOC::new(moc.depth_max, ranges).into_range_moc_iter().to_fits_ivoa(None, None, &mut buf)?;
    Ok(buf)
}

/// Calls `moc::ranges::SNORanges::contains_range` on the intervals, with the pixels of the cell.
///
/// Claims that the answer is [`range_found`] of the arguments and that, for intervals in ascending
/// order with a gap between any two, it tells whether they hold all the pixels of the cell. Of
/// other intervals the outside function, a binary search, says nothing.
#[verifier::external_body]
fn contains_range(ranges: &Vec<Range<u64>>, depth: u8, cell: u64) -> (res: bool)
    requires
        depth <= MAX_DEPTH,
        cell < crate::healpix::cells_at(depth),
    ensures
        res == range_found(ranges@, depth, cell),
        on_the_sky(ranges@) && separated(ranges@) ==> res == (MocView {
            depth_max: depth,
            ranges: ranges@,
        }).contains(depth, cell as int),
{
    let pixels = MocRange::<u64, Hpx<u64>>::from((depth, cell)).0;
    BorrowedRanges(ranges.as_slice()).contains_range(&pixels)
}

/// Calls `moc::moc::range::RangeMOC::degraded` on the MOC.
///
/// Claims that the intervals that come out are again those of a MOC, are made of whole cells of
/// depth `depth`, and cover exactly the pixels of the cells of that depth that the MOC touches.
#[verifier::external_body]
fn degraded(moc: &HpxMoc, depth: u8) -> (res: Vec<Range<u64>>)
    requires
        moc@.consistent(),
        depth <= MAX_DEPTH,
    ensures
        on_the_sky(res@),
        separated(res@),
        aligned(res@, depth),
        forall|pixel: int| #[trigger]
            covers(res@, pixel) <==> moc@.touches(depth, crate::healpix::cell_of(pixel, depth)),
{
    let ranges = MocRanges::<u64, Hpx<u64>>::new_unchecked(moc.ranges.clone());
    RangeMOC::new(moc.depth_max, ranges).degraded(depth).into_moc_ranges().into_ranges().0.into_vec()
}

impl HpxMoc {
    /// Whether the intervals are in ascending order with a gap between any two, on the sky, and
    /// the depth exists.
    pub fn is_consistent(&self) -> (res: bool)
        ensures
            res == self@.consistent(),
    {
        if self.depth_max > MAX_DEPTH {
            return false;
        }
        let mut i: usize = 0;
        while i < self.ranges.len()
            invariant
                i <= self.ranges.len(),
                forall|k: int|
                    0 <= k < i ==> (#[trigger] self.ranges@[k]).start < self.ranges@[k].end
                        <= crate::healpix::FULL_SKY,
                forall|k: int, l: int|
                    0 <= k < l < i ==> (#[trigger] self.ranges@[k]).end < (
                    #[trigger] self.ranges@[l]).start,
            decreases self.ranges.len() - i,
        {
            if self.ranges[i].start >= self.ranges[i].end || self.ranges[i].end
                > crate::healpix::FULL_SKY {
                return false;
            }
            if i > 0 && self.ranges[i - 1].end >= self.ranges[i].start {
                return false;
            }
            i += 1;
        }
        true
    }
}

/// What intervals cover when one more is put among them, in place of those from `first` to `next`
/// that it meets.
proof fn lemma_merged(
    ranges: Seq<Range<u64>>,
    first: int,
    next: int,
    range: Range<u64>,
    merged: Range<u64>,
)
    requires
        on_the_sky(ranges),
        separated(ranges),
        0 <= first <= next <= ranges.len(),
        range.start < range.end <= crate::healpix::FULL_SKY,
        first > 0 ==> ranges[first - 1].end < range.start,
        next < ranges.len() ==> range.end < ranges[next].start,
        first < next ==> ranges[first].end >= range.start && ranges[next - 1].start <= range.end,
        merged.start == if first < next && ranges[first].start < range.start {
            ranges[first].start
        } else {
            range.start
        },
        merged.end == if first < next && ranges[next - 1].end > range.end {
            ranges[next - 1].end
        } else {
            range.end
        },
    ensures
        ({
            let res = ranges.take(first).push(merged) + ranges.skip(next);
            &&& on_the_sky(res)
            &&& separated(res)
            &&& forall|pixel: int| #[trigger]
                covers(res, pixel) <==> covers(ranges, pixel) || range.start <= pixel < range.end
        }),
{
    let res = ranges.take(first).push(merged) + ranges.skip(next);
    assert forall|i: int| 0 <= i < res.len() implies #[trigger] res[i] == if i < first {
        ranges[i]
    } else if i == first {
        merged
    } else {
        ranges[i - first - 1 + next]
    } by {}
    assert(merged.start < merged.end <= crate::healpix::FULL_SKY);
    assert(first > 0 ==> ranges[first - 1].end < merged.start);
    assert(next < ranges.len() ==> merged.end < ranges[next].start);
    assert forall|i: int, j: int| 0 <= i < j < res.len() implies (#[trigger] res[i]).end < (
    #[trigger] res[j]).start by {
        if i < first && j == first {
            assert(ranges[i].end <= ranges[first - 1].end) by {
                if i < first - 1 {
                    assert(ranges[i].end < ranges[first - 1].start);
                }
            }
        }
        if i == first {
            let k = j - first - 1 + next;
            assert(ranges[next].start <= ranges[k].start) by {
                if next < k {
                    assert(ranges[next].end < ranges[k].start);
                }
            }
        }
    }
    assert forall|pixel: int| #[trigger]
        covers(res, pixel) <==> covers(ranges, pixel) || range.start <= pixel < range.end by {
        if range.start <= pixel < range.end {
            assert(res[first].start <= pixel < res[first].end);
        }
        if covers(ranges, pixel) {
            let i = choose|i: int|
                0 <= i < ranges.len() && (#[trigger] ranges[i]).start <= pixel < ranges[i].end;
            if i < first {
                assert(res[i] == ranges[i]);
            } else if i >= next {
                assert(res[i - next + first + 1] == ranges[i]);
            } else {
                assert(ranges[first].start <= ranges[i].start) by {
                    if first < i {
                        assert(ranges[first].end < ranges[i].start);
                    }
                }
                assert(ranges[i].end <= ranges[next - 1].end) by {
                    if i < next - 1 {
                        assert(ranges[i].end < ranges[next - 1].start);
                    }
                }
                assert(res[first].start <= pixel < res[first].end);
            }
        }
        if covers(res, pixel) {
            let i = choose|i: int|
                0 <= i < res.len() && (#[trigger] res[i]).start <= pixel < res[i].end;
            if i < first {
                assert(ranges[i].start <= pixel < ranges[i].end);
            } else if i > first {
                assert(ranges[i - first - 1 + next].start <= pixel < ranges[i - first - 1
                    + next].end);
            } else if first < next && pixel < range.start {
                assert(ranges[first].start <= pixel < ranges[first].end);
            } else if first < next && pixel >= range.end {
                assert(ranges[next - 1].start <= pixel < ranges[next - 1].end);
            }
        }
    }
}

/// Puts one more interval among intervals in ascending order, merging it with those that it meets.
fn put_range(ranges: &mut Vec<Range<u64>>, start: u64, end: u64)
    requires
        on_the_sky(old(ranges)@),
        separated(old(ranges)@),
        start < end <= crate::healpix::FULL_SKY,
    ensures
        on_the_sky(final(ranges)@),
        separated(final(ranges)@),
        forall|pixel: int| #[trigger]
            covers(final(ranges)@, pixel) <==> covers(old(ranges)@, pixel) || start <= pixel < end,
{
    let ghost before = ranges@;
    let mut next: usize = ranges.len();
    while next > 0 && ranges[next - 1].start > end
        invariant
            ranges@ == before,
            next <= ranges.len(),
            next < ranges.len() ==> end < ranges@[next as int].start,
        decreases next,
    {
        next -= 1;
    }
    let mut first: usize = next;
    while first > 0 && ranges[first - 1].end >= start
        invariant
            ranges@ == before,
            on_the_sky(before),
            separated(before),
            first <= next <= ranges.len(),
            next > 0 ==> ranges@[next - 1].start <= end,
            first < next ==> ranges@[first as int].end >= start,
        decreases first,
    {
        first -= 1;
    }
    let merged_start: u64 = if first < next && ranges[first].start < start {
        ranges[first].start
    } else {
        start
    };
    let merged_end: u64 = if first < next && ranges[next - 1].end > end {
        ranges[next - 1].end
    } else {
        end
    };
    proof {
        lemma_merged(
            before,
            first as int,
            next as int,
            start..end,
            merged_start..merged_end,
        );
    }
    let mut tail: Vec<Range<u64>> = ranges.split_off(next);
    ranges.truncate(first);
    ranges.push(merged_start..merged_end);
    ranges.append(&mut tail);
    assert(ranges@ =~= before.take(first as int).push(merged_start..merged_end) + before.skip(
        next as int,
    ));
}

impl HpxMoc {
    /// The MOC of the same pixels and depth with its intervals in order: ascending, merged where
    /// they meet, without empty ones and without what lies beyond the sky.
    pub fn ordered(&self) -> (res: HpxMoc)
        requires
            self.depth_max <= MAX_DEPTH,
        ensures
            res.depth_max == self.depth_max,
            res@.consistent(),
            forall|pixel: int| #[trigger]
                covers(res.ranges@, pixel) <==> covers(self.ranges@, pixel) && pixel
                    < crate::healpix::FULL_SKY,
    {
        let mut ranges: Vec<Range<u64>> = Vec::new();
        let mut i: usize = 0;
        while i < self.ranges.len()
            invariant
                i <= self.ranges.len(),
                on_the_sky(ranges@),
                separated(ranges@),
                forall|pixel: int| #[trigger]
                    covers(ranges@, pixel) <==> covers(self.ranges@.take(i as int), pixel) && pixel
                        < crate::healpix::FULL_SKY,
            decreases self.ranges.len() - i,
        {
            let start: u64 = self.ranges[i].start;
            let end: u64 = if self.ranges[i].end > crate::healpix::FULL_SKY {
                crate::healpix::FULL_SKY
            } else {
                self.ranges[i].end
            };
            let ghost before = ranges@;
            if start < end {
                put_range(&mut ranges, start, end);
            }
            proof {
                let seen = self.ranges@.take(i as int);
                let now = self.ranges@.take(i + 1);
                assert forall|pixel: int| #[trigger]
                    covers(now, pixel) <==> covers(seen, pixel) || self.ranges@[i as int].start
                        <= pixel < self.ranges@[i as int].end by {
                    assert(now[i as int] == self.ranges@[i as int]);
                    if covers(seen, pixel) {
                        let k = choose|k: int|
                            0 <= k < seen.len() && (#[trigger] seen[k]).start <= pixel
                                < seen[k].end;
                        assert(now[k] == seen[k]);
                    }
                    if covers(now, pixel) {
                        let k = choose|k: int|
                            0 <= k < now.len() && (#[trigger] now[k]).start <= pixel < now[k].end;
                        assert(k < i ==> seen[k] == now[k]);
                    }
                }
                assert forall|pixel: int| #[trigger]
                    covers(ranges@, pixel) <==> covers(now, pixel) && pixel
                        < crate::healpix::FULL_SKY by {
                    assert(covers(before, pixel) <==> covers(seen, pixel) && pixel
                        < crate::healpix::FULL_SKY);
                }
            }
            i += 1;
        }
        assert(self.ranges@.take(i as int) =~= self.ranges@);
        HpxMoc { depth_max: self.depth_max, ranges }
    }
}

/// Serializes a MOC to IVOA MOC FITS bytes, fit for caching and for parsing again with
/// [`moc_from_fits_bytes`].
///
/// Parsing the bytes gives the MOC back.
pub fn moc_to_fits_bytes(moc: &HpxMoc) -> (res: Result<Vec<u8>, MocError>)
    requires
        moc.depth_max <= MAX_DEPTH,
    ensures
        res matches Ok(bytes) && {
            &&& bytes@ == fits_encoding(moc.depth_max, moc.ranges@)
            &&& moc_in_fits(bytes@) == Some(moc@)
        },
{
    match write_fits(moc) {
        Ok(bytes) => Ok(bytes),
        Err(e) => Err(MocError::Serialize(e)),
    }
}

/// The MOC in what was found in a FITS file. A depth that does not exist counts as the deepest
/// one.
pub fn moc_from_fits_content(content: FitsContent) -> (res: Result<HpxMoc, MocError>)
    ensures
        match res {
            Ok(moc) => moc_of_reading(content.reading()) == Some(moc@),
            Err(e) => e is UnexpectedType && content is Other,
        },
        content is Moc ==> res is Ok,
{
    match content {
        FitsContent::Moc { depth, ranges } => {
            let depth_max: u8 = if depth <= MAX_DEPTH {
                depth
            } else {
                MAX_DEPTH
            };
            Ok(HpxMoc { depth_max, ranges })
        },
        FitsContent::Other => Err(MocError::UnexpectedType),
    }
}

/// Parses a MOC from IVOA FITS bytes. Bytes on which the FITS reader panics are an error.
pub fn moc_from_fits_bytes(bytes: &[u8]) -> (res: Result<HpxMoc, MocError>)
    ensures
        match res {
            Ok(moc) => moc_in_fits(bytes@) == Some(moc@) && moc.depth_max <= MAX_DEPTH,
            Err(e) => e.refuses(bytes@),
        },
        res is Ok <==> moc_in_fits(bytes@) is Some,
{
    let content: Result<FitsContent, FitsError> = match fits::readable_form(bytes) {
        FitsForm::Plain => read_fits(bytes),
        FitsForm::Mended(form) => read_fits(form.as_slice()),
        FitsForm::Unreadable => {
            return Err(MocError::Malformed);
        },
        FitsForm::Uncounted { bytes: form, nuniq } => match read_fits(form.as_slice()) {
            Ok(FitsContent::Other) if !nuniq => Ok(FitsContent::Other),
            Ok(_) => {
                return Err(MocError::Malformed);
            },
            Err(e) => Err(e),
        },
    };
    match content {
        Ok(content) => moc_from_fits_content(content),
        Err(e) => Err(MocError::Parse(e)),
    }
}

/// How a HEALPix skymap FITS file can code the probability on the sky.
#[derive(Debug, Clone, Copy, PartialEq, Eq, Structural)]
pub enum SkymapFormat {
    /// Several resolutions, one row per NUNIQ cell (the BAYESTAR / LVK format).
    MultiOrder,
    /// A single resolution, one row per pixel in NESTED order.
    Implicit,
}

/// Which format to parse a skymap as, after the attempt at `failed` has failed. A skymap is parsed
/// as multi-order first, which fails fast on other input, then as implicit. After that there is
/// nothing left to try.
pub fn next_skymap_format(failed: Option<SkymapFormat>) -> (res: Option<SkymapFormat>)
    ensures
        failed is None ==> res == Some(SkymapFormat::MultiOrder),
        failed == Some(SkymapFormat::MultiOrder) ==> res == Some(SkymapFormat::Implicit),
        failed == Some(SkymapFormat::Implicit) ==> res is None,
{
    match failed {
        None => Some(SkymapFormat::MultiOrder),
        Some(SkymapFormat::MultiOrder) => Some(SkymapFormat::Implicit),
        Some(SkymapFormat::Implicit) => None,
    }
}

/// What the precise check of [`is_in_moc`] says of a cell at the MOC's own depth: whether the MOC
/// contains it. Of intervals that are no consistent MOC it says what the search in them finds.
pub open spec fn precise_check(moc: MocView, cell: u64) -> bool {
    if moc.consistent() {
        moc.contains(moc.depth_max, cell as int)
    } else {
        range_found(moc.ranges, moc.depth_max, cell)
    }
}

/// Precise point-in-MOC check: whether the MOC contains the point whose cell at the MOC's own
/// depth is `cell`.
pub fn is_in_moc(moc: &HpxMoc, cell: u64) -> (res: bool)
    requires
        moc.depth_max <= MAX_DEPTH,
        cell < crate::healpix::cells_at(moc.depth_max),
    ensures
        res == precise_check(moc@, cell),
{
    contains_range(&moc.ranges, moc.depth_max, cell)
}

/// Where a boundary between cells lies, in cells and in pixels.
proof fn lemma_boundary(bound: u64, depth: u8, cell: int)
    requires
        depth <= MAX_DEPTH,
        bound as int % crate::healpix::cell_width(depth) == 0,
    ensures
        bound <= cell * crate::healpix::cell_width(depth) <==> bound as int
            / crate::healpix::cell_width(depth) <= cell,
{
    crate::healpix::lemma_cells_tile_the_sky(depth);
    let w = crate::healpix::cell_width(depth);
    lemma_fundamental_div_mod(bound as int, w);
    let q = bound as int / w;
    assert(q * w <= cell * w <==> q <= cell) by (nonlinear_arith)
        requires
            w > 0,
    ;
    assert(w * q == q * w) by (nonlinear_arith);
}

/// Two ascending lists of the touched cells are the same list.
proof fn lemma_touched_cells_unique(moc: MocView, depth: u8, a: Seq<u64>, b: Seq<u64>)
    requires
        moc.lists_touched_cells(depth, a),
        moc.lists_touched_cells(depth, b),
    ensures
        a == b,
{
    lemma_ascending_rank(a, b);
    lemma_ascending_rank(b, a);
    assert forall|i: int| 0 <= i < a.len() implies a[i] == b[i] by {
        lemma_ascending_prefix(a, b, i);
    }
}

/// An ascending list is no longer than another one that holds all its elements.
proof fn lemma_ascending_rank(a: Seq<u64>, b: Seq<u64>)
    requires
        forall|i: int, j: int| 0 <= i < j < a.len() ==> a[i] < a[j],
        forall|i: int, j: int| 0 <= i < j < b.len() ==> b[i] < b[j],
        forall|cell: u64| a.contains(cell) ==> #[trigger] b.contains(cell),
    ensures
        a.len() <= b.len(),
{
    if a.len() > 0 {
        lemma_ascending_places(a, b, a.len() - 1);
    }
}

/// The element at place `i` of an ascending list stands at place `i` or later in another ascending
/// list that holds all its elements.
proof fn lemma_ascending_places(a: Seq<u64>, b: Seq<u64>, i: int)
    requires
        0 <= i < a.len(),
        forall|i: int, j: int| 0 <= i < j < a.len() ==> a[i] < a[j],
        forall|i: int, j: int| 0 <= i < j < b.len() ==> b[i] < b[j],
        forall|cell: u64| a.contains(cell) ==> #[trigger] b.contains(cell),
    ensures
        exists|j: int| i <= j < b.len() && b[j] == a[i],
    decreases i,
{
    assert(b.contains(a[i]));
    let j = choose|j: int| 0 <= j < b.len() && b[j] == a[i];
    if i > 0 {
        lemma_ascending_places(a, b, i - 1);
        let k = choose|k: int| i - 1 <= k < b.len() && b[k] == a[i - 1];
        if j <= k {
            assert(b[j] <= b[k]);
        }
    }
}

/// Ascending lists with the same elements agree at every place.
proof fn lemma_ascending_prefix(a: Seq<u64>, b: Seq<u64>, i: int)
    requires
        0 <= i < a.len(),
        a.len() == b.len(),
        forall|i: int, j: int| 0 <= i < j < a.len() ==> a[i] < a[j],
        forall|i: int, j: int| 0 <= i < j < b.len() ==> b[i] < b[j],
        forall|cell: u64| #[trigger] a.contains(cell) <==> b.contains(cell),
    ensures
        a[i] == b[i],
{
    lemma_ascending_places(a, b, i);
    lemma_ascending_places(b, a, i);
    let j = choose|j: int| i <= j < b.len() && b[j] == a[i];
    let k = choose|k: int| i <= k < a.len() && a[k] == b[i];
    assert(b[i] <= b[j]);
    assert(a[i] <= a[k]);
}

/// Lists the HEALPix cells (NESTED, at `target_depth`) that the MOC touches when degraded to that
/// depth, in ascending order. The meta-index populates its inverted index from them.
pub fn degraded_cells_at_depth(moc: &HpxMoc, target_depth: u8) -> (res: Vec<u64>)
    requires
        moc@.consistent(),
        target_depth <= MAX_DEPTH,
    ensures
        moc@.lists_touched_cells(target_depth, res@),
        res@ == moc@.touched_cells(target_depth),
{
    let ranges: Vec<Range<u64>> = degraded(moc, target_depth);
    let width: u64 = pixels_per_cell(target_depth);
    let mut cells: Vec<u64> = Vec::new();
    let mut i: usize = 0;
    while i < ranges.len()
        invariant
            i <= ranges.len(),
            target_depth <= MAX_DEPTH,
            width == crate::healpix::cell_width(target_depth),
            width > 0,
            separated(ranges@),
            aligned(ranges@, target_depth),
            forall|j: int, k: int| 0 <= j < k < cells.len() ==> cells@[j] < cells@[k],
            forall|cell: u64| #[trigger]
                cells@.contains(cell) <==> covers(ranges@.take(i as int), cell * width),
        decreases ranges.len() - i,
    {
        let first: u64 = ranges[i].start / width;
        let end: u64 = ranges[i].end / width;
        let mut cell: u64 = first;
        let ghost before = cells@;
        proof {
            assert forall|c: u64| before.contains(c) implies c < first by {
                lemma_boundary(ranges@[i as int].start, target_depth, c as int);
                let k = choose|k: int|
                    0 <= k < i && (#[trigger] ranges@.take(i as int)[k]).start <= c * width
                        < ranges@.take(i as int)[k].end;
                assert(ranges@[k].end < ranges@[i as int].start);
            }
            assert(cells@ =~= before);
        }
        while cell < end
            invariant
                first <= cell,
                cell <= end || cell == first,
                forall|c: u64| before.contains(c) ==> c < first,
                forall|j: int, k: int| 0 <= j < k < cells.len() ==> cells@[j] < cells@[k],
                forall|c: u64| #[trigger]
                    cells@.contains(c) <==> before.contains(c) || first <= c < cell,
            decreases end - cell,
        {
            let ghost prior = cells@;
            assert forall|j: int| 0 <= j < prior.len() implies prior[j] < cell by {
                assert(prior.contains(prior[j]));
            }
            cells.push(cell);
            proof {
                assert forall|c: u64| #[trigger]
                    cells@.contains(c) <==> before.contains(c) || first <= c < cell + 1 by {
                    assert(cells@[cells@.len() - 1] == cell);
                    if prior.contains(c) {
                        let j = choose|j: int| 0 <= j < prior.len() && prior[j] == c;
                        assert(cells@[j] == c);
                    }
                    if cells@.contains(c) {
                        let j = choose|j: int| 0 <= j < cells@.len() && cells@[j] == c;
                        assert(j < prior.len() ==> prior[j] == c);
                    }
                }
            }
            cell += 1;
        }
        proof {
            assert forall|c: u64| #[trigger]
                cells@.contains(c) <==> covers(ranges@.take(i + 1), c * width) by {
                let seen = ranges@.take(i as int);
                let now = ranges@.take(i + 1);
                lemma_boundary(ranges@[i as int].start, target_depth, c as int);
                lemma_boundary(ranges@[i as int].end, target_depth, c as int);
                assert(now[i as int] == ranges@[i as int]);
                if covers(seen, c * width) {
                    let k = choose|k: int|
                        0 <= k < seen.len() && (#[trigger] seen[k]).start <= c * width
                            < seen[k].end;
                    assert(now[k] == seen[k]);
                }
                if covers(now, c * width) {
                    let k = choose|k: int|
                        0 <= k < now.len() && (#[trigger] now[k]).start <= c * width
                            < now[k].end;
                    assert(k < i ==> seen[k] == now[k]);
                }
            }
        }
        i += 1;
    }
    proof {
        assert(ranges@.take(i as int) == ranges@);
        assert forall|c: u64| #[trigger]
            cells@.contains(c) <==> moc@.touches(target_depth, c as int) by {
            let w = crate::healpix::cell_width(target_depth);
            crate::healpix::lemma_pixel_in_cell(c * w, target_depth, c as int);
            assert((c + 1) * w == c * w + w) by (nonlinear_arith);
        }
        lemma_touched_cells_unique(
            moc@,
            target_depth,
            cells@,
            moc@.touched_cells(target_depth),
        );
    }
    cells
}

/// The touched cells below `bound` can be listed in ascending order.
proof fn lemma_touched_cells_below(moc: MocView, depth: u8, bound: u64) -> (cells: Seq<u64>)
    ensures
        forall|i: int, j: int| 0 <= i < j < cells.len() ==> cells[i] < cells[j],
        forall|cell: u64| #[trigger]
            cells.contains(cell) <==> cell < bound && moc.touches(depth, cell as int),
    decreases bound,
{
    if bound == 0 {
        Seq::empty()
    } else {
        let last = (bound - 1) as u64;
        let before = lemma_touched_cells_below(moc, depth, last);
        if moc.touches(depth, last as int) {
            let cells = before.push(last);
            assert forall|i: int| 0 <= i < before.len() implies before[i] < last by {
                assert(before.contains(before[i]));
            }
            assert forall|cell: u64| #[trigger]
                cells.contains(cell) <==> cell < bound && moc.touches(depth, cell as int) by {
                assert(cells[before.len() as int] == last);
                if before.contains(cell) {
                    let j = choose|j: int| 0 <= j < before.len() && before[j] == cell;
                    assert(cells[j] == cell);
                }
                if cells.contains(cell) && cell != last {
                    let j = choose|j: int| 0 <= j < cells.len() && cells[j] == cell;
                    assert(before[j] == cell);
                }
            }
            cells
        } else {
            before
        }
    }
}

/// A consistent MOC touches finitely many cells, and [`MocView::touched_cells`] lists them.
pub proof fn lemma_touched_cells_listed(moc: MocView, depth: u8)
    requires
        moc.consistent(),
        depth <= MAX_DEPTH,
    ensures
        moc.lists_touched_cells(depth, moc.touched_cells(depth)),
        forall|cell: u64| #[trigger]
            moc.touched_cells(depth).contains(cell) ==> cell < crate::healpix::cells_at(depth),
{
    crate::healpix::lemma_cells_tile_the_sky(depth);
    let bound = crate::healpix::cells_at(depth);
    assert(bound <= crate::healpix::FULL_SKY) by (nonlinear_arith)
        requires
            crate::healpix::cell_width(depth) >= 1,
            bound > 0,
            bound * crate::healpix::cell_width(depth) == crate::healpix::FULL_SKY,
    ;
    assert forall|cell: u64| moc.touches(depth, cell as int) implies cell < bound by {
        let pixel = choose|pixel: int| #[trigger]
            covers(moc.ranges, pixel) && crate::healpix::cell_of(pixel, depth) == cell;
        crate::healpix::lemma_cell_of_pixel(pixel, depth);
    }
    let cells = lemma_touched_cells_below(moc, depth, bound as u64);
    assert(moc.lists_touched_cells(depth, cells));
}

/// The index has no false negatives: when a MOC contains the cell, at its own depth, around a
/// pixel, then it touches the cell around that pixel at every depth.
pub proof fn law_contained_position_is_indexed(moc: MocView, pixel: int, index_depth: u8)
    requires
        moc.consistent(),
        moc.contains(moc.depth_max, crate::healpix::cell_of(pixel, moc.depth_max)),
        index_depth <= MAX_DEPTH,
    ensures
        moc.touches(index_depth, crate::healpix::cell_of(pixel, index_depth)),
{
    assert(covers(moc.ranges, pixel));
}

/// A MOC made of whole cells of a depth contains the cell of that depth around every pixel that it
/// covers.
proof fn lemma_whole_cells(moc: MocView, depth: u8, pixel: int)
    requires
        depth <= MAX_DEPTH,
        aligned(moc.ranges, depth),
        covers(moc.ranges, pixel),
    ensures
        moc.contains(depth, crate::healpix::cell_of(pixel, depth)),
{
    let cell = crate::healpix::cell_of(pixel, depth);
    let i = choose|i: int|
        0 <= i < moc.ranges.len() && (#[trigger] moc.ranges[i]).start <= pixel
            < moc.ranges[i].end;
    let (start, end) = (moc.ranges[i].start, moc.ranges[i].end);
    let w = crate::healpix::cell_width(depth);
    crate::healpix::lemma_cells_tile_the_sky(depth);
    crate::healpix::lemma_pixel_in_cell(pixel, depth, cell);
    lemma_boundary(start, depth, cell);
    lemma_boundary(end, depth, cell);
    lemma_fundamental_div_mod(end as int, w);
    let last = end as int / w;
    assert(start <= cell * w) by {
        lemma_div_is_ordered(start as int, pixel, w);
    }
    assert((cell + 1) * w <= end) by (nonlinear_arith)
        requires
            end as int == w * last,
            cell < last,
            w > 0,
    ;
    assert forall|other: int|
        crate::healpix::cell_of(other, depth) == cell implies #[trigger] covers(
        moc.ranges,
        other,
    ) by {
        crate::healpix::lemma_pixel_in_cell(other, depth, cell);
        assert(moc.ranges[i].start <= other < moc.ranges[i].end);
    }
}

/// The precise check is precise: a MOC made of whole cells of its own depth contains the cell
/// around a pixel if and only if it covers the pixel.
pub proof fn law_precise_check_is_exact(moc: MocView, pixel: int)
    requires
        moc.consistent(),
        aligned(moc.ranges, moc.depth_max),
    ensures
        moc.contains(moc.depth_max, crate::healpix::cell_of(pixel, moc.depth_max)) <==> covers(
            moc.ranges,
            pixel,
        ),
{
    if covers(moc.ranges, pixel) {
        lemma_whole_cells(moc, moc.depth_max, pixel);
    }
}

/// Every position in an indexed cell is inside the MOC, where the MOC is made of whole cells of the
/// index depth: it contains the cells that it touches.
pub proof fn law_indexed_cells_are_contained(moc: MocView, index_depth: u8, cell: int)
    requires
        moc.consistent(),
        index_depth <= MAX_DEPTH,
        aligned(moc.ranges, index_depth),
        moc.touches(index_depth, cell),
    ensures
        moc.contains(index_depth, cell),
{
    let pixel = choose|pixel: int| #[trigger]
        covers(moc.ranges, pixel) && crate::healpix::cell_of(pixel, index_depth) == cell;
    lemma_whole_cells(moc, index_depth, pixel);
}

/// The touched cells grow with the depth: a MOC touches at least as many cells of a finer depth
/// as of a coarser one, and none of the one only if none of the other.
pub proof fn law_cells_grow_with_depth(
    moc: MocView,
    coarse: u8,
    fine: u8,
    coarse_cells: Seq<u64>,
    fine_cells: Seq<u64>,
)
    requires
        moc.consistent(),
        coarse <= fine <= MAX_DEPTH,
        moc.lists_touched_cells(coarse, coarse_cells),
        moc.lists_touched_cells(fine, fine_cells),
    ensures
        coarse_cells.len() <= fine_cells.len(),
        coarse_cells.len() == 0 <==> fine_cells.len() == 0,
{
    if coarse_cells.len() > 0 {
        lemma_finer_places(moc, coarse, fine, coarse_cells, fine_cells, coarse_cells.len() - 1);
    }
    if fine_cells.len() > 0 {
        assert(fine_cells.contains(fine_cells[0]));
        let pixel = choose|pixel: int| #[trigger]
            covers(moc.ranges, pixel) && crate::healpix::cell_of(pixel, fine) == fine_cells[0];
        crate::healpix::lemma_cell_of_pixel(pixel, coarse);
        crate::healpix::lemma_cells_tile_the_sky(coarse);
        let cell = crate::healpix::cell_of(pixel, coarse);
        assert(cell <= pixel) by (nonlinear_arith)
            requires
                cell * crate::healpix::cell_width(coarse) <= pixel,
                crate::healpix::cell_width(coarse) >= 1,
                0 <= cell,
        ;
        assert(coarse_cells.contains(cell as u64));
    }
}

/// Some fine cell inside the touched coarse cell at place `i` stands at place `i` or later.
proof fn lemma_finer_places(
    moc: MocView,
    coarse: u8,
    fine: u8,
    coarse_cells: Seq<u64>,
    fine_cells: Seq<u64>,
    i: int,
)
    requires
        moc.consistent(),
        coarse <= fine <= MAX_DEPTH,
        moc.lists_touched_cells(coarse, coarse_cells),
        moc.lists_touched_cells(fine, fine_cells),
        0 <= i < coarse_cells.len(),
    ensures
        exists|j: int|
            i <= j < fine_cells.len() && #[trigger] fine_cells[j] as int / (pow2(
                (2 * (fine - coarse)) as nat,
            ) as int) == coarse_cells[i],
    decreases i,
{
    let ratio = pow2((2 * (fine - coarse)) as nat) as int;
    lemma_pow2_pos((2 * (fine - coarse)) as nat);
    assert(coarse_cells.contains(coarse_cells[i]));
    let pixel = choose|pixel: int| #[trigger]
        covers(moc.ranges, pixel) && crate::healpix::cell_of(pixel, coarse) == coarse_cells[i];
    crate::healpix::lemma_cell_of_pixel(pixel, fine);
    crate::healpix::lemma_cells_tile_the_sky(fine);
    crate::healpix::law_cells_nest(pixel, fine, coarse);
    let cell = crate::healpix::cell_of(pixel, fine);
    assert(cell <= pixel) by (nonlinear_arith)
        requires
            cell * crate::healpix::cell_width(fine) <= pixel,
            crate::healpix::cell_width(fine) >= 1,
            0 <= cell,
    ;
    assert(fine_cells.contains(cell as u64));
    let j = choose|j: int| 0 <= j < fine_cells.len() && fine_cells[j] == cell as u64;
    assert(fine_cells[j] as int / ratio == coarse_cells[i]);
    if i > 0 {
        lemma_finer_places(moc, coarse, fine, coarse_cells, fine_cells, i - 1);
        let k = choose|k: int|
            i - 1 <= k < fine_cells.len() && #[trigger] fine_cells[k] as int / ratio
                == coarse_cells[i - 1];
        if j <= k {
            assert(fine_cells[j] <= fine_cells[k]);
            lemma_div_is_ordered(fine_cells[j] as int, fine_cells[k] as int, ratio);
            assert(coarse_cells[i - 1] < coarse_cells[i]);
        }
    }
}

/// What a MOC is, pixel by pixel. It covers the pixels between the bounds of its intervals. It
/// touches a cell if it covers one pixel of the cell, and contains the cell if it covers them all. It
/// is consistent if its depth exists, no interval is empty or goes beyond the sky, and any two have
/// a gap between them.
pub proof fn law_mocs_are_sets_of_pixels(moc: MocView, depth: u8, cell: int, pixel: int)
    ensures
        covers(moc.ranges, pixel) <==> exists|i: int|
            0 <= i < moc.ranges.len() && (#[trigger] moc.ranges[i]).start <= pixel
                && pixel < moc.ranges[i].end,
        moc.touches(depth, cell) <==> exists|p: int| #[trigger]
            covers(moc.ranges, p) && p / pow2((2 * (29 - depth)) as nat) as int == cell,
        moc.contains(depth, cell) <==> !exists|p: int| !#[trigger] covers(moc.ranges, p) && p / pow2(
            (2 * (29 - depth)) as nat,
        ) as int == cell,
        moc.consistent() <==> {
            &&& moc.depth_max <= 29
            &&& forall|i: int|
                0 <= i < moc.ranges.len() ==> (#[trigger] moc.ranges[i]).start < moc.ranges[i].end
                    && moc.ranges[i].end <= 12 * pow2(58)
            &&& forall|i: int, j: int|
                0 <= i < j < moc.ranges.len() ==> (#[trigger] moc.ranges[i]).end < (
                #[trigger] moc.ranges[j]).start
        },
{
    crate::healpix::law_cells_divide_into_four(0);
    crate::healpix::lemma_cells_tile_the_sky(0);
}

/// The precise check of a cell, at the depth of a MOC, says of a consistent MOC whether it covers
/// every pixel of the cell, and of other intervals what the search in them finds.
pub proof fn law_precise_check_asks_for_every_pixel(moc: MocView, cell: u64)
    ensures
        moc.consistent() ==> (precise_check(moc, cell) <==> forall|p: int|
            p / pow2((2 * (29 - moc.depth_max)) as nat) as int == cell ==> #[trigger] covers(
                moc.ranges,
                p,
            )),
        !moc.consistent() ==> precise_check(moc, cell) == range_found(
            moc.ranges,
            moc.depth_max,
            cell,
        ),
{
}

/// The touched cells of a consistent MOC are listed each once, in ascending order: the cells with a
/// covered pixel and no others.
pub proof fn law_touched_cells_have_a_covered_pixel(moc: MocView, depth: u8, cell: u64)
    requires
        moc.consistent(),
        depth <= MAX_DEPTH,
    ensures
        ({
            let cells = moc.touched_cells(depth);
            &&& forall|i: int, j: int| 0 <= i < j < cells.len() ==> cells[i] < cells[j]
            &&& (exists|i: int| 0 <= i < cells.len() && #[trigger] cells[i] == cell) <==> exists|
                p: int,
            | #[trigger]
                covers(moc.ranges, p) && p / pow2((2 * (29 - depth)) as nat) as int == cell
        }),
{
    lemma_touched_cells_listed(moc, depth);
    let cells = moc.touched_cells(depth);
    assert(cells.contains(cell) <==> moc.touches(depth, cell as int));
}

} // verus!
