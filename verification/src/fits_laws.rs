//! What holds of FITS files, card by card and row by row, as the bytes themselves show it.
#[allow(unused_imports)]
use crate::fits;
#[allow(unused_imports)]
use crate::hpx_moc::{self, FitsContent, FitsReading, HpxMoc, MocError, MocView};
#[allow(unused_imports)]
use std::ops::Range;
use vstd::prelude::*;

verus! {

/// A card, from its bytes: it has a keyword if it starts with it and goes on with `= `; its value
/// starts at the first byte that is not blank, here `place`, and can be compared with another one
/// as far as the card has the bytes for it.
pub proof fn law_cards_are_read_by_byte(
    bytes: Seq<u8>,
    at: int,
    keyword: Seq<u8>,
    value: Seq<u8>,
    max: nat,
    place: int,
)
    requires
        0 <= at,
        at + 80 <= bytes.len(),
        keyword.len() <= 8,
        at + 10 <= place <= at + 80,
        forall|k: int|
            at + 10 <= k < place ==> (#[trigger] bytes[k] == 32 || bytes[k] == 9 || bytes[k] == 10
                || bytes[k] == 12 || bytes[k] == 13),
        place < at + 80 ==> bytes[place] != 32 && bytes[place] != 9 && bytes[place] != 10
            && bytes[place] != 12 && bytes[place] != 13,
    ensures
        ({
            let keyed = bytes[at + 8] == 61 && bytes[at + 9] == 32 && forall|k: int|
                0 <= k < keyword.len() ==> bytes[at + k] == #[trigger] keyword[k];
            &&& fits::value_of(bytes, at) == place
            &&& fits::card_is(bytes, at, keyword, value) <==> keyed && place + value.len() <= at
                + 80 && forall|k: int|
                0 <= k < value.len() ==> bytes[place + k] == #[trigger] value[k]
            &&& fits::card_cuts(bytes, at, keyword, value) <==> keyed && place + value.len() > at
                + 80
            &&& fits::card_counts(bytes, at, keyword, max) <==> keyed && place < at + 80 && 48
                <= bytes[place] <= 57 && fits::card_number(bytes, at) <= max
        }),
{
    lemma_first_value(bytes, at + 10, at + 80, place);
    lemma_reads(bytes, at, keyword);
    if place + value.len() <= at + 80 {
        lemma_reads(bytes, place, value);
    }
}

/// The first byte that is not blank is found by skipping the blank ones before it.
proof fn lemma_first_value(bytes: Seq<u8>, from: int, to: int, place: int)
    requires
        from <= place <= to,
        forall|k: int|
            from <= k < place ==> (#[trigger] bytes[k] == 32 || bytes[k] == 9 || bytes[k] == 10
                || bytes[k] == 12 || bytes[k] == 13),
        place < to ==> bytes[place] != 32 && bytes[place] != 9 && bytes[place] != 10
            && bytes[place] != 12 && bytes[place] != 13,
    ensures
        fits::skip_blanks(bytes, from, to) == place,
    decreases place - from,
{
    if from < place {
        lemma_first_value(bytes, from + 1, to, place);
    }
}

/// The bytes at a place are a text if each of them is.
proof fn lemma_reads(bytes: Seq<u8>, at: int, text: Seq<u8>)
    requires
        0 <= at,
        at + text.len() <= bytes.len(),
    ensures
        fits::reads(bytes, at, text) <==> forall|k: int|
            0 <= k < text.len() ==> bytes[at + k] == #[trigger] text[k],
{
    let part = bytes.subrange(at, at + text.len());
    if fits::reads(bytes, at, text) {
        assert forall|k: int| 0 <= k < text.len() implies bytes[at + k] == #[trigger] text[k] by {
            assert(part[k] == text[k]);
        }
    }
    if forall|k: int| 0 <= k < text.len() ==> bytes[at + k] == #[trigger] text[k] {
        assert(part =~= text);
    }
}

/// The number in a card is what its digits, from the first byte that is not blank on, spell when
/// they are read one by one.
pub proof fn law_card_numbers_read_back(
    bytes: Seq<u8>,
    at: int,
    first: int,
    end: int,
    read: spec_fn(int, u8) -> int,
)
    requires
        0 <= at,
        at + 80 <= bytes.len(),
        at + 10 <= first <= end <= at + 80,
        forall|k: int|
            at + 10 <= k < first ==> (#[trigger] bytes[k] == 32 || bytes[k] == 9 || bytes[k] == 10
                || bytes[k] == 12 || bytes[k] == 13),
        forall|k: int| first <= k < end ==> 48 <= #[trigger] bytes[k] <= 57,
        end < at + 80 ==> !(48 <= bytes[end] <= 57),
        end == first && end < at + 80 ==> bytes[end] != 32 && bytes[end] != 9 && bytes[end] != 10
            && bytes[end] != 12 && bytes[end] != 13,
        forall|value: int, byte: u8| #[trigger] read(value, byte) == 10 * value + (byte - 48),
    ensures
        fits::card_number(bytes, at) == bytes.subrange(first, end).fold_left(0, read),
{
    lemma_first_value(bytes, at + 10, at + 80, first);
    assert(bytes.subrange(first, first) =~= Seq::<u8>::empty());
    lemma_number(bytes, first, first, end, at + 80, 0, read);
}

/// A number whose first digits are read reads on to the end of its digits.
proof fn lemma_number(
    bytes: Seq<u8>,
    first: int,
    from: int,
    end: int,
    to: int,
    head: nat,
    read: spec_fn(int, u8) -> int,
)
    requires
        0 <= first <= from <= end <= to <= bytes.len(),
        forall|k: int| first <= k < end ==> 48 <= #[trigger] bytes[k] <= 57,
        end < to ==> !(48 <= bytes[end] <= 57),
        forall|value: int, byte: u8| #[trigger] read(value, byte) == 10 * value + (byte - 48),
        head == bytes.subrange(first, from).fold_left(0, read),
    ensures
        fits::number(bytes, from, to, head) == bytes.subrange(first, end).fold_left(0, read),
    decreases end - from,
{
    if from < end {
        let now = bytes.subrange(first, from + 1);
        assert(now.drop_last() =~= bytes.subrange(first, from));
        assert(now.last() == bytes[from]);
        assert(now.fold_left(0, read) == read(head as int, bytes[from]));
        lemma_number(
            bytes,
            first,
            from + 1,
            end,
            to,
            head * 10 + (bytes[from] - 48) as nat,
            read,
        );
    }
}

/// The END card of a header is the first card in its whole blocks that starts with `END` and a
/// blank.
pub proof fn law_headers_end_at_the_first_end_card(bytes: Seq<u8>, at: int, end: int)
    requires
        0 <= at <= end,
        at % 80 == 0,
        end % 80 == 0,
    ensures
        fits::end_card(bytes, at) == Some(end) <==> {
            &&& (end / 2880 + 1) * 2880 <= bytes.len()
            &&& bytes[end] == 69 && bytes[end + 1] == 78 && bytes[end + 2] == 68 && bytes[end + 3]
                == 32
            &&& forall|k: int|
                at <= k < end && k % 80 == 0 ==> !(#[trigger] bytes[k] == 69 && bytes[k + 1] == 78
                    && bytes[k + 2] == 68 && bytes[k + 3] == 32)
        },
    decreases end - at,
{
    reveal(fits::block_end);
    assert(at + 80 <= (at / 2880 + 1) * 2880) by {
        assert(at % 2880 % 80 == 0);
    }
    assert(at / 2880 <= end / 2880);
    let text = seq![69u8, 78, 68, 32];
    let here = bytes[at] == 69 && bytes[at + 1] == 78 && bytes[at + 2] == 68 && bytes[at + 3] == 32;
    if (at / 2880 + 1) * 2880 <= bytes.len() {
        lemma_reads(bytes, at, text);
        if fits::reads(bytes, at, text) {
            assert(bytes[at + 0] == text[0] && bytes[at + 1] == text[1] && bytes[at + 2] == text[2]
                && bytes[at + 3] == text[3]);
        }
        if here {
            assert forall|k: int| 0 <= k < text.len() implies bytes[at + k] == #[trigger] text[k] by {
                assert(k == 0 || k == 1 || k == 2 || k == 3);
            }
        }
        assert(fits::reads(bytes, at, fits::end_keyword()) == here);
        if at == end {
            lemma_end_is_ahead(bytes, at + 80);
        } else if !here {
            assert(fits::end_card(bytes, at) == fits::end_card(bytes, at + 80));
            law_headers_end_at_the_first_end_card(bytes, at + 80, end);
            if fits::end_card(bytes, at) == Some(end) {
                assert forall|k: int| at <= k < end && k % 80 == 0 implies !(#[trigger] bytes[k]
                    == 69 && bytes[k + 1] == 78 && bytes[k + 2] == 68 && bytes[k + 3] == 32) by {
                    if k < at + 80 {
                        assert(k == at);
                    }
                }
            }
        }
    } else {
        assert(fits::end_card(bytes, at) is None);
    }
}

proof fn lemma_end_is_ahead(bytes: Seq<u8>, at: int)
    ensures
        fits::end_card(bytes, at) matches Some(end) ==> at <= end,
    decreases
            if at < bytes.len() {
                bytes.len() - at
            } else {
                0
            },
{
    if 0 <= at < bytes.len() {
        lemma_end_is_ahead(bytes, at + 80);
    }
}

/// A header announces NUNIQ rows exactly if its first ORDERING card after the cards with a fixed
/// place says so: its value, here at `place`, starts with `'NUNIQ`.
pub proof fn law_nuniq_goes_by_the_ordering_card(
    bytes: Seq<u8>,
    ext: int,
    end: int,
    at: int,
    place: int,
)
    requires
        0 <= ext,
        ext + 640 <= at < end <= bytes.len(),
        at + 80 <= bytes.len(),
        (at - ext) % 80 == 0,
        bytes.subrange(at, at + 8) == seq![79u8, 82, 68, 69, 82, 73, 78, 71],
        forall|k: int|
            ext + 640 <= k < at && (k - ext) % 80 == 0 ==> #[trigger] bytes.subrange(k, k + 8)
                != seq![79u8, 82, 68, 69, 82, 73, 78, 71],
        at + 10 <= place <= at + 80,
        forall|k: int|
            at + 10 <= k < place ==> (#[trigger] bytes[k] == 32 || bytes[k] == 9 || bytes[k] == 10
                || bytes[k] == 12 || bytes[k] == 13),
        place < at + 80 ==> bytes[place] != 32 && bytes[place] != 9 && bytes[place] != 10
            && bytes[place] != 12 && bytes[place] != 13,
    ensures
        fits::is_nuniq(bytes, ext, end) <==> place + 6 <= at + 80 && bytes.subrange(
            place,
            place + 6,
        ) == seq![39u8, 78, 85, 78, 73, 81],
{
    lemma_first_value(bytes, at + 10, at + 80, place);
    lemma_ordering(bytes, ext, ext + 640, end, at);
}

proof fn lemma_ordering(bytes: Seq<u8>, ext: int, from: int, end: int, at: int)
    requires
        0 <= ext <= from <= at < end <= bytes.len(),
        at + 80 <= bytes.len(),
        (from - ext) % 80 == 0,
        (at - ext) % 80 == 0,
        bytes.subrange(at, at + 8) == seq![79u8, 82, 68, 69, 82, 73, 78, 71],
        forall|k: int|
            from <= k < at && (k - ext) % 80 == 0 ==> #[trigger] bytes.subrange(k, k + 8) != seq![
                79u8,
                82,
                68,
                69,
                82,
                73,
                78,
                71,
            ],
    ensures
        fits::ordering_card(bytes, from, end) == Some(at),
    decreases at - from,
{
    if from < at {
        assert(bytes.subrange(from, from + 8) != fits::ordering_keyword());
        lemma_ordering(bytes, ext, from + 80, end, at);
    }
}

/// A header without an ORDERING card after the cards with a fixed place announces no NUNIQ rows.
pub proof fn law_no_ordering_card_no_nuniq(bytes: Seq<u8>, ext: int, end: int)
    requires
        0 <= ext,
        forall|k: int|
            ext + 640 <= k < end && (k - ext) % 80 == 0 ==> #[trigger] bytes.subrange(k, k + 8)
                != seq![79u8, 82, 68, 69, 82, 73, 78, 71],
    ensures
        !fits::is_nuniq(bytes, ext, end),
{
    lemma_no_ordering(bytes, ext, ext + 640, end);
}

proof fn lemma_no_ordering(bytes: Seq<u8>, ext: int, from: int, end: int)
    requires
        0 <= ext <= from,
        (from - ext) % 80 == 0,
        forall|k: int|
            from <= k < end && (k - ext) % 80 == 0 ==> #[trigger] bytes.subrange(k, k + 8) != seq![
                79u8,
                82,
                68,
                69,
                82,
                73,
                78,
                71,
            ],
    ensures
        fits::ordering_card(bytes, from, end) is None,
    decreases
            if from < end {
                end - from
            } else {
                0
            },
{
    if from < end {
        assert(bytes.subrange(from, from + 8) != fits::ordering_keyword());
        lemma_no_ordering(bytes, ext, from + 80, end);
    }
}

/// A header is accepted card by card, from the primary header's first card on. The reader panics on
/// it exactly if a card that it comes to has the expected keyword and too short a value, and what it
/// accepts up to both END cards is a table, whose rows start with the next block.
pub proof fn law_headers_are_read_card_by_card(bytes: Seq<u8>)
    ensures
        ({
            // SIMPLE = T
            let (simple_key, simple_value) = (
                seq![83u8, 73, 77, 80, 76, 69, 32],
                seq![84u8],
            );
            let simple = fits::card_is(bytes, 0, simple_key, simple_value);
            let simple_cut = fits::card_cuts(bytes, 0, simple_key, simple_value);
            // NAXIS = 0
            let (axes_key, axes_value) = (
                seq![78u8, 65, 88, 73, 83, 32],
                seq![48u8],
            );
            let axes = fits::card_is(bytes, 160, axes_key, axes_value);
            let axes_cut = fits::card_cuts(bytes, 160, axes_key, axes_value);
            &&& bytes.len() < 2880 ==> !fits::header_panics(bytes) && fits::table(bytes) is None
            &&& bytes.len() >= 2880 && !(simple && axes) ==> fits::header_panics(bytes) == (
            simple_cut || (simple && axes_cut)) && fits::table(bytes) is None
            &&& bytes.len() >= 2880 && simple && axes ==> match fits::end_card(bytes, 240) {
                Some(last) if (last / 2880 + 2) * 2880 <= bytes.len() => {
                    let ext = (last / 2880 + 1) * 2880;
                    // XTENSION = 'BINTABLE'
                    let (table_key, table_value) = (
                        seq![88u8, 84, 69, 78, 83, 73, 79, 78],
                        seq![39u8, 66, 73, 78, 84, 65, 66, 76, 69, 39],
                    );
                    let table = fits::card_is(bytes, ext, table_key, table_value);
                    let table_cut = fits::card_cuts(bytes, ext, table_key, table_value);
                    // BITPIX = 8
                    let (bits_key, bits_value) = (
                        seq![66u8, 73, 84, 80, 73, 88, 32, 32],
                        seq![56u8],
                    );
                    let bits = fits::card_is(bytes, ext + 80, bits_key, bits_value);
                    let bits_cut = fits::card_cuts(bytes, ext + 80, bits_key, bits_value);
                    // NAXIS = 2
                    let (plane_key, plane_value) = (
                        seq![78u8, 65, 88, 73, 83, 32, 32],
                        seq![50u8],
                    );
                    let plane = fits::card_is(bytes, ext + 160, plane_key, plane_value);
                    let plane_cut = fits::card_cuts(bytes, ext + 160, plane_key, plane_value);
                    // NAXIS1 and NAXIS2
                    let sizes = fits::card_counts(
                        bytes,
                        ext + 240,
                        seq![78u8, 65, 88, 73, 83, 49, 32, 32],
                        255,
                    ) && fits::card_counts(
                        bytes,
                        ext + 320,
                        seq![78u8, 65, 88, 73, 83, 50, 32],
                        u64::MAX as nat,
                    );
                    // PCOUNT = 0
                    let (heap_key, heap_value) = (
                        seq![80u8, 67, 79, 85, 78, 84, 32, 32],
                        seq![48u8],
                    );
                    let heap = fits::card_is(bytes, ext + 400, heap_key, heap_value);
                    let heap_cut = fits::card_cuts(bytes, ext + 400, heap_key, heap_value);
                    // GCOUNT = 1
                    let (group_key, group_value) = (
                        seq![71u8, 67, 79, 85, 78, 84, 32, 32],
                        seq![49u8],
                    );
                    let group = fits::card_is(bytes, ext + 480, group_key, group_value);
                    let group_cut = fits::card_cuts(bytes, ext + 480, group_key, group_value);
                    // TFIELDS = 1
                    let (field_key, field_value) = (
                        seq![84u8, 70, 73, 69, 76, 68, 83, 32],
                        seq![49u8],
                    );
                    let field = fits::card_is(bytes, ext + 560, field_key, field_value);
                    let field_cut = fits::card_cuts(bytes, ext + 560, field_key, field_value);
                    let sized = table && bits && plane && sizes;
                    &&& fits::header_panics(bytes) <==> {
                        ||| table_cut
                        ||| table && bits_cut
                        ||| table && bits && plane_cut
                        ||| sized && heap_cut
                        ||| sized && heap && group_cut
                        ||| sized && heap && group && field_cut
                    }
                    &&& fits::table(bytes) == match fits::end_card(bytes, ext + 640) {
                        Some(end) if sized && heap && group && field => Some(
                            (ext, end, (end / 2880 + 1) * 2880),
                        ),
                        _ => None,
                    }
                },
                _ => !fits::header_panics(bytes) && fits::table(bytes) is None,
            }
        }),
{
    reveal(fits::block_end);
}

/// A table declares too many rows exactly if the room that the reader makes for them, twice the
/// width of each NUNIQ row or the eight bytes of each interval bound, cannot be addressed. It makes
/// room for intervals once the first one is there.
pub proof fn law_only_rows_beyond_memory_are_too_many(bytes: Seq<u8>)
    ensures
        fits::table(bytes) is None ==> !fits::declares_too_many(bytes),
        fits::table(bytes) matches Some((ext, end, data)) ==> {
            let width = fits::card_number(bytes, ext + 240);
            let rows = fits::card_number(bytes, ext + 320);
            &&& fits::is_nuniq(bytes, ext, end) && (width == 2 || width == 4 || width == 8) ==> (
            fits::declares_too_many(bytes) <==> 2 * (rows * width) > isize::MAX)
            &&& fits::is_nuniq(bytes, ext, end) && width != 2 && width != 4 && width != 8
                ==> !fits::declares_too_many(bytes)
            &&& !fits::is_nuniq(bytes, ext, end) ==> (fits::declares_too_many(bytes) <==> width == 8
                && data + 16 <= bytes.len() && rows * 8 > isize::MAX)
        },
{
    if let Some((ext, end, data)) = fits::table(bytes) {
        let width = fits::card_number(bytes, ext + 240);
        let rows = fits::card_number(bytes, ext + 320);
        if width == 2 || width == 4 || width == 8 {
            let room = fits::cell_size(width);
            assert(rows * room == 2 * (rows * width)) by (nonlinear_arith)
                requires
                    room == 2 * width,
            ;
        } else {
            assert(rows * 0 == 0);
        }
    }
}

/// Rows that are there are never too many: where all the rows that a table declares are present in
/// the bytes, as long as these are of a length that twice fits in memory, nothing is to be changed
/// about the number of rows.
pub proof fn law_rows_that_are_there_are_not_too_many(bytes: Seq<u8>)
    requires
        2 * bytes.len() <= isize::MAX,
        fits::table(bytes) matches Some((ext, end, data)) ==> data + fits::card_number(
            bytes,
            ext + 320,
        ) * fits::card_number(bytes, ext + 240) <= bytes.len(),
    ensures
        !fits::declares_too_many(bytes),
{
    law_only_rows_beyond_memory_are_too_many(bytes);
    if let Some((ext, end, data)) = fits::table(bytes) {
        lemma_data_place(bytes);
    }
}

proof fn lemma_data_place(bytes: Seq<u8>)
    requires
        fits::table(bytes) is Some,
    ensures
        fits::table(bytes).unwrap().2 >= 0,
{
    let (ext, end, data) = fits::table(bytes).unwrap();
    lemma_end_is_ahead(bytes, 240);
    reveal(fits::block_end);
    lemma_end_is_ahead(bytes, ext + 640);
}

/// Rows are mended one by one, and only where they have to be: row `i` of a NUNIQ table, if it is
/// there, becomes zero if it is one of the numbers 1, 2 and 3, which code no cell, and stays as it
/// is otherwise. Nothing outside the rows changes.
pub proof fn law_only_rows_without_a_cell_are_mended(bytes: Seq<u8>, i: int, k: int)
    requires
        fits::table(bytes) is Some,
    ensures
        ({
            let (ext, end, data) = fits::table(bytes).unwrap();
            let width = fits::card_number(bytes, ext + 240) as int;
            let rows = fits::card_number(bytes, ext + 320);
            let mended = fits::mended(bytes);
            let cells = fits::is_nuniq(bytes, ext, end) && (width == 2 || width == 4 || width == 8);
            let (from, to) = (data + i * width, data + (i + 1) * width);
            &&& mended.len() == bytes.len()
            &&& !cells ==> mended == bytes
            &&& cells && 0 <= i < rows && to <= bytes.len() ==> if 1 <= bytes[to - 1] <= 3
                && forall|k: int| from <= k < to - 1 ==> bytes[k] == 0 {
                forall|k: int| from <= k < to ==> mended[k] == 0
            } else {
                mended.subrange(from, to) == bytes.subrange(from, to)
            }
            &&& 0 <= k < bytes.len() && (k < data || k >= data + rows * width) ==> mended[k]
                == bytes[k]
        }),
{
    let (ext, end, data) = fits::table(bytes).unwrap();
    let width = fits::card_number(bytes, ext + 240) as int;
    let rows = fits::card_number(bytes, ext + 320);
    lemma_data_place(bytes);
    if fits::holds_cells(bytes, ext, end) {
        if 0 <= i < rows && data + (i + 1) * width <= bytes.len() {
            lemma_row_mended(bytes, data, width, rows, i);
        }
        if 0 <= k < bytes.len() && (k < data || k >= data + rows * width) {
            lemma_outside_rows(bytes, data, width, rows, k);
        }
    }
}

/// There is something to mend exactly if one of the rows that are there, of a NUNIQ table, is one of
/// the numbers 1, 2 and 3.
pub proof fn law_mending_goes_by_the_rows(bytes: Seq<u8>, i: int)
    ensures
        fits::table(bytes) is None ==> !fits::holds_rootless_rows(bytes),
        fits::table(bytes) matches Some((ext, end, data)) ==> {
            let width = fits::card_number(bytes, ext + 240) as int;
            let rows = fits::card_number(bytes, ext + 320);
            let cells = fits::is_nuniq(bytes, ext, end) && (width == 2 || width == 4 || width == 8);
            let to = data + (i + 1) * width;
            &&& cells && 0 <= i < rows && to <= bytes.len() && 1 <= bytes[to - 1] <= 3 && (forall|
                k: int,
            |
                to - width <= k < to - 1 ==> bytes[k] == 0) ==> fits::holds_rootless_rows(bytes)
            &&& fits::holds_rootless_rows(bytes) ==> cells && exists|last: int| {
                &&& data <= last < bytes.len()
                &&& last < data + rows * width
                &&& (last - data + 1) % width == 0
                &&& 1 <= #[trigger] bytes[last] <= 3
                &&& forall|k: int| last - width < k < last ==> bytes[k] == 0
            }
        },
{
    if let Some((ext, end, data)) = fits::table(bytes) {
        let width = fits::card_number(bytes, ext + 240) as int;
        let rows = fits::card_number(bytes, ext + 320);
        lemma_data_place(bytes);
        if fits::holds_cells(bytes, ext, end) {
            assert((i + 1) * width == i * width + width) by (nonlinear_arith);
            if 0 <= i < rows && data + (i + 1) * width <= bytes.len() && 1 <= bytes[data + (i + 1)
                * width - 1] <= 3 && forall|k: int|
                data + i * width <= k < data + i * width + width - 1 ==> bytes[k] == 0 {
                assert(fits::is_rootless_row(bytes, data + i * width, width));
            }
            if fits::holds_rootless_rows(bytes) {
                let r = choose|r: int|
                    0 <= r < rows && data + (r + 1) * width <= bytes.len()
                        && #[trigger] fits::is_rootless_row(bytes, data + r * width, width);
                let last = data + r * width + width - 1;
                lemma_row_place(width, rows, r);
                assert(1 <= bytes[last] <= 3);
            }
        }
    }
}

/// Where the last byte of a row is, counted from the first row on.
proof fn lemma_row_place(width: int, rows: nat, r: int)
    requires
        width > 0,
        0 <= r < rows,
    ensures
        0 <= r * width,
        (r + 1) * width == r * width + width,
        r * width + width <= rows * width,
        (r * width + width) % width == 0,
{
    assert((r + 1) * width == r * width + width) by (nonlinear_arith);
    assert(0 <= r * width && (r + 1) * width <= rows * width) by (nonlinear_arith)
        requires
            0 <= r < rows,
            width > 0,
    ;
    vstd::arithmetic::div_mod::lemma_mod_multiples_basic(r + 1, width);
}

proof fn lemma_outside_rows(bytes: Seq<u8>, data: int, width: int, rows: nat, k: int)
    requires
        width > 0,
        0 <= k < bytes.len(),
        k < data || k >= data + rows * width,
    ensures
        fits::rows_mended(bytes, data, width, rows)[k] == bytes[k],
{
    if fits::ends_rootless_row(bytes, data, width, rows, k) {
        let r = choose|r: int|
            0 <= r < rows && data + (r + 1) * width <= bytes.len()
                && #[trigger] fits::is_rootless_row(bytes, data + r * width, width) && k == data + r
                * width + width - 1;
        lemma_row_place(width, rows, r);
    }
}

/// What becomes of one row.
proof fn lemma_row_mended(bytes: Seq<u8>, data: int, width: int, rows: nat, i: int)
    requires
        0 <= data,
        width > 0,
        0 <= i < rows,
        data + (i + 1) * width <= bytes.len(),
    ensures
        ({
            let (from, to) = (data + i * width, data + (i + 1) * width);
            let mended = fits::rows_mended(bytes, data, width, rows);
            if 1 <= bytes[to - 1] <= 3 && forall|k: int| from <= k < to - 1 ==> bytes[k] == 0 {
                forall|k: int| from <= k < to ==> mended[k] == 0
            } else {
                mended.subrange(from, to) == bytes.subrange(from, to)
            }
        }),
{
    let (from, to) = (data + i * width, data + (i + 1) * width);
    let mended = fits::rows_mended(bytes, data, width, rows);
    assert(to == from + width) by (nonlinear_arith)
        requires
            from == data + i * width,
            to == data + (i + 1) * width,
    ;
    assert(i * width >= 0) by (nonlinear_arith)
        requires
            i >= 0,
            width > 0,
    ;
    assert forall|r: int|
        0 <= r < rows && from <= data + #[trigger] (r * width) + width - 1 < to implies r == i by {
        assert(r == i) by (nonlinear_arith)
            requires
                data + i * width <= data + r * width + width - 1 < data + (i + 1) * width,
                width > 0,
        ;
    }
    if fits::is_rootless_row(bytes, from, width) {
        assert(fits::ends_rootless_row(bytes, data, width, rows, to - 1));
    } else {
        assert forall|k: int| from <= k < to implies mended[k] == bytes[k] by {
            if fits::ends_rootless_row(bytes, data, width, rows, k) {
                let r = choose|r: int|
                    0 <= r < rows && data + (r + 1) * width <= bytes.len()
                        && #[trigger] fits::is_rootless_row(bytes, data + r * width, width) && k
                        == data + r * width + width - 1;
                assert(k == data + (r * width) + width - 1);
            }
        }
        assert(mended.subrange(from, to) =~= bytes.subrange(from, to));
    }
}

/// Rows are uncounted in place: every digit in the value of the card that declares them becomes a
/// zero, and nothing else in the file changes.
pub proof fn law_only_the_declared_rows_are_uncounted(bytes: Seq<u8>, k: int)
    requires
        fits::table(bytes) is Some,
        0 <= k < bytes.len(),
    ensures
        ({
            let (ext, end, data) = fits::table(bytes).unwrap();
            &&& fits::uncounted(bytes).len() == bytes.len()
            &&& fits::uncounted(bytes)[k] == if ext + 330 <= k < ext + 400 && 48 <= bytes[k] <= 57 {
                48
            } else {
                bytes[k]
            }
            &&& fits::holds_nuniq(bytes) == fits::is_nuniq(bytes, ext, end)
        }),
{
}

/// A file is read as it is wherever it can be. Where the reader gets through the header, all rows
/// that the table declares are there, and none of them is a number that codes no cell, the MOC is
/// the very one that the reader finds in the file, with the deepest depth in place of one that does
/// not exist, and there is none, for the reader's reason, exactly if the reader finds none.
pub proof fn law_files_with_all_their_rows_are_read_as_they_are(
    bytes: Seq<u8>,
    error: MocError,
)
    requires
        !fits::header_panics(bytes),
        2 * bytes.len() <= isize::MAX,
        fits::table(bytes) matches Some((ext, end, data)) ==> {
            let width = fits::card_number(bytes, ext + 240) as int;
            let rows = fits::card_number(bytes, ext + 320) as int;
            &&& data + rows * width <= bytes.len()
            &&& fits::is_nuniq(bytes, ext, end) ==> forall|last: int|
                data <= last < data + rows * width && (last - data + 1) % width == 0 && 1
                    <= #[trigger] bytes[last] <= 3 ==> exists|k: int|
                    last - width < k < last && #[trigger] bytes[k] != 0
        },
    ensures
        hpx_moc::moc_in_fits(bytes) == match hpx_moc::fits_reading(bytes) {
            FitsReading::Moc { depth, ranges } => Some(
                MocView {
                    depth_max: if depth <= 29 {
                        depth
                    } else {
                        29
                    },
                    ranges,
                },
            ),
            _ => None,
        },
        error.refuses(bytes) <==> match hpx_moc::fits_reading(bytes) {
            FitsReading::Unreadable => error is Parse,
            FitsReading::Other => error is UnexpectedType,
            FitsReading::Moc { .. } => false,
        },
{
    law_rows_that_are_there_are_not_too_many(bytes);
    law_mending_goes_by_the_rows(bytes, 0);
    assert(!fits::holds_rootless_rows(bytes));
}

/// What becomes of the other files. Where rows that code no cell are mended, the MOC is the one that
/// the reader finds in the mended file. Where more rows are declared than can be addressed, there is
/// none: the reader's own reason is given where it has one without counting them. Where the reader
/// panics on the header, there is none either.
pub proof fn law_other_files_are_read_as_far_as_they_can_be(bytes: Seq<u8>, error: MocError)
    ensures
        fits::header_panics(bytes) ==> hpx_moc::moc_in_fits(bytes) is None && (error.refuses(bytes)
            <==> error is Malformed),
        !fits::header_panics(bytes) && fits::declares_too_many(bytes) ==> hpx_moc::moc_in_fits(bytes) is None
            && (error.refuses(bytes) <==> match hpx_moc::fits_reading(fits::uncounted(bytes)) {
            FitsReading::Unreadable => error is Parse,
            FitsReading::Other if !fits::holds_nuniq(bytes) => error is UnexpectedType,
            _ => error is Malformed,
        }),
        !fits::header_panics(bytes) && !fits::declares_too_many(bytes) && fits::holds_rootless_rows(
            bytes,
        ) ==> {
            &&& hpx_moc::moc_in_fits(bytes) == match hpx_moc::fits_reading(fits::mended(bytes)) {
                FitsReading::Moc { depth, ranges } => Some(
                    MocView {
                        depth_max: if depth <= 29 {
                            depth
                        } else {
                            29
                        },
                        ranges,
                    },
                ),
                _ => None,
            }
            &&& error.refuses(bytes) <==> match hpx_moc::fits_reading(fits::mended(bytes)) {
                FitsReading::Unreadable => error is Parse,
                FitsReading::Other => error is UnexpectedType,
                FitsReading::Moc { .. } => false,
            }
        },
        !fits::header_panics(bytes) && !fits::declares_too_many(bytes)
            && !fits::holds_rootless_rows(bytes) ==> fits::loadable(bytes) && hpx_moc::moc_in_fits(bytes)
            == hpx_moc::moc_of_reading(hpx_moc::fits_reading(bytes)),
        fits::loadable(bytes) ==> !fits::header_panics(bytes) && !fits::declares_too_many(bytes)
            && !fits::holds_rootless_rows(bytes),
{
}

/// What was found in a file is taken over as it is, but for a depth that does not exist.
pub proof fn law_content_is_taken_over(depth: u8, ranges: Vec<Range<u64>>, moc: HpxMoc)
    ensures
        hpx_moc::moc_of_reading((FitsContent::Moc { depth, ranges }).reading()) == Some(
            MocView {
                depth_max: if depth <= 29 {
                    depth
                } else {
                    29
                },
                ranges: ranges@,
            },
        ),
        hpx_moc::moc_of_reading(FitsContent::Other.reading()) is None,
        hpx_moc::moc_of_reading(FitsReading::Unreadable) is None,
        moc@.depth_max == moc.depth_max,
        moc@.ranges == moc.ranges@,
{
}

} // verus!
