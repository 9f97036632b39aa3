//! What a FITS file must look like before the MOC reader is let loose on it.
//!
//! The reader of the `moc` crate reports most malformed files as errors, but it indexes past the
//! end of a header card whose value is too short, allocates whatever number of rows the header
//! declares, and its arithmetic overflows on NUNIQ rows that code no cell. [`readable_form`] finds
//! those files first, from the bytes alone, and has the reader skip such rows and such a number.
use vstd::prelude::*;
use vstd::slice::slice_to_vec;

verus! {

/// The length of a FITS block.
pub const BLOCK: usize = 2880;

/// The length of a header card.
pub const CARD: usize = 80;

/// Whether `byte` is ASCII whitespace.
pub open spec fn is_blank(byte: u8) -> bool {
    byte == 32 || byte == 9 || byte == 10 || byte == 12 || byte == 13
}

/// Whether the bytes from `at` on are those of `text`.
pub open spec fn reads(bytes: Seq<u8>, at: int, text: Seq<u8>) -> bool {
    &&& at + text.len() <= bytes.len()
    &&& bytes.subrange(at, at + text.len()) == text
}

/// The four bytes that start the last card of a header: `END` and a blank.
pub open spec fn end_keyword() -> Seq<u8> {
    seq![69u8, 78, 68, 32]
}

/// The keyword `ORDERING`.
pub open spec fn ordering_keyword() -> Seq<u8> {
    seq![79u8, 82, 68, 69, 82, 73, 78, 71]
}

/// The start of the value `'NUNIQ'`.
pub open spec fn nuniq_value() -> Seq<u8> {
    seq![39u8, 78, 85, 78, 73, 81]
}

/// The end of the block that holds the byte at `at`.
#[verifier::opaque]
pub open spec fn block_end(at: int) -> int {
    (at / 2880 + 1) * 2880
}

/// The first END card at or after the card at `at`, as far as whole blocks go.
pub open spec fn end_card(bytes: Seq<u8>, at: int) -> Option<int>
    decreases
            if at < bytes.len() {
                bytes.len() - at
            } else {
                0
            },
{
    if at < 0 || at >= bytes.len() || block_end(at) > bytes.len() {
        None
    } else if reads(bytes, at, end_keyword()) {
        Some(at)
    } else {
        end_card(bytes, at + CARD)
    }
}

/// The first card from `at` on, and before `end`, whose keyword is ORDERING.
pub open spec fn ordering_card(bytes: Seq<u8>, at: int, end: int) -> Option<int>
    decreases
            if at < end {
                end - at
            } else {
                0
            },
{
    if at >= end {
        None
    } else if reads(bytes, at, ordering_keyword()) {
        Some(at)
    } else {
        ordering_card(bytes, at + CARD, end)
    }
}

/// The first byte from `from` on, and before `to`, that is not blank; `to` where there is none.
pub open spec fn skip_blanks(bytes: Seq<u8>, from: int, to: int) -> int
    decreases to - from,
{
    if from < to && is_blank(bytes[from]) {
        skip_blanks(bytes, from + 1, to)
    } else {
        from
    }
}

/// The number that the decimal digits from `from` on spell, appended to those of `head`.
pub open spec fn number(bytes: Seq<u8>, from: int, to: int, head: nat) -> nat
    decreases to - from,
{
    if from < to && 48 <= bytes[from] <= 57 {
        number(bytes, from + 1, to, head * 10 + (bytes[from] - 48) as nat)
    } else {
        head
    }
}

/// The unsigned integer that the card at `at` holds, 0 where it holds none.
pub open spec fn card_number(bytes: Seq<u8>, at: int) -> nat {
    number(bytes, skip_blanks(bytes, at + 10, at + CARD), at + CARD, 0)
}

/// What the keyword of the card `SIMPLE` starts with.
pub open spec fn simple_keyword() -> Seq<u8> {
    seq![83u8, 73, 77, 80, 76, 69, 32]
}

/// What the keyword of the card `NAXIS` starts with in a primary header.
pub open spec fn naxis_primary_keyword() -> Seq<u8> {
    seq![78u8, 65, 88, 73, 83, 32]
}

/// What the keyword of the card `XTENSION` starts with.
pub open spec fn xtension_keyword() -> Seq<u8> {
    seq![88u8, 84, 69, 78, 83, 73, 79, 78]
}

/// What the keyword of the card `BITPIX` starts with.
pub open spec fn bitpix_keyword() -> Seq<u8> {
    seq![66u8, 73, 84, 80, 73, 88, 32, 32]
}

/// What the keyword of the card `NAXIS` starts with.
pub open spec fn naxis_keyword() -> Seq<u8> {
    seq![78u8, 65, 88, 73, 83, 32, 32]
}

/// What the keyword of the card `NAXIS1` starts with.
pub open spec fn naxis1_keyword() -> Seq<u8> {
    seq![78u8, 65, 88, 73, 83, 49, 32, 32]
}

/// What the keyword of the card `NAXIS2` starts with.
pub open spec fn naxis2_keyword() -> Seq<u8> {
    seq![78u8, 65, 88, 73, 83, 50, 32]
}

/// What the keyword of the card `PCOUNT` starts with.
pub open spec fn pcount_keyword() -> Seq<u8> {
    seq![80u8, 67, 79, 85, 78, 84, 32, 32]
}

/// What the keyword of the card `GCOUNT` starts with.
pub open spec fn gcount_keyword() -> Seq<u8> {
    seq![71u8, 67, 79, 85, 78, 84, 32, 32]
}

/// What the keyword of the card `TFIELDS` starts with.
pub open spec fn tfields_keyword() -> Seq<u8> {
    seq![84u8, 70, 73, 69, 76, 68, 83, 32]
}

/// The value `T`.
pub open spec fn true_value() -> Seq<u8> {
    seq![84u8]
}

/// The value `0`.
pub open spec fn zero_value() -> Seq<u8> {
    seq![48u8]
}

/// The value `1`.
pub open spec fn one_value() -> Seq<u8> {
    seq![49u8]
}

/// The value `2`.
pub open spec fn two_value() -> Seq<u8> {
    seq![50u8]
}

/// The value `8`.
pub open spec fn eight_value() -> Seq<u8> {
    seq![56u8]
}

/// The value `'BINTABLE'`.
pub open spec fn bintable_value() -> Seq<u8> {
    seq![39u8, 66, 73, 78, 84, 65, 66, 76, 69, 39]
}

/// Whether the card at `at` has this keyword, and a value.
pub open spec fn announces(bytes: Seq<u8>, at: int, keyword: Seq<u8>) -> bool {
    &&& reads(bytes, at, keyword)
    &&& bytes[at + 8] == 61
    &&& bytes[at + 9] == 32
}

/// Where the value of the card at `at` starts, its leading blanks aside.
pub open spec fn value_of(bytes: Seq<u8>, at: int) -> int {
    skip_blanks(bytes, at + 10, at + CARD)
}

/// Whether the card at `at` has this keyword and a value that starts like this.
pub open spec fn card_is(bytes: Seq<u8>, at: int, keyword: Seq<u8>, value: Seq<u8>) -> bool {
    &&& announces(bytes, at, keyword)
    &&& value_of(bytes, at) + value.len() <= at + CARD
    &&& reads(bytes, value_of(bytes, at), value)
}

/// Whether the card at `at` has this keyword but a value that is too short to be compared with the
/// expected one: the reader then panics.
pub open spec fn card_cuts(bytes: Seq<u8>, at: int, keyword: Seq<u8>, value: Seq<u8>) -> bool {
    &&& announces(bytes, at, keyword)
    &&& value_of(bytes, at) + value.len() > at + CARD
}

/// Whether the card at `at` has this keyword and holds an unsigned integer of at most `max`.
pub open spec fn card_counts(bytes: Seq<u8>, at: int, keyword: Seq<u8>, max: nat) -> bool {
    &&& announces(bytes, at, keyword)
    &&& value_of(bytes, at) < at + CARD
    &&& 48 <= bytes[value_of(bytes, at)] <= 57
    &&& card_number(bytes, at) <= max
}

/// Whether the primary header is one that the reader accepts.
pub open spec fn primary_accepted(bytes: Seq<u8>) -> bool {
    &&& BLOCK <= bytes.len()
    &&& card_is(bytes, 0, simple_keyword(), true_value())
    &&& card_is(bytes, 2 * CARD, naxis_primary_keyword(), zero_value())
}

/// Whether the reader panics on the primary header.
pub open spec fn primary_panics(bytes: Seq<u8>) -> bool {
    &&& BLOCK <= bytes.len()
    &&& card_cuts(bytes, 0, simple_keyword(), true_value()) || (card_is(
        bytes,
        0,
        simple_keyword(),
        true_value(),
    ) && card_cuts(bytes, 2 * CARD, naxis_primary_keyword(), zero_value()))
}

/// Where the extension header starts, if the primary one is accepted and the first block of the
/// extension is there.
pub open spec fn extension(bytes: Seq<u8>) -> Option<int> {
    if !primary_accepted(bytes) {
        None
    } else {
        match end_card(bytes, 3 * CARD) {
            Some(end) => if block_end(end) + BLOCK <= bytes.len() {
                Some(block_end(end))
            } else {
                None
            },
            None => None,
        }
    }
}

/// Whether the first three cards of the extension header are accepted.
pub open spec fn table_cards_accepted(bytes: Seq<u8>, ext: int) -> bool {
    &&& card_is(bytes, ext, xtension_keyword(), bintable_value())
    &&& card_is(bytes, ext + CARD, bitpix_keyword(), eight_value())
    &&& card_is(bytes, ext + 2 * CARD, naxis_keyword(), two_value())
}

/// Whether the reader panics on one of the first three cards of the extension header.
pub open spec fn table_cards_panic(bytes: Seq<u8>, ext: int) -> bool {
    ||| card_cuts(bytes, ext, xtension_keyword(), bintable_value())
    ||| card_is(bytes, ext, xtension_keyword(), bintable_value()) && card_cuts(
        bytes,
        ext + CARD,
        bitpix_keyword(),
        eight_value(),
    )
    ||| card_is(bytes, ext, xtension_keyword(), bintable_value()) && card_is(
        bytes,
        ext + CARD,
        bitpix_keyword(),
        eight_value(),
    ) && card_cuts(bytes, ext + 2 * CARD, naxis_keyword(), two_value())
}

/// Whether the two cards that say how wide a row is and how many there are, are accepted.
pub open spec fn size_cards_accepted(bytes: Seq<u8>, ext: int) -> bool {
    &&& card_counts(bytes, ext + 3 * CARD, naxis1_keyword(), u8::MAX as nat)
    &&& card_counts(bytes, ext + 4 * CARD, naxis2_keyword(), u64::MAX as nat)
}

/// Whether the three cards after those are accepted.
pub open spec fn field_cards_accepted(bytes: Seq<u8>, ext: int) -> bool {
    &&& card_is(bytes, ext + 5 * CARD, pcount_keyword(), zero_value())
    &&& card_is(bytes, ext + 6 * CARD, gcount_keyword(), one_value())
    &&& card_is(bytes, ext + 7 * CARD, tfields_keyword(), one_value())
}

/// Whether the reader panics on one of those three.
pub open spec fn field_cards_panic(bytes: Seq<u8>, ext: int) -> bool {
    ||| card_cuts(bytes, ext + 5 * CARD, pcount_keyword(), zero_value())
    ||| card_is(bytes, ext + 5 * CARD, pcount_keyword(), zero_value()) && card_cuts(
        bytes,
        ext + 6 * CARD,
        gcount_keyword(),
        one_value(),
    )
    ||| card_is(bytes, ext + 5 * CARD, pcount_keyword(), zero_value()) && card_is(
        bytes,
        ext + 6 * CARD,
        gcount_keyword(),
        one_value(),
    ) && card_cuts(bytes, ext + 7 * CARD, tfields_keyword(), one_value())
}

/// Whether the cards of the extension header whose places are fixed are all accepted.
pub open spec fn extension_accepted(bytes: Seq<u8>, ext: int) -> bool {
    &&& table_cards_accepted(bytes, ext)
    &&& size_cards_accepted(bytes, ext)
    &&& field_cards_accepted(bytes, ext)
}

/// Whether the reader panics on one of them. It stops at the first that it does not accept.
pub open spec fn extension_panics(bytes: Seq<u8>, ext: int) -> bool {
    ||| table_cards_panic(bytes, ext)
    ||| table_cards_accepted(bytes, ext) && size_cards_accepted(bytes, ext) && field_cards_panic(
        bytes,
        ext,
    )
}

/// Whether the reader panics on the header of a file: it comes to a card with the keyword that it
/// expects and a value that is too short.
pub open spec fn header_panics(bytes: Seq<u8>) -> bool {
    primary_panics(bytes) || (extension(bytes) matches Some(ext) && extension_panics(bytes, ext))
}

/// The table of a file whose header the reader accepts so far: where its extension header starts,
/// where the END card of that is, and where the rows start.
pub open spec fn table(bytes: Seq<u8>) -> Option<(int, int, int)> {
    match extension(bytes) {
        Some(ext) => match end_card(bytes, ext + 8 * CARD) {
            Some(end) if extension_accepted(bytes, ext) => Some((ext, end, block_end(end))),
            _ => None,
        },
        None => None,
    }
}

/// Whether the row of `width` bytes at `at` is one of the numbers 1, 2 and 3.
pub open spec fn is_rootless_row(bytes: Seq<u8>, at: int, width: int) -> bool {
    &&& forall|k: int| at <= k < at + width - 1 ==> bytes[k] == 0
    &&& 1 <= bytes[at + width - 1] <= 3
}

/// Whether the header that starts at `ext` and ends with the card at `end` announces NUNIQ rows.
pub open spec fn is_nuniq(bytes: Seq<u8>, ext: int, end: int) -> bool {
    match ordering_card(bytes, ext + 8 * CARD, end) {
        Some(at) => {
            let value = skip_blanks(bytes, at + 10, at + CARD);
            value + 6 <= at + CARD && reads(bytes, value, nuniq_value())
        },
        None => false,
    }
}

/// Whether none of the first `rows` rows, as far as they are there, is a number that codes no
/// cell.
pub open spec fn rows_are_cells(bytes: Seq<u8>, data: int, width: int, rows: nat) -> bool {
    forall|i: int|
        0 <= i < rows && data + (i + 1) * width <= bytes.len() ==> !#[trigger] is_rootless_row(
            bytes,
            data + i * width,
            width,
        )
}

/// Whether the rows of the table are announced as NUNIQ.
pub open spec fn holds_nuniq(bytes: Seq<u8>) -> bool {
    table(bytes) matches Some((ext, end, _)) && is_nuniq(bytes, ext, end)
}

/// How many bytes the reader needs in memory for a NUNIQ row of this width, if it reads such.
pub open spec fn cell_size(width: nat) -> nat {
    if width == 2 {
        4
    } else if width == 4 {
        8
    } else if width == 8 {
        16
    } else {
        0
    }
}

/// Whether the table declares more rows than can be addressed, so that to make room for them
/// panics. Room for intervals is made only for those of 64 bits, and when the first one is there.
pub open spec fn declares_too_many(bytes: Seq<u8>) -> bool {
    match table(bytes) {
        Some((ext, end, data)) => {
            let width = card_number(bytes, ext + 3 * CARD);
            let rows = card_number(bytes, ext + 4 * CARD);
            if is_nuniq(bytes, ext, end) {
                rows * cell_size(width) > isize::MAX
            } else {
                width == 8 && rows * 8 > isize::MAX && data + 16 <= bytes.len()
            }
        },
        None => false,
    }
}

/// Whether the rows of the table are NUNIQ rows of a width that there is.
pub open spec fn holds_cells(bytes: Seq<u8>, ext: int, end: int) -> bool {
    let width = card_number(bytes, ext + 3 * CARD);
    is_nuniq(bytes, ext, end) && (width == 2 || width == 4 || width == 8)
}

/// Whether the table has NUNIQ rows that code no cell.
pub open spec fn holds_rootless_rows(bytes: Seq<u8>) -> bool {
    table(bytes) matches Some((ext, end, data)) && holds_cells(bytes, ext, end) && !rows_are_cells(
        bytes,
        data,
        card_number(bytes, ext + 3 * CARD) as int,
        card_number(bytes, ext + 4 * CARD),
    )
}

/// Whether the MOC reader can be given these bytes: it either reads them or reports an error.
pub open spec fn loadable(bytes: Seq<u8>) -> bool {
    !header_panics(bytes) && !declares_too_many(bytes) && !holds_rootless_rows(bytes)
}

/// Whether the byte at `k` is the last of one of the first `rows` rows, and that row codes no cell.
pub open spec fn ends_rootless_row(
    bytes: Seq<u8>,
    data: int,
    width: int,
    rows: nat,
    k: int,
) -> bool {
    exists|i: int|
        0 <= i < rows && data + (i + 1) * width <= bytes.len() && #[trigger] is_rootless_row(
            bytes,
            data + i * width,
            width,
        ) && k == data + i * width + width - 1
}

/// The bytes with zero in place of the first `rows` rows that code no cell.
pub open spec fn rows_mended(bytes: Seq<u8>, data: int, width: int, rows: nat) -> Seq<u8> {
    Seq::new(
        bytes.len(),
        |k: int|
            if ends_rootless_row(bytes, data, width, rows, k) {
                0u8
            } else {
                bytes[k]
            },
    )
}

/// The bytes with zero, which the MOC reader skips, in place of NUNIQ rows that code no cell.
pub open spec fn mended(bytes: Seq<u8>) -> Seq<u8> {
    match table(bytes) {
        Some((ext, end, data)) if holds_cells(bytes, ext, end) => rows_mended(
            bytes,
            data,
            card_number(bytes, ext + 3 * CARD) as int,
            card_number(bytes, ext + 4 * CARD),
        ),
        _ => bytes,
    }
}

/// Whether the byte at `k` is a digit of the number of rows that the extension header at `ext`
/// declares.
pub open spec fn counts_rows(bytes: Seq<u8>, ext: int, k: int) -> bool {
    ext + 4 * CARD + 10 <= k < ext + 5 * CARD && 48 <= bytes[k] <= 57
}

/// The bytes with zero as the number of rows that the extension header at `ext` declares.
pub open spec fn rows_uncounted(bytes: Seq<u8>, ext: int) -> Seq<u8> {
    Seq::new(
        bytes.len(),
        |k: int|
            if counts_rows(bytes, ext, k) {
                48u8
            } else {
                bytes[k]
            },
    )
}

/// The bytes with zero as the number of rows that the table declares.
pub open spec fn uncounted(bytes: Seq<u8>) -> Seq<u8> {
    match table(bytes) {
        Some((ext, _, _)) => rows_uncounted(bytes, ext),
        None => bytes,
    }
}

/// Where a block ends, for the card at `at`.
proof fn lemma_block_end(at: int)
    requires
        0 <= at,
        at % 80 == 0,
    ensures
        block_end(at) == at - at % 2880 + 2880,
        at + CARD <= block_end(at),
        block_end(at) % 80 == 0,
        block_end(at) % 2880 == 0,
{
    reveal(block_end);
    assert(at % 2880 % 80 == 0);
}

/// Whether two files have the same bytes from `from` to `to`.
spec fn agree(a: Seq<u8>, b: Seq<u8>, from: int, to: int) -> bool {
    forall|k: int| from <= k < to ==> a[k] == b[k]
}

proof fn lemma_same_reads(a: Seq<u8>, b: Seq<u8>, at: int, text: Seq<u8>)
    requires
        a.len() == b.len(),
        0 <= at,
        agree(a, b, at, at + text.len()),
    ensures
        reads(a, at, text) == reads(b, at, text),
{
    if at + text.len() <= a.len() {
        assert(a.subrange(at, at + text.len()) =~= b.subrange(at, at + text.len()));
    }
}

/// Values start at the same place where the same bytes are blank.
proof fn lemma_same_blanks(a: Seq<u8>, b: Seq<u8>, from: int, to: int)
    requires
        forall|k: int| from <= k < to ==> is_blank(a[k]) == is_blank(b[k]),
    ensures
        skip_blanks(a, from, to) == skip_blanks(b, from, to),
        from <= to ==> from <= skip_blanks(a, from, to) <= to,
    decreases to - from,
{
    if from < to && is_blank(a[from]) {
        lemma_same_blanks(a, b, from + 1, to);
    }
}

proof fn lemma_same_number(a: Seq<u8>, b: Seq<u8>, from: int, to: int, head: nat)
    requires
        agree(a, b, from, to),
    ensures
        number(a, from, to, head) == number(b, from, to, head),
    decreases to - from,
{
    if from < to && 48 <= a[from] <= 57 {
        lemma_same_number(a, b, from + 1, to, head * 10 + (a[from] - 48) as nat);
    }
}

/// A number whose digits are all zero is zero.
proof fn lemma_zero_number(a: Seq<u8>, from: int, to: int)
    requires
        forall|k: int| from <= k < to && 48 <= a[k] <= 57 ==> a[k] == 48,
    ensures
        number(a, from, to, 0) == 0,
    decreases to - from,
{
    if from < to && 48 <= a[from] <= 57 {
        lemma_zero_number(a, from + 1, to);
    }
}

/// Cards with the same bytes are the same.
proof fn lemma_same_card(a: Seq<u8>, b: Seq<u8>, at: int, keyword: Seq<u8>, value: Seq<u8>)
    requires
        a.len() == b.len(),
        0 <= at,
        at + CARD <= a.len(),
        agree(a, b, at, at + CARD),
        keyword.len() <= 8,
    ensures
        card_is(a, at, keyword, value) == card_is(b, at, keyword, value),
        card_number(a, at) == card_number(b, at),
        forall|max: nat| card_counts(a, at, keyword, max) == card_counts(b, at, keyword, max),
{
    lemma_same_reads(a, b, at, keyword);
    lemma_same_blanks(a, b, at + 10, at + CARD);
    let start = value_of(a, at);
    if start + value.len() <= at + CARD {
        lemma_same_reads(a, b, start, value);
    }
    lemma_same_number(a, b, start, at + CARD, 0);
}

/// Where an END card can be.
proof fn lemma_end(a: Seq<u8>, at: int)
    requires
        0 <= at,
        at % 80 == 0,
        end_card(a, at) is Some,
    ensures
        at <= end_card(a, at).unwrap(),
        end_card(a, at).unwrap() % 80 == 0,
        end_card(a, at).unwrap() + CARD <= block_end(end_card(a, at).unwrap()) <= a.len(),
        block_end(end_card(a, at).unwrap()) % 2880 == 0,
    decreases
            if at < a.len() {
                a.len() - at
            } else {
                0
            },
{
    lemma_block_end(at);
    if !reads(a, at, end_keyword()) {
        lemma_end(a, at + CARD);
    }
}

/// The END card is at the same place where all bytes up to it are the same.
proof fn lemma_same_end(a: Seq<u8>, b: Seq<u8>, at: int)
    requires
        a.len() == b.len(),
        0 <= at,
        at % 80 == 0,
        end_card(a, at) is Some,
        agree(a, b, at, block_end(end_card(a, at).unwrap())),
    ensures
        end_card(b, at) == end_card(a, at),
    decreases
            if at < a.len() {
                a.len() - at
            } else {
                0
            },
{
    lemma_end(a, at);
    lemma_same_reads(a, b, at, end_keyword());
    if !reads(a, at, end_keyword()) {
        lemma_same_end(a, b, at + CARD);
    }
}

/// The ORDERING card is at the same place where all bytes up to `end` are the same.
proof fn lemma_same_ordering(a: Seq<u8>, b: Seq<u8>, at: int, end: int)
    requires
        a.len() == b.len(),
        0 <= at,
        agree(a, b, at, end + CARD),
    ensures
        ordering_card(a, at, end) == ordering_card(b, at, end),
        ordering_card(a, at, end) matches Some(found) ==> at <= found < end,
    decreases
            if at < end {
                end - at
            } else {
                0
            },
{
    if at < end {
        lemma_same_reads(a, b, at, ordering_keyword());
        lemma_same_ordering(a, b, at + CARD, end);
    }
}

/// Files whose headers are the same announce NUNIQ rows alike.
proof fn lemma_same_nuniq(a: Seq<u8>, b: Seq<u8>, ext: int, end: int)
    requires
        a.len() == b.len(),
        0 <= ext,
        end + CARD <= a.len(),
        agree(a, b, ext + 8 * CARD, end + CARD),
    ensures
        is_nuniq(a, ext, end) == is_nuniq(b, ext, end),
{
    lemma_same_ordering(a, b, ext + 8 * CARD, end);
    if let Some(at) = ordering_card(a, ext + 8 * CARD, end) {
        lemma_same_blanks(a, b, at + 10, at + CARD);
        let value = skip_blanks(a, at + 10, at + CARD);
        if value + 6 <= at + CARD {
            lemma_same_reads(a, b, value, nuniq_value());
        }
    }
}

/// A file that differs from another in the digits of its row count and in its rows alone has its
/// table at the same place, with rows of the same kind and width, and the reader accepts its header
/// as far as it does the other's.
proof fn lemma_same_table(a: Seq<u8>, b: Seq<u8>)
    requires
        a.len() == b.len(),
        table(a) is Some,
        ({
            let (ext, end, data) = table(a).unwrap();
            &&& agree(a, b, 0, ext + 4 * CARD + 10)
            &&& agree(a, b, ext + 5 * CARD, data)
            &&& forall|k: int|
                ext + 4 * CARD + 10 <= k < ext + 5 * CARD ==> is_blank(#[trigger] a[k]) == is_blank(
                    b[k],
                ) && (48 <= a[k] <= 57) == (48 <= b[k] <= 57)
            &&& card_number(b, ext + 4 * CARD) <= u64::MAX
        }),
    ensures
        table(b) == table(a),
        !header_panics(b),
        ({
            let (ext, end, data) = table(a).unwrap();
            &&& 0 <= ext
            &&& ext + 8 * CARD <= end
            &&& end + CARD <= data <= a.len()
            &&& is_nuniq(a, ext, end) == is_nuniq(b, ext, end)
            &&& card_number(a, ext + 3 * CARD) == card_number(b, ext + 3 * CARD)
        }),
{
    let (ext, end, data) = table(a).unwrap();
    lemma_end(a, 3 * CARD);
    lemma_end(a, ext + 8 * CARD);
    lemma_same_card(a, b, 0, simple_keyword(), true_value());
    lemma_same_card(a, b, 2 * CARD, naxis_primary_keyword(), zero_value());
    lemma_same_end(a, b, 3 * CARD);
    lemma_same_card(a, b, ext, xtension_keyword(), bintable_value());
    lemma_same_card(a, b, ext + CARD, bitpix_keyword(), eight_value());
    lemma_same_card(a, b, ext + 2 * CARD, naxis_keyword(), two_value());
    lemma_same_card(a, b, ext + 3 * CARD, naxis1_keyword(), two_value());
    lemma_same_reads(a, b, ext + 4 * CARD, naxis2_keyword());
    lemma_same_blanks(a, b, ext + 4 * CARD + 10, ext + 5 * CARD);
    lemma_same_card(a, b, ext + 5 * CARD, pcount_keyword(), zero_value());
    lemma_same_card(a, b, ext + 6 * CARD, gcount_keyword(), one_value());
    lemma_same_card(a, b, ext + 7 * CARD, tfields_keyword(), one_value());
    lemma_same_end(a, b, ext + 8 * CARD);
    lemma_same_nuniq(a, b, ext, end);
}

/// A file with zero as its number of rows can be given to the reader.
proof fn lemma_uncounted_is_loadable(bytes: Seq<u8>)
    requires
        table(bytes) is Some,
    ensures
        loadable(uncounted(bytes)),
{
    let (ext, end, data) = table(bytes).unwrap();
    let form = uncounted(bytes);
    lemma_end(bytes, 3 * CARD);
    lemma_end(bytes, ext + 8 * CARD);
    lemma_same_blanks(form, form, ext + 4 * CARD + 10, ext + 5 * CARD);
    lemma_zero_number(form, value_of(form, ext + 4 * CARD), ext + 5 * CARD);
    lemma_same_table(bytes, form);
}

/// Rows do not overlap.
proof fn lemma_rows_differ(data: int, width: int, i: int, j: int, k: int)
    requires
        width > 0,
        data + i * width <= k < data + i * width + width,
        k == data + j * width + width - 1,
    ensures
        i == j,
{
    assert(i == j) by (nonlinear_arith)
        requires
            width > 0,
            data + i * width <= k < data + i * width + width,
            k == data + j * width + width - 1,
    ;
}

/// A file whose rows that code no cell are skipped can be given to the reader.
proof fn lemma_mended_is_loadable(bytes: Seq<u8>)
    requires
        table(bytes) is Some,
        !declares_too_many(bytes),
    ensures
        loadable(mended(bytes)),
{
    let (ext, end, data) = table(bytes).unwrap();
    let form = mended(bytes);
    let width = card_number(bytes, ext + 3 * CARD) as int;
    let rows = card_number(bytes, ext + 4 * CARD);
    lemma_end(bytes, 3 * CARD);
    lemma_end(bytes, ext + 8 * CARD);
    if holds_cells(bytes, ext, end) {
        assert forall|k: int| 0 <= k < data implies bytes[k] == form[k] by {
            if ends_rootless_row(bytes, data, width, rows, k) {
                let i = choose|i: int|
                    0 <= i < rows && data + (i + 1) * width <= bytes.len()
                        && #[trigger] is_rootless_row(bytes, data + i * width, width) && k == data
                        + i * width + width - 1;
                assert(i * width >= 0) by (nonlinear_arith)
                    requires
                        i >= 0,
                        width > 0,
                ;
            }
        }
    }
    lemma_same_card(bytes, form, ext + 4 * CARD, naxis2_keyword(), zero_value());
    lemma_same_table(bytes, form);
    if holds_cells(bytes, ext, end) {
        assert forall|i: int|
            0 <= i < rows && data + (i + 1) * width <= form.len() implies !#[trigger] is_rootless_row(
            form,
            data + i * width,
            width,
        ) by {
            assert((i + 1) * width == i * width + width && i * width >= 0) by (nonlinear_arith)
                requires
                    i >= 0,
                    width > 0,
            ;
            let last = data + i * width + width - 1;
            if is_rootless_row(bytes, data + i * width, width) {
                assert(ends_rootless_row(bytes, data, width, rows, last));
                assert(form[last] == 0);
            } else {
                assert forall|k: int| data + i * width <= k <= last implies bytes[k]
                    == form[k] by {
                    if ends_rootless_row(bytes, data, width, rows, k) {
                        let j = choose|j: int|
                            0 <= j < rows && data + (j + 1) * width <= bytes.len()
                                && #[trigger] is_rootless_row(bytes, data + j * width, width) && k
                                == data + j * width + width - 1;
                        lemma_rows_differ(data, width, i, j, k);
                    }
                }
                if is_rootless_row(form, data + i * width, width) {
                    assert forall|k: int| data + i * width <= k < data + i * width + width
                        - 1 implies bytes[k] == 0 by {
                        assert(form[k] == 0);
                    }
                }
            }
        }
        assert(rows_are_cells(form, data, width, rows));
    }
}

fn blank(byte: u8) -> (res: bool)
    ensures
        res == is_blank(byte),
{
    byte == 32 || byte == 9 || byte == 10 || byte == 12 || byte == 13
}

fn reads_at(bytes: &[u8], at: usize, text: &[u8]) -> (res: bool)
    ensures
        res == reads(bytes@, at as int, text@),
{
    if at > bytes.len() || text.len() > bytes.len() - at {
        return false;
    }
    let mut k: usize = 0;
    while k < text.len()
        invariant
            at + text.len() <= bytes.len(),
            k <= text.len(),
            forall|j: int| 0 <= j < k ==> bytes@[at + j] == #[trigger] text@[j],
        decreases text.len() - k,
    {
        if bytes[at + k] != text[k] {
            assert(bytes@.subrange(at as int, at + text.len())[k as int] != text@[k as int]);
            return false;
        }
        k += 1;
    }
    assert(bytes@.subrange(at as int, at + text.len()) =~= text@);
    true
}

/// The end of the block that holds the card at `at`, if the block is there.
fn find_block_end(bytes: &[u8], at: usize) -> (res: Option<usize>)
    requires
        at % 80 == 0,
    ensures
        match res {
            Some(end) => end == block_end(at as int) && at + CARD <= end <= bytes.len() && end % 2880
                == 0,
            None => block_end(at as int) > bytes.len(),
        },
{
    proof {
        lemma_block_end(at as int);
    }
    if at >= bytes.len() || bytes.len() - at < BLOCK - at % BLOCK {
        return None;
    }
    Some(at - at % BLOCK + BLOCK)
}

fn find_end_card(bytes: &[u8], from: usize) -> (res: Option<(usize, usize)>)
    requires
        from % 80 == 0,
    ensures
        match res {
            Some((at, data)) => {
                &&& end_card(bytes@, from as int) == Some(at as int)
                &&& data == block_end(at as int)
                &&& at + CARD <= data <= bytes.len()
                &&& data % 2880 == 0
            },
            None => end_card(bytes@, from as int) is None,
        },
{
    let keyword: [u8; 4] = [69u8, 78, 68, 32];
    assert(keyword@ =~= end_keyword());
    let mut at: usize = from;
    loop
        invariant
            keyword@ == end_keyword(),
            at % 80 == 0,
            end_card(bytes@, from as int) == end_card(bytes@, at as int),
        decreases bytes.len() - at,
    {
        let data: usize = match find_block_end(bytes, at) {
            Some(data) => data,
            None => {
                return None;
            },
        };
        if reads_at(bytes, at, keyword.as_slice()) {
            return Some((at, data));
        }
        at += CARD;
    }
}

fn find_ordering_card(bytes: &[u8], from: usize, end: usize) -> (res: Option<usize>)
    requires
        end + CARD <= bytes.len(),
    ensures
        match res {
            Some(at) => ordering_card(bytes@, from as int, end as int) == Some(at as int) && at
                < end,
            None => ordering_card(bytes@, from as int, end as int) is None,
        },
{
    let keyword: [u8; 8] = [79u8, 82, 68, 69, 82, 73, 78, 71];
    assert(keyword@ =~= ordering_keyword());
    let mut at: usize = from;
    while at < end
        invariant
            keyword@ == ordering_keyword(),
            end + CARD <= bytes.len(),
            ordering_card(bytes@, from as int, end as int) == ordering_card(
                bytes@,
                at as int,
                end as int,
            ),
        decreases
                if at < end {
                    end - at
                } else {
                    0
                },
    {
        if reads_at(bytes, at, keyword.as_slice()) {
            return Some(at);
        }
        at += CARD;
    }
    None
}

fn value_start(bytes: &[u8], at: usize) -> (res: usize)
    requires
        at + CARD <= bytes.len(),
    ensures
        res == skip_blanks(bytes@, at + 10, at + CARD),
        at + 10 <= res <= at + CARD,
{
    let mut k: usize = at + 10;
    while k < at + CARD && blank(bytes[k])
        invariant
            at + CARD <= bytes.len(),
            at + 10 <= k <= at + CARD,
            skip_blanks(bytes@, at + 10, at + CARD) == skip_blanks(bytes@, k as int, at + CARD),
        decreases at + CARD - k,
    {
        k += 1;
    }
    k
}

/// A number only grows when digits are appended to it.
proof fn lemma_number_grows(bytes: Seq<u8>, from: int, to: int, head: nat)
    ensures
        number(bytes, from, to, head) >= head,
    decreases to - from,
{
    if from < to && 48 <= bytes[from] <= 57 {
        lemma_number_grows(bytes, from + 1, to, head * 10 + (bytes[from] - 48) as nat);
    }
}

/// The number in the card at `at`, or `None` where it is more than 64 bits hold.
fn read_number(bytes: &[u8], at: usize) -> (res: Option<u64>)
    requires
        at + CARD <= bytes.len(),
    ensures
        match res {
            Some(n) => n == card_number(bytes@, at as int),
            None => card_number(bytes@, at as int) > u64::MAX,
        },
{
    let mut k: usize = value_start(bytes, at);
    let mut n: u64 = 0;
    while k < at + CARD && 48 <= bytes[k] && bytes[k] <= 57
        invariant
            at + CARD <= bytes.len(),
            at + 10 <= k <= at + CARD,
            card_number(bytes@, at as int) == number(bytes@, k as int, at + CARD, n as nat),
        decreases at + CARD - k,
    {
        let next: u128 = n as u128 * 10 + (bytes[k] - 48) as u128;
        if next > u64::MAX as u128 {
            proof {
                lemma_number_grows(bytes@, k + 1, at + CARD, next as nat);
            }
            return None;
        }
        n = next as u64;
        k += 1;
    }
    Some(n)
}

fn row_is_rootless(bytes: &[u8], at: usize, width: usize) -> (res: bool)
    requires
        at + width <= bytes.len(),
        1 <= width,
    ensures
        res == is_rootless_row(bytes@, at as int, width as int),
{
    let mut k: usize = at;
    while k < at + width - 1
        invariant
            at + width <= bytes.len(),
            1 <= width,
            at <= k <= at + width - 1,
            forall|j: int| at <= j < k ==> bytes@[j] == 0,
        decreases at + width - k,
    {
        if bytes[k] != 0 {
            return false;
        }
        k += 1;
    }
    1 <= bytes[at + width - 1] && bytes[at + width - 1] <= 3
}

fn all_rows_are_cells(bytes: &[u8], data: usize, width: usize, rows: u64) -> (res: bool)
    requires
        data <= bytes.len(),
        1 <= width <= 8,
    ensures
        res == rows_are_cells(bytes@, data as int, width as int, rows as nat),
{
    let mut i: u64 = 0;
    let mut at: usize = data;
    while i < rows && width <= bytes.len() - at
        invariant
            1 <= width <= 8,
            i <= rows,
            at == data + i * width,
            data <= at <= bytes.len(),
            forall|j: int|
                0 <= j < i ==> !#[trigger] is_rootless_row(
                    bytes@,
                    data + j * width,
                    width as int,
                ),
        decreases rows - i,
    {
        assert((i + 1) * width == i * width + width) by (nonlinear_arith);
        if row_is_rootless(bytes, at, width) {
            return false;
        }
        i += 1;
        at += width;
    }
    assert forall|j: int|
        0 <= j < rows && data + (j + 1) * width
            <= bytes.len() implies !#[trigger] is_rootless_row(
        bytes@,
        data + j * width,
        width as int,
    ) by {
        if j >= i {
            assert((j + 1) * width >= (i + 1) * width && (i + 1) * width == i * width + width)
                by (nonlinear_arith)
                requires
                    j >= i,
                    width >= 1,
            ;
        }
    }
    true
}

fn nuniq_announced(bytes: &[u8], ext: usize, end: usize) -> (res: bool)
    requires
        ext + BLOCK <= bytes.len(),
        end + CARD <= bytes.len(),
    ensures
        res == is_nuniq(bytes@, ext as int, end as int),
{
    match find_ordering_card(bytes, ext + 8 * CARD, end) {
        Some(at) => {
            let text: [u8; 6] = [39u8, 78, 85, 78, 73, 81];
            assert(text@ =~= nuniq_value());
            let value: usize = value_start(bytes, at);
            value <= at + CARD - 6 && reads_at(bytes, value, text.as_slice())
        },
        None => false,
    }
}

/// How the reader takes a card.
#[derive(Debug, Clone, Copy, PartialEq, Eq, Structural)]
enum CardCheck {
    /// It accepts it.
    Accepted,
    /// It reports an error.
    Rejected,
    /// It panics.
    Panics,
}

fn announced(bytes: &[u8], at: usize, keyword: &[u8]) -> (res: bool)
    requires
        at + CARD <= bytes.len(),
    ensures
        res == announces(bytes@, at as int, keyword@),
{
    reads_at(bytes, at, keyword) && bytes[at + 8] == 61 && bytes[at + 9] == 32
}

fn check_card(bytes: &[u8], at: usize, keyword: &[u8], value: &[u8]) -> (res: CardCheck)
    requires
        at + CARD <= bytes.len(),
        value.len() <= CARD,
    ensures
        res is Accepted == card_is(bytes@, at as int, keyword@, value@),
        res is Panics == card_cuts(bytes@, at as int, keyword@, value@),
{
    if !announced(bytes, at, keyword) {
        return CardCheck::Rejected;
    }
    let start: usize = value_start(bytes, at);
    if value.len() > at + CARD - start {
        CardCheck::Panics
    } else if reads_at(bytes, start, value) {
        CardCheck::Accepted
    } else {
        CardCheck::Rejected
    }
}

/// The number in a card that the reader accepts.
fn check_count(bytes: &[u8], at: usize, keyword: &[u8], max: u64) -> (res: Option<u64>)
    requires
        at + CARD <= bytes.len(),
    ensures
        match res {
            Some(n) => card_counts(bytes@, at as int, keyword@, max as nat) && n == card_number(
                bytes@,
                at as int,
            ),
            None => !card_counts(bytes@, at as int, keyword@, max as nat),
        },
{
    if !announced(bytes, at, keyword) {
        return None;
    }
    let start: usize = value_start(bytes, at);
    if start >= at + CARD || bytes[start] < 48 || bytes[start] > 57 {
        return None;
    }
    match read_number(bytes, at) {
        Some(n) if n <= max => Some(n),
        _ => None,
    }
}

/// How the reader takes the cards of the primary header whose places are fixed.
fn check_primary(bytes: &[u8]) -> (res: CardCheck)
    requires
        BLOCK <= bytes.len(),
    ensures
        res is Accepted == primary_accepted(bytes@),
        res is Panics == primary_panics(bytes@),
{
    let true_text: [u8; 1] = [84u8];
    assert(true_text@ =~= true_value());
    let zero_text: [u8; 1] = [48u8];
    assert(zero_text@ =~= zero_value());
    let simple: [u8; 7] = [83u8, 73, 77, 80, 76, 69, 32];
    assert(simple@ =~= simple_keyword());
    let naxis_primary: [u8; 6] = [78u8, 65, 88, 73, 83, 32];
    assert(naxis_primary@ =~= naxis_primary_keyword());
    match check_card(bytes, 0, simple.as_slice(), true_text.as_slice()) {
        CardCheck::Accepted => {},
        other => {
            return other;
        },
    }
    check_card(bytes, 2 * CARD, naxis_primary.as_slice(), zero_text.as_slice())
}

/// How the reader takes the first three cards of the extension header.
fn check_table_cards(bytes: &[u8], ext: usize) -> (res: CardCheck)
    requires
        ext + BLOCK <= bytes.len(),
    ensures
        res is Accepted == table_cards_accepted(bytes@, ext as int),
        res is Panics == table_cards_panic(bytes@, ext as int),
{
    let bintable_text: [u8; 10] = [39u8, 66, 73, 78, 84, 65, 66, 76, 69, 39];
    assert(bintable_text@ =~= bintable_value());
    let eight_text: [u8; 1] = [56u8];
    assert(eight_text@ =~= eight_value());
    let two_text: [u8; 1] = [50u8];
    assert(two_text@ =~= two_value());
    let xtension: [u8; 8] = [88u8, 84, 69, 78, 83, 73, 79, 78];
    assert(xtension@ =~= xtension_keyword());
    let bitpix: [u8; 8] = [66u8, 73, 84, 80, 73, 88, 32, 32];
    assert(bitpix@ =~= bitpix_keyword());
    let naxis: [u8; 7] = [78u8, 65, 88, 73, 83, 32, 32];
    assert(naxis@ =~= naxis_keyword());
    match check_card(bytes, ext, xtension.as_slice(), bintable_text.as_slice()) {
        CardCheck::Accepted => {},
        other => {
            return other;
        },
    }
    match check_card(bytes, ext + CARD, bitpix.as_slice(), eight_text.as_slice()) {
        CardCheck::Accepted => {},
        other => {
            return other;
        },
    }
    check_card(bytes, ext + 2 * CARD, naxis.as_slice(), two_text.as_slice())
}

/// How the reader takes the three cards after those on the size of the table.
fn check_field_cards(bytes: &[u8], ext: usize) -> (res: CardCheck)
    requires
        ext + BLOCK <= bytes.len(),
    ensures
        res is Accepted == field_cards_accepted(bytes@, ext as int),
        res is Panics == field_cards_panic(bytes@, ext as int),
{
    let zero_text: [u8; 1] = [48u8];
    assert(zero_text@ =~= zero_value());
    let one_text: [u8; 1] = [49u8];
    assert(one_text@ =~= one_value());
    let pcount: [u8; 8] = [80u8, 67, 79, 85, 78, 84, 32, 32];
    assert(pcount@ =~= pcount_keyword());
    let gcount: [u8; 8] = [71u8, 67, 79, 85, 78, 84, 32, 32];
    assert(gcount@ =~= gcount_keyword());
    let tfields: [u8; 8] = [84u8, 70, 73, 69, 76, 68, 83, 32];
    assert(tfields@ =~= tfields_keyword());
    match check_card(bytes, ext + 5 * CARD, pcount.as_slice(), zero_text.as_slice()) {
        CardCheck::Accepted => {},
        other => {
            return other;
        },
    }
    match check_card(bytes, ext + 6 * CARD, gcount.as_slice(), one_text.as_slice()) {
        CardCheck::Accepted => {},
        other => {
            return other;
        },
    }
    check_card(bytes, ext + 7 * CARD, tfields.as_slice(), one_text.as_slice())
}

/// The width and the number of the rows, where the reader accepts the two cards that say so.
fn check_size_cards(bytes: &[u8], ext: usize) -> (res: Option<(u64, u64)>)
    requires
        ext + BLOCK <= bytes.len(),
    ensures
        match res {
            Some((width, rows)) => {
                &&& size_cards_accepted(bytes@, ext as int)
                &&& width == card_number(bytes@, ext + 3 * CARD)
                &&& rows == card_number(bytes@, ext + 4 * CARD)
            },
            None => !size_cards_accepted(bytes@, ext as int),
        },
{
    let naxis1: [u8; 8] = [78u8, 65, 88, 73, 83, 49, 32, 32];
    assert(naxis1@ =~= naxis1_keyword());
    let naxis2: [u8; 7] = [78u8, 65, 88, 73, 83, 50, 32];
    assert(naxis2@ =~= naxis2_keyword());
    let width: u64 = match check_count(bytes, ext + 3 * CARD, naxis1.as_slice(), 255) {
        Some(width) => width,
        None => {
            return None;
        },
    };
    match check_count(bytes, ext + 4 * CARD, naxis2.as_slice(), u64::MAX) {
        Some(rows) => Some((width, rows)),
        None => None,
    }
}

/// What the reader makes of a header.
enum Header {
    /// It panics.
    Panics,
    /// It reports an error.
    Rejected,
    /// It comes to a table.
    Table { ext: usize, end: usize, data: usize, width: u64, rows: u64 },
}

/// What the reader makes of the extension header at `ext`.
fn check_extension(bytes: &[u8], ext: usize) -> (res: Header)
    requires
        ext % 2880 == 0,
        ext + BLOCK <= bytes.len(),
    ensures
        match res {
            Header::Panics => extension_panics(bytes@, ext as int),
            Header::Rejected => !extension_panics(bytes@, ext as int) && !(extension_accepted(
                bytes@,
                ext as int,
            ) && end_card(bytes@, ext + 8 * CARD) is Some),
            Header::Table { ext: at, end, data, width, rows } => {
                &&& !extension_panics(bytes@, ext as int)
                &&& extension_accepted(bytes@, ext as int)
                &&& at == ext
                &&& end_card(bytes@, ext + 8 * CARD) == Some(end as int)
                &&& data == block_end(end as int)
                &&& end + CARD <= data <= bytes.len()
                &&& width == card_number(bytes@, ext + 3 * CARD)
                &&& rows == card_number(bytes@, ext + 4 * CARD)
            },
        },
{
    match check_table_cards(bytes, ext) {
        CardCheck::Panics => {
            return Header::Panics;
        },
        CardCheck::Rejected => {
            return Header::Rejected;
        },
        CardCheck::Accepted => {},
    }
    let (width, rows): (u64, u64) = match check_size_cards(bytes, ext) {
        Some(size) => size,
        None => {
            return Header::Rejected;
        },
    };
    match check_field_cards(bytes, ext) {
        CardCheck::Panics => {
            return Header::Panics;
        },
        CardCheck::Rejected => {
            return Header::Rejected;
        },
        CardCheck::Accepted => {},
    }
    match find_end_card(bytes, ext + 8 * CARD) {
        Some((end, data)) => Header::Table { ext, end, data, width, rows },
        None => Header::Rejected,
    }
}

/// What the reader makes of the header of a file.
fn check_header(bytes: &[u8]) -> (res: Header)
    ensures
        match res {
            Header::Panics => header_panics(bytes@),
            Header::Rejected => !header_panics(bytes@) && table(bytes@) is None,
            Header::Table { ext, end, data, width, rows } => {
                &&& !header_panics(bytes@)
                &&& table(bytes@) == Some((ext as int, end as int, data as int))
                &&& ext + BLOCK <= bytes.len()
                &&& end + CARD <= data <= bytes.len()
                &&& width == card_number(bytes@, ext + 3 * CARD)
                &&& rows == card_number(bytes@, ext + 4 * CARD)
            },
        },
{
    if bytes.len() < BLOCK {
        return Header::Rejected;
    }
    match check_primary(bytes) {
        CardCheck::Panics => {
            return Header::Panics;
        },
        CardCheck::Rejected => {
            return Header::Rejected;
        },
        CardCheck::Accepted => {},
    }
    match find_end_card(bytes, 3 * CARD) {
        Some((_, ext)) => if bytes.len() - ext < BLOCK {
            Header::Rejected
        } else {
            check_extension(bytes, ext)
        },
        None => Header::Rejected,
    }
}

/// The bytes with zero in place of the rows that code no cell.
fn mend_rows(bytes: &[u8], data: usize, width: usize, rows: u64) -> (res: Vec<u8>)
    requires
        data <= bytes.len(),
        1 <= width <= 8,
    ensures
        res@ == rows_mended(bytes@, data as int, width as int, rows as nat),
{
    let mut res: Vec<u8> = slice_to_vec(bytes);
    let mut i: u64 = 0;
    let mut at: usize = data;
    assert(res@ =~= rows_mended(bytes@, data as int, width as int, 0));
    while i < rows && width <= bytes.len() - at
        invariant
            1 <= width <= 8,
            i <= rows,
            at == data + i * width,
            data <= at <= bytes.len(),
            res@ == rows_mended(bytes@, data as int, width as int, i as nat),
        decreases rows - i,
    {
        assert((i + 1) * width == i * width + width) by (nonlinear_arith);
        let rootless: bool = row_is_rootless(bytes, at, width);
        if rootless {
            res.set(at + width - 1, 0);
        }
        proof {
            assert forall|k: int|
                ends_rootless_row(bytes@, data as int, width as int, (i + 1) as nat, k) == (
                ends_rootless_row(bytes@, data as int, width as int, i as nat, k) || (rootless && k
                    == at + width - 1)) by {
                if rootless && k == at + width - 1 {
                    assert(is_rootless_row(bytes@, data + i * width, width as int));
                }
                if ends_rootless_row(bytes@, data as int, width as int, i as nat, k) {
                    let j = choose|j: int|
                        0 <= j < i && data + (j + 1) * width <= bytes.len()
                            && #[trigger] is_rootless_row(
                            bytes@,
                            data + j * width,
                            width as int,
                        ) && k == data + j * width + width - 1;
                    assert(is_rootless_row(bytes@, data + j * width, width as int));
                }
            }
            assert(res@ =~= rows_mended(bytes@, data as int, width as int, (i + 1) as nat));
        }
        i += 1;
        at += width;
    }
    assert forall|k: int|
        ends_rootless_row(bytes@, data as int, width as int, rows as nat, k) == ends_rootless_row(
            bytes@,
            data as int,
            width as int,
            i as nat,
            k,
        ) by {
        if ends_rootless_row(bytes@, data as int, width as int, rows as nat, k) {
            let j = choose|j: int|
                0 <= j < rows && data + (j + 1) * width <= bytes.len() && #[trigger] is_rootless_row(
                    bytes@,
                    data + j * width,
                    width as int,
                ) && k == data + j * width + width - 1;
            if j >= i {
                assert((j + 1) * width >= (i + 1) * width && (i + 1) * width == i * width + width)
                    by (nonlinear_arith)
                    requires
                        j >= i,
                        width >= 1,
                ;
            }
            assert(is_rootless_row(bytes@, data + j * width, width as int));
        }
        if ends_rootless_row(bytes@, data as int, width as int, i as nat, k) {
            let j = choose|j: int|
                0 <= j < i && data + (j + 1) * width <= bytes.len() && #[trigger] is_rootless_row(
                    bytes@,
                    data + j * width,
                    width as int,
                ) && k == data + j * width + width - 1;
            assert(is_rootless_row(bytes@, data + j * width, width as int));
        }
    }
    assert(res@ =~= rows_mended(bytes@, data as int, width as int, rows as nat));
    res
}

/// The bytes with zero as the number of rows that the extension header at `ext` declares.
fn uncount_rows(bytes: &[u8], ext: usize) -> (res: Vec<u8>)
    requires
        ext + BLOCK <= bytes.len(),
    ensures
        res@ == rows_uncounted(bytes@, ext as int),
{
    let mut res: Vec<u8> = slice_to_vec(bytes);
    let mut k: usize = ext + 4 * CARD + 10;
    while k < ext + 5 * CARD
        invariant
            ext + BLOCK <= bytes.len(),
            ext + 4 * CARD + 10 <= k <= ext + 5 * CARD,
            res.len() == bytes.len(),
            forall|j: int|
                0 <= j < bytes.len() ==> #[trigger] res@[j] == if j < k && counts_rows(
                    bytes@,
                    ext as int,
                    j,
                ) {
                    48u8
                } else {
                    bytes@[j]
                },
        decreases ext + 5 * CARD - k,
    {
        if 48 <= bytes[k] && bytes[k] <= 57 {
            res.set(k, 48);
        }
        k += 1;
    }
    assert(res@ =~= rows_uncounted(bytes@, ext as int));
    res
}

/// Whether two files are the same.
pub(crate) fn same_bytes(a: &[u8], b: &[u8]) -> (res: bool)
    ensures
        res == (a@ == b@),
{
    if a.len() != b.len() {
        return false;
    }
    let res: bool = reads_at(a, 0, b);
    assert(a@.subrange(0, b@.len() as int) =~= a@);
    res
}

/// What the MOC reader can be given of a file.
#[derive(Debug)]
pub enum FitsForm {
    /// Nothing: it panics on the header.
    Unreadable,
    /// The bytes as they are.
    Plain,
    /// These bytes, in which the NUNIQ rows that code no cell are skipped.
    Mended(Vec<u8>),
    /// These bytes, in which no rows are declared, in place of more than can be addressed. What the
    /// reader says of them it says of the file, but for what it holds: for intervals or cells it
    /// would panic.
    Uncounted { bytes: Vec<u8>, nuniq: bool },
}

/// Finds out what the MOC reader can be given of a file.
pub fn readable_form(bytes: &[u8]) -> (res: FitsForm)
    ensures
        match res {
            FitsForm::Unreadable => header_panics(bytes@),
            FitsForm::Plain => loadable(bytes@),
            FitsForm::Mended(form) => {
                &&& !header_panics(bytes@) && !declares_too_many(bytes@)
                &&& holds_rootless_rows(bytes@)
                &&& form@ == mended(bytes@)
                &&& loadable(form@)
            },
            FitsForm::Uncounted { bytes: form, nuniq } => {
                &&& !header_panics(bytes@) && declares_too_many(bytes@)
                &&& form@ == uncounted(bytes@)
                &&& nuniq == holds_nuniq(bytes@)
                &&& loadable(form@)
            },
        },
{
    match check_header(bytes) {
        Header::Panics => FitsForm::Unreadable,
        Header::Rejected => FitsForm::Plain,
        Header::Table { ext, end, data, width, rows } => {
            let nuniq: bool = nuniq_announced(bytes, ext, end);
            let too_many: bool = if !nuniq {
                width == 8 && rows as u128 * 8 > isize::MAX as u128 && bytes.len() - data >= 16
            } else if width == 2 {
                rows as u128 * 4 > isize::MAX as u128
            } else if width == 4 {
                rows as u128 * 8 > isize::MAX as u128
            } else if width == 8 {
                rows as u128 * 16 > isize::MAX as u128
            } else {
                false
            };
            if too_many {
                proof {
                    lemma_uncounted_is_loadable(bytes@);
                }
                FitsForm::Uncounted { bytes: uncount_rows(bytes, ext), nuniq }
            } else if nuniq && (width == 2 || width == 4 || width == 8) && !all_rows_are_cells(
                bytes,
                data,
                width as usize,
                rows,
            ) {
                proof {
                    lemma_mended_is_loadable(bytes@);
                }
                FitsForm::Mended(mend_rows(bytes, data, width as usize, rows))
            } else {
                FitsForm::Plain
            }
        },
    }
}

} // verus!
