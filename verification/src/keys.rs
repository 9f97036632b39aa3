//! The Valkey keys of the index, three families under one prefix.
use crate::text::decimal_text;
use vstd::prelude::*;
#[allow(unused_imports)]
use vstd::string::*;

verus! {

/// What every key of the index starts with.
pub open spec fn key_prefix() -> Seq<char> {
    "mocidx:"@
}

/// The key of the set of MOC ids that touch a cell: `mocidx:cell:{depth}:{cell}`.
pub open spec fn cell_key_text(depth: u8, cell: u64) -> Seq<char> {
    "mocidx:cell:"@ + crate::text::decimal(depth as nat) + ":"@ + crate::text::decimal(cell as nat)
}

/// The key of a MOC's FITS bytes: `mocidx:fits:{moc_id}`.
pub open spec fn fits_key_text(moc_id: Seq<char>) -> Seq<char> {
    "mocidx:fits:"@ + moc_id
}

/// The key of a MOC's metadata: `mocidx:meta:{moc_id}`.
pub open spec fn meta_key_text(moc_id: Seq<char>) -> Seq<char> {
    "mocidx:meta:"@ + moc_id
}

/// Whether a key belongs to the index: whether it matches the pattern [`all_keys`].
pub open spec fn is_ours(key: Seq<char>) -> bool {
    crate::text::starts_with(key, key_prefix())
}

/// The key of the set of MOC ids that touch a cell.
pub fn cell_key(depth: u8, cell: u64) -> (res: String)
    ensures
        res@ == cell_key_text(depth, cell),
{
    let mut key: String = "mocidx:cell:".to_owned();
    key.append(decimal_text(depth as u64).as_str());
    key.append(":");
    key.append(decimal_text(cell).as_str());
    key
}

/// The key of a MOC's FITS bytes.
pub fn fits_key(moc_id: &str) -> (res: String)
    ensures
        res@ == fits_key_text(moc_id@),
{
    "mocidx:fits:".to_owned().concat(moc_id)
}

/// The key of a MOC's metadata.
pub fn meta_key(moc_id: &str) -> (res: String)
    ensures
        res@ == meta_key_text(moc_id@),
{
    "mocidx:meta:".to_owned().concat(moc_id)
}

/// The glob pattern of all keys of the index: their prefix and a star.
pub fn all_keys() -> (res: &'static str)
    ensures
        res@ == key_prefix().push('*'),
        res@ == "mocidx:*"@,
{
    proof {
        reveal_strlit("mocidx:*");
        reveal_strlit("mocidx:");
        assert("mocidx:*"@ =~= key_prefix().push('*'));
    }
    "mocidx:*"
}

proof fn lemma_prefixes()
    ensures
        key_prefix() == seq!['m', 'o', 'c', 'i', 'd', 'x', ':'],
        "mocidx:cell:"@ == seq!['m', 'o', 'c', 'i', 'd', 'x', ':', 'c', 'e', 'l', 'l', ':'],
        "mocidx:fits:"@ == seq!['m', 'o', 'c', 'i', 'd', 'x', ':', 'f', 'i', 't', 's', ':'],
        "mocidx:meta:"@ == seq!['m', 'o', 'c', 'i', 'd', 'x', ':', 'm', 'e', 't', 'a', ':'],
        ":"@ == seq![':'],
{
    reveal_strlit("mocidx:");
    reveal_strlit("mocidx:cell:");
    reveal_strlit("mocidx:fits:");
    reveal_strlit("mocidx:meta:");
    reveal_strlit(":");
    assert(key_prefix() =~= seq!['m', 'o', 'c', 'i', 'd', 'x', ':']);
    assert("mocidx:cell:"@ =~= seq![
        'm',
        'o',
        'c',
        'i',
        'd',
        'x',
        ':',
        'c',
        'e',
        'l',
        'l',
        ':',
    ]);
    assert("mocidx:fits:"@ =~= seq![
        'm',
        'o',
        'c',
        'i',
        'd',
        'x',
        ':',
        'f',
        'i',
        't',
        's',
        ':',
    ]);
    assert("mocidx:meta:"@ =~= seq![
        'm',
        'o',
        'c',
        'i',
        'd',
        'x',
        ':',
        'm',
        'e',
        't',
        'a',
        ':',
    ]);
    assert(":"@ =~= seq![':']);
}

/// Different cells have different keys.
pub proof fn law_cell_keys_are_distinct(depth: u8, cell: u64, other_depth: u8, other: u64)
    requires
        cell_key_text(depth, cell) == cell_key_text(other_depth, other),
    ensures
        depth == other_depth,
        cell == other,
{
    lemma_prefixes();
    let key = cell_key_text(depth, cell);
    let (a, b) = (crate::text::decimal(depth as nat), crate::text::decimal(other_depth as nat));
    let (x, y) = (crate::text::decimal(cell as nat), crate::text::decimal(other as nat));
    crate::text::lemma_decimal_digits(depth as nat);
    crate::text::lemma_decimal_digits(other_depth as nat);
    let other_key = cell_key_text(other_depth, other);
    assert(key.subrange(12, 12 + a.len() as int) =~= a);
    assert(other_key.subrange(12, 12 + b.len() as int) =~= b);
    assert(key[12 + a.len() as int] == ':');
    assert(other_key[12 + b.len() as int] == ':');
    if a.len() < b.len() {
        assert(other_key[12 + a.len() as int] == b[a.len() as int]);
    }
    if b.len() < a.len() {
        assert(key[12 + b.len() as int] == a[b.len() as int]);
    }
    assert(key.skip(13 + a.len() as int) =~= x);
    assert(other_key.skip(13 + b.len() as int) =~= y);
    crate::text::law_decimal_is_injective(depth as nat, other_depth as nat);
    crate::text::law_decimal_is_injective(cell as nat, other as nat);
}

/// Different MOC ids have different FITS keys and different metadata keys.
pub proof fn law_moc_keys_are_distinct(moc_id: Seq<char>, other: Seq<char>)
    requires
        fits_key_text(moc_id) == fits_key_text(other) || meta_key_text(moc_id) == meta_key_text(
            other,
        ),
    ensures
        moc_id == other,
{
    lemma_prefixes();
    assert(fits_key_text(moc_id).skip(12) =~= moc_id);
    assert(fits_key_text(other).skip(12) =~= other);
    assert(meta_key_text(moc_id).skip(12) =~= moc_id);
    assert(meta_key_text(other).skip(12) =~= other);
}

/// The three families of keys have no key in common.
pub proof fn law_key_families_are_disjoint(
    depth: u8,
    cell: u64,
    moc_id: Seq<char>,
    other: Seq<char>,
)
    ensures
        cell_key_text(depth, cell) != fits_key_text(moc_id),
        cell_key_text(depth, cell) != meta_key_text(moc_id),
        fits_key_text(moc_id) != meta_key_text(other),
{
    lemma_prefixes();
    assert(cell_key_text(depth, cell)[7] == 'c');
    assert(fits_key_text(moc_id)[7] == 'f');
    assert(meta_key_text(moc_id)[7] == 'm');
    assert(meta_key_text(other)[7] == 'm');
}

/// Every key of the index matches the pattern that is flushed.
pub proof fn law_every_key_is_ours(depth: u8, cell: u64, moc_id: Seq<char>)
    ensures
        is_ours(cell_key_text(depth, cell)),
        is_ours(fits_key_text(moc_id)),
        is_ours(meta_key_text(moc_id)),
{
    lemma_prefixes();
    assert(cell_key_text(depth, cell).take(7) =~= key_prefix());
    assert(fits_key_text(moc_id).take(7) =~= key_prefix());
    assert(meta_key_text(moc_id).take(7) =~= key_prefix());
}

/// A key can be read back: it names its family, and then the cell's depth and number, read digit by
/// digit on both sides of a colon, or the MOC id.
pub proof fn law_keys_read_back(
    depth: u8,
    cell: u64,
    moc_id: Seq<char>,
    read: spec_fn(int, char) -> int,
)
    requires
        forall|value: int, c: char| #[trigger] read(value, c) == 10 * value + (c as int - '0' as int),
    ensures
        cell_key_text(depth, cell).take(12) == "mocidx:cell:"@,
        exists|colon: int|
            {
                &&& 12 < colon < cell_key_text(depth, cell).len() - 1
                &&& #[trigger] cell_key_text(depth, cell)[colon] == ':'
                &&& cell_key_text(depth, cell).subrange(12, colon).fold_left(0, read) == depth
                &&& cell_key_text(depth, cell).skip(colon + 1).fold_left(0, read) == cell
            },
        fits_key_text(moc_id) == "mocidx:fits:"@ + moc_id,
        meta_key_text(moc_id) == "mocidx:meta:"@ + moc_id,
{
    lemma_prefixes();
    let key = cell_key_text(depth, cell);
    let (a, b) = (crate::text::decimal(depth as nat), crate::text::decimal(cell as nat));
    crate::text::law_decimal_reads_back(depth as nat, read);
    crate::text::law_decimal_reads_back(cell as nat, read);
    let colon = 12 + a.len() as int;
    assert(key.take(12) =~= "mocidx:cell:"@);
    assert(key[colon] == ':');
    assert(key.subrange(12, colon) =~= a);
    assert(key.skip(colon + 1) =~= b);
}

/// A key belongs to the index exactly if it is `mocidx:` and anything after that.
pub proof fn law_our_keys_start_alike(key: Seq<char>)
    ensures
        is_ours(key) <==> exists|rest: Seq<char>| key == #[trigger] ("mocidx:"@ + rest),
{
    if is_ours(key) {
        crate::text::law_prefix_is_cut_off(key, "mocidx:"@, key);
    }
    assert forall|rest: Seq<char>| key == #[trigger] ("mocidx:"@ + rest) implies is_ours(key) by {
        crate::text::law_prefix_is_cut_off(key, "mocidx:"@, rest);
    }
}

} // verus!
