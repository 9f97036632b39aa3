//! What the benchmark registers, and what it counts.
use crate::text::{decimal_text, padded_text};
use vstd::prelude::*;
#[allow(unused_imports)]
use vstd::string::*;

verus! {

/// The id of the benchmark's MOC number `i`, e.g. `ORIGIN-O4HL-000007`.
pub open spec fn moc_id_text(i: u64) -> Seq<char> {
    "ORIGIN-O4HL-"@ + crate::text::padded(i as nat, 6)
}

/// The trigger time of the benchmark's MOC number `i`: that second of a minute.
pub open spec fn trigger_time_text(i: u64) -> Seq<char> {
    "2026-01-01T00:00:"@ + crate::text::padded((i % 60) as nat, 2) + "Z"@
}

/// The file of skymap number `i`.
pub open spec fn skymap_path_text(dir: Seq<char>, i: u64) -> Seq<char> {
    dir + "/"@ + crate::text::decimal(i as nat) + ".fits"@
}

/// The id of the benchmark's MOC number `i`.
pub fn moc_id(i: u64) -> (res: String)
    ensures
        res@ == moc_id_text(i),
{
    let mut res: String = "ORIGIN-O4HL-".to_owned();
    res.append(padded_text(i, 6).as_str());
    res
}

/// The trigger time of the benchmark's MOC number `i`.
pub fn trigger_time(i: u64) -> (res: String)
    ensures
        res@ == trigger_time_text(i),
{
    let mut res: String = "2026-01-01T00:00:".to_owned();
    res.append(padded_text(i % 60, 2).as_str());
    res.append("Z");
    res
}

/// The file of skymap number `i`.
pub fn skymap_path(dir: &str, i: u64) -> (res: String)
    ensures
        res@ == skymap_path_text(dir@, i),
{
    let mut res: String = dir.to_owned();
    res.append("/");
    res.append(decimal_text(i).as_str());
    res.append(".fits");
    res
}

/// The benchmark's MOCs have different ids.
pub proof fn law_benchmark_ids_are_distinct(i: u64, j: u64)
    requires
        moc_id_text(i) == moc_id_text(j),
    ensures
        i == j,
{
    let prefix = "ORIGIN-O4HL-"@;
    assert(moc_id_text(i).skip(prefix.len() as int) =~= crate::text::padded(i as nat, 6));
    assert(moc_id_text(j).skip(prefix.len() as int) =~= crate::text::padded(j as nat, 6));
    crate::text::law_padded_is_injective(i as nat, j as nat, 6);
}

/// How many lookups have found something.
#[derive(Debug, Clone, Copy, PartialEq, Eq, Structural)]
pub struct Tally {
    /// Lookups that had at least one candidate, as far as is known.
    pub with_candidates: u64,
    /// Lookups that had at least one precise hit.
    pub with_hits: u64,
}

impl Tally {
    /// No lookups so far.
    pub fn new() -> (res: Tally)
        ensures
            res == (Tally { with_candidates: 0, with_hits: 0 }),
    {
        Tally { with_candidates: 0, with_hits: 0 }
    }

    /// Counts a lookup that has found `found` candidates, or hits where the precise check was made.
    /// Where there is a hit there was a candidate.
    pub fn count(&mut self, candidates_only: bool, found: usize)
        requires
            old(self).with_candidates < u64::MAX,
            old(self).with_hits <= old(self).with_candidates,
        ensures
            final(self).with_candidates == old(self).with_candidates + if found > 0 {
                1int
            } else {
                0
            },
            final(self).with_hits == old(self).with_hits + if found > 0 && !candidates_only {
                1int
            } else {
                0
            },
            final(self).with_hits <= final(self).with_candidates,
    {
        if found > 0 {
            self.with_candidates += 1;
            if !candidates_only {
                self.with_hits += 1;
            }
        }
    }
}

/// What the benchmark writes can be read back: an id ends in its number, six digits at least, a
/// trigger time in the second of the minute, and the path of a skymap in its number.
pub proof fn law_benchmark_names_read_back(
    dir: Seq<char>,
    i: u64,
    read: spec_fn(int, char) -> int,
)
    requires
        forall|value: int, c: char| #[trigger] read(value, c) == 10 * value + (c as int - '0' as int),
    ensures
        moc_id_text(i).take(12) == "ORIGIN-O4HL-"@,
        moc_id_text(i).skip(12).fold_left(0, read) == i,
        moc_id_text(i).len() >= 18,
        i < 1000000 ==> moc_id_text(i).len() == 18,
        trigger_time_text(i).len() == 20,
        trigger_time_text(i).take(17) == "2026-01-01T00:00:"@,
        trigger_time_text(i).subrange(17, 19).fold_left(0, read) == i % 60,
        trigger_time_text(i)[19] == 'Z',
        skymap_path_text(dir, i).take(dir.len() as int) == dir,
        skymap_path_text(dir, i)[dir.len() as int] == '/',
        skymap_path_text(dir, i).len() > dir.len() + 6,
        skymap_path_text(dir, i).skip(skymap_path_text(dir, i).len() - 5) == ".fits"@,
        skymap_path_text(dir, i).subrange(
            dir.len() as int + 1,
            skymap_path_text(dir, i).len() - 5,
        ).fold_left(0, read) == i,
{
    reveal_strlit("ORIGIN-O4HL-");
    reveal_strlit("2026-01-01T00:00:");
    reveal_strlit("Z");
    reveal_strlit("/");
    reveal_strlit(".fits");
    crate::text::law_padded_reads_back(i as nat, 6, read);
    crate::text::law_padded_reads_back((i % 60) as nat, 2, read);
    crate::text::law_decimal_reads_back(i as nat, read);
    reveal_with_fuel(crate::text::decimal, 7);
    let (number, second) = (crate::text::padded(i as nat, 6), crate::text::padded(
        (i % 60) as nat,
        2,
    ));
    assert(moc_id_text(i).take(12) =~= "ORIGIN-O4HL-"@);
    assert(moc_id_text(i).skip(12) =~= number);
    assert(trigger_time_text(i).take(17) =~= "2026-01-01T00:00:"@);
    assert(trigger_time_text(i).subrange(17, 19) =~= second);
    let path = skymap_path_text(dir, i);
    assert(path.take(dir.len() as int) =~= dir);
    assert(path.skip(path.len() - 5) =~= ".fits"@);
    assert(path.subrange(dir.len() as int + 1, path.len() - 5) =~= crate::text::decimal(i as nat));
}

} // verus!
