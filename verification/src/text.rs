//! Text: comparing, searching and taking apart strings, and writing numbers.
use vstd::prelude::*;
#[allow(unused_imports)]
use vstd::string::*;

verus! {

/// Whether `text` starts with `prefix`.
pub open spec fn starts_with(text: Seq<char>, prefix: Seq<char>) -> bool {
    prefix.len() <= text.len() && text.take(prefix.len() as int) == prefix
}

/// Whether `part` stands in `text` at place `at`.
pub open spec fn stands_at(text: Seq<char>, part: Seq<char>, at: int) -> bool {
    0 <= at && at + part.len() <= text.len() && text.subrange(at, at + part.len()) == part
}

/// Whether `part` stands somewhere in `text`.
pub open spec fn holds(text: Seq<char>, part: Seq<char>) -> bool {
    exists|at: int| stands_at(text, part, at)
}

/// What follows `prefix` in a text that starts with it.
pub open spec fn after(text: Seq<char>, prefix: Seq<char>) -> Seq<char> {
    text.skip(prefix.len() as int)
}

/// The decimal digit for a number below ten.
pub open spec fn digit(n: int) -> char {
    (48 + n) as char
}

/// A number in decimal, without leading zeros.
pub open spec fn decimal(n: nat) -> Seq<char>
    decreases n,
{
    if n < 10 {
        seq![digit(n as int)]
    } else {
        decimal(n / 10).push(digit((n % 10) as int))
    }
}

/// The characters of a string.
pub(crate) fn letters(text: &str) -> (res: Vec<char>)
    ensures
        res@ == text@,
{
    let mut res: Vec<char> = Vec::new();
    for c in it: text.chars()
        invariant
            res@ == it.seq().take(it.index() as int),
            it.seq() == text@,
    {
        res.push(c);
    }
    res
}

/// Whether the characters of `part` stand at place `at`.
fn letters_at(text: &Vec<char>, part: &Vec<char>, at: usize) -> (res: bool)
    ensures
        res == stands_at(text@, part@, at as int),
{
    if part.len() > text.len() || at > text.len() - part.len() {
        return false;
    }
    let mut i: usize = 0;
    while i < part.len()
        invariant
            i <= part.len(),
            at + part.len() <= text.len(),
            forall|k: int| 0 <= k < i ==> text@[at + k] == part@[k],
        decreases part.len() - i,
    {
        if text[at + i] != part[i] {
            assert(text@.subrange(at as int, at + part.len())[i as int] != part@[i as int]);
            return false;
        }
        i += 1;
    }
    assert(text@.subrange(at as int, at + part.len()) =~= part@);
    true
}

/// Whether two strings are the same.
pub fn same_text(a: &str, b: &str) -> (res: bool)
    ensures
        res == (a@ == b@),
{
    let a: Vec<char> = letters(a);
    let b: Vec<char> = letters(b);
    if a.len() != b.len() {
        return false;
    }
    let res: bool = letters_at(&a, &b, 0);
    assert(a@.subrange(0, b@.len() as int) =~= a@);
    res
}

/// Whether `part` stands somewhere in `text`.
pub fn holds_text(text: &str, part: &str) -> (res: bool)
    ensures
        res == holds(text@, part@),
{
    let all: Vec<char> = letters(text);
    let sought: Vec<char> = letters(part);
    if sought.len() > all.len() {
        return false;
    }
    let last: usize = all.len() - sought.len();
    let mut at: usize = 0;
    while at < last
        invariant
            all@ == text@,
            sought@ == part@,
            at <= last == all.len() - sought.len(),
            forall|k: int| 0 <= k < at ==> !stands_at(text@, part@, k),
        decreases last - at,
    {
        if letters_at(&all, &sought, at) {
            return true;
        }
        at += 1;
    }
    let res: bool = letters_at(&all, &sought, last);
    assert(!res ==> forall|k: int| 0 <= k <= last ==> !stands_at(text@, part@, k));
    res
}

/// What follows `prefix` in `text`, if `text` starts with it.
pub fn strip_text<'a>(text: &'a str, prefix: &str) -> (res: Option<&'a str>)
    ensures
        match res {
            Some(rest) => starts_with(text@, prefix@) && rest@ == after(text@, prefix@),
            None => !starts_with(text@, prefix@),
        },
{
    let all: Vec<char> = letters(text);
    let first: Vec<char> = letters(prefix);
    if letters_at(&all, &first, 0) {
        assert(text@.subrange(0, prefix@.len() as int) =~= text@.take(prefix@.len() as int));
        Some(text.substring_char(first.len(), all.len()))
    } else {
        proof {
            if prefix@.len() <= text@.len() {
                assert(text@.subrange(0, prefix@.len() as int) =~= text@.take(
                    prefix@.len() as int,
                ));
            }
        }
        None
    }
}

/// The decimal digit for a number below ten.
fn digit_text(n: u64) -> (res: &'static str)
    requires
        n < 10,
    ensures
        res@ == seq![digit(n as int)],
{
    proof {
        reveal_strlit("0");
        reveal_strlit("1");
        reveal_strlit("2");
        reveal_strlit("3");
        reveal_strlit("4");
        reveal_strlit("5");
        reveal_strlit("6");
        reveal_strlit("7");
        reveal_strlit("8");
        reveal_strlit("9");
    }
    match n {
        0 => "0",
        1 => "1",
        2 => "2",
        3 => "3",
        4 => "4",
        5 => "5",
        6 => "6",
        7 => "7",
        8 => "8",
        _ => "9",
    }
}

/// Writes a number in decimal, without leading zeros.
pub fn decimal_text(n: u64) -> (res: String)
    ensures
        res@ == decimal(n as nat),
    decreases n,
{
    if n < 10 {
        digit_text(n).to_owned()
    } else {
        decimal_text(n / 10).concat(digit_text(n % 10))
    }
}

/// A number in decimal has at least one digit, and digits only.
pub proof fn lemma_decimal_digits(n: nat)
    ensures
        decimal(n).len() > 0,
        forall|i: int| 0 <= i < decimal(n).len() ==> '0' <= #[trigger] decimal(n)[i] <= '9',
    decreases n,
{
    if n >= 10 {
        lemma_decimal_digits(n / 10);
    }
}

/// Different numbers are written differently.
pub proof fn law_decimal_is_injective(a: nat, b: nat)
    requires
        decimal(a) == decimal(b),
    ensures
        a == b,
    decreases a,
{
    lemma_decimal_digits(a / 10);
    lemma_decimal_digits(b / 10);
    assert(decimal(a).last() == digit((a % 10) as int));
    assert(decimal(b).last() == digit((b % 10) as int));
    if a >= 10 && b >= 10 {
        assert(decimal(a).drop_last() =~= decimal(a / 10));
        assert(decimal(b).drop_last() =~= decimal(b / 10));
        law_decimal_is_injective(a / 10, b / 10);
    }
}

/// A number in decimal, with zeros before it as far as it is shorter than `width`.
pub open spec fn padded(n: nat, width: nat) -> Seq<char> {
    if decimal(n).len() >= width {
        decimal(n)
    } else {
        Seq::new((width - decimal(n).len()) as nat, |i: int| '0') + decimal(n)
    }
}

/// Writes a number in decimal, with zeros before it as far as it is shorter than `width`.
pub fn padded_text(n: u64, width: usize) -> (res: String)
    ensures
        res@ == padded(n as nat, width as nat),
{
    let number: String = decimal_text(n);
    let len: usize = number.as_str().unicode_len();
    let mut res: String = String::new();
    let mut zeros: usize = len;
    proof {
        reveal_strlit("0");
        assert("0"@ =~= seq!['0']);
    }
    while zeros < width
        invariant
            "0"@ == seq!['0'],
            len <= zeros,
            zeros <= width || zeros == len,
            res@ == Seq::new((zeros - len) as nat, |i: int| '0'),
        decreases width - zeros,
    {
        res.append("0");
        zeros += 1;
        assert(res@ =~= Seq::new((zeros - len) as nat, |i: int| '0'));
    }
    res.append(number.as_str());
    assert(zeros == len ==> res@ =~= number@);
    res
}

/// The number that a text of decimal digits spells.
spec fn spelled(text: Seq<char>) -> int
    decreases text.len(),
{
    if text.len() == 0 {
        0
    } else {
        10 * spelled(text.drop_last()) + (text.last() as int - 48)
    }
}

proof fn lemma_spelled_decimal(zeros: nat, n: nat)
    ensures
        spelled(Seq::new(zeros, |i: int| '0') + decimal(n)) == n,
    decreases n,
{
    let lead = Seq::new(zeros, |i: int| '0');
    let text = lead + decimal(n);
    if n < 10 {
        assert(text.drop_last() =~= lead);
        lemma_spelled_zeros(zeros);
    } else {
        assert(text.drop_last() =~= lead + decimal(n / 10));
        lemma_spelled_decimal(zeros, n / 10);
    }
}

proof fn lemma_spelled_zeros(zeros: nat)
    ensures
        spelled(Seq::new(zeros, |i: int| '0')) == 0,
    decreases zeros,
{
    let lead = Seq::new(zeros, |i: int| '0');
    if zeros > 0 {
        assert(lead.drop_last() =~= Seq::new((zeros - 1) as nat, |i: int| '0'));
        lemma_spelled_zeros((zeros - 1) as nat);
    }
}

/// Different numbers are written differently, with zeros before them too.
pub proof fn law_padded_is_injective(a: nat, b: nat, width: nat)
    requires
        padded(a, width) == padded(b, width),
    ensures
        a == b,
{
    let none = Seq::new(0, |i: int| '0');
    assert(none + decimal(a) =~= decimal(a));
    assert(none + decimal(b) =~= decimal(b));
    lemma_spelled_decimal(0, a);
    lemma_spelled_decimal(0, b);
    if decimal(a).len() < width {
        lemma_spelled_decimal((width - decimal(a).len()) as nat, a);
    }
    if decimal(b).len() < width {
        lemma_spelled_decimal((width - decimal(b).len()) as nat, b);
    }
}

/// Read back digit by digit, a number in decimal is the number, whatever zeros stand before it. It
/// has digits only and, unless it is zero, starts with another digit than zero.
pub proof fn law_decimal_reads_back(n: nat, read: spec_fn(int, char) -> int)
    requires
        forall|value: int, c: char| #[trigger] read(value, c) == 10 * value + (c as int - '0' as int),
    ensures
        decimal(n).fold_left(0, read) == n,
        decimal(n).len() > 0,
        forall|i: int| 0 <= i < decimal(n).len() ==> '0' <= #[trigger] decimal(n)[i] <= '9',
        decimal(n)[0] == '0' ==> n == 0 && decimal(n).len() == 1,
    decreases n,
{
    lemma_decimal_digits(n);
    if n < 10 {
        assert(decimal(n).drop_last() =~= Seq::empty());
        reveal_with_fuel(Seq::fold_left, 2);
    } else {
        law_decimal_reads_back(n / 10, read);
        assert(decimal(n).drop_last() =~= decimal(n / 10));
        assert(decimal(n)[0] == decimal(n / 10)[0]);
    }
}

/// A padded number has the width asked for, or the number's own where that is greater, has digits
/// only, and reads back as the number.
pub proof fn law_padded_reads_back(n: nat, width: nat, read: spec_fn(int, char) -> int)
    requires
        forall|value: int, c: char| #[trigger] read(value, c) == 10 * value + (c as int - '0' as int),
    ensures
        padded(n, width).fold_left(0, read) == n,
        padded(n, width).len() == if decimal(n).len() < width {
            width
        } else {
            decimal(n).len()
        },
        forall|i: int|
            0 <= i < padded(n, width).len() ==> '0' <= #[trigger] padded(n, width)[i] <= '9',
{
    law_decimal_reads_back(n, read);
    if decimal(n).len() < width {
        lemma_zeros_read_as_nothing((width - decimal(n).len()) as nat, n, read);
    }
}

proof fn lemma_zeros_read_as_nothing(zeros: nat, n: nat, read: spec_fn(int, char) -> int)
    requires
        forall|value: int, c: char| #[trigger] read(value, c) == 10 * value + (c as int - '0' as int),
    ensures
        Seq::new(zeros, |i: int| '0').fold_left(0, read) == 0,
        (Seq::new(zeros, |i: int| '0') + decimal(n)).fold_left(0, read) == n,
    decreases zeros, n,
{
    let lead = Seq::new(zeros, |i: int| '0');
    let text = lead + decimal(n);
    if zeros > 0 {
        assert(lead.drop_last() =~= Seq::new((zeros - 1) as nat, |i: int| '0'));
        lemma_zeros_read_as_nothing((zeros - 1) as nat, n, read);
    }
    if n < 10 {
        assert(text.drop_last() =~= lead);
    } else {
        assert(text.drop_last() =~= lead + decimal(n / 10));
        lemma_zeros_read_as_nothing(zeros, n / 10, read);
    }
}

/// A text holds a part exactly if something, or nothing, stands before it and after it.
pub proof fn law_held_text_has_a_place(text: Seq<char>, part: Seq<char>)
    ensures
        holds(text, part) <==> exists|before: Seq<char>, behind: Seq<char>|
            text == #[trigger] (before + part + behind),
{
    if holds(text, part) {
        let at = choose|at: int| stands_at(text, part, at);
        let (before, behind) = (text.take(at), text.skip(at + part.len()));
        assert(text.subrange(at, at + part.len()) =~= part);
        assert(text =~= before + part + behind) by {
            assert forall|i: int| 0 <= i < text.len() implies text[i] == (before + part
                + behind)[i] by {
                if at <= i < at + part.len() {
                    assert(text.subrange(at, at + part.len())[i - at] == text[i]);
                }
            }
        }
    }
    assert forall|before: Seq<char>, behind: Seq<char>|
        text == #[trigger] (before + part + behind) implies holds(text, part) by {
        assert(text.subrange(before.len() as int, before.len() as int + part.len()) =~= part);
        assert(stands_at(text, part, before.len() as int));
    }
}

/// A text starts with a prefix exactly if it is the prefix and what is left after it.
pub proof fn law_prefix_is_cut_off(text: Seq<char>, prefix: Seq<char>, rest: Seq<char>)
    ensures
        starts_with(prefix + rest, prefix),
        after(prefix + rest, prefix) == rest,
        starts_with(text, prefix) ==> text == prefix + after(text, prefix),
{
    assert((prefix + rest).take(prefix.len() as int) =~= prefix);
    assert((prefix + rest).skip(prefix.len() as int) =~= rest);
    if starts_with(text, prefix) {
        assert(text =~= text.take(prefix.len() as int) + text.skip(prefix.len() as int));
    }
}

} // verus!
