//! Character-level scanning shared by the field parsers: finding a separator,
//! splitting on it, and reading decimal digits.
//!
//! Text is modelled as `Seq<char>`. The executable functions work on a
//! `Vec<char>` and on half-open index ranges into it, so that a piece of a
//! piece is found without copying.

use vstd::prelude::*;

verus! {

/// The characters of `s`, in order.
pub fn chars_of(s: &str) -> (v: Vec<char>)
    ensures
        v@ == s@,
{
    let mut v: Vec<char> = Vec::new();
    for c in it: s.chars()
        invariant
            v@ == it.seq().take(it.index() as int),
            it.seq() == s@,
    {
        v.push(c);
    }
    v
}

/// Index of the first `c` in `s`, or `s.len()` where `s` holds none.
pub open spec fn find_char(s: Seq<char>, c: char) -> int
    decreases s.len(),
{
    if s.len() == 0 {
        0
    } else if s[0] == c {
        0
    } else {
        1 + find_char(s.drop_first(), c)
    }
}

/// `find_char` stays inside `s`, passes over no `c`, and stops on one.
pub proof fn lemma_find_char(s: Seq<char>, c: char)
    ensures
        0 <= find_char(s, c) <= s.len(),
        forall|j: int| 0 <= j < find_char(s, c) ==> s[j] != c,
        find_char(s, c) < s.len() ==> s[find_char(s, c)] == c,
    decreases s.len(),
{
    if s.len() > 0 && s[0] != c {
        let t = s.drop_first();
        lemma_find_char(t, c);
        assert forall|j: int| 0 <= j < find_char(s, c) implies s[j] != c by {
            if j > 0 {
                assert(s[j] == t[j - 1]);
            }
        }
        assert(find_char(t, c) < t.len() ==> t[find_char(t, c)] == s[find_char(s, c)]);
    }
}

/// An index that passes over no `c` and stops on one (or at the end) is
/// the one `find_char` gives.
pub proof fn lemma_find_char_is(s: Seq<char>, c: char, i: int)
    requires
        0 <= i <= s.len(),
        forall|j: int| 0 <= j < i ==> s[j] != c,
        i < s.len() ==> s[i] == c,
    ensures
        find_char(s, c) == i,
    decreases s.len(),
{
    if s.len() > 0 && s[0] != c {
        let t = s.drop_first();
        assert forall|j: int| 0 <= j < i - 1 implies t[j] != c by {
            assert(t[j] == s[j + 1]);
        }
        if i < s.len() {
            assert(t[i - 1] == s[i]);
        }
        lemma_find_char_is(t, c, i - 1);
    }
}

/// The pieces of `s` between occurrences of `sep`. There is always at
/// least one piece; an empty text gives one empty piece, and a trailing
/// separator a last empty one.
pub open spec fn split(s: Seq<char>, sep: char) -> Seq<Seq<char>>
    decreases s.len(),
{
    let i = find_char(s, sep);
    if 0 <= i < s.len() {
        seq![s.take(i)] + split(s.skip(i + 1), sep)
    } else {
        seq![s]
    }
}

/// The first piece ends at the first separator; there is a second piece
/// exactly when a separator occurs, and it is the first piece of what
/// follows that separator.
pub proof fn lemma_split_head(s: Seq<char>, sep: char)
    ensures
        split(s, sep).len() >= 1,
        split(s, sep)[0] == s.take(find_char(s, sep)),
        (split(s, sep).len() == 1) <==> find_char(s, sep) == s.len(),
        find_char(s, sep) < s.len() ==> split(s, sep)[1] == split(
            s.skip(find_char(s, sep) + 1),
            sep,
        )[0],
{
    lemma_find_char(s, sep);
    let i = find_char(s, sep);
    if i < s.len() {
        let rest = s.skip(i + 1);
        lemma_find_char(rest, sep);
        let j = find_char(rest, sep);
        if j < rest.len() {
            assert(split(rest, sep) == seq![rest.take(j)] + split(rest.skip(j + 1), sep));
        } else {
            assert(split(rest, sep) == seq![rest]);
            assert(rest.take(j) == rest);
        }
        assert(split(rest, sep).len() >= 1);
        assert(split(s, sep) == seq![s.take(i)] + split(rest, sep));
    } else {
        assert(s.take(i) == s);
    }
}

/// First `c` at or after `lo` and before `hi`, or `hi` where there is none.
pub fn find_in(v: &Vec<char>, lo: usize, hi: usize, c: char) -> (i: usize)
    requires
        lo <= hi <= v.len(),
    ensures
        lo <= i <= hi,
        i == lo + find_char(v@.subrange(lo as int, hi as int), c),
{
    let mut i: usize = lo;
    while i < hi && v[i] != c
        invariant
            lo <= i <= hi <= v.len(),
            forall|j: int| lo <= j < i ==> v@[j] != c,
        decreases hi - i,
    {
        i += 1;
    }
    proof {
        lemma_find_char_is(v@.subrange(lo as int, hi as int), c, i - lo);
    }
    i
}

/// The index ranges of the pieces of `v[lo..hi]` between occurrences of `sep`.
pub fn split_ranges(v: &Vec<char>, lo: usize, hi: usize, sep: char) -> (r: Vec<(usize, usize)>)
    requires
        lo <= hi <= v.len(),
    ensures
        r.len() == split(v@.subrange(lo as int, hi as int), sep).len(),
        forall|k: int|
            0 <= k < r.len() ==> lo <= (#[trigger] r[k]).0 <= r[k].1 <= hi,
        forall|k: int|
            0 <= k < r.len() ==> v@.subrange(r[k].0 as int, r[k].1 as int) == #[trigger] split(
                v@.subrange(lo as int, hi as int),
                sep,
            )[k],
{
    let ghost whole = split(v@.subrange(lo as int, hi as int), sep);
    let ghost mut done: Seq<Seq<char>> = Seq::empty();
    let mut r: Vec<(usize, usize)> = Vec::new();
    let mut start: usize = lo;
    let mut more: bool = true;
    proof {
        assert(done + split(v@.subrange(start as int, hi as int), sep) == whole);
    }
    while more
        invariant
            lo <= start <= hi <= v.len(),
            whole == split(v@.subrange(lo as int, hi as int), sep),
            r.len() == done.len(),
            forall|k: int| 0 <= k < r.len() ==> lo <= (#[trigger] r[k]).0 <= r[k].1 <= hi,
            forall|k: int|
                0 <= k < r.len() ==> v@.subrange(r[k].0 as int, r[k].1 as int) == #[trigger] done[k],
            more ==> done + split(v@.subrange(start as int, hi as int), sep) == whole,
            !more ==> done == whole,
            more ==> hi - start + 1 > 0,
        decreases (if more { hi - start + 1 } else { 0 }),
    {
        let i: usize = find_in(v, start, hi, sep);
        let ghost rest = v@.subrange(start as int, hi as int);
        let ghost piece = v@.subrange(start as int, i as int);
        proof {
            lemma_find_char(rest, sep);
            assert(rest.take(i - start) == piece);
            if i < hi {
                assert(rest.skip(i - start + 1) == v@.subrange(i + 1, hi as int));
                assert(split(rest, sep) == seq![piece] + split(
                    v@.subrange(i + 1, hi as int),
                    sep,
                ));
                assert(done + (seq![piece] + split(v@.subrange(i + 1, hi as int), sep))
                    == done.push(piece) + split(v@.subrange(i + 1, hi as int), sep));
            } else {
                assert(piece == rest);
                assert(split(rest, sep) == seq![rest]);
                assert(done + seq![rest] == done.push(piece));
            }
            done = done.push(piece);
        }
        r.push((start, i));
        if i < hi {
            start = i + 1;
        } else {
            more = false;
        }
    }
    r
}

/// `c` is one of `0` to `9`.
pub open spec fn is_digit(c: char) -> bool {
    48 <= c as u32 <= 57
}

/// The number that the digit `c` stands for.
pub open spec fn digit_value(c: char) -> nat {
    (c as u32 - 48) as nat
}

/// Every character of `s` is a decimal digit.
pub open spec fn all_digits(s: Seq<char>) -> bool {
    forall|i: int| 0 <= i < s.len() ==> is_digit(#[trigger] s[i])
}

/// The number written by appending the digits `s` to a number `acc`
/// already read.
pub open spec fn decimal_fold(acc: nat, s: Seq<char>) -> nat
    decreases s.len(),
{
    if s.len() == 0 {
        acc
    } else {
        decimal_fold(acc, s.drop_last()) * 10 + digit_value(s.last())
    }
}

/// The number that the digit string `s` writes in base ten; 0 for the
/// empty string.
pub open spec fn decimal_value(s: Seq<char>) -> nat {
    decimal_fold(0, s)
}

/// Reading `a` and then `b` is reading `a + b`.
pub proof fn lemma_decimal_fold_concat(acc: nat, a: Seq<char>, b: Seq<char>)
    ensures
        decimal_fold(acc, a + b) == decimal_fold(decimal_fold(acc, a), b),
    decreases b.len(),
{
    if b.len() == 0 {
        assert(a + b == a);
    } else {
        assert((a + b).drop_last() == a + b.drop_last());
        assert((a + b).last() == b.last());
        lemma_decimal_fold_concat(acc, a, b.drop_last());
    }
}

/// Appending digits never makes the number smaller.
pub proof fn lemma_decimal_fold_grows(acc: nat, s: Seq<char>)
    ensures
        decimal_fold(acc, s) >= acc,
    decreases s.len(),
{
    if s.len() > 0 {
        lemma_decimal_fold_grows(acc, s.drop_last());
    }
}

/// Reads the digits `v[lo..hi]` after a number `start` already read.
/// Gives `None` where a character is no digit or the number passes `limit`.
pub fn read_digits(v: &Vec<char>, lo: usize, hi: usize, start: u64, limit: u64) -> (r: Option<
    u64,
>)
    requires
        lo <= hi <= v.len(),
        start <= limit,
    ensures
        r == if all_digits(v@.subrange(lo as int, hi as int)) && decimal_fold(
            start as nat,
            v@.subrange(lo as int, hi as int),
        ) <= limit {
            Some(decimal_fold(start as nat, v@.subrange(lo as int, hi as int)) as u64)
        } else {
            None
        },
{
    let ghost whole = v@.subrange(lo as int, hi as int);
    let mut acc: u64 = start;
    let mut i: usize = lo;
    proof {
        assert(v@.subrange(lo as int, lo as int) == Seq::<char>::empty());
    }
    while i < hi
        invariant
            lo <= i <= hi <= v.len(),
            whole == v@.subrange(lo as int, hi as int),
            all_digits(v@.subrange(lo as int, i as int)),
            acc == decimal_fold(start as nat, v@.subrange(lo as int, i as int)),
            acc <= limit,
        decreases hi - i,
    {
        let d: u32 = v[i] as u32;
        let ghost before = v@.subrange(lo as int, i as int);
        let ghost after = v@.subrange(lo as int, i + 1);
        proof {
            assert(after.drop_last() == before);
            assert(after.last() == v@[i as int]);
            assert(whole[i - lo] == v@[i as int]);
        }
        if d < 48 || d > 57 {
            assert(!is_digit(whole[i - lo]));
            return None;
        }
        let digit: u64 = (d - 48) as u64;
        let next: u128 = acc as u128 * 10 + digit as u128;
        if next > limit as u128 {
            proof {
                assert(decimal_fold(start as nat, after) > limit);
                assert(whole == after + v@.subrange(i + 1, hi as int));
                lemma_decimal_fold_concat(start as nat, after, v@.subrange(i + 1, hi as int));
                lemma_decimal_fold_grows(
                    decimal_fold(start as nat, after),
                    v@.subrange(i + 1, hi as int),
                );
            }
            return None;
        }
        acc = next as u64;
        i += 1;
        proof {
            assert forall|j: int| 0 <= j < after.len() implies is_digit(#[trigger] after[j]) by {
                if j < before.len() {
                    assert(after[j] == before[j]);
                }
            }
        }
    }
    Some(acc)
}

/// `s` without the plus sign that may stand first.
pub open spec fn unsigned_text(s: Seq<char>) -> Seq<char> {
    if s.len() > 0 && s[0] == '+' {
        s.skip(1)
    } else {
        s
    }
}

/// The number below 2^32 that `s` writes: an optional plus sign, then one
/// or more decimal digits. Anything else (an empty text, a space, a minus
/// sign, a number too large) writes none.
pub open spec fn parse_u32_spec(s: Seq<char>) -> Option<u32> {
    let d = unsigned_text(s);
    if d.len() > 0 && all_digits(d) && decimal_value(d) <= u32::MAX {
        Some(decimal_value(d) as u32)
    } else {
        None
    }
}

/// Where the digits of `v[lo..hi]` begin: after a leading plus sign, if any.
pub fn skip_plus(v: &Vec<char>, lo: usize, hi: usize) -> (i: usize)
    requires
        lo <= hi <= v.len(),
    ensures
        lo <= i <= hi,
        v@.subrange(i as int, hi as int) == unsigned_text(v@.subrange(lo as int, hi as int)),
{
    if lo < hi && v[lo] == '+' {
        assert(v@.subrange(lo as int, hi as int)[0] == v@[lo as int]);
        assert(v@.subrange(lo + 1, hi as int) == v@.subrange(lo as int, hi as int).skip(1));
        lo + 1
    } else {
        if lo < hi {
            assert(v@.subrange(lo as int, hi as int)[0] == v@[lo as int]);
        }
        lo
    }
}

/// Reads `v[lo..hi]` as a number below 2^32.
pub fn parse_u32_in(v: &Vec<char>, lo: usize, hi: usize) -> (r: Option<u32>)
    requires
        lo <= hi <= v.len(),
    ensures
        r == parse_u32_spec(v@.subrange(lo as int, hi as int)),
{
    let from: usize = skip_plus(v, lo, hi);
    if from == hi {
        return None;
    }
    match read_digits(v, from, hi, 0, 0xffff_ffff) {
        Some(n) => Some(n as u32),
        None => None,
    }
}

} // verus!
