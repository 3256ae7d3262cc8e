//! The highlighted-line field: `N;A-B;...`.
//!
//! The field is cut at `;` into tokens and each token at `-` into numbers.
//! A token of one number stands for that line; a token of two or more
//! stands for the lines from the first number to the second, both
//! included, and for no line where the first is the greater. The lines
//! come out in the order written; nothing is sorted or merged.

use vstd::prelude::*;
use crate::error::ConfigError;
use crate::error::ErrorView;
use crate::text::chars_of;
use crate::text::parse_u32_in;
use crate::text::parse_u32_spec;
use crate::text::split;
use crate::text::split_ranges;

verus! {

/// The lines `a`, `a + 1`, ..., `b`; none where `a > b`.
pub open spec fn inclusive_range(a: u32, b: u32) -> Seq<u32> {
    if a > b {
        Seq::empty()
    } else {
        Seq::new((b - a + 1) as nat, |i: int| (a + i) as u32)
    }
}

/// Every piece of `parts` writes a number.
pub open spec fn all_numbers(parts: Seq<Seq<char>>) -> bool {
    forall|k: int| 0 <= k < parts.len() ==> (#[trigger] parse_u32_spec(parts[k])) is Some
}

/// The lines that one token stands for, or `None` where one of its
/// pieces writes no number.
pub open spec fn token_lines(token: Seq<char>) -> Option<Seq<u32>> {
    let parts = split(token, '-');
    if !all_numbers(parts) {
        None
    } else if parts.len() == 1 {
        Some(seq![parse_u32_spec(parts[0])->0])
    } else {
        Some(inclusive_range(parse_u32_spec(parts[0])->0, parse_u32_spec(parts[1])->0))
    }
}

/// The lines of all `tokens`, one token's lines after another's, or
/// `None` where a token stands for none.
pub open spec fn tokens_lines(tokens: Seq<Seq<char>>) -> Option<Seq<u32>>
    decreases tokens.len(),
{
    if tokens.len() == 0 {
        Some(Seq::empty())
    } else {
        match (tokens_lines(tokens.drop_last()), token_lines(tokens.last())) {
            (Some(before), Some(last)) => Some(before + last),
            _ => None,
        }
    }
}

/// The line set that the field `s` writes.
pub open spec fn line_set(s: Seq<char>) -> Option<Seq<u32>> {
    tokens_lines(split(s, ';'))
}

/// Once some tokens stand for no lines, no longer list does.
pub proof fn lemma_tokens_lines_none(tokens: Seq<Seq<char>>, n: int)
    requires
        0 <= n <= tokens.len(),
        tokens_lines(tokens.take(n)) is None,
    ensures
        tokens_lines(tokens) is None,
    decreases tokens.len() - n,
{
    if n < tokens.len() {
        assert(tokens.take(n + 1).drop_last() == tokens.take(n));
        lemma_tokens_lines_none(tokens, n + 1);
    } else {
        assert(tokens.take(n) == tokens);
    }
}

/// The numbers of the token `v[lo..hi]`, in order, where each piece
/// between `-` writes one.
fn token_numbers(v: &Vec<char>, lo: usize, hi: usize) -> (r: Option<Vec<u32>>)
    requires
        lo <= hi <= v.len(),
    ensures
        r is Some <==> all_numbers(split(v@.subrange(lo as int, hi as int), '-')),
        r matches Some(nums) ==> {
            &&& nums.len() == split(v@.subrange(lo as int, hi as int), '-').len()
            &&& forall|k: int|
                0 <= k < nums.len() ==> Some(#[trigger] nums[k]) == parse_u32_spec(
                    split(v@.subrange(lo as int, hi as int), '-')[k],
                )
        },
{
    let ghost parts = split(v@.subrange(lo as int, hi as int), '-');
    let ranges = split_ranges(v, lo, hi, '-');
    let mut nums: Vec<u32> = Vec::new();
    let mut k: usize = 0;
    while k < ranges.len()
        invariant
            0 <= k <= ranges.len(),
            ranges.len() == parts.len(),
            lo <= hi <= v.len(),
            forall|j: int| 0 <= j < ranges.len() ==> lo <= (#[trigger] ranges[j]).0 <= ranges[j].1 <= hi,
            forall|j: int|
                0 <= j < ranges.len() ==> v@.subrange(ranges[j].0 as int, ranges[j].1 as int)
                    == #[trigger] parts[j],
            parts == split(v@.subrange(lo as int, hi as int), '-'),
            nums.len() == k,
            forall|j: int| 0 <= j < k ==> Some(nums[j]) == #[trigger] parse_u32_spec(parts[j]),
        decreases ranges.len() - k,
    {
        let range = ranges[k];
        assert(v@.subrange(range.0 as int, range.1 as int) == parts[k as int]);
        match parse_u32_in(v, range.0, range.1) {
            Some(n) => {
                nums.push(n);
            },
            None => {
                assert(parse_u32_spec(parts[k as int]) is None);
                return None;
            },
        }
        k += 1;
    }
    Some(nums)
}

/// Appends the lines `a` to `b`, both included, to `out`.
fn push_range(out: &mut Vec<u32>, a: u32, b: u32)
    ensures
        final(out)@ == old(out)@ + inclusive_range(a, b),
{
    if a > b {
        assert(out@ + Seq::<u32>::empty() == out@);
        return ;
    }
    let ghost base = out@;
    let mut i: u64 = a as u64;
    let stop: u64 = b as u64;
    assert(base + Seq::new(0, |j: int| (a + j) as u32) == base);
    while i <= stop
        invariant
            a <= i <= stop + 1,
            stop == b,
            out@ == base + Seq::new((i - a) as nat, |j: int| (a + j) as u32),
        decreases stop + 1 - i,
    {
        out.push(i as u32);
        assert(out@ == base + Seq::new((i + 1 - a) as nat, |j: int| (a + j) as u32));
        i += 1;
    }
}

/// Reads a highlighted-line field.
///
/// Gives the lines that the field stands for, in the order written, and
/// `InvalidLineRange` with the field's text where some piece of it is no
/// number below 2^32 (an empty piece is none).
pub fn parse_line_range(s: &str) -> (r: Result<Vec<u32>, ConfigError>)
    ensures
        match line_set(s@) {
            Some(lines) => r matches Ok(v) && v@ == lines,
            None => r matches Err(e) && e@ == ErrorView::InvalidLineRange(s@),
        },
{
    let v = chars_of(s);
    let ghost tokens = split(s@, ';');
    assert(v@.subrange(0, v.len() as int) == s@);
    let ranges = split_ranges(&v, 0, v.len(), ';');
    let mut out: Vec<u32> = Vec::new();
    let mut k: usize = 0;
    assert(tokens.take(0) == Seq::<Seq<char>>::empty());
    while k < ranges.len()
        invariant
            0 <= k <= ranges.len(),
            ranges.len() == tokens.len(),
            tokens == split(s@, ';'),
            v@ == s@,
            forall|j: int| 0 <= j < ranges.len() ==> (#[trigger] ranges[j]).0 <= ranges[j].1 <= v.len(),
            forall|j: int|
                0 <= j < ranges.len() ==> v@.subrange(ranges[j].0 as int, ranges[j].1 as int)
                    == #[trigger] tokens[j],
            tokens_lines(tokens.take(k as int)) == Some(out@),
        decreases ranges.len() - k,
    {
        let range = ranges[k];
        let ghost token = tokens[k as int];
        assert(v@.subrange(range.0 as int, range.1 as int) == token);
        proof {
            assert(tokens.take(k + 1).drop_last() == tokens.take(k as int));
            assert(tokens.take(k + 1).last() == token);
        }
        match token_numbers(&v, range.0, range.1) {
            Some(nums) => {
                if nums.len() == 1 {
                    let ghost before = out@;
                    out.push(nums[0]);
                    assert(out@ == before + seq![nums[0]]);
                } else {
                    proof {
                        crate::text::lemma_split_head(token, '-');
                    }
                    push_range(&mut out, nums[0], nums[1]);
                }
            },
            None => {
                proof {
                    assert(token_lines(token) is None);
                    lemma_tokens_lines_none(tokens, k + 1);
                }
                return Err(ConfigError::InvalidLineRange(s.to_owned()));
            },
        }
        k += 1;
    }
    assert(tokens.take(k as int) == tokens);
    Ok(out)
}

} // verus!
