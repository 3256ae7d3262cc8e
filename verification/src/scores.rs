//! Ranking and rescaling of classifier scores.
//!
//! A raw score is an integer: the classifier's score in fixed point, on
//! whatever scale the caller chose, so long as a better score is a
//! greater number. Labels are ordered character by character, which is
//! the order of `String`. One entry ranks before another when its score
//! is greater, or when the scores are equal and its label comes first.
//!
//! A rescaled score is a fraction of two integers, so that "exactly 100",
//! "exactly 0" and "strictly between" mean what they say.
//!
//! The scores of a classifier are a map from label to score. `ScoreMap`
//! holds one as a list in which no label occurs twice.

use vstd::prelude::*;
use crate::text::chars_of;

verus! {

/// A label with its raw score.
#[derive(Clone, Debug, PartialEq, Eq)]
pub struct Prediction {
    pub label: String,
    pub score: i64,
}

/// `Prediction` as a sequence of characters and an integer.
pub struct PredictionView {
    pub label: Seq<char>,
    pub score: int,
}

impl View for Prediction {
    type V = PredictionView;

    open spec fn view(&self) -> PredictionView {
        PredictionView { label: self.label@, score: self.score as int }
    }
}

/// A score between 0 and 100 as the fraction `numerator / denominator`.
#[derive(Clone, Copy, Debug, PartialEq, Eq)]
pub struct Percent {
    pub numerator: u128,
    pub denominator: u128,
}

/// A label with its raw score and its rescaled score.
#[derive(Clone, Debug, PartialEq, Eq)]
pub struct RankedScore {
    pub label: String,
    pub score: i64,
    pub percent: Percent,
}

/// `RankedScore` as plain values.
pub struct RankedView {
    pub label: Seq<char>,
    pub score: int,
    pub numerator: int,
    pub denominator: int,
}

impl View for RankedScore {
    type V = RankedView;

    open spec fn view(&self) -> RankedView {
        RankedView {
            label: self.label@,
            score: self.score as int,
            numerator: self.percent.numerator as int,
            denominator: self.percent.denominator as int,
        }
    }
}

/// The views of a sequence of predictions.
pub open spec fn prediction_views(s: Seq<Prediction>) -> Seq<PredictionView> {
    s.map_values(|p: Prediction| p@)
}

/// The views of a sequence of ranked scores.
pub open spec fn ranked_views(s: Seq<RankedScore>) -> Seq<RankedView> {
    s.map_values(|r: RankedScore| r@)
}

/// The label and raw score of each ranked entry.
pub open spec fn raw_of(s: Seq<RankedView>) -> Seq<PredictionView> {
    s.map_values(|r: RankedView| PredictionView { label: r.label, score: r.score })
}

/// `a` comes at or before `b` in the order of texts: at the first place
/// where they differ `a` has the lesser character, or `a` ends there.
pub open spec fn text_le(a: Seq<char>, b: Seq<char>) -> bool
    decreases a.len(),
{
    if a.len() == 0 {
        true
    } else if b.len() == 0 {
        false
    } else if a[0] != b[0] {
        (a[0] as u32) < (b[0] as u32)
    } else {
        text_le(a.drop_first(), b.drop_first())
    }
}

/// Different characters have different code points.
proof fn lemma_distinct_codes(x: char, y: char)
    requires
        x != y,
    ensures
        x as u32 != y as u32,
{
}

/// Of two texts one comes at or before the other.
pub proof fn lemma_text_le_total(a: Seq<char>, b: Seq<char>)
    ensures
        text_le(a, b) || text_le(b, a),
    decreases a.len(),
{
    if a.len() > 0 && b.len() > 0 {
        if a[0] == b[0] {
            lemma_text_le_total(a.drop_first(), b.drop_first());
        } else {
            lemma_distinct_codes(a[0], b[0]);
        }
    }
}

/// Two texts that each come at or before the other are the same text.
pub proof fn lemma_text_le_antisymmetric(a: Seq<char>, b: Seq<char>)
    requires
        text_le(a, b),
        text_le(b, a),
    ensures
        a == b,
    decreases a.len(),
{
    if a.len() > 0 && b.len() > 0 {
        lemma_text_le_antisymmetric(a.drop_first(), b.drop_first());
        assert(a == seq![a[0]] + a.drop_first());
        assert(b == seq![b[0]] + b.drop_first());
    } else {
        assert(a == b);
    }
}

/// The order of texts is transitive.
pub proof fn lemma_text_le_transitive(a: Seq<char>, b: Seq<char>, c: Seq<char>)
    requires
        text_le(a, b),
        text_le(b, c),
    ensures
        text_le(a, c),
    decreases a.len(),
{
    if a.len() > 0 && b.len() > 0 && c.len() > 0 {
        if a[0] == b[0] && b[0] == c[0] {
            lemma_text_le_transitive(a.drop_first(), b.drop_first(), c.drop_first());
        }
    }
}

/// `a` ranks at or before `b`: the greater score first, and of equal
/// scores the label that comes first.
pub open spec fn ranks_before(a: PredictionView, b: PredictionView) -> bool {
    a.score > b.score || (a.score == b.score && text_le(a.label, b.label))
}

/// Of two entries one ranks at or before the other.
pub proof fn lemma_ranks_total(a: PredictionView, b: PredictionView)
    ensures
        ranks_before(a, b) || ranks_before(b, a),
{
    lemma_text_le_total(a.label, b.label);
}

/// Ranking is transitive.
pub proof fn lemma_ranks_transitive(a: PredictionView, b: PredictionView, c: PredictionView)
    requires
        ranks_before(a, b),
        ranks_before(b, c),
    ensures
        ranks_before(a, c),
{
    if a.score == b.score && b.score == c.score {
        lemma_text_le_transitive(a.label, b.label, c.label);
    }
}

/// Two entries that each rank at or before the other are the same entry.
pub proof fn lemma_ranks_antisymmetric(a: PredictionView, b: PredictionView)
    requires
        ranks_before(a, b),
        ranks_before(b, a),
    ensures
        a == b,
{
    lemma_text_le_antisymmetric(a.label, b.label);
}

/// Every entry of `s` ranks at or before all that follow it.
pub open spec fn ranked(s: Seq<PredictionView>) -> bool {
    forall|i: int, j: int| 0 <= i < j < s.len() ==> ranks_before(#[trigger] s[i], #[trigger] s[j])
}

/// `m` is the least raw score in `s`.
pub open spec fn is_lowest(s: Seq<PredictionView>, m: int) -> bool {
    &&& exists|i: int| 0 <= i < s.len() && (#[trigger] s[i]).score == m
    &&& forall|i: int| 0 <= i < s.len() ==> (#[trigger] s[i]).score >= m
}

/// `m` is the greatest raw score in `s`.
pub open spec fn is_highest(s: Seq<PredictionView>, m: int) -> bool {
    &&& exists|i: int| 0 <= i < s.len() && (#[trigger] s[i]).score == m
    &&& forall|i: int| 0 <= i < s.len() ==> (#[trigger] s[i]).score <= m
}

/// The least raw score in `s`; arbitrary where `s` is empty.
pub open spec fn lowest_score(s: Seq<PredictionView>) -> int {
    choose|m: int| is_lowest(s, m)
}

/// The greatest raw score in `s`; arbitrary where `s` is empty.
pub open spec fn highest_score(s: Seq<PredictionView>) -> int {
    choose|m: int| is_highest(s, m)
}

/// The rescaled score, as numerator and denominator, of an entry with
/// raw score `score` among `n` entries whose raw scores run from `lo` to
/// `hi`. Where `hi > lo` it is `(score - lo) / (hi - lo) * 100`. Where all
/// scores are equal there is no scale to place the entry on, and the 100
/// points are split evenly: `100 / n`.
pub open spec fn percent_of(score: int, lo: int, hi: int, n: int) -> (int, int) {
    if hi > lo {
        ((score - lo) * 100, hi - lo)
    } else {
        (100, n)
    }
}

/// `out` is the ranking of `input` with rescaled scores: the same
/// entries, the best first, each with its raw score rescaled over the
/// range of all raw scores of `input`.
pub open spec fn normalized_ranking(input: Seq<PredictionView>, out: Seq<RankedView>) -> bool {
    &&& raw_of(out).to_multiset() == input.to_multiset()
    &&& ranked(raw_of(out))
    &&& forall|i: int|
        0 <= i < out.len() ==> ((#[trigger] out[i]).numerator, out[i].denominator) == percent_of(
            out[i].score,
            lowest_score(input),
            highest_score(input),
            input.len() as int,
        )
}

/// In a ranked sequence the first entry has the greatest raw score and
/// the last one the least.
pub proof fn lemma_ranked_ends(s: Seq<PredictionView>)
    requires
        ranked(s),
        s.len() > 0,
    ensures
        is_highest(s, s[0].score),
        is_lowest(s, s.last().score),
        highest_score(s) == s[0].score,
        lowest_score(s) == s.last().score,
{
    assert forall|i: int| 0 <= i < s.len() implies (#[trigger] s[i]).score <= s[0].score by {
        if i > 0 {
            assert(ranks_before(s[0], s[i]));
        }
    }
    assert forall|i: int| 0 <= i < s.len() implies (#[trigger] s[i]).score >= s.last().score by {
        if i < s.len() - 1 {
            assert(ranks_before(s[i], s[s.len() - 1]));
        }
    }
    assert(is_highest(s, s[0].score));
    assert(is_lowest(s, s[s.len() - 1].score));
}

/// Sequences with the same entries have the same least and greatest
/// raw score.
pub proof fn lemma_extremes_of_permutation(a: Seq<PredictionView>, b: Seq<PredictionView>)
    requires
        a.to_multiset() == b.to_multiset(),
    ensures
        forall|m: int| is_lowest(a, m) ==> is_lowest(b, m),
        forall|m: int| is_highest(a, m) ==> is_highest(b, m),
{
    broadcast use vstd::seq_lib::to_multiset_contains;

    assert forall|i: int| 0 <= i < a.len() implies b.contains(#[trigger] a[i]) by {
        assert(a.contains(a[i]));
        assert(a.to_multiset().count(a[i]) > 0);
        assert(b.to_multiset().count(a[i]) > 0);
    }
    assert forall|i: int| 0 <= i < b.len() implies a.contains(#[trigger] b[i]) by {
        assert(b.contains(b[i]));
        assert(b.to_multiset().count(b[i]) > 0);
        assert(a.to_multiset().count(b[i]) > 0);
    }
    assert forall|m: int| is_lowest(a, m) implies is_lowest(b, m) by {
        let i = choose|i: int| 0 <= i < a.len() && (#[trigger] a[i]).score == m;
        assert(b.contains(a[i]));
        let j = choose|j: int| 0 <= j < b.len() && b[j] == a[i];
        assert(b[j].score == m);
        assert forall|k: int| 0 <= k < b.len() implies (#[trigger] b[k]).score >= m by {
            assert(a.contains(b[k]));
            let l = choose|l: int| 0 <= l < a.len() && a[l] == b[k];
            assert(a[l].score >= m);
        }
    }
    assert forall|m: int| is_highest(a, m) implies is_highest(b, m) by {
        let i = choose|i: int| 0 <= i < a.len() && (#[trigger] a[i]).score == m;
        assert(b.contains(a[i]));
        let j = choose|j: int| 0 <= j < b.len() && b[j] == a[i];
        assert(b[j].score == m);
        assert forall|k: int| 0 <= k < b.len() implies (#[trigger] b[k]).score <= m by {
            assert(a.contains(b[k]));
            let l = choose|l: int| 0 <= l < a.len() && a[l] == b[k];
            assert(a[l].score <= m);
        }
    }
}

/// There is one least and one greatest raw score.
pub proof fn lemma_extremes_unique(s: Seq<PredictionView>, lo: int, hi: int)
    requires
        is_lowest(s, lo),
        is_highest(s, hi),
    ensures
        lowest_score(s) == lo,
        highest_score(s) == hi,
        lo <= hi,
{
    let l = lowest_score(s);
    let h = highest_score(s);
    assert(is_lowest(s, l));
    assert(is_highest(s, h));
    let i = choose|i: int| 0 <= i < s.len() && (#[trigger] s[i]).score == lo;
    let j = choose|j: int| 0 <= j < s.len() && (#[trigger] s[j]).score == l;
    assert(s[i].score >= l && s[j].score >= lo);
    let p = choose|p: int| 0 <= p < s.len() && (#[trigger] s[p]).score == hi;
    let q = choose|q: int| 0 <= q < s.len() && (#[trigger] s[q]).score == h;
    assert(s[p].score <= h && s[q].score <= hi);
    assert(s[i].score <= hi);
}

/// Moving the entry at `b` from `rest` to the end of `done` keeps the
/// entries of the two together what they were.
proof fn lemma_move_keeps_entries(done: Seq<PredictionView>, rest: Seq<PredictionView>, b: int)
    requires
        0 <= b < rest.len(),
    ensures
        done.push(rest[b]).to_multiset().add(rest.remove(b).to_multiset()) == done.to_multiset().add(
            rest.to_multiset(),
        ),
{
    broadcast use vstd::multiset::group_multiset_axioms;

    let x = rest[b];
    vstd::seq_lib::to_multiset_build(done, x);
    vstd::seq_lib::to_multiset_remove(rest, b);
    vstd::seq_lib::to_multiset_contains(rest, x);
    assert(rest.contains(x));
    assert(done.to_multiset().insert(x).add(rest.to_multiset().remove(x)) =~= done.to_multiset().add(
        rest.to_multiset(),
    ));
}

/// With nothing on one side, the entries of the two together are those
/// of the other side.
proof fn lemma_entries_with_none(s: Seq<PredictionView>)
    ensures
        Seq::<PredictionView>::empty().to_multiset().add(s.to_multiset()) == s.to_multiset(),
        s.to_multiset().add(Seq::<PredictionView>::empty().to_multiset()) == s.to_multiset(),
{
    broadcast use vstd::multiset::group_multiset_axioms;

    let e = Seq::<PredictionView>::empty();
    vstd::seq_lib::to_multiset_len(e);
    vstd::multiset::lemma_multiset_empty_len(e.to_multiset());
    assert(e.to_multiset().add(s.to_multiset()) =~= s.to_multiset());
    assert(s.to_multiset().add(e.to_multiset()) =~= s.to_multiset());
}

/// Whether the text `a` comes at or before the text `b`.
pub fn chars_le(a: &Vec<char>, b: &Vec<char>) -> (r: bool)
    ensures
        r == text_le(a@, b@),
{
    let mut i: usize = 0;
    assert(a@.skip(0) == a@ && b@.skip(0) == b@);
    while i < a.len() && i < b.len() && a[i] == b[i]
        invariant
            0 <= i <= a.len(),
            i <= b.len(),
            text_le(a@, b@) == text_le(a@.skip(i as int), b@.skip(i as int)),
        decreases a.len() - i,
    {
        assert(a@.skip(i as int).drop_first() == a@.skip(i + 1));
        assert(b@.skip(i as int).drop_first() == b@.skip(i + 1));
        i += 1;
    }
    if i == a.len() {
        true
    } else if i == b.len() {
        false
    } else {
        assert(a@.skip(i as int)[0] == a@[i as int]);
        assert(b@.skip(i as int)[0] == b@[i as int]);
        (a[i] as u32) < (b[i] as u32)
    }
}

impl Prediction {
    /// Whether this entry ranks at or before `other`.
    pub fn ranks_before(&self, other: &Prediction) -> (r: bool)
        ensures
            r == ranks_before(self@, other@),
    {
        if self.score != other.score {
            self.score > other.score
        } else {
            let a = chars_of(self.label.as_str());
            let b = chars_of(other.label.as_str());
            chars_le(&a, &b)
        }
    }
}

/// The place of the entry that ranks before all others: the greatest raw
/// score, and among equal scores the label that comes first. `None` for
/// no entries.
pub fn best_prediction(preds: &Vec<Prediction>) -> (r: Option<usize>)
    ensures
        preds.len() == 0 <==> r is None,
        r matches Some(b) ==> b < preds.len() && forall|j: int|
            0 <= j < preds.len() ==> ranks_before(preds[b as int]@, #[trigger] preds[j]@),
{
    if preds.len() == 0 {
        return None;
    }
    let mut best: usize = 0;
    let mut k: usize = 1;
    proof {
        lemma_ranks_total(preds[0]@, preds[0]@);
    }
    while k < preds.len()
        invariant
            1 <= k <= preds.len(),
            best < k,
            forall|j: int| 0 <= j < k ==> ranks_before(preds[best as int]@, #[trigger] preds[j]@),
        decreases preds.len() - k,
    {
        if !preds[best].ranks_before(&preds[k]) {
            proof {
                lemma_ranks_total(preds[best as int]@, preds[k as int]@);
                lemma_ranks_total(preds[k as int]@, preds[k as int]@);
                assert forall|j: int| 0 <= j < k + 1 implies ranks_before(
                    preds[k as int]@,
                    #[trigger] preds[j]@,
                ) by {
                    if j < k {
                        lemma_ranks_transitive(preds[k as int]@, preds[best as int]@, preds[j]@);
                    }
                }
            }
            best = k;
        }
        k += 1;
    }
    Some(best)
}

/// The entries of `preds`, the best first.
pub fn rank_predictions(preds: Vec<Prediction>) -> (out: Vec<Prediction>)
    ensures
        prediction_views(out@).to_multiset() == prediction_views(preds@).to_multiset(),
        ranked(prediction_views(out@)),
{
    let ghost input = prediction_views(preds@);
    let mut rest = preds;
    let mut out: Vec<Prediction> = Vec::new();
    proof {
        assert(prediction_views(out@) == Seq::<PredictionView>::empty());
        lemma_entries_with_none(input);
    }
    while rest.len() > 0
        invariant
            prediction_views(out@).to_multiset().add(prediction_views(rest@).to_multiset())
                == input.to_multiset(),
            ranked(prediction_views(out@)),
            forall|i: int, j: int|
                0 <= i < out.len() && 0 <= j < rest.len() ==> ranks_before(
                    #[trigger] out[i]@,
                    #[trigger] rest[j]@,
                ),
        decreases rest.len(),
    {
        let found = best_prediction(&rest);
        let b: usize = found.unwrap();
        let ghost old_rest = rest@;
        let ghost old_out = out@;
        let p = rest.remove(b);
        out.push(p);
        proof {
            let ov = prediction_views(old_out);
            let rv = prediction_views(old_rest);
            assert(prediction_views(rest@) == rv.remove(b as int));
            assert(prediction_views(out@) == ov.push(p@));
            assert(rv[b as int] == p@);
            lemma_move_keeps_entries(ov, rv, b as int);
            assert forall|i: int, j: int| 0 <= i < j < out.len() implies ranks_before(
                #[trigger] prediction_views(out@)[i],
                #[trigger] prediction_views(out@)[j],
            ) by {
                if j < old_out.len() {
                    assert(ranks_before(ov[i], ov[j]));
                } else {
                    assert(ranks_before(old_out[i]@, old_rest[b as int]@));
                }
            }
            assert forall|i: int, j: int|
                0 <= i < out.len() && 0 <= j < rest.len() implies ranks_before(
                #[trigger] out[i]@,
                #[trigger] rest[j]@,
            ) by {
                let jj = if j < b { j } else { j + 1 };
                assert(rest[j] == old_rest[jj]);
                if i < old_out.len() {
                    assert(ranks_before(old_out[i]@, old_rest[jj]@));
                } else {
                    assert(ranks_before(old_rest[b as int]@, old_rest[jj]@));
                }
            }
        }
    }
    proof {
        assert(prediction_views(rest@) == Seq::<PredictionView>::empty());
        lemma_entries_with_none(prediction_views(out@));
    }
    out
}

/// The rescaled score of `score` among `n` entries with raw scores from `lo` to `hi`.
fn percent(score: i64, lo: i64, hi: i64, n: usize) -> (r: Percent)
    requires
        lo <= score <= hi,
    ensures
        (r.numerator as int, r.denominator as int) == percent_of(
            score as int,
            lo as int,
            hi as int,
            n as int,
        ),
{
    if hi > lo {
        let above: u128 = (score as i128 - lo as i128) as u128;
        let span: u128 = (hi as i128 - lo as i128) as u128;
        Percent { numerator: above * 100, denominator: span }
    } else {
        Percent { numerator: 100, denominator: n as u128 }
    }
}

/// Ranks the raw scores and rescales them to the range 0 to 100.
///
/// The result holds every entry of `preds` once, the best first: sorted
/// by raw score, the greater first, and entries of equal score by label.
/// With `lo` and `hi` the least and greatest raw score, an entry's
/// rescaled score is `(score - lo) / (hi - lo) * 100`; where all scores
/// are equal it is `100 / n` for each of the `n` entries. Nothing is cut
/// off the list.
pub fn normalize_scores(preds: Vec<Prediction>) -> (out: Vec<RankedScore>)
    ensures
        normalized_ranking(prediction_views(preds@), ranked_views(out@)),
{
    let ghost input = prediction_views(preds@);
    let n: usize = preds.len();
    let sorted = rank_predictions(preds);
    let ghost sv = prediction_views(sorted@);
    proof {
        broadcast use vstd::seq_lib::to_multiset_len;

        assert(sv.len() == sorted.len());
        assert(input.len() == n);
        assert(sv.to_multiset().len() == input.to_multiset().len());
        assert(sv.len() == n);
    }
    let mut out: Vec<RankedScore> = Vec::new();
    if n == 0 {
        assert(raw_of(ranked_views(out@)) == sv);
        return out;
    }
    let hi: i64 = sorted[0].score;
    let lo: i64 = sorted[n - 1].score;
    proof {
        assert(sv[0] == sorted[0]@);
        assert(sv[n - 1] == sorted[n - 1]@);
        lemma_ranked_ends(sv);
        lemma_extremes_of_permutation(sv, input);
        lemma_extremes_unique(input, lo as int, hi as int);
    }
    let mut k: usize = 0;
    assert(raw_of(ranked_views(out@)) == sv.take(0));
    while k < n
        invariant
            0 <= k <= n,
            n == sorted.len(),
            sv == prediction_views(sorted@),
            is_lowest(sv, lo as int),
            is_highest(sv, hi as int),
            out.len() == k,
            raw_of(ranked_views(out@)) == sv.take(k as int),
            forall|i: int|
                0 <= i < k ==> ((#[trigger] ranked_views(out@)[i]).numerator, ranked_views(
                    out@,
                )[i].denominator) == percent_of(
                    ranked_views(out@)[i].score,
                    lo as int,
                    hi as int,
                    n as int,
                ),
        decreases n - k,
    {
        let score: i64 = sorted[k].score;
        assert(sv[k as int] == sorted[k as int]@);
        let entry = RankedScore {
            label: sorted[k].label.clone(),
            score,
            percent: percent(score, lo, hi, n),
        };
        let ghost before = ranked_views(out@);
        out.push(entry);
        proof {
            let after = ranked_views(out@);
            assert(after == before.push(entry@));
            assert(raw_of(after) == raw_of(before).push(sv[k as int]));
            assert(sv.take(k as int).push(sv[k as int]) == sv.take(k + 1));
            assert forall|i: int| 0 <= i < k + 1 implies ((#[trigger] after[i]).numerator,
                after[i].denominator) == percent_of(
                after[i].score,
                lo as int,
                hi as int,
                n as int,
            ) by {
                if i < k {
                    assert(after[i] == before[i]);
                }
            }
        }
        k += 1;
    }
    assert(sv.take(n as int) == sv);
    out
}

/// A ranking holds as many entries as were given, and each of them is
/// one of those given.
pub proof fn lemma_ranking_entries(input: Seq<PredictionView>, out: Seq<RankedView>)
    requires
        normalized_ranking(input, out),
    ensures
        out.len() == input.len(),
        forall|k: int| 0 <= k < out.len() ==> input.contains(#[trigger] raw_of(out)[k]),
        forall|i: int| 0 <= i < input.len() ==> raw_of(out).contains(#[trigger] input[i]),
{
    let raw = raw_of(out);
    vstd::seq_lib::to_multiset_len(raw);
    vstd::seq_lib::to_multiset_len(input);
    assert forall|k: int| 0 <= k < out.len() implies input.contains(#[trigger] raw[k]) by {
        assert(raw.contains(raw[k]));
        vstd::seq_lib::to_multiset_contains(raw, raw[k]);
        vstd::seq_lib::to_multiset_contains(input, raw[k]);
    }
    assert forall|i: int| 0 <= i < input.len() implies raw.contains(#[trigger] input[i]) by {
        assert(input.contains(input[i]));
        vstd::seq_lib::to_multiset_contains(raw, input[i]);
        vstd::seq_lib::to_multiset_contains(input, input[i]);
    }
}

/// The first entry of a ranking holds the greatest raw score of those
/// given, and the last entry the least.
pub proof fn lemma_ranking_ends(input: Seq<PredictionView>, out: Seq<RankedView>)
    requires
        normalized_ranking(input, out),
        input.len() > 0,
    ensures
        out.len() == input.len(),
        is_highest(input, highest_score(input)),
        is_lowest(input, lowest_score(input)),
        out[0].score == highest_score(input),
        out.last().score == lowest_score(input),
        lowest_score(input) <= highest_score(input),
{
    let raw = raw_of(out);
    lemma_ranking_entries(input, out);
    lemma_ranked_ends(raw);
    lemma_extremes_of_permutation(raw, input);
    lemma_extremes_unique(input, raw.last().score, raw[0].score);
}

/// Where the raw scores are not all equal, an entry's rescaled score is
/// exactly 100 if and only if its raw score is the greatest, exactly 0 if
/// and only if it is the least, and lies strictly between 0 and 100
/// otherwise. The first entry of the ranking stands at 100 and the last
/// at 0. No rescaled score has a zero denominator.
pub proof fn law_rescaled_bounds(input: Seq<PredictionView>, out: Seq<RankedView>)
    requires
        normalized_ranking(input, out),
        input.len() > 0,
        highest_score(input) > lowest_score(input),
    ensures
        out.len() == input.len(),
        forall|k: int|
            0 <= k < out.len() ==> {
                &&& (#[trigger] out[k]).denominator > 0
                &&& 0 <= out[k].numerator <= 100 * out[k].denominator
                &&& (out[k].numerator == 100 * out[k].denominator <==> out[k].score
                    == highest_score(input))
                &&& (out[k].numerator == 0 <==> out[k].score == lowest_score(input))
            },
        out[0].numerator == 100 * out[0].denominator,
        out.last().numerator == 0,
{
    let raw = raw_of(out);
    let lo = lowest_score(input);
    let hi = highest_score(input);
    lemma_ranking_entries(input, out);
    lemma_ranking_ends(input, out);
    assert forall|k: int| 0 <= k < out.len() implies {
        &&& (#[trigger] out[k]).denominator > 0
        &&& 0 <= out[k].numerator <= 100 * out[k].denominator
        &&& (out[k].numerator == 100 * out[k].denominator <==> out[k].score == hi)
        &&& (out[k].numerator == 0 <==> out[k].score == lo)
    } by {
        assert(input.contains(raw[k]));
        let i = choose|i: int| 0 <= i < input.len() && input[i] == raw[k];
        assert(lo <= input[i].score <= hi);
        assert(raw[k].score == out[k].score);
        assert((out[k].numerator, out[k].denominator) == percent_of(
            out[k].score,
            lo,
            hi,
            input.len() as int,
        ));
    }
}

/// Where no label occurs twice, the raw scores are not all equal, and
/// the greatest and the least raw score are each held by one entry only,
/// exactly one entry of the ranking stands at 100, namely the first,
/// exactly one at 0, namely the last, and every other entry strictly
/// between.
pub proof fn law_one_entry_at_each_bound(input: Seq<PredictionView>, out: Seq<RankedView>)
    requires
        normalized_ranking(input, out),
        input.len() > 0,
        highest_score(input) > lowest_score(input),
        forall|i: int, j: int|
            0 <= i < j < input.len() ==> (#[trigger] input[i]).label != (#[trigger] input[j]).label,
        forall|i: int, j: int|
            0 <= i < j < input.len() ==> !((#[trigger] input[i]).score == highest_score(input) && (
            #[trigger] input[j]).score == highest_score(input)),
        forall|i: int, j: int|
            0 <= i < j < input.len() ==> !((#[trigger] input[i]).score == lowest_score(input) && (
            #[trigger] input[j]).score == lowest_score(input)),
    ensures
        out.len() == input.len(),
        out[0].numerator == 100 * out[0].denominator,
        out.last().numerator == 0,
        forall|k: int|
            0 < k < out.len() - 1 ==> 0 < (#[trigger] out[k]).numerator < 100 * out[k].denominator,
        forall|k: int|
            0 < k < out.len() ==> (#[trigger] out[k]).numerator != 100 * out[k].denominator,
        forall|k: int| 0 <= k < out.len() - 1 ==> (#[trigger] out[k]).numerator != 0,
{
    let raw = raw_of(out);
    let lo = lowest_score(input);
    let hi = highest_score(input);
    law_rescaled_bounds(input, out);
    lemma_ranking_entries(input, out);
    lemma_ranking_ends(input, out);
    assert(input.no_duplicates());
    input.lemma_multiset_has_no_duplicates();
    raw.lemma_multiset_has_no_duplicates_conv();
    assert forall|k: int| 0 < k < out.len() implies out[k].score != hi by {
        if out[k].score == hi {
            assert(raw[0] != raw[k]);
            assert(input.contains(raw[0]) && input.contains(raw[k]));
            let i = choose|i: int| 0 <= i < input.len() && input[i] == raw[0];
            let j = choose|j: int| 0 <= j < input.len() && input[j] == raw[k];
            assert(input[i].score == hi && input[j].score == hi);
            assert(i != j);
            if i < j {
                assert(!(input[i].score == hi && input[j].score == hi));
            } else {
                assert(!(input[j].score == hi && input[i].score == hi));
            }
        }
    }
    assert forall|k: int| 0 <= k < out.len() - 1 implies out[k].score != lo by {
        if out[k].score == lo {
            let last = out.len() - 1;
            assert(raw[last] != raw[k]);
            assert(input.contains(raw[last]) && input.contains(raw[k]));
            let i = choose|i: int| 0 <= i < input.len() && input[i] == raw[last];
            let j = choose|j: int| 0 <= j < input.len() && input[j] == raw[k];
            assert(input[i].score == lo && input[j].score == lo);
            assert(i != j);
            if i < j {
                assert(!(input[i].score == lo && input[j].score == lo));
            } else {
                assert(!(input[j].score == lo && input[i].score == lo));
            }
        }
    }
}

/// Where all raw scores are equal, every entry of the ranking has the
/// same rescaled score, `100 / n` for `n` entries; its denominator is
/// not zero.
pub proof fn law_equal_scores_share_evenly(input: Seq<PredictionView>, out: Seq<RankedView>)
    requires
        normalized_ranking(input, out),
        forall|i: int, j: int|
            0 <= i < input.len() && 0 <= j < input.len() ==> (#[trigger] input[i]).score == (
            #[trigger] input[j]).score,
    ensures
        out.len() == input.len(),
        forall|k: int|
            0 <= k < out.len() ==> (#[trigger] out[k]).numerator == 100 && out[k].denominator
                == input.len() && out[k].denominator > 0,
{
    lemma_ranking_entries(input, out);
    if input.len() > 0 {
        let m = input[0].score;
        assert(is_lowest(input, m));
        assert(is_highest(input, m));
        lemma_extremes_unique(input, m, m);
    }
}

/// The ranking does not depend on the order in which the entries were
/// given: the same entries in any order have one ranking.
pub proof fn law_ranking_is_reproducible(
    first: Seq<PredictionView>,
    second: Seq<PredictionView>,
    a: Seq<RankedView>,
    b: Seq<RankedView>,
)
    requires
        first.to_multiset() == second.to_multiset(),
        normalized_ranking(first, a),
        normalized_ranking(second, b),
    ensures
        a == b,
{
    let leq = |x: PredictionView, y: PredictionView| ranks_before(x, y);
    assert(vstd::relations::total_ordering(leq)) by {
        assert forall|x: PredictionView| #[trigger] leq(x, x) by {
            lemma_ranks_total(x, x);
        }
        assert forall|x: PredictionView, y: PredictionView| #[trigger]
            leq(x, y) && #[trigger] leq(y, x) implies x == y by {
            lemma_ranks_antisymmetric(x, y);
        }
        assert forall|x: PredictionView, y: PredictionView, z: PredictionView| #[trigger]
            leq(x, y) && #[trigger] leq(y, z) implies leq(x, z) by {
            lemma_ranks_transitive(x, y, z);
        }
        assert forall|x: PredictionView, y: PredictionView| #[trigger]
            leq(x, y) || #[trigger] leq(y, x) by {
            lemma_ranks_total(x, y);
        }
    }
    let ra = raw_of(a);
    let rb = raw_of(b);
    assert(vstd::relations::sorted_by(ra, leq)) by {
        assert forall|i: int, j: int| 0 <= i < j < ra.len() implies #[trigger] leq(ra[i], ra[j]) by {
            assert(ranks_before(ra[i], ra[j]));
        }
    }
    assert(vstd::relations::sorted_by(rb, leq)) by {
        assert forall|i: int, j: int| 0 <= i < j < rb.len() implies #[trigger] leq(rb[i], rb[j]) by {
            assert(ranks_before(rb[i], rb[j]));
        }
    }
    vstd::seq_lib::lemma_sorted_unique(ra, rb, leq);
    lemma_ranking_entries(first, a);
    lemma_ranking_entries(second, b);
    vstd::seq_lib::to_multiset_len(first);
    vstd::seq_lib::to_multiset_len(second);
    if first.len() > 0 {
        lemma_ranking_ends(first, a);
        lemma_ranking_ends(second, b);
        assert(a[0].score == ra[0].score && b[0].score == rb[0].score);
        assert(a.last().score == ra.last().score && b.last().score == rb.last().score);
    }
    assert forall|k: int| 0 <= k < a.len() implies a[k] == b[k] by {
        assert(ra[k] == rb[k]);
        assert(ra[k].label == a[k].label && rb[k].label == b[k].label);
        assert(ra[k].score == a[k].score && rb[k].score == b[k].score);
    }
    assert(a =~= b);
}

/// No label occurs twice in `s`.
pub open spec fn distinct_labels(s: Seq<PredictionView>) -> bool {
    forall|i: int, j: int|
        0 <= i < j < s.len() ==> (#[trigger] s[i]).label != (#[trigger] s[j]).label
}

/// No entry after `i` has the label of entry `i`.
pub open spec fn is_last_of_label(s: Seq<PredictionView>, i: int) -> bool {
    forall|j: int| i < j < s.len() ==> (#[trigger] s[j]).label != s[i].label
}

/// Of the first `upto` entries of `s`, those that are the last of their
/// label, in their order.
pub open spec fn last_of_each(s: Seq<PredictionView>, upto: int) -> Seq<PredictionView>
    decreases upto,
{
    if upto <= 0 {
        Seq::empty()
    } else {
        let before = last_of_each(s, upto - 1);
        if is_last_of_label(s, upto - 1) {
            before.push(s[upto - 1])
        } else {
            before
        }
    }
}

/// The scores by label that the entries `s` stand for: where a label
/// occurs more than once, its last entry is the one that counts.
pub open spec fn by_label(s: Seq<PredictionView>) -> Seq<PredictionView> {
    last_of_each(s, s.len() as int)
}

/// The entry `e` is entry `i` of `s`, and entry `i` is the last of its
/// label.
pub open spec fn comes_from(s: Seq<PredictionView>, e: PredictionView, i: int) -> bool {
    is_last_of_label(s, i) && e == s[i]
}

/// The entry `e` comes from one of the first `upto` entries of `s`.
pub open spec fn has_place(s: Seq<PredictionView>, upto: int, e: PredictionView) -> bool {
    exists|i: int| 0 <= i < upto && #[trigger] comes_from(s, e, i)
}

/// Every entry that is kept is the last of its label.
pub proof fn lemma_last_of_each_entries(s: Seq<PredictionView>, upto: int)
    requires
        0 <= upto <= s.len(),
    ensures
        forall|k: int|
            0 <= k < last_of_each(s, upto).len() ==> has_place(
                s,
                upto,
                #[trigger] last_of_each(s, upto)[k],
            ),
    decreases upto,
{
    if upto > 0 {
        lemma_last_of_each_entries(s, upto - 1);
        let before = last_of_each(s, upto - 1);
        let now = last_of_each(s, upto);
        assert forall|k: int| 0 <= k < now.len() implies has_place(s, upto, #[trigger] now[k]) by {
            if k < before.len() {
                assert(now[k] == before[k]);
                assert(has_place(s, upto - 1, before[k]));
                let i = choose|i: int| 0 <= i < upto - 1 && #[trigger] comes_from(s, before[k], i);
                assert(0 <= i < upto && comes_from(s, now[k], i));
            } else {
                assert(comes_from(s, now[k], upto - 1));
            }
        }
    }
}

/// The scores by label are a map: no label has two entries.
pub proof fn law_one_entry_for_each_label(s: Seq<PredictionView>, upto: int)
    requires
        0 <= upto <= s.len(),
    ensures
        distinct_labels(last_of_each(s, upto)),
    decreases upto,
{
    if upto > 0 {
        law_one_entry_for_each_label(s, upto - 1);
        lemma_last_of_each_entries(s, upto - 1);
        let before = last_of_each(s, upto - 1);
        let now = last_of_each(s, upto);
        assert forall|a: int, b: int| 0 <= a < b < now.len() implies (#[trigger] now[a]).label != (
        #[trigger] now[b]).label by {
            if b < before.len() {
                assert(now[a] == before[a] && now[b] == before[b]);
            } else {
                assert(now[a] == before[a]);
                assert(has_place(s, upto - 1, before[a]));
                let i = choose|i: int| 0 <= i < upto - 1 && #[trigger] comes_from(s, before[a], i);
                assert(s[upto - 1].label != s[i].label);
            }
        }
    }
}

/// Entries of which no two share a label are their own scores by label.
pub proof fn law_distinct_entries_are_kept(s: Seq<PredictionView>, upto: int)
    requires
        distinct_labels(s),
        0 <= upto <= s.len(),
    ensures
        last_of_each(s, upto) == s.take(upto),
    decreases upto,
{
    if upto > 0 {
        law_distinct_entries_are_kept(s, upto - 1);
        assert(is_last_of_label(s, upto - 1));
        assert(s.take(upto - 1).push(s[upto - 1]) == s.take(upto));
    } else {
        assert(s.take(0) == Seq::<PredictionView>::empty());
    }
}

/// Raw scores by label: a list of entries in which no label occurs
/// twice.
#[derive(Debug, PartialEq, Eq)]
pub struct ScoreMap {
    entries: Vec<Prediction>,
}

impl View for ScoreMap {
    type V = Seq<PredictionView>;

    closed spec fn view(&self) -> Seq<PredictionView> {
        prediction_views(self.entries@)
    }
}

/// Whether no entry after `i` has the label of entry `i`.
fn last_of_label(entries: &Vec<Prediction>, i: usize) -> (r: bool)
    requires
        i < entries.len(),
    ensures
        r == is_last_of_label(prediction_views(entries@), i as int),
{
    let ghost s = prediction_views(entries@);
    let mut j: usize = i + 1;
    while j < entries.len()
        invariant
            i < j <= entries.len(),
            s == prediction_views(entries@),
            forall|k: int| i < k < j ==> (#[trigger] s[k]).label != s[i as int].label,
        decreases entries.len() - j,
    {
        assert(s[j as int] == entries[j as int]@ && s[i as int] == entries[i as int]@);
        if entries[j].label == entries[i].label {
            return false;
        }
        j += 1;
    }
    true
}

/// A copy of the entries.
fn copy_entries(entries: &Vec<Prediction>) -> (r: Vec<Prediction>)
    ensures
        prediction_views(r@) == prediction_views(entries@),
{
    let mut r: Vec<Prediction> = Vec::new();
    let mut i: usize = 0;
    while i < entries.len()
        invariant
            0 <= i <= entries.len(),
            r.len() == i,
            forall|k: int| 0 <= k < i ==> (#[trigger] r[k])@ == entries[k]@,
        decreases entries.len() - i,
    {
        r.push(Prediction { label: entries[i].label.clone(), score: entries[i].score });
        i += 1;
    }
    assert(prediction_views(r@) =~= prediction_views(entries@));
    r
}

impl Clone for ScoreMap {
    fn clone(&self) -> (r: ScoreMap)
        ensures
            r@ == self@,
    {
        proof {
            use_type_invariant(self);
        }
        ScoreMap { entries: copy_entries(&self.entries) }
    }
}

impl ScoreMap {
    #[verifier::type_invariant]
    spec fn well_formed(self) -> bool {
        distinct_labels(prediction_views(self.entries@))
    }

    /// The scores by label that `entries` stand for: where a label
    /// occurs more than once, its last entry is the one that counts.
    pub fn from_entries(entries: Vec<Prediction>) -> (r: ScoreMap)
        ensures
            r@ == by_label(prediction_views(entries@)),
    {
        let ghost s = prediction_views(entries@);
        let mut out: Vec<Prediction> = Vec::new();
        let mut i: usize = 0;
        assert(prediction_views(out@) =~= last_of_each(s, 0));
        while i < entries.len()
            invariant
                0 <= i <= entries.len(),
                s == prediction_views(entries@),
                prediction_views(out@) == last_of_each(s, i as int),
            decreases entries.len() - i,
        {
            let ghost before = prediction_views(out@);
            if last_of_label(&entries, i) {
                let entry = Prediction { label: entries[i].label.clone(), score: entries[i].score };
                assert(entry@ == s[i as int]);
                out.push(entry);
                assert(prediction_views(out@) =~= before.push(entry@));
            }
            i += 1;
        }
        proof {
            law_one_entry_for_each_label(s, entries.len() as int);
        }
        ScoreMap { entries: out }
    }

    /// The entries, of which no two share a label.
    pub fn entries(&self) -> (r: &Vec<Prediction>)
        ensures
            prediction_views(r@) == self@,
            distinct_labels(self@),
    {
        proof {
            use_type_invariant(self);
        }
        &self.entries
    }

    /// The entries, of which no two share a label.
    pub fn into_entries(self) -> (r: Vec<Prediction>)
        ensures
            prediction_views(r@) == self@,
            distinct_labels(self@),
    {
        proof {
            use_type_invariant(&self);
        }
        self.entries
    }
}

} // verus!
