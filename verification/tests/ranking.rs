use inkify::scores::best_prediction;
use inkify::scores::chars_le;
use inkify::scores::normalize_scores;
use inkify::scores::rank_predictions;
use inkify::scores::Percent;
use inkify::scores::Prediction;
use inkify::scores::RankedScore;
use inkify::text::chars_of;

fn entry(label: &str, score: i64) -> Prediction {
    Prediction { label: label.to_string(), score }
}

fn ranked(label: &str, score: i64, numerator: u128, denominator: u128) -> RankedScore {
    RankedScore { label: label.to_string(), score, percent: Percent { numerator, denominator } }
}

fn as_float(p: Percent) -> f64 {
    p.numerator as f64 / p.denominator as f64
}

fn le(a: &str, b: &str) -> bool {
    chars_le(&chars_of(a), &chars_of(b))
}

#[test]
fn scores_are_rescaled_between_least_and_greatest() {
    let out = normalize_scores(vec![entry("rust", -10), entry("python", -40), entry("go", -20)]);
    assert_eq!(
        out,
        vec![
            ranked("rust", -10, 3000, 30),
            ranked("go", -20, 2000, 30),
            ranked("python", -40, 0, 30),
        ]
    );
    assert_eq!(as_float(out[0].percent), 100.0);
    assert!((as_float(out[1].percent) - 66.66666666666667).abs() < 1e-9);
    assert_eq!(as_float(out[2].percent), 0.0);
}

#[test]
fn one_entry_at_each_end_and_the_rest_strictly_between() {
    let out = normalize_scores(vec![
        entry("a", 5),
        entry("b", -7),
        entry("c", 900),
        entry("d", 0),
        entry("e", 899),
        entry("f", -6),
    ]);
    assert_eq!(out.len(), 6);
    assert_eq!(as_float(out[0].percent), 100.0);
    assert_eq!(as_float(out[5].percent), 0.0);
    for k in 1..5 {
        let p = as_float(out[k].percent);
        assert!(0.0 < p && p < 100.0);
        assert!(out[k].percent.numerator > 0);
        assert!(out[k].percent.numerator < 100 * out[k].percent.denominator);
    }
    let labels: Vec<&str> = out.iter().map(|r| r.label.as_str()).collect();
    assert_eq!(labels, vec!["c", "e", "a", "d", "f", "b"]);
}

#[test]
fn equal_scores_share_the_hundred_evenly() {
    let out = normalize_scores(vec![entry("b", 3), entry("a", 3), entry("c", 3), entry("d", 3)]);
    assert_eq!(
        out,
        vec![
            ranked("a", 3, 100, 4),
            ranked("b", 3, 100, 4),
            ranked("c", 3, 100, 4),
            ranked("d", 3, 100, 4),
        ]
    );
    for r in &out {
        let p = as_float(r.percent);
        assert!(!p.is_nan());
        assert_eq!(p, 25.0);
    }
}

#[test]
fn a_single_score_stands_at_one_hundred() {
    let out = normalize_scores(vec![entry("only", -123)]);
    assert_eq!(out, vec![ranked("only", -123, 100, 1)]);
    assert_eq!(as_float(out[0].percent), 100.0);
}

#[test]
fn no_scores_give_no_ranking() {
    assert_eq!(normalize_scores(Vec::new()), Vec::<RankedScore>::new());
    assert_eq!(rank_predictions(Vec::new()), Vec::<Prediction>::new());
    assert_eq!(best_prediction(&Vec::new()), None);
}

#[test]
fn ties_are_ordered_by_label() {
    let out = normalize_scores(vec![
        entry("zig", 10),
        entry("c", 10),
        entry("ada", 1),
        entry("C", 10),
        entry("cpp", 10),
    ]);
    let labels: Vec<&str> = out.iter().map(|r| r.label.as_str()).collect();
    assert_eq!(labels, vec!["C", "c", "cpp", "zig", "ada"]);
    assert_eq!(out[0].percent, Percent { numerator: 900, denominator: 9 });
    assert_eq!(out[3].percent, Percent { numerator: 900, denominator: 9 });
    assert_eq!(out[4].percent, Percent { numerator: 0, denominator: 9 });
}

#[test]
fn ranking_does_not_depend_on_the_order_given() {
    let one = vec![entry("rust", 4), entry("go", 9), entry("c", 4), entry("java", -2)];
    let other = vec![entry("java", -2), entry("c", 4), entry("go", 9), entry("rust", 4)];
    assert_eq!(normalize_scores(one.clone()), normalize_scores(other.clone()));
    assert_eq!(rank_predictions(one), rank_predictions(other));
}

#[test]
fn ranking_keeps_every_entry() {
    let out = rank_predictions(vec![entry("a", 1), entry("a", 1), entry("b", 2), entry("a", 0)]);
    assert_eq!(out, vec![entry("b", 2), entry("a", 1), entry("a", 1), entry("a", 0)]);
}

#[test]
fn scores_at_the_ends_of_the_range_do_not_overflow() {
    let out = normalize_scores(vec![entry("lo", i64::MIN), entry("hi", i64::MAX), entry("mid", 0)]);
    let span = u64::MAX as u128;
    assert_eq!(
        out,
        vec![
            ranked("hi", i64::MAX, span * 100, span),
            ranked("mid", 0, (1u128 << 63) * 100, span),
            ranked("lo", i64::MIN, 0, span),
        ]
    );
}

#[test]
fn best_is_the_greatest_score_then_the_first_label() {
    let preds = vec![entry("b", 2), entry("z", 7), entry("a", 7), entry("c", 7)];
    assert_eq!(best_prediction(&preds), Some(2));
    assert_eq!(best_prediction(&vec![entry("x", -1)]), Some(0));
    assert!(preds[1].ranks_before(&preds[0]));
    assert!(!preds[0].ranks_before(&preds[1]));
    assert!(preds[2].ranks_before(&preds[1]));
    assert!(!preds[1].ranks_before(&preds[2]));
    assert!(preds[1].ranks_before(&preds[1]));
}

#[test]
fn labels_are_ordered_like_strings() {
    let words = ["", "a", "ab", "b", "B", "é", "z", "abc", "ab ", "中", "~"];
    for a in words {
        for b in words {
            assert_eq!(le(a, b), a <= b, "{:?} {:?}", a, b);
        }
    }
}

#[test]
fn names_are_listed_once_and_in_order() {
    let names: Vec<String> =
        ["Rust", "C", "Python", "C", "rust", "Ada", "Rust", "", "C++", "Ada"]
            .iter()
            .map(|n| n.to_string())
            .collect();
    assert_eq!(
        inkify::names::sorted_unique(&names),
        vec!["", "Ada", "C", "C++", "Python", "Rust", "rust"]
    );
    assert_eq!(inkify::names::sorted_unique(&Vec::new()), Vec::<String>::new());
}

#[test]
fn names_come_out_as_a_sorted_set_would_give_them() {
    let names: Vec<String> = vec![
        "zsh", "Bash", "bash", "é", "e", "Z", "日本語", "a b", "ab", "a", "zsh", "Bash", "~", "A",
    ]
    .into_iter()
    .map(|n| n.to_string())
    .collect();
    let mut expected = names.clone();
    expected.sort();
    expected.dedup();
    assert_eq!(inkify::names::sorted_unique(&names), expected);
}
