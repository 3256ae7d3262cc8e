//! From a run of the classifier model to the scores that detection
//! works with.
//!
//! A run gives two lists of equal use: the class labels and, place by
//! place, their scores. The scores are a map from label to score: where
//! a label occurs more than once among the scored places, its last
//! score is the one that counts.

use vstd::prelude::*;
use crate::config::Config;
use crate::detect::ClassifierOutcome;
use crate::detect::OutcomeView;
use crate::names::texts;
use crate::scores::by_label;
use crate::scores::prediction_views;
use crate::scores::Prediction;
use crate::scores::PredictionView;
use crate::scores::ScoreMap;

verus! {

/// What a run of the classifier model gave.
#[derive(Clone, Debug, PartialEq, Eq)]
pub enum ModelRun {
    /// No model is loaded.
    NotLoaded,
    /// The model is loaded, but the run failed.
    Failed,
    /// The class labels and, place by place, their raw scores.
    Output { classes: Vec<String>, scores: Vec<i64> },
}

/// The entries that a run's output holds: for each score, in order, the
/// label of its place with it.
pub open spec fn scored(classes: Seq<Seq<char>>, scores: Seq<i64>) -> Seq<PredictionView> {
    Seq::new(
        scores.len(),
        |i: int| PredictionView { label: classes[i], score: scores[i] as int },
    )
}

/// What a run comes to: no model, a failed run (an output with fewer
/// labels than scores is one), or the scores by label.
pub open spec fn outcome_of(run: ModelRun) -> OutcomeView {
    match run {
        ModelRun::NotLoaded => OutcomeView::Unavailable,
        ModelRun::Failed => OutcomeView::Failed,
        ModelRun::Output { classes, scores } => if classes.len() >= scores.len() {
            OutcomeView::Scores(by_label(scored(texts(classes@), scores@)))
        } else {
            OutcomeView::Failed
        },
    }
}

impl Config {
    /// Turns what a run of the model gave into the outcome that detection
    /// reads.
    pub fn predict_language_with_tensorflow(run: ModelRun) -> (r: ClassifierOutcome)
        ensures
            r@ == outcome_of(run),
    {
        match run {
            ModelRun::NotLoaded => ClassifierOutcome::Unavailable,
            ModelRun::Failed => ClassifierOutcome::Failed,
            ModelRun::Output { classes, scores } => {
                let n: usize = scores.len();
                if classes.len() < n {
                    return ClassifierOutcome::Failed;
                }
                let ghost labels = texts(classes@);
                let mut entries: Vec<Prediction> = Vec::new();
                let mut i: usize = 0;
                while i < n
                    invariant
                        0 <= i <= n,
                        n == scores.len(),
                        n <= classes.len(),
                        labels == texts(classes@),
                        entries.len() == i,
                        forall|k: int|
                            0 <= k < i ==> (#[trigger] entries[k])@ == scored(labels, scores@)[k],
                    decreases n - i,
                {
                    entries.push(Prediction { label: classes[i].clone(), score: scores[i] });
                    i += 1;
                }
                assert(prediction_views(entries@) =~= scored(labels, scores@));
                ClassifierOutcome::Scores(ScoreMap::from_entries(entries))
            },
        }
    }
}

} // verus!
