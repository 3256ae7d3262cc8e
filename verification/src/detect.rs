//! Language detection: which syntax a piece of code is highlighted with.
//!
//! Three ways are tried in a fixed order, and the first that gives a
//! syntax ends the search.
//!
//! 1. A language named in the request is looked up by its token. If the
//!    syntax set does not know it the request fails: nothing else is
//!    tried.
//! 2. Without a named language, the first line of the code is matched
//!    against the first-line patterns of the syntax set.
//! 3. Failing that, the classifier's best label is looked up by token.
//!    Where there is no classifier, where its run failed, where it gave
//!    no scores, or where its best label is unknown to the syntax set,
//!    the syntax is the one for plain logs.
//!
//! Running the classifier is the caller's part. The caller learns from
//! the first two steps whether a run is needed, and hands its outcome to
//! the third.

use vstd::prelude::*;
use syntect::parsing::SyntaxReference;
use syntect::parsing::SyntaxSet;
use crate::config::require_code;
use crate::config::resolved_from;
use crate::config::text_of;
use crate::config::Config;
use crate::config::ConfigQuery;
use crate::error::ConfigError;
use crate::error::ErrorView;
use crate::scores::best_prediction;
use crate::scores::lemma_ranks_antisymmetric;
use crate::scores::normalize_scores;
use crate::scores::normalized_ranking;
use crate::scores::prediction_views;
use crate::scores::ranked_views;
use crate::scores::ranks_before;
use crate::scores::ScoreMap;
use crate::scores::PredictionView;
use crate::scores::RankedScore;
use crate::syntax::found;
use crate::syntax::syntax_by_first_line;
use crate::syntax::syntax_by_token;
use crate::syntax::SyntaxDb;
use crate::text::chars_of;
use crate::text::find_char;
use crate::text::find_in;
use crate::text::lemma_find_char;

verus! {

/// What came of asking the classifier.
#[derive(Clone, Debug, PartialEq, Eq)]
pub enum ClassifierOutcome {
    /// No model is loaded.
    Unavailable,
    /// A model is loaded, but its run failed.
    Failed,
    /// The raw score of each label.
    Scores(ScoreMap),
}

/// `ClassifierOutcome` with its scores as plain values.
pub enum OutcomeView {
    Unavailable,
    Failed,
    Scores(Seq<PredictionView>),
}

impl View for ClassifierOutcome {
    type V = OutcomeView;

    open spec fn view(&self) -> OutcomeView {
        match self {
            ClassifierOutcome::Unavailable => OutcomeView::Unavailable,
            ClassifierOutcome::Failed => OutcomeView::Failed,
            ClassifierOutcome::Scores(scores) => OutcomeView::Scores(scores@),
        }
    }
}

/// The first line of `code`, without its line end: what stands before
/// the first line feed, less a carriage return directly before that line
/// feed. Code without a line feed is its own first line.
pub open spec fn first_line(code: Seq<char>) -> Seq<char> {
    let n = find_char(code, '\n');
    if 0 < n < code.len() && code[n - 1] == '\r' {
        code.take(n - 1)
    } else {
        code.take(n)
    }
}

/// `p` is an entry of `s` that ranks at or before every entry of `s`.
pub open spec fn is_best(s: Seq<PredictionView>, p: PredictionView) -> bool {
    &&& s.contains(p)
    &&& forall|j: int| 0 <= j < s.len() ==> ranks_before(p, #[trigger] s[j])
}

/// The entry of `s` with the greatest raw score and, among those with
/// that score, the label that comes first; arbitrary where `s` is empty.
pub open spec fn best_of(s: Seq<PredictionView>) -> PredictionView {
    choose|p: PredictionView| is_best(s, p)
}

/// There is one best entry.
pub proof fn lemma_best_is(s: Seq<PredictionView>, p: PredictionView)
    requires
        is_best(s, p),
    ensures
        best_of(s) == p,
{
    let q = best_of(s);
    assert(is_best(s, q));
    let i = choose|i: int| 0 <= i < s.len() && s[i] == p;
    let j = choose|j: int| 0 <= j < s.len() && s[j] == q;
    assert(ranks_before(p, s[j]));
    assert(ranks_before(q, s[i]));
    lemma_ranks_antisymmetric(p, q);
}

/// The token of the syntax for plain logs, which stands in where
/// nothing better is found.
pub open spec fn fallback_token() -> Seq<char> {
    "log"@
}

/// The label that the classifier stands for: that of its best entry.
/// `None` where there is no model, where its run failed, or where it
/// gave no scores.
pub open spec fn classified_token(outcome: OutcomeView) -> Option<Seq<char>> {
    match outcome {
        OutcomeView::Scores(scores) => if scores.len() > 0 {
            Some(best_of(scores).label)
        } else {
            None
        },
        _ => None,
    }
}

/// The syntax that the third step gives: the one for the classifier's
/// label where the set knows that label, else the one for plain logs.
/// Only a set without a syntax for plain logs gives none.
pub open spec fn classified_language(set: SyntaxSet, outcome: OutcomeView) -> Result<
    SyntaxReference,
    ErrorView,
> {
    let guess = match classified_token(outcome) {
        Some(token) => syntax_by_token(set, token),
        None => None,
    };
    match guess {
        Some(syntax) => Ok(syntax),
        None => match syntax_by_token(set, fallback_token()) {
            Some(syntax) => Ok(syntax),
            None => Err(ErrorView::InvalidLanguage(fallback_token())),
        },
    }
}

/// What the first two steps give: a syntax, the sign that the classifier
/// is to be asked (`Ok(None)`), or the failure of a named language that
/// the set does not know.
pub open spec fn language_without_classifier(
    language: Option<Seq<char>>,
    code: Seq<char>,
    set: SyntaxSet,
) -> Result<Option<SyntaxReference>, ErrorView> {
    match language {
        Some(token) => match syntax_by_token(set, token) {
            Some(syntax) => Ok(Some(syntax)),
            None => Err(ErrorView::InvalidLanguage(token)),
        },
        None => Ok(syntax_by_first_line(set, first_line(code))),
    }
}

/// The syntax that code is highlighted with.
pub open spec fn detected_language(
    language: Option<Seq<char>>,
    code: Seq<char>,
    set: SyntaxSet,
    outcome: OutcomeView,
) -> Result<SyntaxReference, ErrorView> {
    match language_without_classifier(language, code, set) {
        Ok(Some(syntax)) => Ok(syntax),
        Ok(None) => classified_language(set, outcome),
        Err(e) => Err(e),
    }
}

/// `r` is the syntax, or the error, that `expected` says.
pub open spec fn is_language(
    r: Result<&SyntaxReference, ConfigError>,
    expected: Result<SyntaxReference, ErrorView>,
) -> bool {
    match r {
        Ok(syntax) => expected == Ok::<SyntaxReference, ErrorView>(*syntax),
        Err(e) => expected == Err::<SyntaxReference, ErrorView>(e@),
    }
}

/// A language that the request names and the syntax set does not know
/// fails the request with `InvalidLanguage`, whatever the code holds and
/// whatever the classifier says.
pub proof fn law_named_language_is_final(
    token: Seq<char>,
    code: Seq<char>,
    set: SyntaxSet,
    outcome: OutcomeView,
)
    requires
        syntax_by_token(set, token) is None,
    ensures
        detected_language(Some(token), code, set, outcome) == Err::<SyntaxReference, ErrorView>(
            ErrorView::InvalidLanguage(token),
        ),
{
}

/// The same of a whole request: a query that resolves and names a
/// language unknown to the syntax set fails with `InvalidLanguage`,
/// whatever its code holds and whatever the classifier says.
pub proof fn law_unknown_language_fails_the_request(
    query: ConfigQuery,
    fetched: Option<Vec<u8>>,
    cfg: Config,
    set: SyntaxSet,
    outcome: OutcomeView,
)
    requires
        resolved_from(cfg, query, fetched),
        query.language is Some,
        syntax_by_token(set, query.language->0@) is None,
    ensures
        detected_language(text_of(cfg.language), cfg.code@, set, outcome) == Err::<
            SyntaxReference,
            ErrorView,
        >(ErrorView::InvalidLanguage(query.language->0@)),
{
}

/// A language that the request names and the syntax set knows is the
/// syntax, whatever the code holds and whatever the classifier says.
pub proof fn law_named_language_wins(
    token: Seq<char>,
    code: Seq<char>,
    set: SyntaxSet,
    outcome: OutcomeView,
)
    requires
        syntax_by_token(set, token) is Some,
    ensures
        detected_language(Some(token), code, set, outcome) == Ok::<SyntaxReference, ErrorView>(
            syntax_by_token(set, token)->0,
        ),
{
}

/// Where the first line of the code matches, the classifier has no say:
/// the syntax is the same for every outcome of its run, and the first
/// two steps do not ask for a run.
pub proof fn law_first_line_needs_no_classifier(
    code: Seq<char>,
    set: SyntaxSet,
    one: OutcomeView,
    other: OutcomeView,
)
    requires
        syntax_by_first_line(set, first_line(code)) is Some,
    ensures
        detected_language(None, code, set, one) == detected_language(None, code, set, other),
        detected_language(None, code, set, one) == Ok::<SyntaxReference, ErrorView>(
            syntax_by_first_line(set, first_line(code))->0,
        ),
        language_without_classifier(None, code, set) matches Ok(Some(_)),
{
}

/// Without a named language and without a match of the first line, a
/// syntax set that knows plain logs always gives a syntax: detection
/// does not fail for want of a classifier.
pub proof fn law_detection_ends_in_a_syntax(code: Seq<char>, set: SyntaxSet, outcome: OutcomeView)
    requires
        syntax_by_token(set, fallback_token()) is Some,
    ensures
        detected_language(None, code, set, outcome) is Ok,
{
}

/// The first line of `code`, without its line end.
pub fn first_line_of(code: &str) -> (line: &str)
    ensures
        line@ == first_line(code@),
{
    let v = chars_of(code);
    let n: usize = find_in(&v, 0, v.len(), '\n');
    proof {
        assert(v@.subrange(0, v.len() as int) == code@);
        lemma_find_char(code@, '\n');
    }
    let end: usize = if 0 < n && n < v.len() && v[n - 1] == '\r' {
        n - 1
    } else {
        n
    };
    let line = code.substring_char(0, end);
    assert(code@.subrange(0, end as int) == code@.take(end as int));
    line
}

/// The third step: the syntax for the classifier's best label, or the
/// one for plain logs.
pub fn language_from_classifier<'a>(db: &'a SyntaxDb, classifier: &ClassifierOutcome) -> (r:
    Result<&'a SyntaxReference, ConfigError>)
    ensures
        is_language(r, classified_language(db@, classifier@)),
{
    let guess = match classifier {
        ClassifierOutcome::Scores(map) => match best_prediction(map.entries()) {
            Some(b) => {
                let scores = map.entries();
                proof {
                    let s = prediction_views(scores@);
                    assert(s[b as int] == scores[b as int]@);
                    assert forall|j: int| 0 <= j < s.len() implies ranks_before(
                        s[b as int],
                        #[trigger] s[j],
                    ) by {
                        assert(s[j] == scores[j]@);
                    }
                    lemma_best_is(s, s[b as int]);
                }
                db.find_by_token(scores[b].label.as_str())
            },
            None => None,
        },
        _ => None,
    };
    match guess {
        Some(syntax) => Ok(syntax),
        None => match db.find_by_token("log") {
            Some(syntax) => Ok(syntax),
            None => Err(ConfigError::InvalidLanguage(String::from_str("log"))),
        },
    }
}

impl Config {
    /// The first two steps of detection: the named language, then the
    /// first line. `Ok(None)` says that neither gave a syntax and the
    /// classifier is to be asked.
    pub fn language_without_classifier<'a>(&self, db: &'a SyntaxDb) -> (r: Result<
        Option<&'a SyntaxReference>,
        ConfigError,
    >)
        ensures
            match r {
                Ok(syntax) => language_without_classifier(
                    text_of(self.language),
                    self.code@,
                    db@,
                ) == Ok::<Option<SyntaxReference>, ErrorView>(found(syntax)),
                Err(e) => language_without_classifier(text_of(self.language), self.code@, db@)
                    == Err::<Option<SyntaxReference>, ErrorView>(e@),
            },
    {
        match &self.language {
            Some(token) => match db.find_by_token(token.as_str()) {
                Some(syntax) => Ok(Some(syntax)),
                None => Err(ConfigError::InvalidLanguage(token.clone())),
            },
            None => Ok(db.find_by_first_line(first_line_of(self.code.as_str()))),
        }
    }

    /// The syntax that this configuration's code is highlighted with,
    /// given the outcome of the classifier. The outcome is read only
    /// where no language is named and the first line matches nothing.
    pub fn language<'a>(&self, db: &'a SyntaxDb, classifier: &ClassifierOutcome) -> (r: Result<
        &'a SyntaxReference,
        ConfigError,
    >)
        ensures
            is_language(
                r,
                detected_language(text_of(self.language), self.code@, db@, classifier@),
            ),
    {
        match self.language_without_classifier(db) {
            Ok(Some(syntax)) => Ok(syntax),
            Ok(None) => language_from_classifier(db, classifier),
            Err(e) => Err(e),
        }
    }
}

/// What a detection report ends in: `MissingCode` for no code, the
/// classifier's own failure where it has one, and no error otherwise.
pub open spec fn report_error(code: Seq<char>, outcome: OutcomeView) -> Option<ErrorView> {
    if code.len() == 0 {
        Some(ErrorView::MissingCode)
    } else {
        match outcome {
            OutcomeView::Unavailable => Some(ErrorView::ClassifierUnavailable),
            OutcomeView::Failed => Some(ErrorView::ClassifierInferenceFailure),
            OutcomeView::Scores(_) => None,
        }
    }
}

/// The detection report for `code`: every label with its rescaled
/// score, the best first. Unlike detection for rendering, a report does
/// not fall back on anything: a missing model and a failed run are
/// reported as such.
pub fn detection_report(code: &str, classifier: ClassifierOutcome) -> (r: Result<
    Vec<RankedScore>,
    ConfigError,
>)
    ensures
        match report_error(code@, classifier@) {
            Some(error) => r matches Err(e) && e@ == error,
            None => r matches Ok(ranking) && classifier@ matches OutcomeView::Scores(scores)
                && normalized_ranking(scores, ranked_views(ranking@)),
        },
{
    match require_code(code) {
        Ok(()) => {},
        Err(e) => {
            return Err(e);
        },
    }
    match classifier {
        ClassifierOutcome::Unavailable => Err(ConfigError::ClassifierUnavailable),
        ClassifierOutcome::Failed => Err(ConfigError::ClassifierInferenceFailure),
        ClassifierOutcome::Scores(scores) => Ok(normalize_scores(scores.into_entries())),
    }
}

} // verus!
