//! The syntax database: `syntect`'s syntax set behind the two lookups
//! that language detection makes.
//!
//! A syntax set is opaque here. What a lookup finds is named, not
//! described: the same set and the same text always give the same
//! syntax. The one thing that is checked is that every first-line
//! pattern of the set compiles, because a lookup by first line stops the
//! program on one that does not. `SyntaxDb` holds a set for which that
//! check has passed.

use vstd::prelude::*;
use syntect::parsing::SyntaxReference;
use syntect::parsing::SyntaxSet;

verus! {

/// `syntect`'s set of syntax definitions, opaque to the verifier.
#[verifier::external_type_specification]
#[verifier::external_body]
pub struct ExSyntaxSet(SyntaxSet);

/// `syntect`'s syntax definition as it stands in a set, opaque to the
/// verifier.
#[verifier::external_type_specification]
#[verifier::external_body]
pub struct ExSyntaxReference(SyntaxReference);

/// The first-line pattern of each syntax of a set, in the set's order;
/// `None` for a syntax that has none.
pub uninterp spec fn first_line_patterns(set: SyntaxSet) -> Seq<Option<Seq<char>>>;

/// Whether `syntect`'s regular-expression engine accepts `pattern`.
pub uninterp spec fn regex_compiles(pattern: Seq<char>) -> bool;

/// The syntax that a set gives for a token: a file extension first, then
/// a name, letter case aside.
pub uninterp spec fn syntax_by_token(set: SyntaxSet, token: Seq<char>) -> Option<SyntaxReference>;

/// The syntax of a set whose first-line pattern matches `line`.
pub uninterp spec fn syntax_by_first_line(set: SyntaxSet, line: Seq<char>) -> Option<
    SyntaxReference,
>;

/// Every first-line pattern of `set` compiles.
pub open spec fn first_line_patterns_compile(set: SyntaxSet) -> bool {
    forall|i: int|
        0 <= i < first_line_patterns(set).len() ==> match #[trigger] first_line_patterns(set)[i] {
            Some(pattern) => regex_compiles(pattern),
            None => true,
        }
}

/// What a lookup found, without the reference.
pub open spec fn found(r: Option<&SyntaxReference>) -> Option<SyntaxReference> {
    match r {
        Some(x) => Some(*x),
        None => None,
    }
}

/// `SyntaxSet::syntaxes`, its length: the number of syntaxes in the set.
#[verifier::external_body]
fn syntax_count(set: &SyntaxSet) -> (n: usize)
    ensures
        n == first_line_patterns(*set).len(),
{
    set.syntaxes().len()
}

/// `SyntaxSet::syntaxes`, the field `first_line_match` of the syntax at
/// `i`: its first-line pattern, if it has one.
#[verifier::external_body]
fn first_line_pattern(set: &SyntaxSet, i: usize) -> (r: Option<String>)
    requires
        i < first_line_patterns(*set).len(),
    ensures
        match r {
            Some(p) => first_line_patterns(*set)[i as int] == Some(p@),
            None => first_line_patterns(*set)[i as int] is None,
        },
{
    set.syntaxes()[i].first_line_match.clone()
}

/// `syntect::parsing::Regex::try_compile`: whether the engine accepts the
/// pattern. It returns the engine's error, so no error means accepted.
#[verifier::external_body]
fn pattern_compiles(pattern: &str) -> (ok: bool)
    ensures
        ok == regex_compiles(pattern@),
{
    syntect::parsing::Regex::try_compile(pattern).is_none()
}

/// `SyntaxSet::find_syntax_by_token`: a search through the set's
/// extensions and then its names. It reads the set and the token only.
#[verifier::external_body]
fn find_by_token<'a>(set: &'a SyntaxSet, token: &str) -> (r: Option<&'a SyntaxReference>)
    ensures
        found(r) == syntax_by_token(*set, token@),
{
    set.find_syntax_by_token(token)
}

/// `SyntaxSet::find_syntax_by_first_line`: a search of `line` with each
/// first-line pattern of the set. It compiles the patterns and stops the
/// program on one that the engine refuses, hence the `requires`; a search
/// that fails inside the engine counts as no match.
#[verifier::external_body]
fn find_by_first_line<'a>(set: &'a SyntaxSet, line: &str) -> (r: Option<&'a SyntaxReference>)
    requires
        first_line_patterns_compile(*set),
    ensures
        found(r) == syntax_by_first_line(*set, line@),
{
    set.find_syntax_by_first_line(line)
}

/// A syntax set whose first-line patterns all compile.
pub struct SyntaxDb {
    set: SyntaxSet,
}

impl View for SyntaxDb {
    type V = SyntaxSet;

    closed spec fn view(&self) -> SyntaxSet {
        self.set
    }
}

impl SyntaxDb {
    #[verifier::type_invariant]
    spec fn well_formed(self) -> bool {
        first_line_patterns_compile(self.set)
    }

    /// Takes a syntax set into use. Gives `None` where one of its
    /// first-line patterns does not compile.
    pub fn new(set: SyntaxSet) -> (r: Option<SyntaxDb>)
        ensures
            r is Some <==> first_line_patterns_compile(set),
            r matches Some(db) ==> db@ == set,
    {
        let n: usize = syntax_count(&set);
        let mut i: usize = 0;
        while i < n
            invariant
                0 <= i <= n,
                n == first_line_patterns(set).len(),
                forall|j: int|
                    0 <= j < i ==> match #[trigger] first_line_patterns(set)[j] {
                        Some(pattern) => regex_compiles(pattern),
                        None => true,
                    },
            decreases n - i,
        {
            match first_line_pattern(&set, i) {
                Some(pattern) => {
                    if !pattern_compiles(pattern.as_str()) {
                        assert(first_line_patterns(set)[i as int] == Some(pattern@));
                        return None;
                    }
                },
                None => {},
            }
            i += 1;
        }
        Some(SyntaxDb { set })
    }

    /// The syntax set, for those who highlight with it.
    pub fn syntax_set(&self) -> (set: &SyntaxSet)
        ensures
            *set == self@,
    {
        &self.set
    }

    /// The syntax for a language token, by file extension or by name.
    pub fn find_by_token<'a>(&'a self, token: &str) -> (r: Option<&'a SyntaxReference>)
        ensures
            found(r) == syntax_by_token(self@, token@),
    {
        find_by_token(&self.set, token)
    }

    /// The syntax whose first-line pattern matches `line`.
    pub fn find_by_first_line<'a>(&'a self, line: &str) -> (r: Option<&'a SyntaxReference>)
        ensures
            found(r) == syntax_by_first_line(self@, line@),
    {
        proof {
            use_type_invariant(self);
        }
        find_by_first_line(&self.set, line)
    }
}

} // verus!
