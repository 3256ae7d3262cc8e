//! Theme resolution: a theme's name is looked up in the theme set first,
//! and only a name that the set does not hold is taken for the path of a
//! theme file. Reading the file is the caller's part; what came of it,
//! the theme or the loader's complaint in words, is handed back here.

use vstd::prelude::*;
use syntect::highlighting::Theme;
use syntect::highlighting::ThemeSet;
use crate::config::Config;
use crate::error::ConfigError;
use crate::error::ErrorView;

verus! {

/// `syntect`'s set of themes by name, opaque to the verifier.
#[verifier::external_type_specification]
#[verifier::external_body]
pub struct ExThemeSet(ThemeSet);

/// `syntect`'s theme, opaque to the verifier.
#[verifier::external_type_specification]
#[verifier::external_body]
pub struct ExTheme(Theme);

/// The themes that a set holds, by name.
pub uninterp spec fn themes_of(set: ThemeSet) -> Map<Seq<char>, Theme>;

/// The map `ThemeSet::themes`, its `get` with the name as key, and a
/// clone of the theme found: the theme that the set holds under exactly
/// that name, if it holds one.
#[verifier::external_body]
fn theme_named(set: &ThemeSet, name: &str) -> (r: Option<Theme>)
    ensures
        r == (if themes_of(*set).contains_key(name@) {
            Some(themes_of(*set)[name@])
        } else {
            None
        }),
{
    set.themes.get(name).cloned()
}

/// Where a theme comes from.
#[derive(Debug)]
pub enum ThemeSource {
    /// The theme set holds it under the name asked for.
    Named(Theme),
    /// The set does not hold the name: the theme is to be read from the
    /// file at this path.
    File(String),
}

/// Decides where the theme `name` comes from: from `set` where it holds
/// the name, and from the file of that path only where it does not.
pub fn theme_source(set: &ThemeSet, name: &str) -> (r: ThemeSource)
    ensures
        match r {
            ThemeSource::Named(theme) => themes_of(*set).contains_key(name@) && theme == themes_of(
                *set,
            )[name@],
            ThemeSource::File(path) => !themes_of(*set).contains_key(name@) && path@ == name@,
        },
{
    match theme_named(set, name) {
        Some(theme) => ThemeSource::Named(theme),
        None => ThemeSource::File(name.to_owned()),
    }
}

impl Config {
    /// Where this configuration's theme comes from: the theme set where
    /// it holds the name, the file of that path only where it does not.
    pub fn theme(&self, set: &ThemeSet) -> (r: ThemeSource)
        ensures
            match r {
                ThemeSource::Named(theme) => themes_of(*set).contains_key(self.theme@) && theme
                    == themes_of(*set)[self.theme@],
                ThemeSource::File(path) => !themes_of(*set).contains_key(self.theme@) && path@
                    == self.theme@,
            },
    {
        theme_source(set, self.theme.as_str())
    }
}

/// The failure of a theme that could not be loaded, with the loader's
/// complaint as its text.
pub fn invalid_theme(reason: String) -> (e: ConfigError)
    ensures
        e@ == ErrorView::InvalidTheme(reason@),
{
    ConfigError::InvalidTheme(reason)
}

/// The theme read from a file, or `InvalidTheme` with the loader's
/// complaint, word for word, where reading it failed.
pub fn theme_from_file(loaded: Result<Theme, String>) -> (r: Result<Theme, ConfigError>)
    ensures
        match loaded {
            Ok(theme) => r == Ok::<Theme, ConfigError>(theme),
            Err(reason) => r matches Err(e) && e@ == ErrorView::InvalidTheme(reason@),
        },
{
    match loaded {
        Ok(theme) => Ok(theme),
        Err(reason) => Err(invalid_theme(reason)),
    }
}

} // verus!
