//! Inkify's core: from the fields of a request to a settled
//! configuration, and from a piece of code to the syntax it is
//! highlighted with.
//!
//! - [`config`] resolves a query over the defaults, with the composite
//!   fields read by [`fonts`] and [`lines`] on top of [`text`].
//! - [`detect`] finds the language: the one named, else the one whose
//!   first-line pattern matches, else the classifier's best guess, else
//!   plain logs. [`syntax`] is the syntax set it asks, and [`classifier`]
//!   turns a run of the model into scores.
//! - [`scores`] ranks scores and rescales them to the range 0 to 100.
//! - [`theme`] decides whether a theme is a name of the theme set or the
//!   path of a file.
//! - [`render`] puts a configuration in the terms of the rendering
//!   engine, [`rgba`] holds colors, [`names`] sorts lists for showing,
//!   and [`error`] holds the failures with their messages.
//!
//! Every function here is verified against its contract. Fetching,
//! reading files, running the model and drawing the image are the
//! caller's part: their results come in as plain values.

pub mod classifier;
pub mod config;
pub mod detect;
pub mod error;
pub mod fonts;
pub mod lines;
pub mod names;
pub mod render;
pub mod rgba;
pub mod scores;
pub mod syntax;
pub mod text;
pub mod theme;
