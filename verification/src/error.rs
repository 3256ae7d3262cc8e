//! The failures that resolving a request can end in, and the message each
//! one carries to the caller.

use vstd::prelude::*;

verus! {

/// Why a color text was turned down by the color parser.
#[derive(Clone, Copy, Debug, PartialEq, Eq, Structural)]
pub enum ColorSyntaxError {
    /// The text has a length that no color form has.
    InvalidLength,
    /// The text does not start with `#`, or holds something that is no
    /// hexadecimal digit.
    InvalidDigit,
}

/// A failure of request resolution, language detection or rendering.
#[derive(Clone, Debug, PartialEq, Eq)]
pub enum ConfigError {
    /// The request carries no source text.
    MissingCode,
    /// The language named in the request is unknown to the syntax set.
    InvalidLanguage(String),
    /// The theme is neither a known name nor a loadable file; holds the
    /// loader's complaint.
    InvalidTheme(String),
    /// A color field that the color parser turned down, with its reason.
    InvalidColor(String, ColorSyntaxError),
    /// A font list with a size that is no positive decimal number.
    InvalidFont(String),
    /// A line set with a token that is no number.
    InvalidLineRange(String),
    /// No classifier model is loaded.
    ClassifierUnavailable,
    /// The classifier model is loaded but its run failed.
    ClassifierInferenceFailure,
    /// Highlighting or formatting the image failed.
    RenderFailure(String),
    /// The image could not be encoded.
    EncodeFailure(String),
}

/// `ConfigError` with its texts as sequences of characters.
pub enum ErrorView {
    MissingCode,
    InvalidLanguage(Seq<char>),
    InvalidTheme(Seq<char>),
    InvalidColor(Seq<char>, ColorSyntaxError),
    InvalidFont(Seq<char>),
    InvalidLineRange(Seq<char>),
    ClassifierUnavailable,
    ClassifierInferenceFailure,
    RenderFailure(Seq<char>),
    EncodeFailure(Seq<char>),
}

impl View for ConfigError {
    type V = ErrorView;

    open spec fn view(&self) -> ErrorView {
        match self {
            ConfigError::MissingCode => ErrorView::MissingCode,
            ConfigError::InvalidLanguage(t) => ErrorView::InvalidLanguage(t@),
            ConfigError::InvalidTheme(t) => ErrorView::InvalidTheme(t@),
            ConfigError::InvalidColor(t, why) => ErrorView::InvalidColor(t@, *why),
            ConfigError::InvalidFont(t) => ErrorView::InvalidFont(t@),
            ConfigError::InvalidLineRange(t) => ErrorView::InvalidLineRange(t@),
            ConfigError::ClassifierUnavailable => ErrorView::ClassifierUnavailable,
            ConfigError::ClassifierInferenceFailure => ErrorView::ClassifierInferenceFailure,
            ConfigError::RenderFailure(t) => ErrorView::RenderFailure(t@),
            ConfigError::EncodeFailure(t) => ErrorView::EncodeFailure(t@),
        }
    }
}

/// What the color parser says of a text it turned down.
pub open spec fn color_cause_text(why: ColorSyntaxError) -> Seq<char> {
    match why {
        ColorSyntaxError::InvalidLength => "Invalid length"@,
        ColorSyntaxError::InvalidDigit => "Invalid digit"@,
    }
}

/// The message of an error: its kind in words, then what it is about.
pub open spec fn message_of(e: ErrorView) -> Seq<char> {
    match e {
        ErrorView::MissingCode => "code parameter is required"@,
        ErrorView::InvalidLanguage(t) => "Invalid language: "@ + t,
        ErrorView::InvalidTheme(t) => "Invalid theme: "@ + t,
        ErrorView::InvalidColor(t, why) => "Invalid color: `"@ + t + "`: "@ + color_cause_text(why),
        ErrorView::InvalidFont(t) => "Invalid font: "@ + t,
        ErrorView::InvalidLineRange(t) => "Invalid line range: "@ + t,
        ErrorView::ClassifierUnavailable => "TensorFlow model not loaded"@,
        ErrorView::ClassifierInferenceFailure => "Failed to detect language."@,
        ErrorView::RenderFailure(t) => "Failed to render: "@ + t,
        ErrorView::EncodeFailure(t) => "Failed to write image: "@ + t,
    }
}

/// The error lies with the service, not with what the caller sent.
pub open spec fn is_server_side(e: ErrorView) -> bool {
    e is RenderFailure || e is EncodeFailure
}

/// `head` followed by `tail`.
fn joined(head: &str, tail: &str) -> (r: String)
    ensures
        r@ == head@ + tail@,
{
    let mut r = String::from_str(head);
    r.append(tail);
    r
}

impl ColorSyntaxError {
    /// The reason in words.
    pub fn message(&self) -> (r: String)
        ensures
            r@ == color_cause_text(*self),
    {
        match self {
            ColorSyntaxError::InvalidLength => String::from_str("Invalid length"),
            ColorSyntaxError::InvalidDigit => String::from_str("Invalid digit"),
        }
    }
}

impl ConfigError {
    /// The message handed to the caller.
    pub fn message(&self) -> (r: String)
        ensures
            r@ == message_of(self@),
    {
        match self {
            ConfigError::MissingCode => String::from_str("code parameter is required"),
            ConfigError::InvalidLanguage(t) => joined("Invalid language: ", t.as_str()),
            ConfigError::InvalidTheme(t) => joined("Invalid theme: ", t.as_str()),
            ConfigError::InvalidColor(t, why) => {
                let mut r = joined("Invalid color: `", t.as_str());
                r.append("`: ");
                let cause = why.message();
                r.append(cause.as_str());
                r
            },
            ConfigError::InvalidFont(t) => joined("Invalid font: ", t.as_str()),
            ConfigError::InvalidLineRange(t) => joined("Invalid line range: ", t.as_str()),
            ConfigError::ClassifierUnavailable => String::from_str("TensorFlow model not loaded"),
            ConfigError::ClassifierInferenceFailure => String::from_str(
                "Failed to detect language.",
            ),
            ConfigError::RenderFailure(t) => joined("Failed to render: ", t.as_str()),
            ConfigError::EncodeFailure(t) => joined("Failed to write image: ", t.as_str()),
        }
    }

    /// Whether the error is the service's own (rendering, encoding) rather
    /// than a fault in the request.
    pub fn is_server_error(&self) -> (r: bool)
        ensures
            r == is_server_side(self@),
    {
        match self {
            ConfigError::RenderFailure(_) => true,
            ConfigError::EncodeFailure(_) => true,
            _ => false,
        }
    }
}

} // verus!
