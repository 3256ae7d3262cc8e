//! The request as the caller sent it, the configuration it resolves to,
//! and the step from one to the other.
//!
//! A configuration starts from the defaults. Each field that the query
//! carries replaces its default, after parsing where the field is a
//! composite text; a field that the query leaves out keeps its default.
//! One malformed field fails the whole request.
//!
//! Two kinds of value arrive here already worked on, because the work is
//! not this module's: a color text comes with what the color parser made
//! of it (an empty text is no color, and no parser is asked), and the
//! background image comes as the bytes that were fetched
//! from its address, if any were. A blur radius is carried through as
//! the bit pattern of a single-precision number.

use vstd::prelude::*;
use crate::error::ColorSyntaxError;
use crate::error::ConfigError;
use crate::error::ErrorView;
use crate::fonts::font_list;
use crate::fonts::font_views;
use crate::fonts::parse_font_str;
use crate::fonts::FontSize;
use crate::lines::line_set;
use crate::lines::parse_line_range;
use crate::rgba::Rgba;

verus! {

/// Padding between lines where the query names none.
pub const DEFAULT_LINE_PAD: u32 = 2;

/// Number of the first line where the query names none.
pub const DEFAULT_LINE_OFFSET: u32 = 1;

/// Horizontal padding where the query names none.
pub const DEFAULT_PAD_HORIZ: u32 = 80;

/// Vertical padding where the query names none.
pub const DEFAULT_PAD_VERT: u32 = 100;

/// Tab width where the query names none.
pub const DEFAULT_TAB_WIDTH: u8 = 4;

/// The color of the background and of the shadow where the query names
/// none: black, fully transparent.
pub open spec fn default_color() -> Rgba {
    Rgba { r: 0, g: 0, b: 0, a: 0 }
}

/// The theme where the query names none.
pub open spec fn default_theme() -> Seq<char> {
    "Dracula"@
}

/// The text of a color field together with the outcome of parsing it.
#[derive(Debug, PartialEq, Eq)]
pub struct ColorField {
    /// The field as the caller wrote it.
    pub text: String,
    /// What the color parser made of `text`.
    pub parsed: Result<Rgba, ColorSyntaxError>,
}

impl Clone for ColorField {
    fn clone(&self) -> (r: ColorField)
        ensures
            r.text@ == self.text@,
            r.parsed == self.parsed,
    {
        ColorField { text: self.text.clone(), parsed: self.parsed }
    }
}

/// The fields of a request. All but `code` may be left out.
#[derive(Clone, Debug, PartialEq, Eq)]
pub struct ConfigQuery {
    /// Address of an image for the padding area.
    pub background_image: Option<String>,
    /// Background color of the image.
    pub background: Option<ColorField>,
    /// The code to highlight.
    pub code: String,
    /// The font list, `Name[=Size];...`.
    pub font: Option<String>,
    /// The lines to highlight, `N;A-B;...`.
    pub highlight_lines: Option<String>,
    /// The language, by full name or by file extension.
    pub language: Option<String>,
    /// Padding between lines.
    pub line_pad: Option<u32>,
    /// Number of the first line.
    pub line_offset: Option<u32>,
    /// Hide the window controls.
    pub no_window_controls: Option<bool>,
    /// Title of the window.
    pub window_title: Option<String>,
    /// Hide the line numbers.
    pub no_line_number: Option<bool>,
    /// Do not round the corners.
    pub no_round_corner: Option<bool>,
    /// Horizontal padding.
    pub pad_horiz: Option<u32>,
    /// Vertical padding.
    pub pad_vert: Option<u32>,
    /// Color of the shadow.
    pub shadow_color: Option<ColorField>,
    /// Blur radius of the shadow, as the bits of a single-precision number.
    pub shadow_blur_radius: Option<u32>,
    /// The shadow's offset on the Y axis.
    pub shadow_offset_y: Option<i32>,
    /// The shadow's offset on the X axis.
    pub shadow_offset_x: Option<i32>,
    /// Tab width.
    pub tab_width: Option<u8>,
    /// The theme, by name or by the path of a theme file.
    pub theme: Option<String>,
}

/// A request with every field settled.
#[derive(Clone, Debug, PartialEq, Eq)]
pub struct Config {
    /// The bytes of the background image.
    pub background_image: Option<Vec<u8>>,
    /// Background color of the image.
    pub background: Rgba,
    /// The code to highlight.
    pub code: String,
    /// The fonts, in the order in which they are tried for a glyph.
    pub font: Option<Vec<(String, FontSize)>>,
    /// The lines to highlight.
    pub highlight_lines: Option<Vec<u32>>,
    /// The language, by full name or by file extension.
    pub language: Option<String>,
    /// Padding between lines.
    pub line_pad: u32,
    /// Number of the first line.
    pub line_offset: u32,
    /// Hide the window controls.
    pub no_window_controls: bool,
    /// Title of the window.
    pub window_title: Option<String>,
    /// Hide the line numbers.
    pub no_line_number: bool,
    /// Do not round the corners.
    pub no_round_corner: bool,
    /// Horizontal padding.
    pub pad_horiz: u32,
    /// Vertical padding.
    pub pad_vert: u32,
    /// Color of the shadow.
    pub shadow_color: Rgba,
    /// Blur radius of the shadow, as the bits of a single-precision
    /// number; zero hides the shadow.
    pub shadow_blur_radius: u32,
    /// The shadow's offset on the Y axis.
    pub shadow_offset_y: i32,
    /// The shadow's offset on the X axis.
    pub shadow_offset_x: i32,
    /// Tab width.
    pub tab_width: u8,
    /// The theme, by name or by the path of a theme file.
    pub theme: String,
}

/// The characters of a text that may be absent.
pub open spec fn text_of(t: Option<String>) -> Option<Seq<char>> {
    match t {
        Some(s) => Some(s@),
        None => None,
    }
}

/// `value` where the query carries one, `default` where it does not.
pub open spec fn or_default<T>(value: Option<T>, default: T) -> T {
    match value {
        Some(v) => v,
        None => default,
    }
}

/// What a color text comes to, given what the color parser made of it.
/// An empty text is no color, whatever the parser is said to have made
/// of it: the parser is not to be asked about one.
pub open spec fn color_outcome(text: Seq<char>, parsed: Result<Rgba, ColorSyntaxError>) -> Result<
    Rgba,
    ColorSyntaxError,
> {
    if text.len() == 0 {
        Err(ColorSyntaxError::InvalidLength)
    } else {
        parsed
    }
}

/// What a color field comes to; `None` for a field left out.
pub open spec fn field_outcome(field: Option<ColorField>) -> Option<
    Result<Rgba, ColorSyntaxError>,
> {
    match field {
        Some(f) => Some(color_outcome(f.text@, f.parsed)),
        None => None,
    }
}

/// The error of a color field that is no color.
pub open spec fn field_fault(field: Option<ColorField>) -> Option<ErrorView> {
    match field_outcome(field) {
        Some(Err(why)) => Some(ErrorView::InvalidColor(field->0.text@, why)),
        _ => None,
    }
}

/// The color of a color field that is a color, `default_color` for a
/// field left out.
pub open spec fn color_or_default(field: Option<ColorField>) -> Rgba {
    match field_outcome(field) {
        Some(Ok(color)) => color,
        _ => default_color(),
    }
}

/// `cfg` holds the defaults: no code, no language, no fonts, no
/// highlighted lines, no title, no image, transparent black for both
/// colors, nothing hidden, no shadow, and the theme `Dracula`.
pub open spec fn is_default(cfg: Config) -> bool {
    &&& cfg.background_image is None
    &&& cfg.background == default_color()
    &&& cfg.code@ == Seq::<char>::empty()
    &&& cfg.font is None
    &&& cfg.highlight_lines is None
    &&& cfg.language is None
    &&& cfg.line_pad == DEFAULT_LINE_PAD
    &&& cfg.line_offset == DEFAULT_LINE_OFFSET
    &&& !cfg.no_window_controls
    &&& cfg.window_title is None
    &&& !cfg.no_line_number
    &&& !cfg.no_round_corner
    &&& cfg.pad_horiz == DEFAULT_PAD_HORIZ
    &&& cfg.pad_vert == DEFAULT_PAD_VERT
    &&& cfg.shadow_color == default_color()
    &&& cfg.shadow_blur_radius == 0
    &&& cfg.shadow_offset_y == 0
    &&& cfg.shadow_offset_x == 0
    &&& cfg.tab_width == DEFAULT_TAB_WIDTH
    &&& cfg.theme@ == default_theme()
}

/// The error that resolving `query` ends in, if it ends in one. The
/// fields are looked at in this order, and the first fault found is the
/// one reported: the code, the font list, the shadow color, the
/// background color, the highlighted lines.
pub open spec fn resolve_error(query: ConfigQuery) -> Option<ErrorView> {
    if query.code@.len() == 0 {
        Some(ErrorView::MissingCode)
    } else if query.font is Some && font_list(query.font->0@) is None {
        Some(ErrorView::InvalidFont(query.font->0@))
    } else if field_fault(query.shadow_color) is Some {
        field_fault(query.shadow_color)
    } else if field_fault(query.background) is Some {
        field_fault(query.background)
    } else if query.highlight_lines is Some && line_set(query.highlight_lines->0@) is None {
        Some(ErrorView::InvalidLineRange(query.highlight_lines->0@))
    } else {
        None
    }
}

/// A query without code ends in `MissingCode`, whatever its other
/// fields hold: well formed, malformed or absent.
pub proof fn law_missing_code_comes_first(query: ConfigQuery)
    requires
        query.code@.len() == 0,
    ensures
        resolve_error(query) == Some(ErrorView::MissingCode),
{
}

/// A query with code and without a malformed field resolves.
pub proof fn law_well_formed_query_resolves(query: ConfigQuery)
    requires
        query.code@.len() > 0,
        query.font matches Some(text) ==> font_list(text@) is Some,
        query.shadow_color matches Some(color) ==> color.text@.len() > 0 && color.parsed is Ok,
        query.background matches Some(color) ==> color.text@.len() > 0 && color.parsed is Ok,
        query.highlight_lines matches Some(text) ==> line_set(text@) is Some,
    ensures
        resolve_error(query) is None,
{
}

/// `cfg` is what `query` resolves to, with `fetched` the bytes fetched
/// from the address of the background image, if the fetch gave any:
/// every field of the query that is present stands in `cfg`, parsed
/// where it is a font list, a line set or a color, and every field that
/// is absent has its default. The image is taken only where the query
/// asked for one.
pub open spec fn resolved_from(cfg: Config, query: ConfigQuery, fetched: Option<Vec<u8>>) -> bool {
    &&& cfg.background_image == (if query.background_image is Some {
        fetched
    } else {
        None
    })
    &&& cfg.background == color_or_default(query.background)
    &&& cfg.code@ == query.code@
    &&& match query.font {
        Some(text) => cfg.font matches Some(fonts) && Some(font_views(fonts@)) == font_list(text@),
        None => cfg.font is None,
    }
    &&& match query.highlight_lines {
        Some(text) => cfg.highlight_lines matches Some(lines) && Some(lines@) == line_set(text@),
        None => cfg.highlight_lines is None,
    }
    &&& text_of(cfg.language) == text_of(query.language)
    &&& cfg.line_pad == or_default(query.line_pad, DEFAULT_LINE_PAD)
    &&& cfg.line_offset == or_default(query.line_offset, DEFAULT_LINE_OFFSET)
    &&& cfg.no_window_controls == or_default(query.no_window_controls, false)
    &&& text_of(cfg.window_title) == text_of(query.window_title)
    &&& cfg.no_line_number == or_default(query.no_line_number, false)
    &&& cfg.no_round_corner == or_default(query.no_round_corner, false)
    &&& cfg.pad_horiz == or_default(query.pad_horiz, DEFAULT_PAD_HORIZ)
    &&& cfg.pad_vert == or_default(query.pad_vert, DEFAULT_PAD_VERT)
    &&& cfg.shadow_color == color_or_default(query.shadow_color)
    &&& cfg.shadow_blur_radius == or_default(query.shadow_blur_radius, 0)
    &&& cfg.shadow_offset_y == or_default(query.shadow_offset_y, 0)
    &&& cfg.shadow_offset_x == or_default(query.shadow_offset_x, 0)
    &&& cfg.tab_width == or_default(query.tab_width, DEFAULT_TAB_WIDTH)
    &&& cfg.theme@ == (match query.theme {
        Some(name) => name@,
        None => default_theme(),
    })
}

/// Checks that a request carries code: `MissingCode` for an empty text.
pub fn require_code(code: &str) -> (r: Result<(), ConfigError>)
    ensures
        code@.len() == 0 ==> (r matches Err(e) && e@ == ErrorView::MissingCode),
        code@.len() > 0 ==> r is Ok,
{
    if code.is_empty() {
        Err(ConfigError::MissingCode)
    } else {
        Ok(())
    }
}

/// A copy of a text that may be absent.
fn copy_text(t: &Option<String>) -> (r: Option<String>)
    ensures
        text_of(r) == text_of(*t),
{
    match t {
        Some(s) => Some(s.clone()),
        None => None,
    }
}

/// Whether the color parser is to be asked about the text `s`: about
/// every text but the empty one.
pub fn color_parser_applies(s: &str) -> (r: bool)
    ensures
        r == (s@.len() > 0),
{
    !s.is_empty()
}

/// The outcome of the color parser on the text `s`, as a result of
/// resolution: the color where the parser gave one, and `InvalidColor`
/// with the text and the parser's reason where it gave none. For the
/// empty text the result is `InvalidColor` with `InvalidLength`, and
/// `parsed` is not read.
pub fn parse_str_color(s: &str, parsed: Result<Rgba, ColorSyntaxError>) -> (r: Result<
    Rgba,
    ConfigError,
>)
    ensures
        match color_outcome(s@, parsed) {
            Ok(color) => r == Ok::<Rgba, ConfigError>(color),
            Err(why) => r matches Err(e) && e@ == ErrorView::InvalidColor(s@, why),
        },
{
    if !color_parser_applies(s) {
        return Err(ConfigError::InvalidColor(s.to_owned(), ColorSyntaxError::InvalidLength));
    }
    match parsed {
        Ok(color) => Ok(color),
        Err(why) => Err(ConfigError::InvalidColor(s.to_owned(), why)),
    }
}

/// The color of a color field, or the default for a field left out.
fn color_of(field: &Option<ColorField>) -> (r: Result<Rgba, ConfigError>)
    ensures
        match field_fault(*field) {
            Some(fault) => r matches Err(e) && e@ == fault,
            None => r == Ok::<Rgba, ConfigError>(color_or_default(*field)),
        },
{
    match field {
        Some(f) => parse_str_color(f.text.as_str(), f.parsed),
        None => Ok(Rgba { r: 0, g: 0, b: 0, a: 0 }),
    }
}

/// The value of a field where the query carries one, its default where
/// it does not.
fn given_or<T: Copy>(value: Option<T>, default: T) -> (r: T)
    ensures
        r == or_default(value, default),
{
    match value {
        Some(v) => v,
        None => default,
    }
}

/// The fonts of a font field, or none for a field left out.
fn fonts_of(field: &Option<String>) -> (r: Result<Option<Vec<(String, FontSize)>>, ConfigError>)
    ensures
        match *field {
            Some(text) => match font_list(text@) {
                Some(fonts) => r matches Ok(Some(v)) && font_views(v@) == fonts,
                None => r matches Err(e) && e@ == ErrorView::InvalidFont(text@),
            },
            None => r matches Ok(None),
        },
{
    match field {
        Some(text) => match parse_font_str(text.as_str()) {
            Ok(fonts) => Ok(Some(fonts)),
            Err(e) => Err(e),
        },
        None => Ok(None),
    }
}

/// The lines of a highlighted-line field, or none for a field left out.
fn lines_of(field: &Option<String>) -> (r: Result<Option<Vec<u32>>, ConfigError>)
    ensures
        match *field {
            Some(text) => match line_set(text@) {
                Some(lines) => r matches Ok(Some(v)) && v@ == lines,
                None => r matches Err(e) && e@ == ErrorView::InvalidLineRange(text@),
            },
            None => r matches Ok(None),
        },
{
    match field {
        Some(text) => match parse_line_range(text.as_str()) {
            Ok(lines) => Ok(Some(lines)),
            Err(e) => Err(e),
        },
        None => Ok(None),
    }
}

impl Config {
    /// The configuration that a request without any optional field, and
    /// as yet without code, stands for.
    pub fn default() -> (cfg: Config)
        ensures
            is_default(cfg),
    {
        Config {
            background_image: None,
            background: Rgba { r: 0, g: 0, b: 0, a: 0 },
            code: String::new(),
            font: None,
            highlight_lines: None,
            language: None,
            line_pad: DEFAULT_LINE_PAD,
            line_offset: DEFAULT_LINE_OFFSET,
            no_window_controls: false,
            window_title: None,
            no_line_number: false,
            no_round_corner: false,
            pad_horiz: DEFAULT_PAD_HORIZ,
            pad_vert: DEFAULT_PAD_VERT,
            shadow_color: Rgba { r: 0, g: 0, b: 0, a: 0 },
            shadow_blur_radius: 0,
            shadow_offset_y: 0,
            shadow_offset_x: 0,
            tab_width: DEFAULT_TAB_WIDTH,
            theme: String::from_str("Dracula"),
        }
    }

    /// Resolves a query into a configuration.
    ///
    /// `fetched` holds the bytes fetched from the address of the
    /// background image; `None` where there was no address or the fetch
    /// failed, in which case the background stays the plain color.
    ///
    /// Fails with `MissingCode` where the code is empty, whatever the
    /// other fields hold, and with the error of the first malformed
    /// field otherwise.
    pub fn resolve(query: &ConfigQuery, fetched: Option<Vec<u8>>) -> (r: Result<
        Config,
        ConfigError,
    >)
        ensures
            match resolve_error(*query) {
                Some(error) => r matches Err(e) && e@ == error,
                None => r matches Ok(cfg) && resolved_from(cfg, *query, fetched),
            },
            query.code@.len() == 0 ==> (r matches Err(e) && e@ == ErrorView::MissingCode),
    {
        match require_code(query.code.as_str()) {
            Ok(()) => {},
            Err(e) => {
                return Err(e);
            },
        }
        let font = match fonts_of(&query.font) {
            Ok(font) => font,
            Err(e) => {
                return Err(e);
            },
        };
        let shadow_color = match color_of(&query.shadow_color) {
            Ok(color) => color,
            Err(e) => {
                return Err(e);
            },
        };
        let background = match color_of(&query.background) {
            Ok(color) => color,
            Err(e) => {
                return Err(e);
            },
        };
        let highlight_lines = match lines_of(&query.highlight_lines) {
            Ok(lines) => lines,
            Err(e) => {
                return Err(e);
            },
        };
        let background_image = if query.background_image.is_some() {
            fetched
        } else {
            None
        };
        let theme = match &query.theme {
            Some(name) => name.clone(),
            None => String::from_str("Dracula"),
        };
        Ok(
            Config {
                background_image,
                background,
                code: query.code.clone(),
                font,
                highlight_lines,
                language: copy_text(&query.language),
                line_pad: given_or(query.line_pad, DEFAULT_LINE_PAD),
                line_offset: given_or(query.line_offset, DEFAULT_LINE_OFFSET),
                no_window_controls: given_or(query.no_window_controls, false),
                window_title: copy_text(&query.window_title),
                no_line_number: given_or(query.no_line_number, false),
                no_round_corner: given_or(query.no_round_corner, false),
                pad_horiz: given_or(query.pad_horiz, DEFAULT_PAD_HORIZ),
                pad_vert: given_or(query.pad_vert, DEFAULT_PAD_VERT),
                shadow_color,
                shadow_blur_radius: given_or(query.shadow_blur_radius, 0),
                shadow_offset_y: given_or(query.shadow_offset_y, 0),
                shadow_offset_x: given_or(query.shadow_offset_x, 0),
                tab_width: given_or(query.tab_width, DEFAULT_TAB_WIDTH),
                theme,
            },
        )
    }
}

} // verus!
