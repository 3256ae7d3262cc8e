//! What the rendering engine is told: the settings of a configuration
//! in the terms of the image formatter and of the shadow around the
//! image. A flag that hides something in the request becomes a flag that
//! shows it, an absent list becomes an empty one, and the background is
//! the image where the configuration has one and its plain color where
//! it has none.

use vstd::prelude::*;
use crate::config::text_of;
use crate::config::Config;
use crate::fonts::font_views;
use crate::fonts::FontSize;
use crate::rgba::Rgba;

verus! {

/// What lies behind the code window.
#[derive(Clone, Debug, PartialEq, Eq)]
pub enum Background {
    /// One color.
    Solid(Rgba),
    /// An image, as its undecoded bytes.
    Image(Vec<u8>),
}

/// The settings of the shadow and of the padding area.
#[derive(Clone, Debug, PartialEq, Eq)]
pub struct ShadowOptions {
    pub background: Background,
    pub shadow_color: Rgba,
    /// Blur radius as the bits of a single-precision number.
    pub blur_radius: u32,
    pub pad_horiz: u32,
    pub pad_vert: u32,
    pub offset_x: i32,
    pub offset_y: i32,
}

/// The settings of the image formatter.
#[derive(Clone, Debug, PartialEq, Eq)]
pub struct FormatterOptions {
    pub line_pad: u32,
    pub window_controls: bool,
    pub window_title: Option<String>,
    pub line_number: bool,
    pub font: Vec<(String, FontSize)>,
    pub round_corner: bool,
    pub shadow: ShadowOptions,
    pub tab_width: u8,
    pub highlight_lines: Vec<u32>,
    pub line_offset: u32,
}

/// `shadow` is the shadow that `cfg` asks for.
pub open spec fn shadow_of(cfg: Config, shadow: ShadowOptions) -> bool {
    &&& match cfg.background_image {
        Some(bytes) => shadow.background matches Background::Image(b) && b@ == bytes@,
        None => shadow.background == Background::Solid(cfg.background),
    }
    &&& shadow.shadow_color == cfg.shadow_color
    &&& shadow.blur_radius == cfg.shadow_blur_radius
    &&& shadow.pad_horiz == cfg.pad_horiz
    &&& shadow.pad_vert == cfg.pad_vert
    &&& shadow.offset_x == cfg.shadow_offset_x
    &&& shadow.offset_y == cfg.shadow_offset_y
}

/// `options` are the formatter settings that `cfg` asks for.
pub open spec fn formatter_of(cfg: Config, options: FormatterOptions) -> bool {
    &&& options.line_pad == cfg.line_pad
    &&& options.window_controls == !cfg.no_window_controls
    &&& text_of(options.window_title) == text_of(cfg.window_title)
    &&& options.line_number == !cfg.no_line_number
    &&& font_views(options.font@) == (match cfg.font {
        Some(fonts) => font_views(fonts@),
        None => Seq::empty(),
    })
    &&& options.round_corner == !cfg.no_round_corner
    &&& shadow_of(cfg, options.shadow)
    &&& options.tab_width == cfg.tab_width
    &&& options.highlight_lines@ == (match cfg.highlight_lines {
        Some(lines) => lines@,
        None => Seq::empty(),
    })
    &&& options.line_offset == cfg.line_offset
}

/// A copy of a font list.
fn copy_fonts(fonts: &Vec<(String, FontSize)>) -> (r: Vec<(String, FontSize)>)
    ensures
        font_views(r@) == font_views(fonts@),
{
    let mut r: Vec<(String, FontSize)> = Vec::new();
    let mut i: usize = 0;
    while i < fonts.len()
        invariant
            0 <= i <= fonts.len(),
            r.len() == i,
            forall|j: int| 0 <= j < i ==> (#[trigger] r[j]).0@ == fonts[j].0@ && r[j].1@ == fonts[j].1@,
        decreases fonts.len() - i,
    {
        let size = FontSize { digits: fonts[i].1.digits.clone(), point: fonts[i].1.point };
        r.push((fonts[i].0.clone(), size));
        i += 1;
    }
    assert(font_views(r@) =~= font_views(fonts@));
    r
}

impl Config {
    /// The settings of the shadow and of the padding area.
    pub fn get_shadow_adder(&self) -> (r: ShadowOptions)
        ensures
            shadow_of(*self, r),
    {
        let background = match &self.background_image {
            Some(bytes) => Background::Image(bytes.clone()),
            None => Background::Solid(self.background),
        };
        ShadowOptions {
            background,
            shadow_color: self.shadow_color,
            blur_radius: self.shadow_blur_radius,
            pad_horiz: self.pad_horiz,
            pad_vert: self.pad_vert,
            offset_x: self.shadow_offset_x,
            offset_y: self.shadow_offset_y,
        }
    }

    /// The settings of the image formatter.
    pub fn get_formatter(&self) -> (r: FormatterOptions)
        ensures
            formatter_of(*self, r),
    {
        let font = match &self.font {
            Some(fonts) => copy_fonts(fonts),
            None => Vec::new(),
        };
        let highlight_lines = match &self.highlight_lines {
            Some(lines) => lines.clone(),
            None => Vec::new(),
        };
        let window_title = match &self.window_title {
            Some(title) => Some(title.clone()),
            None => None,
        };
        assert(font_views(Seq::<(String, FontSize)>::empty()) =~= Seq::empty());
        FormatterOptions {
            line_pad: self.line_pad,
            window_controls: !self.no_window_controls,
            window_title,
            line_number: !self.no_line_number,
            font,
            round_corner: !self.no_round_corner,
            shadow: self.get_shadow_adder(),
            tab_width: self.tab_width,
            highlight_lines,
            line_offset: self.line_offset,
        }
    }
}

} // verus!
