use inkify::config::color_parser_applies;
use inkify::config::parse_str_color;
use inkify::config::ColorField;
use inkify::config::Config;
use inkify::config::ConfigQuery;
use inkify::config::DEFAULT_LINE_OFFSET;
use inkify::config::DEFAULT_LINE_PAD;
use inkify::config::DEFAULT_PAD_HORIZ;
use inkify::config::DEFAULT_PAD_VERT;
use inkify::config::DEFAULT_TAB_WIDTH;
use inkify::error::ColorSyntaxError;
use inkify::error::ConfigError;
use inkify::fonts::FontSize;
use inkify::render::Background;
use inkify::rgba::Rgba;

fn query(code: &str) -> ConfigQuery {
    ConfigQuery {
        background_image: None,
        background: None,
        code: code.to_string(),
        font: None,
        highlight_lines: None,
        language: None,
        line_pad: None,
        line_offset: None,
        no_window_controls: None,
        window_title: None,
        no_line_number: None,
        no_round_corner: None,
        pad_horiz: None,
        pad_vert: None,
        shadow_color: None,
        shadow_blur_radius: None,
        shadow_offset_y: None,
        shadow_offset_x: None,
        tab_width: None,
        theme: None,
    }
}

fn good_color(text: &str, r: u8, g: u8, b: u8, a: u8) -> ColorField {
    ColorField { text: text.to_string(), parsed: Ok(Rgba { r, g, b, a }) }
}

fn bad_color(text: &str, why: ColorSyntaxError) -> ColorField {
    ColorField { text: text.to_string(), parsed: Err(why) }
}

fn full_query() -> ConfigQuery {
    ConfigQuery {
        background_image: Some("https://example.org/bg.png".to_string()),
        background: Some(good_color("#102030", 0x10, 0x20, 0x30, 0xff)),
        code: "fn main() {}".to_string(),
        font: Some("Hack=20;SimSun".to_string()),
        highlight_lines: Some("2-3;9".to_string()),
        language: Some("rs".to_string()),
        line_pad: Some(7),
        line_offset: Some(10),
        no_window_controls: Some(true),
        window_title: Some("main.rs".to_string()),
        no_line_number: Some(true),
        no_round_corner: Some(true),
        pad_horiz: Some(11),
        pad_vert: Some(12),
        shadow_color: Some(good_color("#0008", 0, 0, 0, 0x88)),
        shadow_blur_radius: Some(12.5f32.to_bits()),
        shadow_offset_y: Some(-4),
        shadow_offset_x: Some(3),
        tab_width: Some(8),
        theme: Some("Nord".to_string()),
    }
}

#[test]
fn defaults_are_as_documented() {
    let cfg = Config::default();
    assert_eq!(cfg.background_image, None);
    assert_eq!(cfg.background, Rgba { r: 0, g: 0, b: 0, a: 0 });
    assert_eq!(cfg.code, "");
    assert_eq!(cfg.font, None);
    assert_eq!(cfg.highlight_lines, None);
    assert_eq!(cfg.language, None);
    assert_eq!(cfg.line_pad, 2);
    assert_eq!(cfg.line_offset, 1);
    assert!(!cfg.no_window_controls);
    assert_eq!(cfg.window_title, None);
    assert!(!cfg.no_line_number);
    assert!(!cfg.no_round_corner);
    assert_eq!(cfg.pad_horiz, 80);
    assert_eq!(cfg.pad_vert, 100);
    assert_eq!(cfg.shadow_color, Rgba { r: 0, g: 0, b: 0, a: 0 });
    assert_eq!(f32::from_bits(cfg.shadow_blur_radius), 0.0);
    assert_eq!(cfg.shadow_offset_y, 0);
    assert_eq!(cfg.shadow_offset_x, 0);
    assert_eq!(cfg.tab_width, 4);
    assert_eq!(cfg.theme, "Dracula");
    assert_eq!(DEFAULT_LINE_PAD, 2);
    assert_eq!(DEFAULT_LINE_OFFSET, 1);
    assert_eq!(DEFAULT_PAD_HORIZ, 80);
    assert_eq!(DEFAULT_PAD_VERT, 100);
    assert_eq!(DEFAULT_TAB_WIDTH, 4);
}

#[test]
fn query_with_code_only_resolves_to_defaults() {
    let cfg = Config::resolve(&query("print(1)"), None).unwrap();
    let mut expected = Config::default();
    expected.code = "print(1)".to_string();
    assert_eq!(cfg, expected);
}

#[test]
fn every_present_field_replaces_its_default() {
    let cfg = Config::resolve(&full_query(), Some(vec![1, 2, 3])).unwrap();
    assert_eq!(
        cfg,
        Config {
            background_image: Some(vec![1, 2, 3]),
            background: Rgba { r: 0x10, g: 0x20, b: 0x30, a: 0xff },
            code: "fn main() {}".to_string(),
            font: Some(vec![
                ("Hack".to_string(), FontSize { digits: "20".to_string(), point: 2 }),
                ("SimSun".to_string(), FontSize { digits: "26".to_string(), point: 2 }),
            ]),
            highlight_lines: Some(vec![2, 3, 9]),
            language: Some("rs".to_string()),
            line_pad: 7,
            line_offset: 10,
            no_window_controls: true,
            window_title: Some("main.rs".to_string()),
            no_line_number: true,
            no_round_corner: true,
            pad_horiz: 11,
            pad_vert: 12,
            shadow_color: Rgba { r: 0, g: 0, b: 0, a: 0x88 },
            shadow_blur_radius: 12.5f32.to_bits(),
            shadow_offset_y: -4,
            shadow_offset_x: 3,
            tab_width: 8,
            theme: "Nord".to_string(),
        }
    );
}

#[test]
fn empty_code_is_missing_code_whatever_else_is_sent() {
    assert_eq!(Config::resolve(&query(""), None), Err(ConfigError::MissingCode));
    let mut q = full_query();
    q.code = String::new();
    assert_eq!(Config::resolve(&q, Some(vec![9])), Err(ConfigError::MissingCode));
    q.font = Some("Hack=x".to_string());
    q.highlight_lines = Some("x".to_string());
    q.shadow_color = Some(bad_color("red", ColorSyntaxError::InvalidDigit));
    q.background = Some(bad_color("#12", ColorSyntaxError::InvalidLength));
    assert_eq!(Config::resolve(&q, None), Err(ConfigError::MissingCode));
}

#[test]
fn failed_fetch_leaves_the_plain_background() {
    let mut q = query("x");
    q.background_image = Some("https://example.org/missing.png".to_string());
    q.background = Some(good_color("#fff", 255, 255, 255, 255));
    let cfg = Config::resolve(&q, None).unwrap();
    assert_eq!(cfg.background_image, None);
    assert_eq!(cfg.background, Rgba { r: 255, g: 255, b: 255, a: 255 });
    assert_eq!(
        cfg.get_shadow_adder().background,
        Background::Solid(Rgba { r: 255, g: 255, b: 255, a: 255 })
    );
}

#[test]
fn image_is_taken_only_where_the_query_asks_for_one() {
    let cfg = Config::resolve(&query("x"), Some(vec![1, 2, 3])).unwrap();
    assert_eq!(cfg.background_image, None);
    let mut q = query("x");
    q.background_image = Some("https://example.org/bg.png".to_string());
    let cfg = Config::resolve(&q, Some(vec![1, 2, 3])).unwrap();
    assert_eq!(cfg.background_image, Some(vec![1, 2, 3]));
    assert_eq!(cfg.get_shadow_adder().background, Background::Image(vec![1, 2, 3]));
}

#[test]
fn malformed_font_fails_the_request() {
    let mut q = full_query();
    q.font = Some("Hack=huge".to_string());
    assert_eq!(
        Config::resolve(&q, None),
        Err(ConfigError::InvalidFont("Hack=huge".to_string()))
    );
}

#[test]
fn malformed_line_set_fails_the_request() {
    let mut q = full_query();
    q.highlight_lines = Some("1-two".to_string());
    assert_eq!(
        Config::resolve(&q, None),
        Err(ConfigError::InvalidLineRange("1-two".to_string()))
    );
}

#[test]
fn malformed_colors_fail_the_request() {
    let mut q = full_query();
    q.shadow_color = Some(bad_color("#12345", ColorSyntaxError::InvalidLength));
    assert_eq!(
        Config::resolve(&q, None),
        Err(ConfigError::InvalidColor("#12345".to_string(), ColorSyntaxError::InvalidLength))
    );
    let mut q = full_query();
    q.background = Some(bad_color("blue", ColorSyntaxError::InvalidDigit));
    assert_eq!(
        Config::resolve(&q, None),
        Err(ConfigError::InvalidColor("blue".to_string(), ColorSyntaxError::InvalidDigit))
    );
}

#[test]
fn the_first_malformed_field_is_the_one_reported() {
    let mut q = full_query();
    q.font = Some("A=b".to_string());
    q.shadow_color = Some(bad_color("s", ColorSyntaxError::InvalidDigit));
    q.background = Some(bad_color("g", ColorSyntaxError::InvalidLength));
    q.highlight_lines = Some("z".to_string());
    assert_eq!(Config::resolve(&q, None), Err(ConfigError::InvalidFont("A=b".to_string())));
    q.font = None;
    assert_eq!(
        Config::resolve(&q, None),
        Err(ConfigError::InvalidColor("s".to_string(), ColorSyntaxError::InvalidDigit))
    );
    q.shadow_color = None;
    assert_eq!(
        Config::resolve(&q, None),
        Err(ConfigError::InvalidColor("g".to_string(), ColorSyntaxError::InvalidLength))
    );
    q.background = None;
    assert_eq!(Config::resolve(&q, None), Err(ConfigError::InvalidLineRange("z".to_string())));
    q.highlight_lines = None;
    assert!(Config::resolve(&q, None).is_ok());
}

#[test]
fn color_outcome_becomes_color_or_invalid_color() {
    let white = Rgba { r: 255, g: 255, b: 255, a: 255 };
    assert_eq!(parse_str_color("#fff", Ok(white)), Ok(white));
    assert_eq!(
        parse_str_color("#ggg", Err(ColorSyntaxError::InvalidDigit)),
        Err(ConfigError::InvalidColor("#ggg".to_string(), ColorSyntaxError::InvalidDigit))
    );
    assert_eq!(
        parse_str_color("", Err(ColorSyntaxError::InvalidLength)),
        Err(ConfigError::InvalidColor(String::new(), ColorSyntaxError::InvalidLength))
    );
}

#[test]
fn empty_color_text_is_no_color_whatever_the_parser_says() {
    let white = Rgba { r: 255, g: 255, b: 255, a: 255 };
    let expected = ConfigError::InvalidColor(String::new(), ColorSyntaxError::InvalidLength);
    assert_eq!(parse_str_color("", Ok(white)), Err(expected.clone()));
    assert_eq!(parse_str_color("", Err(ColorSyntaxError::InvalidDigit)), Err(expected.clone()));
    assert!(!color_parser_applies(""));
    assert!(color_parser_applies("#fff"));
    assert!(color_parser_applies(" "));
    let mut q = query("x");
    q.background = Some(good_color("", 255, 255, 255, 255));
    assert_eq!(Config::resolve(&q, None), Err(expected.clone()));
    let mut q = query("x");
    q.shadow_color = Some(bad_color("", ColorSyntaxError::InvalidDigit));
    assert_eq!(Config::resolve(&q, None), Err(expected));
}

#[test]
fn color_field_clone_keeps_text_and_outcome() {
    let field = bad_color("#1", ColorSyntaxError::InvalidLength);
    assert_eq!(field.clone(), field);
    let field = good_color("#010203", 1, 2, 3, 255);
    assert_eq!(field.clone(), field);
}

#[test]
fn formatter_settings_turn_hiding_flags_into_showing_flags() {
    let cfg = Config::resolve(&full_query(), Some(vec![5])).unwrap();
    let f = cfg.get_formatter();
    assert_eq!(f.line_pad, 7);
    assert!(!f.window_controls);
    assert_eq!(f.window_title, Some("main.rs".to_string()));
    assert!(!f.line_number);
    assert_eq!(
        f.font,
        vec![
            ("Hack".to_string(), FontSize { digits: "20".to_string(), point: 2 }),
            ("SimSun".to_string(), FontSize { digits: "26".to_string(), point: 2 }),
        ]
    );
    assert!(!f.round_corner);
    assert_eq!(f.tab_width, 8);
    assert_eq!(f.highlight_lines, vec![2, 3, 9]);
    assert_eq!(f.line_offset, 10);
    assert_eq!(f.shadow, cfg.get_shadow_adder());
    assert_eq!(f.shadow.background, Background::Image(vec![5]));
    assert_eq!(f.shadow.shadow_color, Rgba { r: 0, g: 0, b: 0, a: 0x88 });
    assert_eq!(f32::from_bits(f.shadow.blur_radius), 12.5);
    assert_eq!(f.shadow.pad_horiz, 11);
    assert_eq!(f.shadow.pad_vert, 12);
    assert_eq!(f.shadow.offset_x, 3);
    assert_eq!(f.shadow.offset_y, -4);
}

#[test]
fn formatter_settings_of_the_defaults() {
    let cfg = Config::resolve(&query("x"), None).unwrap();
    let f = cfg.get_formatter();
    assert_eq!(f.line_pad, 2);
    assert!(f.window_controls);
    assert_eq!(f.window_title, None);
    assert!(f.line_number);
    assert!(f.font.is_empty());
    assert!(f.round_corner);
    assert_eq!(f.tab_width, 4);
    assert!(f.highlight_lines.is_empty());
    assert_eq!(f.line_offset, 1);
    assert_eq!(f.shadow.background, Background::Solid(Rgba { r: 0, g: 0, b: 0, a: 0 }));
    assert_eq!(f.shadow.blur_radius, 0);
    assert_eq!(f.shadow.pad_horiz, 80);
    assert_eq!(f.shadow.pad_vert, 100);
    assert_eq!(f.shadow.offset_x, 0);
    assert_eq!(f.shadow.offset_y, 0);
}
