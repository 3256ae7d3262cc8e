use inkify::error::ColorSyntaxError;
use inkify::error::ConfigError;
use inkify::rgba::Rgba;

#[test]
fn color_as_hex_text() {
    assert_eq!(Rgba { r: 0, g: 0, b: 0, a: 0 }.to_hex(), "#00000000");
    assert_eq!(Rgba { r: 255, g: 255, b: 255, a: 255 }.to_hex(), "#ffffffff");
    assert_eq!(Rgba { r: 0x12, g: 0xab, b: 0x0f, a: 0x90 }.to_hex(), "#12ab0f90");
    assert_eq!(Rgba { r: 1, g: 35, b: 69, a: 103 }.to_hex(), "#01234567");
    assert_eq!(Rgba { r: 137, g: 171, b: 205, a: 239 }.to_hex(), "#89abcdef");
}

#[test]
fn color_hex_text_is_what_two_digit_formatting_gives() {
    for v in 0..=255u8 {
        let c = Rgba { r: v, g: 255 - v, b: v / 2, a: v.wrapping_mul(7) };
        assert_eq!(c.to_hex(), format!("#{:02x}{:02x}{:02x}{:02x}", c.r, c.g, c.b, c.a));
    }
}

#[test]
fn color_to_and_from_channels() {
    let c = Rgba { r: 1, g: 2, b: 3, a: 4 };
    assert_eq!(c.to_rgba(), [1, 2, 3, 4]);
    assert_eq!(Rgba::from_channels([9, 8, 7, 6]), Rgba { r: 9, g: 8, b: 7, a: 6 });
    assert_eq!(Rgba::from_channels(c.to_rgba()), c);
}

#[test]
fn error_messages_name_kind_and_context() {
    assert_eq!(ConfigError::MissingCode.message(), "code parameter is required");
    assert_eq!(
        ConfigError::InvalidLanguage("klingon".to_string()).message(),
        "Invalid language: klingon"
    );
    assert_eq!(
        ConfigError::InvalidTheme("Invalid path".to_string()).message(),
        "Invalid theme: Invalid path"
    );
    assert_eq!(
        ConfigError::InvalidColor("#12".to_string(), ColorSyntaxError::InvalidLength).message(),
        "Invalid color: `#12`: Invalid length"
    );
    assert_eq!(
        ConfigError::InvalidColor("red".to_string(), ColorSyntaxError::InvalidDigit).message(),
        "Invalid color: `red`: Invalid digit"
    );
    assert_eq!(ConfigError::InvalidFont("A=b".to_string()).message(), "Invalid font: A=b");
    assert_eq!(
        ConfigError::InvalidLineRange("1-x".to_string()).message(),
        "Invalid line range: 1-x"
    );
    assert_eq!(ConfigError::ClassifierUnavailable.message(), "TensorFlow model not loaded");
    assert_eq!(ConfigError::ClassifierInferenceFailure.message(), "Failed to detect language.");
    assert_eq!(
        ConfigError::RenderFailure("no such font".to_string()).message(),
        "Failed to render: no such font"
    );
    assert_eq!(
        ConfigError::EncodeFailure("disk full".to_string()).message(),
        "Failed to write image: disk full"
    );
    assert_eq!(ColorSyntaxError::InvalidLength.message(), "Invalid length");
    assert_eq!(ColorSyntaxError::InvalidDigit.message(), "Invalid digit");
}

#[test]
fn only_rendering_and_encoding_are_server_errors() {
    assert!(ConfigError::RenderFailure(String::new()).is_server_error());
    assert!(ConfigError::EncodeFailure(String::new()).is_server_error());
    for e in [
        ConfigError::MissingCode,
        ConfigError::InvalidLanguage("x".to_string()),
        ConfigError::InvalidTheme("x".to_string()),
        ConfigError::InvalidColor("x".to_string(), ColorSyntaxError::InvalidDigit),
        ConfigError::InvalidFont("x".to_string()),
        ConfigError::InvalidLineRange("x".to_string()),
        ConfigError::ClassifierUnavailable,
        ConfigError::ClassifierInferenceFailure,
    ] {
        assert!(!e.is_server_error(), "{:?}", e);
    }
}
