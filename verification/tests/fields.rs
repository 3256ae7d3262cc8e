use inkify::error::ConfigError;
use inkify::fonts::parse_font_size_in;
use inkify::fonts::parse_font_str;
use inkify::fonts::FontSize;
use inkify::lines::parse_line_range;
use inkify::text::chars_of;
use inkify::text::find_in;
use inkify::text::parse_u32_in;
use inkify::text::read_digits;
use inkify::text::skip_plus;
use inkify::text::split_ranges;

fn size_as_float(size: &FontSize) -> f32 {
    format!("0.{}e{}", size.digits, size.point).parse().unwrap()
}

fn size(digits: &str, point: i32) -> FontSize {
    FontSize { digits: digits.to_string(), point }
}

fn parse_number(s: &str) -> Option<u32> {
    let v = chars_of(s);
    parse_u32_in(&v, 0, v.len())
}

fn parse_size(text: &str) -> Option<FontSize> {
    let v = chars_of(text);
    parse_font_size_in(&v, 0, v.len())
}

#[test]
fn font_list_with_default_and_given_size() {
    let fonts = parse_font_str("Hack;SimSun=31").unwrap();
    assert_eq!(fonts.len(), 2);
    assert_eq!(fonts[0].0, "Hack");
    assert_eq!(size_as_float(&fonts[0].1), 26.0);
    assert_eq!(fonts[1].0, "SimSun");
    assert_eq!(size_as_float(&fonts[1].1), 31.0);
    assert_eq!(
        fonts,
        vec![("Hack".to_string(), size("26", 2)), ("SimSun".to_string(), size("31", 2))]
    );
}

#[test]
fn font_default_size_is_26() {
    assert_eq!(FontSize::default_size(), size("26", 2));
    assert_eq!(size_as_float(&FontSize::default_size()), 26.0);
}

#[test]
fn font_size_with_fraction_is_exact() {
    let fonts = parse_font_str("Fira Code=12.5").unwrap();
    assert_eq!(fonts, vec![("Fira Code".to_string(), size("125", 2))]);
    assert_eq!(size_as_float(&fonts[0].1), 12.5);
}

#[test]
fn font_size_forms() {
    for (text, digits, point) in [
        ("+7", "7", 1),
        ("7.", "7", 1),
        (".5", "5", 0),
        ("0.5", "5", 0),
        ("007.250", "7250", 1),
        ("0.000125", "125", -3),
        ("000.0001", "1", -3),
        ("100", "100", 3),
        ("18446744073709551615", "18446744073709551615", 20),
    ] {
        assert_eq!(parse_size(text), Some(size(digits, point)), "{}", text);
    }
}

#[test]
fn font_size_with_exponent_is_exact() {
    for (text, digits, point) in [
        ("1e3", "1", 4),
        ("1E3", "1", 4),
        ("1e+3", "1", 4),
        ("1.5e1", "15", 2),
        ("1.5e0", "15", 1),
        ("15e-1", "15", 1),
        ("1.25e-2", "125", -1),
        ("2.50e0", "250", 1),
        ("+.5e1", "5", 1),
        ("5.e1", "5", 2),
        ("1e19", "1", 20),
        ("12e000", "12", 2),
        ("12e-000", "12", 2),
        ("0.001e5", "1", 3),
        ("0e5", "", 0),
    ] {
        let expected = if digits.is_empty() { None } else { Some(size(digits, point)) };
        assert_eq!(parse_size(text), expected, "{}", text);
    }
}

#[test]
fn font_size_may_have_any_number_of_digits() {
    assert_eq!(parse_size("1e20"), Some(size("1", 21)));
    assert_eq!(parse_size("2e19"), Some(size("2", 20)));
    assert_eq!(parse_size("18446744073709551616"), Some(size("18446744073709551616", 20)));
    assert_eq!(
        parse_size("26.00000000000000000000"),
        Some(size("2600000000000000000000", 2))
    );
    assert_eq!(size_as_float(&parse_size("26.00000000000000000000").unwrap()), 26.0);
    let long = format!("0.{}1e{}", "0".repeat(5000), 5002);
    assert_eq!(parse_size(&long), Some(size("1", 2)));
    let long = format!("1{}e-{}", "0".repeat(5000), 4999);
    assert_eq!(size_as_float(&parse_size(&long).unwrap()), 10.0);
    let long = format!("{}12.5", "0".repeat(3000));
    assert_eq!(parse_size(&long), Some(size("125", 2)));
}

#[test]
fn font_size_is_held_to_the_single_precision_range() {
    assert_eq!(
        parse_size("340282356779733661637539395458142568447"),
        Some(size("340282356779733661637539395458142568447", 39))
    );
    assert_eq!(parse_size("340282356779733661637539395458142568448"), None);
    assert_eq!(parse_size("340282356779733661637539395458142568447.9999"), Some(size(
        "3402823567797336616375393954581425684479999",
        39
    )));
    assert_eq!(parse_size("3.4028235e38"), Some(size("34028235", 39)));
    assert_eq!(parse_size("3.4028236e38"), None);
    assert_eq!(parse_size("1e39"), None);
    assert_eq!(parse_size("9.9e38"), None);
    assert_eq!(parse_size("1e38"), Some(size("1", 39)));
    let least = "700649232162408535461864791644958065640130970938257885878534141944895541342930300743319094181060791015625";
    assert_eq!(parse_size(&format!("0.{}e-45", least)), None);
    assert_eq!(parse_size(&format!("{}e-150", least)), None);
    assert_eq!(parse_size(&format!("0.{}0001e-45", least)), Some(size(&format!("{}0001", least), -45)));
    assert_eq!(parse_size(&format!("0.{}e-45", &least[..104])), None);
    assert_eq!(parse_size("7.1e-46"), Some(size("71", -45)));
    assert_eq!(parse_size("7e-46"), None);
    assert_eq!(parse_size("1e-45"), Some(size("1", -44)));
    assert_eq!(parse_size("1e-46"), None);
    assert_eq!(parse_size("1e-4294967295"), None);
    assert_eq!(parse_size("1e99999999999999999999999999999999999999"), None);
    assert_eq!(parse_size("1e-99999999999999999999999999999999999999"), None);
}

#[test]
fn font_sizes_are_those_that_parse_as_positive_finite_floats() {
    let least = "700649232162408535461864791644958065640130970938257885878534141944895541342930300743319094181060791015625";
    let mut texts: Vec<String> = [
        "26", "31", "12.5", "+7", "7.", ".5", "1e1", "2.5E-1", "007.250", "3.14159", "0", "0.0",
        "0e9", "-1", "1e38", "1e39", "3.4e38", "3.5e38", "3.4028234e38", "3.4028235e38",
        "3.40282356e38", "3.4028235677973366e38", "3.4028235677973367e38", "3.4028236e38",
        "340282346638528859811704183484516925440", "340282356779733661637539395458142568447",
        "340282356779733661637539395458142568448", "340282356779733661637539395458142568449",
        "1e-44", "1e-45", "1.4e-45", "7.1e-46", "7.01e-46", "7.006e-46", "7.007e-46", "7e-46",
        "1e-46", "1e-50", "1e20", "2e19", "18446744073709551616", "26.00000000000000000000",
        "1e-4294967295", "1e4294967295", "0.1e40", "10e37", "100e-47", "0.000001e-39",
        "1e", "e1", ".", "", "+", "1.2.3", "1e2e3", "1 ", " 1", "1e+", "1e-", "1e 2", "0x10",
    ]
    .iter()
    .map(|t| t.to_string())
    .collect();
    texts.push(format!("0.{}e-45", least));
    texts.push(format!("0.{}1e-45", least));
    texts.push(format!("0.{}e-45", &least[..104]));
    texts.push(format!("{}e-150", least));
    texts.push(format!("{}.5e-150", least));
    for text in texts {
        let expected = match text.parse::<f32>() {
            Ok(x) => x.is_finite() && x > 0.0,
            Err(_) => false,
        };
        let size = parse_size(&text);
        assert_eq!(size.is_some(), expected, "{:?}", text);
        if let Some(size) = size {
            assert_eq!(size_as_float(&size), text.parse::<f32>().unwrap(), "{:?}", text);
        }
    }
}

#[test]
fn font_names_are_kept_as_written() {
    let fonts = parse_font_str("Hack; SimSun=31").unwrap();
    assert_eq!(fonts[1].0, " SimSun");
    let fonts = parse_font_str("宋体=20;").unwrap();
    assert_eq!(fonts.len(), 2);
    assert_eq!(fonts[0].0, "宋体");
    assert_eq!(fonts[0].1, size("20", 2));
    assert_eq!(fonts[1].0, "");
    assert_eq!(fonts[1].1, size("26", 2));
}

#[test]
fn font_empty_field_is_one_unnamed_font() {
    assert_eq!(parse_font_str("").unwrap(), vec![("".to_string(), size("26", 2))]);
}

#[test]
fn font_text_after_second_equals_is_ignored() {
    assert_eq!(
        parse_font_str("Hack=12=oops").unwrap(),
        vec![("Hack".to_string(), size("12", 2))]
    );
}

#[test]
fn font_invalid_sizes_are_rejected() {
    for field in [
        "Hack=",
        "Hack=big",
        "Hack=-3",
        "Hack=0",
        "Hack=0.000",
        "Hack=.",
        "Hack=+",
        "Hack=1.2.3",
        "Hack=1e",
        "Hack=e3",
        "Hack=1e+",
        "Hack=1e-",
        "Hack=1e2e3",
        "Hack=1e2.5",
        "Hack=1e 2",
        "Hack=0e5",
        "Hack=1e39",
        "Hack=1e-46",
        "Hack=1e18446744073709551616",
        "Hack=1e-4294967296",
        "Hack=0x1A",
        "Hack=infinity",
        "Hack= 12",
        "Hack=12 ",
        "Hack=inf",
        "Hack=NaN",
        "Hack;SimSun=x",
        "Hack=x;SimSun=31",
    ] {
        assert_eq!(
            parse_font_str(field),
            Err(ConfigError::InvalidFont(field.to_string())),
            "{}",
            field
        );
    }
}

#[test]
fn line_set_ranges_and_single_lines() {
    assert_eq!(parse_line_range("1-3;5").unwrap(), vec![1, 2, 3, 5]);
}

#[test]
fn line_set_descending_range_is_empty() {
    assert_eq!(parse_line_range("5-3").unwrap(), Vec::<u32>::new());
    assert_eq!(parse_line_range("5-3;7").unwrap(), vec![7]);
}

#[test]
fn line_set_keeps_order_and_duplicates() {
    assert_eq!(parse_line_range("4;1-2;2;4-4").unwrap(), vec![4, 1, 2, 2, 4]);
}

#[test]
fn line_set_accepts_zero_plus_and_leading_zeros() {
    assert_eq!(parse_line_range("0;+3;007").unwrap(), vec![0, 3, 7]);
}

#[test]
fn line_set_third_number_of_a_token_is_ignored() {
    assert_eq!(parse_line_range("1-3-9").unwrap(), vec![1, 2, 3]);
}

#[test]
fn line_set_reaches_the_greatest_line() {
    assert_eq!(
        parse_line_range("4294967294-4294967295").unwrap(),
        vec![4294967294, 4294967295]
    );
}

#[test]
fn line_set_rejects_what_is_no_number() {
    for field in [
        "",
        "a",
        "1;",
        ";1",
        "1;;2",
        "1-",
        "-1",
        "1--2",
        "1 - 3",
        " 1",
        "1-x",
        "1-3-x",
        "4294967296",
        "1.5",
        "++1",
        "1;b;3",
    ] {
        assert_eq!(
            parse_line_range(field),
            Err(ConfigError::InvalidLineRange(field.to_string())),
            "{:?}",
            field
        );
    }
}

#[test]
fn numbers_are_read_as_written() {
    assert_eq!(parse_number("0"), Some(0));
    assert_eq!(parse_number("42"), Some(42));
    assert_eq!(parse_number("+42"), Some(42));
    assert_eq!(parse_number("4294967295"), Some(u32::MAX));
    assert_eq!(parse_number("00000000004294967295"), Some(u32::MAX));
    assert_eq!(parse_number("4294967296"), None);
    assert_eq!(parse_number("99999999999999999999999999"), None);
    assert_eq!(parse_number(""), None);
    assert_eq!(parse_number("+"), None);
    assert_eq!(parse_number("-1"), None);
    assert_eq!(parse_number("1a"), None);
    assert_eq!(parse_number("١"), None);
}

#[test]
fn scanning_finds_separators_in_a_range() {
    let v = chars_of("a=b;c=d");
    assert_eq!(v, vec!['a', '=', 'b', ';', 'c', '=', 'd']);
    assert_eq!(find_in(&v, 0, v.len(), ';'), 3);
    assert_eq!(find_in(&v, 4, v.len(), ';'), 7);
    assert_eq!(find_in(&v, 0, 3, '='), 1);
    assert_eq!(find_in(&v, 2, 2, '='), 2);
    assert_eq!(split_ranges(&v, 0, v.len(), ';'), vec![(0, 3), (4, 7)]);
    assert_eq!(split_ranges(&v, 0, v.len(), '='), vec![(0, 1), (2, 5), (6, 7)]);
    assert_eq!(split_ranges(&v, 3, 4, ';'), vec![(3, 3), (4, 4)]);
    assert_eq!(split_ranges(&v, 2, 2, ';'), vec![(2, 2)]);
}

#[test]
fn digits_are_read_up_to_a_limit() {
    let v = chars_of("+120x");
    assert_eq!(skip_plus(&v, 0, v.len()), 1);
    assert_eq!(skip_plus(&v, 1, v.len()), 1);
    assert_eq!(read_digits(&v, 1, 4, 0, 1000), Some(120));
    assert_eq!(read_digits(&v, 1, 4, 0, 120), Some(120));
    assert_eq!(read_digits(&v, 1, 4, 0, 119), None);
    assert_eq!(read_digits(&v, 1, 4, 7, 10000), Some(7120));
    assert_eq!(read_digits(&v, 1, 5, 0, 1000), None);
    assert_eq!(read_digits(&v, 2, 2, 5, 5), Some(5));
}
