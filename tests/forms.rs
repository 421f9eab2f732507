use home_gateway::forms::{
    hex_digit_value, is_valid_rgb, parse_level, parse_rgbw_form, parse_shcnt_form, FormError, Rgbw,
};

#[test]
fn rgb_with_and_without_hash() {
    assert!(is_valid_rgb("#a1b2c3"));
    assert!(is_valid_rgb("a1b2c3"));
    assert!(is_valid_rgb("A1B2C3"));
    assert!(is_valid_rgb("#A1b2C3"));
}

#[test]
fn rgb_malformed_rejected() {
    assert!(!is_valid_rgb(""));
    assert!(!is_valid_rgb("#"));
    assert!(!is_valid_rgb("a1b2c"));
    assert!(!is_valid_rgb("a1b2c3d"));
    assert!(!is_valid_rgb("##a1b2c3"));
    assert!(!is_valid_rgb("g1b2c3"));
    assert!(!is_valid_rgb("#a1b2c "));
    assert!(!is_valid_rgb("0xa1b2"));
}

#[test]
fn hex_digits_both_cases() {
    assert_eq!(hex_digit_value('0'), Some(0));
    assert_eq!(hex_digit_value('9'), Some(9));
    assert_eq!(hex_digit_value('a'), Some(10));
    assert_eq!(hex_digit_value('F'), Some(15));
    assert_eq!(hex_digit_value('g'), None);
    assert_eq!(hex_digit_value('#'), None);
}

#[test]
fn channels_of_colour() {
    let f = Rgbw { rgb: "#a1b2c3".to_string(), w: 10 };
    assert_eq!((f.r(), f.g(), f.b()), (0xa1, 0xb2, 0xc3));
    let f = Rgbw { rgb: "FF0080".to_string(), w: 0 };
    assert_eq!((f.channel(0), f.channel(1), f.channel(2)), (255, 0, 128));
}

#[test]
fn level_bounds() {
    assert_eq!(parse_level("0"), Some(0));
    assert_eq!(parse_level("255"), Some(255));
    assert_eq!(parse_level("050"), Some(50));
    assert_eq!(parse_level("256"), None);
    assert_eq!(parse_level("1000"), None);
    assert_eq!(parse_level("-1"), None);
    assert_eq!(parse_level("+7"), Some(7));
    assert_eq!(parse_level("+255"), Some(255));
    assert_eq!(parse_level("+256"), None);
    assert_eq!(parse_level("+"), None);
    assert_eq!(parse_level("++1"), None);
    assert_eq!(parse_level(" 1"), None);
    assert_eq!(parse_level(""), None);
    assert_eq!(parse_level("12a"), None);
    assert_eq!(parse_level("99999999999999999999"), None);
}

#[test]
fn rgbw_form_parsing() {
    let f = parse_rgbw_form("#ff0000", "0").unwrap();
    assert_eq!(f.rgb, "#ff0000");
    assert_eq!(f.w, 0);
    let f = parse_rgbw_form("A1B2C3", "255").unwrap();
    assert_eq!(f.rgb, "A1B2C3");
    assert_eq!(f.w, 255);
    assert_eq!(parse_rgbw_form("red", "1").unwrap_err(), FormError::InvalidColor);
    assert_eq!(parse_rgbw_form("red", "300").unwrap_err(), FormError::InvalidColor);
    assert_eq!(parse_rgbw_form("#ff0000", "256").unwrap_err(), FormError::InvalidLevel);
}

#[test]
fn shcnt_form_parsing() {
    assert_eq!(parse_shcnt_form("50").unwrap().pos, 50);
    assert_eq!(parse_shcnt_form("0").unwrap().pos, 0);
    assert_eq!(parse_shcnt_form("255").unwrap().pos, 255);
    assert_eq!(parse_shcnt_form("256").unwrap_err(), FormError::InvalidLevel);
    assert_eq!(parse_shcnt_form("x").unwrap_err(), FormError::InvalidLevel);
}
