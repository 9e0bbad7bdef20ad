use rustky::color::{hex_color_accepts, line_color, parse_hex_color};

#[test]
fn opaque_rgb_from_six_digits() {
    assert_eq!(parse_hex_color("#ff0000"), 0xFFFF_0000);
    assert_eq!(parse_hex_color("#102030"), 0xFF10_2030);
    assert_eq!(parse_hex_color("#ffffff"), 0xFFFF_FFFF);
    assert_eq!(parse_hex_color("#000000"), 0xFF00_0000);
}

#[test]
fn alpha_is_the_fourth_pair() {
    assert_eq!(parse_hex_color("#11223344"), 0x4411_2233);
    assert_eq!(parse_hex_color("#00000000"), 0x0000_0000);
    assert_eq!(parse_hex_color("#ABCDEF80"), 0x80AB_CDEF);
}

#[test]
fn upper_and_lower_case_digits_agree() {
    assert_eq!(parse_hex_color("#AbCdEf"), parse_hex_color("#abcdef"));
    assert_eq!(parse_hex_color("#AbCdEf"), 0xFFAB_CDEF);
}

#[test]
fn leading_hashes_are_all_dropped() {
    assert_eq!(parse_hex_color("102030"), 0xFF10_2030);
    assert_eq!(parse_hex_color("###102030"), 0xFF10_2030);
}

#[test]
fn other_pair_counts_give_white() {
    assert_eq!(parse_hex_color(""), 0xFFFF_FFFF);
    assert_eq!(parse_hex_color("#"), 0xFFFF_FFFF);
    assert_eq!(parse_hex_color("#1020"), 0xFFFF_FFFF);
    assert_eq!(parse_hex_color("#1020304050"), 0xFFFF_FFFF);
}

#[test]
fn pairs_that_are_not_hex_are_skipped() {
    // "zz" is dropped and the remaining three pairs make the colour.
    assert_eq!(parse_hex_color("#zzff0000"), 0xFFFF_0000);
    // Two bad pairs out of four leave two: white.
    assert_eq!(parse_hex_color("#zz00zz00"), 0xFFFF_FFFF);
    // A minus sign is not a digit for an unsigned byte.
    assert_eq!(parse_hex_color("#-1102030"), 0xFF10_2030);
}

#[test]
fn plus_sign_pair_is_one_digit() {
    // `u8::from_str_radix("+f", 16)` is 15.
    assert_eq!(parse_hex_color("#+f0000"), 0xFF0F_0000);
    assert_eq!(parse_hex_color("#++0000"), 0xFFFF_FFFF);
}

#[test]
fn accepted_inputs() {
    assert!(hex_color_accepts("#ff0000"));
    assert!(hex_color_accepts(""));
    assert!(hex_color_accepts("##"));
    assert!(hex_color_accepts("#é0000"));
    // Odd length after the hashes: the original slicing panics.
    assert!(!hex_color_accepts("#fff"));
    assert!(!hex_color_accepts("#ff000"));
    // A piece would split the two-byte character in half.
    assert!(!hex_color_accepts("#0é000"));
}

#[test]
fn multibyte_piece_is_skipped() {
    // "é" is one two-byte piece that does not parse.
    assert_eq!(parse_hex_color("#é102030"), 0xFF10_2030);
}

#[test]
fn line_color_prefers_the_line() {
    assert_eq!(line_color(Some("#00ff00"), 0xFF12_3456), 0xFF00_FF00);
    assert_eq!(line_color(None, 0xFF12_3456), 0xFF12_3456);
    assert_eq!(line_color(Some("nope"), 0xFF12_3456), 0xFFFF_FFFF);
}

#[test]
fn rgb_round_trip() {
    for &(r, g, b) in &[(0u8, 0u8, 0u8), (255, 255, 255), (1, 128, 254), (0x12, 0xab, 0xcd)] {
        let text = format!("#{:02x}{:02x}{:02x}", r, g, b);
        assert!(hex_color_accepts(&text));
        let expected = 0xFF00_0000u32 | (r as u32) << 16 | (g as u32) << 8 | b as u32;
        assert_eq!(parse_hex_color(&text), expected);
    }
}

#[test]
fn rgba_round_trip() {
    for &(r, g, b, a) in &[(0u8, 0u8, 0u8, 0u8), (9, 8, 7, 6), (200, 100, 50, 25)] {
        let text = format!("#{:02x}{:02x}{:02x}{:02x}", r, g, b, a);
        let expected = (a as u32) << 24 | (r as u32) << 16 | (g as u32) << 8 | b as u32;
        assert_eq!(parse_hex_color(&text), expected);
    }
}

#[test]
fn one_more_hash_changes_nothing() {
    for text in ["ff0000", "#12345678", "zz", "#+a+b+c"] {
        let longer = format!("#{}", text);
        assert_eq!(hex_color_accepts(&longer), hex_color_accepts(text));
        assert_eq!(parse_hex_color(&longer), parse_hex_color(text));
    }
}
