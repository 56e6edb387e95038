use optination::omarchy::{accent, accent_readable, distance, hex_panics, nearest_accent, parse_hex, primaries};

#[test]
fn six_accent_primaries() {
    assert_eq!(
        primaries(),
        vec![
            (0x00, 0x65, 0x8e),
            (0x67, 0x50, 0xa4),
            (0x2c, 0x6c, 0x47),
            (0x8f, 0x4c, 0x00),
            (0x9a, 0x40, 0x57),
            (0x3b, 0x5b, 0xbf),
        ]
    );
}

#[test]
fn hex_values() {
    assert_eq!(parse_hex("#00658e"), Some((0x00, 0x65, 0x8e)));
    assert_eq!(parse_hex(" \"#6750A4\" "), Some((0x67, 0x50, 0xa4)));
    assert_eq!(parse_hex("123456"), Some((0x12, 0x34, 0x56)));
    assert_eq!(parse_hex("+f+f+f"), Some((15, 15, 15)));
    assert_eq!(parse_hex("#12345"), None);
    assert_eq!(parse_hex("#1234567"), None);
    assert_eq!(parse_hex("#gg0000"), None);
    assert_eq!(parse_hex("#00gg00"), None);
    assert_eq!(parse_hex("é1234"), None);
}

#[test]
fn hex_slicing_inside_a_character() {
    assert!(hex_panics("a€12"));
    assert!(!hex_panics("é1234"));
    assert!(!hex_panics("#00658e"));
    assert!(!accent_readable("accent = \"a€12\"\n"));
    assert!(accent_readable("accent = \"#00658e\"\nmode = dark\n"));
    assert!(accent_readable("name = a€12\n"));
}

#[test]
fn weighted_distance() {
    assert_eq!(distance((0, 0, 0), (1, 2, 3)), 37);
    assert_eq!(distance((10, 10, 10), (10, 10, 10)), 0);
    assert_eq!(distance((255, 255, 255), (0, 0, 0)), 9 * 255 * 255);
}

#[test]
fn nearest_of_the_six() {
    assert_eq!(nearest_accent((0x00, 0x65, 0x8e)), 0);
    assert_eq!(nearest_accent((0x8f, 0x4c, 0x01)), 3);
    assert_eq!(nearest_accent((0x3b, 0x5b, 0xc0)), 5);
}

#[test]
fn accent_and_mode_from_colors_toml() {
    assert_eq!(accent("accent = \"#00658e\"\nmode = \"light\"\n"), Some((0, false)));
    assert_eq!(accent("accent = \"#6750a4\"\n"), Some((1, true)));
    assert_eq!(accent("mode = \"LIGHT\"\naccent = \"#9a4057\"\n"), Some((4, false)));
    assert_eq!(accent("mode = dark\naccent=#2c6c47"), Some((2, true)));
}

#[test]
fn accent_missing_or_unreadable() {
    assert_eq!(accent("mode = light\n"), None);
    assert_eq!(accent("accent = \"nothex\"\n"), None);
    // The last accent line decides.
    assert_eq!(accent("accent = \"#00658e\"\naccent = \"bad\"\n"), None);
    assert_eq!(accent(""), None);
}
