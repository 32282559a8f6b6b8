use rfofs::cli::{
    mode_shortcut_to_pan_mode_str, parse_clock_mode, parse_nonzero_count, parse_pan_mode,
};
use rfofs::text::{
    chars_of, is_white, matches_word, parse_decimal, part, same_text, split_words, starts_with,
    to_lower, trim,
};
use rfofs::{ClockMode, PanMode};

#[test]
fn clock_mode_argument() {
    assert_eq!(parse_clock_mode("transport"), Ok(ClockMode::JackTransport));
    assert_eq!(parse_clock_mode("1"), Ok(ClockMode::JackFrameTime));
    assert_eq!(parse_clock_mode("bogus"), Err("invalid clock mode: bogus".to_string()));
}

#[test]
fn pan_mode_shortcuts() {
    assert_eq!(mode_shortcut_to_pan_mode_str("1"), "mono");
    assert_eq!(mode_shortcut_to_pan_mode_str("2"), "stereo");
    assert_eq!(mode_shortcut_to_pan_mode_str("3"), "amb O1 D3");
    assert_eq!(mode_shortcut_to_pan_mode_str("4"), "amb O1 D3 R0");
    assert_eq!(mode_shortcut_to_pan_mode_str("5"), "5");
    assert_eq!(mode_shortcut_to_pan_mode_str("amb O2 D2"), "amb O2 D2");
}

#[test]
fn pan_mode_argument() {
    assert_eq!(parse_pan_mode("1"), Ok(PanMode::Mono));
    assert_eq!(parse_pan_mode("2"), Ok(PanMode::Stereo));
    assert_eq!(
        parse_pan_mode("3"),
        Ok(PanMode::Ambisonic { order: 1, dims: 3, reverb: None })
    );
    assert_eq!(
        parse_pan_mode("4"),
        Ok(PanMode::Ambisonic { order: 1, dims: 3, reverb: Some(0) })
    );
    assert_eq!(
        parse_pan_mode("amb O2 D3 R1"),
        Ok(PanMode::Ambisonic { order: 2, dims: 3, reverb: Some(1) })
    );
    assert_eq!(parse_pan_mode("quad"), Err("invalid mode: quad".to_string()));
}

#[test]
fn nonzero_count_argument() {
    assert_eq!(parse_nonzero_count("1"), Ok(1));
    assert_eq!(parse_nonzero_count("+12"), Ok(12));
    assert_eq!(parse_nonzero_count("0"), Err("--count must be > 0".to_string()));
    assert_eq!(parse_nonzero_count("000"), Err("--count must be > 0".to_string()));
    assert_eq!(parse_nonzero_count("two"), Err("invalid count: two".to_string()));
    assert_eq!(parse_nonzero_count(""), Err("invalid count: ".to_string()));
    assert_eq!(parse_nonzero_count("-3"), Err("invalid count: -3".to_string()));
    assert_eq!(parse_nonzero_count(&format!("{}", usize::MAX)), Ok(usize::MAX));
}

#[test]
fn white_space_is_that_of_the_standard_library() {
    for p in 0..=0x10ffffu32 {
        if let Some(c) = char::from_u32(p) {
            assert_eq!(is_white(c), c.is_whitespace(), "{p:#x}");
        }
    }
}

#[test]
fn decimals_are_those_of_the_standard_library() {
    let texts = [
        "", "+", "-", "0", "00", "7", "+7", "-7", "++7", "+-7", "12", "255", "256", "0255", "300",
        "65535", "99999", "4294967295", "4294967296", "18446744073709551615",
        "18446744073709551616", "1e3", "1_000", " 1", "1 ", "٣", "a", "1a", "a1", "0x10",
        "000000000000000000000000000000255", "99999999999999999999999999",
    ];
    for t in texts {
        let chars = chars_of(t);
        assert_eq!(parse_decimal(&chars, u8::MAX as u64), t.parse::<u8>().ok().map(|n| n as u64), "{t:?}");
        assert_eq!(parse_decimal(&chars, u32::MAX as u64), t.parse::<u32>().ok().map(|n| n as u64), "{t:?}");
        assert_eq!(parse_decimal(&chars, u64::MAX), t.parse::<u64>().ok(), "{t:?}");
    }
}

#[test]
fn trimming_and_splitting_are_those_of_the_standard_library() {
    let texts = [
        "", " ", "a", " a", "a ", "  a b  ", "\t\na\u{3000}b\u{a0}", "\u{2003}", "a\u{200b}b",
        "one two  three", " x\r\n",
    ];
    for t in texts {
        let chars = chars_of(t);
        let trimmed: String = trim(&chars).into_iter().collect();
        assert_eq!(trimmed, t.trim(), "{t:?}");
        let words: Vec<String> = split_words(&chars).into_iter().map(|w| w.into_iter().collect()).collect();
        let expected: Vec<String> = t.split_whitespace().map(|w| w.to_string()).collect();
        assert_eq!(words, expected, "{t:?}");
    }
}

#[test]
fn case_is_ignored_for_ascii_letters_only() {
    assert!(matches_word(&chars_of("MoNo"), "mono"));
    assert!(!matches_word(&chars_of("monos"), "mono"));
    assert!(!matches_word(&chars_of("m0no"), "mono"));
    assert!(!matches_word(&chars_of("Ä"), "ä"));
    assert_eq!(to_lower('Z'), 'z');
    assert_eq!(to_lower('['), '[');
    assert_eq!(to_lower('É'), 'É');
}

#[test]
fn prefixes_and_parts() {
    let chars = chars_of("ambient");
    assert!(starts_with(&chars, "amb"));
    assert!(starts_with(&chars, ""));
    assert!(!starts_with(&chars, "ambients"));
    assert!(!starts_with(&chars, "Amb"));
    let middle: String = part(&chars, 3, 6).into_iter().collect();
    assert_eq!(middle, "ien");
    assert!(same_text("ambient", "ambient"));
    assert!(!same_text("ambient", "Ambient"));
}
