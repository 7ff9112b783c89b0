//! Text helpers, compared with the standard library.

use envoy_files::text;

#[test]
fn trimming_matches_the_standard_library() {
    for s in [
        "", " ", "a", " a ", "\t a b \r\n", "\u{a0}x\u{3000}", "\u{2009}\u{2028}", "\u{200b}z",
        "\u{85}q\u{1680}",
    ] {
        let cs: Vec<char> = s.chars().collect();
        let trimmed: String = text::trim(&cs).iter().collect();
        assert_eq!(trimmed, s.trim());
    }
}

#[test]
fn white_space_matches_the_standard_library() {
    for code in 0..0x3100u32 {
        if let Some(c) = char::from_u32(code) {
            assert_eq!(text::is_whitespace(c), c.is_whitespace());
        }
    }
}

#[test]
fn splitting_matches_the_standard_library() {
    for s in ["", ",", "a", "a,b", ",a,,b,", "äöü,ß"] {
        let cs: Vec<char> = s.chars().collect();
        let pieces: Vec<String> =
            text::split(&cs, ',').into_iter().map(|p| p.iter().collect()).collect();
        let expected: Vec<String> = s.split(',').map(str::to_string).collect();
        assert_eq!(pieces, expected);
    }
}

#[test]
fn numbers_match_the_standard_library() {
    for n in [0u64, 1, 9, 10, 15, 16, 255, 1024, 65535, u64::MAX - 1, u64::MAX] {
        assert_eq!(text::format_decimal(n), n.to_string());
        assert_eq!(text::format_hexadecimal(n), format!("{n:x}"));
        assert_eq!(text::format_hexadecimal_padded(n, 16), format!("{n:016x}"));
        let digits: Vec<char> = n.to_string().chars().collect();
        assert_eq!(text::parse_decimal(&digits), Some(n));
    }
    let too_big: Vec<char> = "18446744073709551616".chars().collect();
    assert_eq!(text::parse_decimal(&too_big), None);
}

#[test]
fn ascii_case_folding_leaves_other_letters_alone() {
    let a: Vec<char> = "GZip-Ä".chars().collect();
    let b: Vec<char> = "gzIP-Ä".chars().collect();
    let c: Vec<char> = "gzip-ä".chars().collect();
    assert!(text::same_ignoring_case(&a, &b));
    assert!(!text::same_ignoring_case(&a, &c));
    let lower: String = text::to_lower(&a).iter().collect();
    assert_eq!(lower, "gzip-Ä");
}
