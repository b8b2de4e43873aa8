use headroom::text::{
    blank, characters, join, length, lines, push_decimal, same, same_ignoring_case, split, trim,
    words,
};

#[test]
fn lines_match_the_standard_library() {
    for content in [
        "", "\n", "a", "a\n", "a\nb", "a\r\nb\r\n", "a\rb", "a\r", "\r\n", "\n\n", "a\n\nb\r\r\n",
        "é\n🌍",
    ] {
        let expected: Vec<String> = content.lines().map(|l| l.to_string()).collect();
        assert_eq!(lines(content), expected, "{content:?}");
    }
}

#[test]
fn words_match_the_standard_library() {
    for content in ["", " ", "a", " a  b ", "a\tb\nc", "a\u{a0}b\u{2003}c", "é 🌍", "a\u{200b}b"] {
        let expected: Vec<String> = content.split_whitespace().map(|w| w.to_string()).collect();
        assert_eq!(words(content), expected, "{content:?}");
        assert_eq!(trim(content), content.trim(), "{content:?}");
        assert_eq!(blank(content), content.trim().is_empty(), "{content:?}");
    }
}

#[test]
fn pieces_match_the_standard_library() {
    for content in ["", ",", "a", "a,b", ",a,,b,", "é,🌍"] {
        let expected: Vec<String> = content.split(',').map(|p| p.to_string()).collect();
        assert_eq!(split(content, ','), expected, "{content:?}");
        assert_eq!(join(&expected, ","), content);
    }
    assert_eq!(join(&Vec::new(), ","), "");
}

#[test]
fn numbers_are_written_in_decimal() {
    for n in [0usize, 7, 10, 99, 100, 12345, usize::MAX] {
        let mut out = "n=".to_string();
        push_decimal(&mut out, n);
        assert_eq!(out, format!("n={n}"));
    }
}

#[test]
fn only_ascii_letters_lose_their_case() {
    assert!(same_ignoring_case("aBc-1", "AbC-1"));
    assert!(!same_ignoring_case("é", "É"));
    assert!(!same_ignoring_case("a", "ab"));
    assert!(!same_ignoring_case("[", "{"));
    assert!(same("é", "é"));
    assert!(!same("a", "A"));
}

#[test]
fn lengths_are_bytes_and_characters_are_characters() {
    assert_eq!(length("é🌍a"), 7);
    assert_eq!(characters("é🌍a"), vec!['é', '🌍', 'a']);
}

#[test]
fn every_white_space_character_is_known() {
    for code in 0..0x11_0000u32 {
        if let Some(c) = char::from_u32(code) {
            let listed = matches!(
                code,
                0x9..=0xD
                    | 0x20
                    | 0x85
                    | 0xA0
                    | 0x1680
                    | 0x2000..=0x200A
                    | 0x2028
                    | 0x2029
                    | 0x202F
                    | 0x205F
                    | 0x3000
            );
            assert_eq!(blank(&c.to_string()), listed, "{code:x}");
        }
    }
}
