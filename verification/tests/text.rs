use webfuzzy::text::{
    count_lines, count_words, decimal, equals_ignoring_case, hexadecimal, is_white, join3,
    pad_left, same_text, shorten, show_millis, trim,
};

#[test]
fn whitespace_is_that_of_unicode() {
    for v in 0u32..=0x10ffff {
        if let Some(c) = char::from_u32(v) {
            assert_eq!(is_white(c), c.is_whitespace());
        }
    }
}

#[test]
fn trimming_is_that_of_std() {
    for text in ["", "  ", " a b ", "\u{a0}x\u{3000}", "x", "\t\r\n y"] {
        let chars: Vec<char> = text.chars().collect();
        assert_eq!(trim(&chars, 0, chars.len()), text.trim());
    }
}

#[test]
fn words_and_lines_are_those_of_std() {
    for text in ["", "a", "a b", "  a\nb  c\n", "\n", "\n\n", "a\r\nb", "x\u{2003}y", "a\n "] {
        assert_eq!(count_words(text), text.split_whitespace().count());
        assert_eq!(count_lines(text), text.lines().count());
    }
}

#[test]
fn numbers_are_written_in_decimal_and_hexadecimal() {
    assert_eq!(decimal(0), "0");
    assert_eq!(decimal(907), "907");
    assert_eq!(decimal(u128::MAX), u128::MAX.to_string());
    assert_eq!(hexadecimal(0xbeef, 8), "0000beef");
    assert_eq!(hexadecimal(u32::MAX, 8), "ffffffff");
    assert_eq!(hexadecimal(0x1234, 2), "34");
}

#[test]
fn long_texts_are_cut_between_characters() {
    assert_eq!(shorten("abcdef", 6), "abcdef");
    assert_eq!(shorten("abcdefg", 6), "abcdef...");
    assert_eq!(shorten("aé§z", 2), "a...");
    assert_eq!(shorten("aé§z", 3), "aé...");
    assert_eq!(shorten("é", 0), "...");
    assert_eq!(shorten("", 0), "");
    for max in 0..12 {
        let text = "a€bé\u{1f600}c";
        let mut end = max.min(text.len());
        while !text.is_char_boundary(end) {
            end -= 1;
        }
        let expected = if text.len() <= max {
            text.to_string()
        } else {
            format!("{}...", &text[..end])
        };
        assert_eq!(shorten(text, max), expected);
    }
}

#[test]
fn texts_are_compared_and_joined() {
    assert!(same_text("aé", "aé"));
    assert!(!same_text("a", "A"));
    assert!(!same_text("a", "ab"));
    assert!(equals_ignoring_case("Content-TYPE", "content-type"));
    assert!(!equals_ignoring_case("É", "é"));
    assert!(!equals_ignoring_case("a", "ab"));
    assert_eq!(join3("a", "", "b"), "ab");
    assert_eq!(pad_left("7", 3), "  7");
    assert_eq!(pad_left("1234", 3), "1234");
}

#[test]
fn durations_are_shown_as_std_shows_them() {
    assert_eq!(show_millis(0), "0ns");
    assert_eq!(show_millis(250), "250ms");
    assert_eq!(show_millis(1500), "1.5s");
    assert_eq!(show_millis(12_000), "12s");
    let more = [u64::MAX, u64::MAX - 5, 86_400_010, 3_600_000];
    for millis in (0..12_000).chain(more) {
        let shown = format!("{:?}", std::time::Duration::from_millis(millis));
        assert_eq!(show_millis(millis), shown);
    }
}
