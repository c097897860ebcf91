use pixel_snapper::text::{
    is_white_space, number_string, parse_decimal, part, same_text, split, to_chars, to_lower, trim,
    Separator,
};

fn text(chars: Vec<char>) -> String {
    chars.into_iter().collect()
}

#[test]
fn white_space_is_that_of_the_standard_library() {
    for number in 0u32..=0x10ffff {
        if let Some(c) = char::from_u32(number) {
            assert_eq!(is_white_space(c), c.is_whitespace());
        }
    }
}

#[test]
fn trimming_takes_off_both_ends() {
    assert_eq!(text(trim(&to_chars(" \t a b \u{3000}\n"))), "a b");
    assert_eq!(text(trim(&to_chars(" \n "))), "");
    assert_eq!(text(trim(&to_chars(""))), "");
}

#[test]
fn lowering_touches_plain_capitals_only() {
    assert_eq!(text(to_lower(&to_chars("AbZ\u{c9}9"))), "abz\u{c9}9");
}

#[test]
fn splitting_keeps_empty_pieces() {
    let pieces: Vec<String> =
        split(&to_chars("a,,b,"), Separator::Comma).into_iter().map(text).collect();
    assert_eq!(pieces, vec!["a", "", "b", ""]);
    let loose: Vec<String> =
        split(&to_chars("a; b,c"), Separator::Loose).into_iter().map(text).collect();
    assert_eq!(loose, vec!["a", "", "b", "c"]);
    let lines: Vec<String> =
        split(&to_chars("a\nb"), Separator::LineEnd).into_iter().map(text).collect();
    assert_eq!(lines, vec!["a", "b"]);
}

#[test]
fn parts_and_comparison() {
    assert_eq!(text(part(&to_chars("hello"), 1, 3)), "el");
    assert!(same_text(&to_chars("edge"), "edge"));
    assert!(!same_text(&to_chars("edge"), "edges"));
}

#[test]
fn decimals_are_read_as_the_standard_library_does() {
    let words = [
        "0", "7", "+7", "007", "255", "256", "+", "", "-1", "1_0", " 1", "1 ", "++1", "\u{0663}",
        "99999999999999999999",
    ];
    for word in words {
        let chars = to_chars(word);
        assert_eq!(parse_decimal(&chars, 255), word.parse::<u8>().ok().map(usize::from));
        assert_eq!(parse_decimal(&chars, usize::MAX), word.parse::<usize>().ok());
    }
}

#[test]
fn numbers_are_written_and_read_back() {
    for number in [0usize, 9, 10, 4096, usize::MAX] {
        assert_eq!(number_string(number), number.to_string());
        assert_eq!(parse_decimal(&to_chars(&number_string(number)), usize::MAX), Some(number));
    }
}
