use kovacs::numbers::{parse_i32, parse_u8};
use kovacs::text::{
    chars_of, dedup_strings, lines_of, reverse_chars, split_chars, trim_chars, Separator,
};

fn chars(x: &str) -> Vec<char> {
    x.chars().collect()
}

#[test]
fn trimming_unicode_white_space() {
    assert_eq!(trim_chars(&chars("\u{3000} a b\t\r\n")), chars("a b"));
    assert_eq!(trim_chars(&chars("   ")), chars(""));
    let once = trim_chars(&chars("  x  "));
    assert_eq!(trim_chars(&once), once);
}

#[test]
fn splitting_keeps_empty_pieces() {
    assert_eq!(split_chars(&chars("a,,b,"), Separator::Comma), vec![chars("a"), chars(""), chars("b"), chars("")]);
    assert_eq!(split_chars(&chars(""), Separator::Comma), vec![chars("")]);
    assert_eq!(
        split_chars(&chars("a:b\rc\nd"), Separator::StatementBreak),
        vec![chars("a"), chars("b"), chars("c"), chars("d")]
    );
    assert_eq!(split_chars(&chars("x&y+z"), Separator::Concatenation), vec![chars("x"), chars("y"), chars("z")]);
}

#[test]
fn lines_like_std() {
    for text in ["", "a", "a\n", "a\r\nb", "a\n\nb\r", "\n", "x\r\n\r\n"] {
        let expected: Vec<Vec<char>> = text.lines().map(|l| l.chars().collect()).collect();
        assert_eq!(lines_of(&chars(text)), expected, "{:?}", text);
    }
}

#[test]
fn dedup_keeps_first_occurrences() {
    let v = vec!["b".to_string(), "a".to_string(), "b".to_string(), "c".to_string(), "a".to_string()];
    assert_eq!(dedup_strings(v), vec!["b".to_string(), "a".to_string(), "c".to_string()]);
}

#[test]
fn reversing_twice_is_identity() {
    let r = reverse_chars(&chars("abc"));
    assert_eq!(r, chars("cba"));
    assert_eq!(reverse_chars(&r), chars("abc"));
    assert_eq!(chars_of("héllo"), chars("héllo"));
}

#[test]
fn integer_parsing_like_std() {
    for text in ["0", "+0", "-0", "12", "-2147483648", "2147483647", "2147483648", "-2147483649", "+", "-", "", "1a", "+-1", " 1"] {
        assert_eq!(parse_i32(&chars(text), 10), i32::from_str_radix(text, 10).ok(), "{:?}", text);
    }
    for text in ["7fffffff", "80000000", "-80000000", "ff", "FF", "-a", "g"] {
        assert_eq!(parse_i32(&chars(text), 16), i32::from_str_radix(text, 16).ok(), "{:?}", text);
    }
    for text in ["0", "255", "256", "+7", "-1", "", "+", "007"] {
        assert_eq!(parse_u8(&chars(text)), text.parse::<u8>().ok(), "{:?}", text);
    }
}

#[test]
fn trimming_like_std() {
    for text in ["\u{85}x\u{a0}", "\u{1680}\u{2000}y\u{200a}\u{2028}", "\u{180e}z\u{180e}", "\u{202f}\u{205f}\u{3000}", "\u{b}\u{c}w\u{200b}"] {
        let expected: Vec<char> = text.trim().chars().collect();
        assert_eq!(trim_chars(&chars(text)), expected, "{:?}", text);
    }
}
