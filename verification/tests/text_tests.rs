use hardbot::handlers::get_name_from_string;
use hardbot::text::{
    count_char, decimal_text, is_whitespace, first_word_of, join, parse_u64, remove_char, replace_all, same_text,
    split_spaces, strip_leading, text_starts_with, trim,
};

#[test]
fn trim_removes_outer_white_space() {
    assert_eq!(trim("  hello world \t\n"), "hello world");
    assert_eq!(trim("   "), "");
    assert_eq!(trim(""), "");
    assert_eq!(trim("\u{3000}x\u{3000}"), "x");
}

#[test]
fn split_keeps_empty_pieces() {
    assert_eq!(split_spaces("give bob 5"), vec!["give", "bob", "5"]);
    assert_eq!(split_spaces("a  b"), vec!["a", "", "b"]);
    assert_eq!(split_spaces(""), vec![""]);
    assert_eq!(split_spaces("steal "), vec!["steal", ""]);
}

#[test]
fn first_word_stops_at_a_space() {
    assert_eq!(first_word_of("points bob"), "points");
    assert_eq!(first_word_of("hype"), "hype");
    assert_eq!(first_word_of(" x"), "");
}

#[test]
fn replace_matches_std() {
    assert_eq!(replace_all("hi $name, $name!", "$name", "bob"), "hi $name, $name!".replace("$name", "bob"));
    assert_eq!(replace_all("aaaa", "aa", "b"), "bb");
    assert_eq!(replace_all("aaa", "aa", "b"), "ba");
    assert_eq!(replace_all("none here", "$x", "y"), "none here");
}

#[test]
fn parse_u64_matches_std() {
    for s in ["42", "+7", "", "+", "-1", "-0", "007", "1 ", "18446744073709551615", "18446744073709551616", "99999999999999999999", "१२"] {
        assert_eq!(parse_u64(s), s.parse::<u64>().ok(), "input {:?}", s);
    }
}

#[test]
fn decimal_matches_format() {
    for n in [0u64, 7, 10, 99, 100, 12345, u64::MAX] {
        assert_eq!(decimal_text(n), format!("{}", n));
    }
}

#[test]
fn written_numbers_read_back_on_values() {
    for n in [0u64, 5, 1000, u64::MAX] {
        assert_eq!(parse_u64(&decimal_text(n)), Some(n));
    }
}

#[test]
fn join_puts_separators_between() {
    let v = vec!["a".to_string(), "b".to_string(), "c".to_string()];
    assert_eq!(join(&v, " | "), "a | b | c");
    assert_eq!(join(&Vec::new(), " | "), "");
    assert_eq!(join(&vec!["x".to_string()], ", "), "x");
}

#[test]
fn small_text_helpers() {
    assert!(text_starts_with("points bob", "points"));
    assert!(!text_starts_with("po", "points"));
    assert!(same_text("abc", "abc"));
    assert!(!same_text("abc", "abd"));
    assert_eq!(count_char("hype eee", 'e'), 4);
    assert_eq!(strip_leading("!!!hi", '!'), "hi");
    assert_eq!(remove_char("@a@b", '@'), "ab");
}

#[test]
fn names_from_arguments() {
    assert_eq!(get_name_from_string("  @IamHardbot "), "IamHardbot");
    assert_eq!(get_name_from_string("bob"), "bob");
    assert_eq!(get_name_from_string("@"), "");
    assert!(!get_name_from_string(" @a@b@ ").contains('@'));
}

#[test]
fn white_space_is_the_unicode_set() {
    for u in 0u32..=0x10FFFF {
        if let Some(c) = char::from_u32(u) {
            assert_eq!(is_whitespace(c), c.is_whitespace(), "code point {:#x}", u);
        }
    }
}

#[test]
fn trim_matches_std_on_unicode_space() {
    for s in [" a", "\u{85}x\u{2029}", "\u{200B}y", "\u{1680} z \u{205F}"] {
        assert_eq!(trim(s), s.trim());
    }
}
