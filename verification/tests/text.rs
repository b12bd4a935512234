use type_racer::text::{digit_str, digit_value, split_lines, str_eq, trim_str, u64_to_string};
use type_racer::game::load_word_pool;

#[test]
fn u64_to_string_small_and_large() {
    assert_eq!(u64_to_string(0), "0");
    assert_eq!(u64_to_string(7), "7");
    assert_eq!(u64_to_string(10), "10");
    assert_eq!(u64_to_string(1234), "1234");
    assert_eq!(u64_to_string(18446744073709551615), "18446744073709551615");
}

#[test]
fn digit_helpers() {
    assert_eq!(digit_str(0), "0");
    assert_eq!(digit_str(9), "9");
    assert_eq!(digit_value('0'), Some(0));
    assert_eq!(digit_value('9'), Some(9));
    assert_eq!(digit_value('x'), None);
}

#[test]
fn str_eq_compares_characters() {
    assert!(str_eq("hello", "hello"));
    assert!(!str_eq("hello", "hellO"));
    assert!(!str_eq("hello", "hell"));
    assert!(str_eq("", ""));
}

#[test]
fn split_lines_cuts_at_newlines() {
    let parts = split_lines("a\nbb\nccc");
    assert_eq!(parts, vec!["a".to_string(), "bb".to_string(), "ccc".to_string()]);
}

#[test]
fn split_lines_keeps_empty_pieces() {
    let parts = split_lines("a\n\nb\n");
    assert_eq!(parts, vec!["a".to_string(), "".to_string(), "b".to_string(), "".to_string()]);
}

#[test]
fn trim_removes_surrounding_whitespace() {
    assert_eq!(trim_str("  hi \t"), "hi");
    assert_eq!(trim_str("word\r"), "word");
    assert_eq!(trim_str("   "), "");
    assert_eq!(trim_str("a b"), "a b");
}

#[test]
fn word_pool_keeps_trimmed_nonempty_lines() {
    let pool = load_word_pool("  hi \n\nworld\r\n\t\nlast");
    assert_eq!(pool, vec!["hi".to_string(), "world".to_string(), "last".to_string()]);
}

#[test]
fn word_pool_of_empty_text_is_empty() {
    assert!(load_word_pool("").is_empty());
    assert!(load_word_pool("\n\n").is_empty());
}
