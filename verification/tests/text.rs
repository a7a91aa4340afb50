use kelaunch::text::{before_char, find_char, split_char, split_once_char, trim, trim_char};

fn cs(s: &str) -> Vec<char> {
    s.chars().collect()
}

fn st(v: &[char]) -> String {
    v.iter().collect()
}

#[test]
fn trim_removes_unicode_white_space() {
    assert_eq!(st(&trim(&cs("\u{3000}\t a b \r\n\u{a0}"))), "a b");
    assert_eq!(st(&trim(&cs("   "))), "");
    assert_eq!(st(&trim(&cs(""))), "");
    assert_eq!(st(&trim(&cs("x"))), "x");
}

#[test]
fn trim_char_removes_quotes_at_both_ends() {
    assert_eq!(st(&trim_char(&cs("\"\"/opt/app\"\""), '"')), "/opt/app");
    assert_eq!(st(&trim_char(&cs("a\"b"), '"')), "a\"b");
    assert_eq!(st(&trim_char(&cs("\"\"\""), '"')), "");
}

#[test]
fn split_keeps_empty_pieces() {
    let pieces: Vec<String> = split_char(&cs("a;;b;"), ';').iter().map(|p| st(p)).collect();
    assert_eq!(pieces, vec!["a", "", "b", ""]);
    let one: Vec<String> = split_char(&cs(""), ';').iter().map(|p| st(p)).collect();
    assert_eq!(one, vec![""]);
}

#[test]
fn split_once_and_find_use_the_first_separator() {
    let (a, b) = split_once_char(&cs("Name=a=b"), '=').unwrap();
    assert_eq!(st(&a), "Name");
    assert_eq!(st(&b), "a=b");
    assert!(split_once_char(&cs("no separator"), '=').is_none());
    assert_eq!(find_char(&cs("abcabc"), 'c'), Some(2));
    assert_eq!(find_char(&cs("abc"), 'z'), None);
    assert_eq!(st(&before_char(&cs("fr_FR.UTF-8"), '.')), "fr_FR");
    assert_eq!(st(&before_char(&cs("fr"), '.')), "fr");
}
