use pc_health_cleaner::text::{
    chars_eq, concat3, contains_chars, copy_str, count_matches_exec, decimal_string,
    digit_char_exec, ends_with_chars, from_chars, is_whitespace_exec, lower_char_exec,
    lower_chars, occurs_at_exec, to_chars, trim_chars, usize_string,
};

fn v(s: &str) -> Vec<char> {
    s.chars().collect()
}

#[test]
fn decimal_renderings() {
    assert_eq!(decimal_string(0), "0");
    assert_eq!(decimal_string(7), "7");
    assert_eq!(decimal_string(1234567), "1234567");
    assert_eq!(decimal_string(u64::MAX), u64::MAX.to_string());
    assert_eq!(usize_string(42), "42");
    assert_eq!(digit_char_exec(7), '7');
}

#[test]
fn characters_round_trip() {
    assert_eq!(to_chars("héllo"), v("héllo"));
    assert_eq!(from_chars(&v("héllo")), "héllo");
    assert_eq!(copy_str("abc"), "abc");
    assert_eq!(concat3("a", "", "c"), "ac");
}

#[test]
fn searching_and_comparing() {
    assert!(chars_eq(&v("abc"), &v("abc")));
    assert!(!chars_eq(&v("abc"), &v("abd")));
    assert!(contains_chars(&v("hello"), &v("ll")));
    assert!(contains_chars(&v("hello"), &v("")));
    assert!(!contains_chars(&v("hello"), &v("lo!")));
    assert!(ends_with_chars(&v("setup.exe"), &v(".exe")));
    assert!(!ends_with_chars(&v("exe"), &v(".exe")));
    assert!(occurs_at_exec(&v("abcabc"), &v("ca"), 2));
    assert!(!occurs_at_exec(&v("abcabc"), &v("ca"), 3));
    assert!(!occurs_at_exec(&v("abc"), &v("cd"), 2));
    assert_eq!(count_matches_exec(&v("aaaa"), &v("aa")), 2);
    assert_eq!(count_matches_exec(&v("aaa"), &v("aa")), 1);
}

#[test]
fn ascii_lower_casing_and_trimming() {
    assert_eq!(lower_char_exec('Q'), 'q');
    assert_eq!(lower_char_exec('É'), 'É');
    assert_eq!(lower_chars(&v("AbC-É")), v("abc-É"));
    assert!(is_whitespace_exec('\u{3000}'));
    assert!(is_whitespace_exec('\t'));
    assert!(!is_whitespace_exec('a'));
    assert_eq!(trim_chars(&v("  x y \t")), v("x y"));
    assert_eq!(trim_chars(&v(" \u{a0} ")), Vec::<char>::new());
}
