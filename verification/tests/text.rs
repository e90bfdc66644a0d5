use sucocku::text::{
    digit_str, find_char, is_whitespace, push_decimal, same_text, split, starts_with, trim,
};

#[test]
fn trim_cuts_white_space_at_both_ends() {
    assert_eq!(trim("  a b \t\n"), "a b");
    assert_eq!(trim(""), "");
    assert_eq!(trim(" \u{a0}\u{3000} "), "");
    assert_eq!(trim("x"), "x");
    assert_eq!(trim("\u{2003}é \u{1680}"), "é");
    assert_eq!(trim("\u{200b}x"), "\u{200b}x");
    for code in 0..0x3100u32 {
        if let Some(c) = char::from_u32(code) {
            assert_eq!(is_whitespace(c), c.is_whitespace(), "U+{code:04X}");
        }
    }
}

#[test]
fn split_cuts_at_every_separator() {
    assert_eq!(split("a;b;c", ';'), vec!["a", "b", "c"]);
    assert_eq!(split("", ';'), vec![""]);
    assert_eq!(split(";", ';'), vec!["", ""]);
    assert_eq!(split("a;", ';'), vec!["a", ""]);
    assert_eq!(split("mark; move left", ';'), vec!["mark", " move left"]);
    assert_eq!(split("äö,ü", ','), vec!["äö", "ü"]);
}

#[test]
fn find_and_compare_by_character() {
    assert_eq!(find_char("héllo", 'l'), Some(2));
    assert_eq!(find_char("hello", 'z'), None);
    assert_eq!(find_char("", 'z'), None);
    assert!(same_text("abc", "abc"));
    assert!(!same_text("abc", "abd"));
    assert!(!same_text("abc", "ab"));
    assert!(same_text("", ""));
    assert!(starts_with("hello", "he"));
    assert!(starts_with("hello", ""));
    assert!(starts_with("hello", "hello"));
    assert!(!starts_with("hello", "hello!"));
    assert!(!starts_with("hello", "el"));
}

#[test]
fn decimal_digits() {
    let mut out = "n=".to_string();
    push_decimal(&mut out, 0);
    push_decimal(&mut out, 907);
    assert_eq!(out, "n=0907");
    let mut big = String::new();
    push_decimal(&mut big, usize::MAX);
    assert_eq!(big, usize::MAX.to_string());
    assert_eq!(digit_str(0), "0");
    assert_eq!(digit_str(9), "9");
}
