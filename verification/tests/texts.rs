use mini_lm::text::{
    blank, char_count, concat_all, concat_texts, contains, decimal_text, find, first_chars,
    flatten_lines, join, join_first, placeholders, same_text, signed_text, split_lines, split_on,
    starts_with, strip_prefix_repeats, text_between, to_lower_ascii, trim, trim_both, trim_end,
    trim_start, white_space, CharClass,
};

#[test]
fn white_space_is_that_of_unicode() {
    for code in 0..=0x10ffff_u32 {
        if let Some(c) = char::from_u32(code) {
            assert_eq!(white_space(c), c.is_whitespace(), "{:x}", code);
        }
    }
}

#[test]
fn trimming_takes_white_space_from_both_ends() {
    assert_eq!(trim("  a b\u{3000}\n"), "a b");
    assert_eq!(trim("\u{3000} \t"), "");
    assert_eq!(trim_start("（（x）", CharClass::Only('（')), "x）");
    assert_eq!(trim_end("（x））", CharClass::Only('）')), "（x");
    assert_eq!(trim_both("「x」", CharClass::Quotes), "x");
    assert_eq!(trim(trim("  x  ")), trim("  x  "));
}

#[test]
fn blank_texts_hold_white_space_alone() {
    assert!(blank(""));
    assert!(blank(" \u{3000}\n"));
    assert!(!blank(" x "));
}

#[test]
fn searching_counts_characters() {
    assert_eq!(find("扶養手当", "手当"), Some(2));
    assert_eq!(find("手当手当", "手当"), Some(0));
    assert_eq!(find("abc", "x"), None);
    assert_eq!(find("abc", ""), Some(0));
    assert!(contains("扶養手当", "養手"));
    assert!(!contains("扶養", "扶養手当"));
    assert!(starts_with("data: x", "data:"));
    assert!(!starts_with("dat", "data:"));
    assert_eq!(strip_prefix_repeats("data:data: x", "data:"), " x");
    assert!(same_text("ー", "ー"));
    assert!(!same_text("ー", "一"));
    assert_eq!(char_count("第1条"), 3);
}

#[test]
fn splitting_keeps_empty_parts_and_line_ends() {
    assert_eq!(split_on("a > b > ", " > "), vec!["a", "b", ""]);
    assert_eq!(split_on("a", " > "), vec!["a"]);
    assert_eq!(split_lines("a\nb\n"), vec!["a\n", "b\n"]);
    assert_eq!(split_lines("a\n\nb"), vec!["a\n", "\n", "b"]);
    assert!(split_lines("").is_empty());
}

#[test]
fn joining_puts_the_separator_between() {
    let items = vec!["a".to_string(), "b".to_string(), "c".to_string()];
    assert_eq!(join(&items, ", "), "a, b, c");
    assert_eq!(join_first(&items, 2, "/"), "a/b");
    assert_eq!(join_first(&items, 9, "/"), "a/b/c");
    assert_eq!(join(&vec![], ", "), "");
    assert_eq!(concat_all(&vec!["x=", "1", ";"]), "x=1;");
    assert_eq!(concat_texts(&items), "abc");
}

#[test]
fn first_chars_end_in_an_ellipsis_where_more_follows() {
    assert_eq!(first_chars("abc", 3), "abc");
    assert_eq!(first_chars("扶養\n手当", 3), "扶養 ...");
    assert_eq!(first_chars("", 0), "");
    assert_eq!(first_chars("a", 0), "...");
}

#[test]
fn placeholders_are_separated_by_commas() {
    assert_eq!(placeholders(0), "");
    assert_eq!(placeholders(1), "?");
    assert_eq!(placeholders(4), "?,?,?,?");
}

#[test]
fn rewriting_touches_nothing_else() {
    assert_eq!(to_lower_ascii("AbＺ扶"), "abＺ扶");
    assert_eq!(flatten_lines("a\nb\r\n"), "a b\r ");
    let chars: Vec<char> = "扶養手当".chars().collect();
    assert_eq!(text_between(&chars, 1, 3), "養手");
}

#[test]
fn numbers_are_written_in_decimal() {
    assert_eq!(decimal_text(0), "0");
    assert_eq!(decimal_text(u128::MAX), u128::MAX.to_string());
    for n in [0, 7, -7, 120, i64::MAX, i64::MIN] {
        assert_eq!(signed_text(n), n.to_string());
    }
}
