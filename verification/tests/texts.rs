use hypr_session::numbers::{i32_text, is_i32, only_digits, usize_text};
use hypr_session::text::{
    chars_of, contains_white_space, find, find_char, find_char_last, join, matches_at, same_text,
    sort_texts, split_words, starts_with, string_of, text_not_after, trim, trim_start, white_space,
};

const SAMPLES: [&str; 12] = [
    "",
    " ",
    "word",
    " word",
    "word ",
    "two words",
    "\t a\u{a0}b \r\n",
    "\u{2003}wide\u{3000}",
    "no\u{200b}break",
    "a\u{85}b\u{1680}c\u{2028}d\u{2029}e\u{202f}f\u{205f}g",
    "größe  π\u{b}\u{c}x",
    "\u{feff}mark",
];

fn owned(list: &[&str]) -> Vec<String> {
    list.iter().map(|s| s.to_string()).collect()
}

#[test]
fn white_space_is_the_unicode_property() {
    for code in 0..=0x10ffff_u32 {
        if let Some(c) = char::from_u32(code) {
            assert_eq!(white_space(c), c.is_whitespace(), "{:x}", code);
        }
    }
}

#[test]
fn trimming_and_splitting_agree_with_std() {
    for s in SAMPLES {
        assert_eq!(trim(s), s.trim());
        assert_eq!(trim_start(s), s.trim_start());
        assert_eq!(split_words(s), s.split_whitespace().collect::<Vec<_>>());
        assert_eq!(contains_white_space(s), s.contains(char::is_whitespace));
    }
}

#[test]
fn characters_come_back() {
    for s in SAMPLES {
        let chars = chars_of(s);
        assert_eq!(chars, s.chars().collect::<Vec<char>>());
        assert_eq!(string_of(&chars, 0, chars.len()), s);
    }
    assert_eq!(string_of(&chars_of("größe"), 1, 3), "rö");
}

#[test]
fn searching_counts_characters() {
    let text = chars_of("größe-größe");
    assert_eq!(find(&text, &chars_of("größe")), Some(0));
    assert_eq!(find(&text, &chars_of("-g")), Some(5));
    assert_eq!(find(&text, &chars_of("x")), None);
    assert_eq!(find(&text, &chars_of("")), Some(0));
    assert_eq!(find(&chars_of(""), &chars_of("")), Some(0));
    assert_eq!(find(&chars_of("ab"), &chars_of("abc")), None);
    assert!(matches_at(&text, &chars_of("röß"), 7));
    assert!(!matches_at(&text, &chars_of("röß"), 6));
    assert_eq!(find_char(&text, 'ß', 0), Some(3));
    assert_eq!(find_char(&text, 'ß', 4), Some(9));
    assert_eq!(find_char(&text, 'ß', 10), None);
    assert_eq!(find_char_last(&text, 'g'), Some(6));
    assert_eq!(find_char_last(&text, 'z'), None);
}

#[test]
fn prefixes_and_equality() {
    assert!(starts_with("error: no", "error:"));
    assert!(starts_with("error:", "error:"));
    assert!(!starts_with("error", "error:"));
    assert!(starts_with("anything", ""));
    assert!(same_text("ok", "ok"));
    assert!(!same_text("ok", "OK"));
}

#[test]
fn joining_agrees_with_std() {
    for list in [vec![], vec!["a"], vec!["a", "b"], vec!["", "b", ""], vec!["x y", "z"]] {
        assert_eq!(join(&owned(&list), " "), list.join(" "));
        assert_eq!(join(&owned(&list), ","), list.join(","));
    }
}

#[test]
fn sorting_agrees_with_std() {
    let list = owned(&["b", "a", "", "ab", "a", "\u{10000}", "\u{ffff}", "Z", "ä", "aa"]);
    let mut wanted = list.clone();
    wanted.sort();
    assert_eq!(sort_texts(&list), wanted);
    for a in &list {
        for b in &list {
            assert_eq!(text_not_after(a, b), a <= b);
        }
    }
}

#[test]
fn numbers_are_written_as_std_writes_them() {
    for n in [0, 7, 10, 99, 100, -1, -10, 90111, 2147483647, -2147483648_i32] {
        assert_eq!(i32_text(n), n.to_string());
    }
    for n in [0, 1, 12, 1000, usize::MAX] {
        assert_eq!(usize_text(n), n.to_string());
    }
}

#[test]
fn numbers_are_recognised_as_std_recognises_them() {
    for s in [
        "", "+", "-", "0", "-0", "+0", "007", "1a", "a1", " 1", "1 ", "--1", "+-1", "2147483647",
        "2147483648", "+2147483647", "+2147483648", "-2147483648", "-2147483649",
        "00000000000000000000000000000000012", "99999999999999999999999999", "special:magic", "٣",
        "1-", "1_000",
    ] {
        assert_eq!(is_i32(s), s.parse::<i32>().is_ok(), "{}", s);
    }
    for n in [i32::MIN, -90111, -1, 0, 1, 90111, i32::MAX] {
        assert!(is_i32(&i32_text(n)));
    }
    assert!(only_digits(&chars_of("a12"), 1));
    assert!(only_digits(&chars_of("a"), 1));
    assert!(!only_digits(&chars_of("a1b"), 1));
}

#[test]
fn different_numbers_are_written_differently() {
    let numbers = [i32::MIN, -11, -1, 0, 1, 10, 11, 90111, 90112, i32::MAX];
    for a in numbers {
        for b in numbers {
            assert_eq!(i32_text(a) == i32_text(b), a == b);
        }
    }
}
