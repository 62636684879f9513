use toak_rs::text::{
    all_whitespace, char_is_whitespace, chars_of, contains_chars, copy_range, copy_texts,
    count_tokens_in, extend_chars, matches_at, push_number, push_str_chars, replace_chars, same_chars,
    split_lines, string_of, trim_chars, trim_end_chars,
};

const SAMPLES: [&str; 24] = [
    "",
    " ",
    "\n",
    "\r",
    "\r\n",
    "a",
    "a b",
    "  a  b  ",
    "a\nb",
    "a\nb\n",
    "a\r\nb\r\n",
    "a\r\r\nb",
    "a\rb\n\rc\r",
    "\n\n\n",
    "\r\n\r\n",
    "x\n\ny\n\n",
    "tab\tsep\u{b}vt\u{c}ff",
    "nbsp\u{a0}here\u{85}nel",
    "wide\u{3000}space\u{2003}em\u{2028}ls\u{2029}ps",
    "zero\u{200b}width\u{feff}bom\u{180e}mvs",
    "h\u{e9}llo w\u{f6}rld \u{1F600} ok",
    "\u{1680}ogham\u{202f}narrow\u{205f}math",
    "line one\nline two\r\n\tindented three   \n\n  last",
    "   \u{a0}\n\t\r\n ",
];

fn lines_of(text: &str) -> Vec<String> {
    split_lines(&chars_of(text)).iter().map(|line| string_of(line)).collect()
}

#[test]
fn whitespace_is_what_the_standard_library_calls_whitespace() {
    let mut code = 0u32;
    while code <= 0x10FFFF {
        if let Some(c) = char::from_u32(code) {
            assert_eq!(char_is_whitespace(c), c.is_whitespace(), "U+{:04X}", code);
        }
        code += 1;
    }
}

#[test]
fn tokens_are_counted_as_split_whitespace_counts_them() {
    for text in SAMPLES {
        assert_eq!(count_tokens_in(&chars_of(text)), text.split_whitespace().count(), "{:?}", text);
    }
}

#[test]
fn lines_are_split_as_lines_splits_them() {
    for text in SAMPLES {
        let expected: Vec<String> = text.lines().map(|l| l.to_string()).collect();
        assert_eq!(lines_of(text), expected, "{:?}", text);
    }
    assert_eq!(lines_of("foo\nbar\n\r\nbaz\r"), vec!["foo", "bar", "", "baz\r"]);
    assert_eq!(lines_of("a\r\r\nb"), vec!["a\r", "b"]);
}

#[test]
fn trimming_is_as_trim_does_it() {
    for text in SAMPLES {
        assert_eq!(string_of(&trim_chars(&chars_of(text))), text.trim(), "{:?}", text);
        assert_eq!(string_of(&trim_end_chars(&chars_of(text))), text.trim_end(), "{:?}", text);
        assert_eq!(all_whitespace(&chars_of(text)), text.trim().is_empty(), "{:?}", text);
    }
}

#[test]
fn replacing_is_as_replace_does_it() {
    let cases = [
        ("", "a", "b"),
        ("aaa", "a", "bb"),
        ("aaaa", "aa", "b"),
        ("aaa", "aa", "b"),
        ("**/x/*", "**", ".*"),
        ("a*b**c***", "*", "[^/]*"),
        ("abcabc", "bc", ""),
        ("abc", "abcd", "x"),
        ("abab", "ab", "ab"),
        ("h\u{e9}h\u{e9}", "\u{e9}", "e"),
    ];
    for (text, from, to) in cases {
        let replaced = replace_chars(&chars_of(text), &chars_of(from), &chars_of(to));
        assert_eq!(string_of(&replaced), text.replace(from, to), "{:?} {:?} {:?}", text, from, to);
    }
}

#[test]
fn substrings_are_found_as_contains_finds_them() {
    let cases = [
        ("", ""),
        ("abc", ""),
        ("", "a"),
        ("abc", "abc"),
        ("abc", "bc"),
        ("abc", "cd"),
        ("aab", "ab"),
        ("key=[REDACTED]", "[REDACTED"),
        ("[REDACTE", "[REDACTED"),
    ];
    for (hay, needle) in cases {
        assert_eq!(contains_chars(&chars_of(hay), &chars_of(needle)), hay.contains(needle), "{:?} {:?}", hay, needle);
        assert_eq!(matches_at(&chars_of(hay), &chars_of(needle), 0), hay.starts_with(needle), "{:?} {:?}", hay, needle);
        assert_eq!(same_chars(&chars_of(hay), &chars_of(needle)), hay == needle);
    }
    assert!(matches_at(&chars_of("abc"), &chars_of("bc"), 1));
    assert!(matches_at(&chars_of("abc"), &chars_of(""), 3));
    assert!(!matches_at(&chars_of("abc"), &chars_of(""), 4));
    assert!(!matches_at(&chars_of("abc"), &chars_of("bc"), 2));
}

#[test]
fn characters_are_copied_and_appended() {
    let chars = chars_of("hello");
    assert_eq!(string_of(&copy_range(&chars, 1, 4)), "ell");
    assert_eq!(string_of(&copy_range(&chars, 2, 2)), "");
    assert_eq!(string_of(&copy_range(&chars, 0, 5)), "hello");
    let mut out = chars_of("a");
    extend_chars(&mut out, &chars_of("bc"));
    push_str_chars(&mut out, "d\u{e9}");
    assert_eq!(string_of(&out), "abcd\u{e9}");
    let texts = vec!["a".to_string(), "b".to_string(), "c".to_string()];
    assert_eq!(copy_texts(&texts, 1, 3), vec!["b", "c"]);
    assert!(copy_texts(&texts, 1, 1).is_empty());
}

#[test]
fn numbers_are_written_in_base_ten() {
    for n in [0u64, 1, 9, 10, 11, 99, 100, 101, 12345, 1_000_000, u64::MAX] {
        let mut out = chars_of("n=");
        push_number(&mut out, n);
        assert_eq!(string_of(&out), format!("n={}", n));
    }
}
