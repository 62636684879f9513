use toak_rs::text::{chars_of, string_of};
use toak_rs::token_cleaner::{
    clean_and_redact, clean_code, count_tokens, get_cleaning_patterns, get_secret_patterns,
    redact_secrets, remove_redacted_lines, replaced_or_kept, trimmed,
};

#[test]
fn test_count_tokens() {
    assert_eq!(count_tokens("hello world"), 2);
    assert_eq!(count_tokens("one two three four"), 4);
}

#[test]
fn test_clean_comments() {
    let code = "let x = 1; // this is a comment\nlet y = 2;";
    let cleaned = clean_code(code);
    // After removing comments, the line should be "let x = 1; \n"
    assert!(!cleaned.contains("comment"), "Result: {}", cleaned);
    assert!(cleaned.contains("let x"), "Result: {}", cleaned);
}

#[test]
fn test_redact_api_key() {
    let code = r#"const API_KEY="sk-1234567890abcdef""#;
    let redacted = redact_secrets(code);
    assert!(redacted.contains("[REDACTED]"), "Result: {}", redacted);
}

#[test]
fn test_clean_and_redact() {
    let code = r#"
        // API endpoint
        const API_KEY = "secret-key-123";
        console.log("test");
        "#;
    let result = clean_and_redact(code);
    // Just check basic cleaning happens - full matching isn't critical for tests
    assert!(
        !result.contains("//"),
        "Comments should be removed. Result: {}",
        result
    );
}

#[test]
fn tokens_are_runs_between_whitespace() {
    assert_eq!(count_tokens(""), 0);
    assert_eq!(count_tokens("   \n\t"), 0);
    assert_eq!(count_tokens("  a\tb\nc  "), 3);
    assert_eq!(count_tokens("a\u{00A0}b\u{3000}c"), 3);
    assert_eq!(count_tokens("a\u{200B}b"), 1);
    assert_eq!(count_tokens("x"), 1);
}

#[test]
fn characters_round_trip_through_strings() {
    let chars = chars_of("h\u{e9}llo \u{1F600}");
    assert_eq!(chars, vec!['h', '\u{e9}', 'l', 'l', 'o', ' ', '\u{1F600}']);
    assert_eq!(string_of(&chars), "h\u{e9}llo \u{1F600}");
    assert_eq!(string_of(&vec!['a', 'b']), "ab");
}

#[test]
fn trimmed_drops_whitespace_at_both_ends() {
    assert_eq!(trimmed("  a b \n"), "a b");
    assert_eq!(trimmed("\u{2003}x\u{00A0}"), "x");
    assert_eq!(trimmed("   "), "");
    assert_eq!(trimmed(""), "");
}

#[test]
fn pattern_tables_have_seven_rules_each() {
    let cleaning = get_cleaning_patterns();
    assert_eq!(cleaning.len(), 7);
    assert_eq!(cleaning[0], (r"//.*?$", ""));
    assert_eq!(cleaning[6], (r"^\s*\n+", "\n"));
    let secrets = get_secret_patterns();
    assert_eq!(secrets.len(), 7);
    assert_eq!(secrets[2].1, "bearer [REDACTED]");
    assert_eq!(secrets[3].1, "[REDACTED_JWT]");
}

#[test]
fn replaced_text_wins_over_the_current_one() {
    assert_eq!(replaced_or_kept("old".to_string(), Some("new".to_string())), "new");
    assert_eq!(replaced_or_kept("old".to_string(), None), "old");
}

#[test]
fn clean_code_strips_comments_imports_and_console_calls() {
    assert_eq!(clean_code("let x = 1; // note"), "let x = 1;");
    assert_eq!(clean_code("a /* b\n c */ d"), "a  d");
    assert_eq!(clean_code("import { A } from 'a';"), "");
    assert_eq!(clean_code("console.log(\"x\");\nlet y = 2;"), "let y = 2;");
}

#[test]
fn secrets_are_replaced_by_markers() {
    assert_eq!(redact_secrets("api_key = 'sk-abc123def456'"), "api_key=[REDACTED]");
    assert_eq!(redact_secrets("Authorization: Bearer abc.def"), "Authorization: bearer [REDACTED]");
    assert_eq!(
        redact_secrets("h = 0123456789abcdef0123456789abcdef01234567"),
        "h = [REDACTED_HASH]"
    );
    assert_eq!(redact_secrets("nothing secret here"), "nothing secret here");
}

#[test]
fn lines_with_a_marker_are_dropped() {
    assert_eq!(remove_redacted_lines("a\nkey=[REDACTED]\nb"), "a\nb");
    assert_eq!(remove_redacted_lines("a\r\nb\n"), "a\nb");
    assert_eq!(remove_redacted_lines("[REDACTED_JWT]"), "");
    assert_eq!(remove_redacted_lines("x [REDACTE] y"), "x [REDACTE] y");
    assert_eq!(remove_redacted_lines(""), "");
}

#[test]
fn clean_and_redact_drops_the_secret_line() {
    let code = "let x = 5;\napi_secret = 'secret123';\nlet y = 10; // comment";
    assert_eq!(clean_and_redact(code), "let x = 5;\nlet y = 10;");
}
