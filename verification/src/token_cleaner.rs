//! Sanitizes code before it is chunked: redacts secrets, drops the lines
//! that held them, and strips comments, imports and idle whitespace.

use crate::matching::{regex_replace_all, replace_all};
use crate::text::{
    chars_of, contains_chars, count_tokens_in, extend_chars, has_substring, lines, rows, split_lines,
    string_of, token_count, trim, trim_chars,
};
use vstd::prelude::*;

verus! {

/// The views of a list of patterns, each with its replacement.
pub open spec fn rule_views(rules: Seq<(&'static str, &'static str)>) -> Seq<
    (Seq<char>, Seq<char>),
> {
    Seq::new(rules.len(), |i: int| (rules[i].0@, rules[i].1@))
}

/// The patterns that clean code, each with its replacement: line comments,
/// block comments, console statements, empty lines, trailing spaces, import
/// statements, and runs of line feeds.
pub open spec fn cleaning_patterns() -> Seq<(Seq<char>, Seq<char>)> {
    seq![
        (r"//.*?$"@, ""@),
        (r"/\*[\s\S]*?\*/"@, ""@),
        (r"console\.(log|error|warn|info)\([^)]*\);?"@, ""@),
        (r"^\s*[\r\n]"@, ""@),
        (r" +$"@, ""@),
        (r"^\s*import\s+.*?;?\s*$"@, ""@),
        (r"^\s*\n+"@, "\n"@),
    ]
}

/// The patterns that find secrets, each with its replacement: quoted
/// assignments to key-like names, `.env` assignments, bearer tokens, JWTs,
/// hex digests of 40 and of 64 digits, and long base64 strings.
pub open spec fn secret_patterns() -> Seq<(Seq<char>, Seq<char>)> {
    seq![
        (
            r#"((?:api|stripe|access|auth|client|secret|private|jwt)[_-]?(?:key|secret|token))\s*=\s*["']([^"']+)["']"#@,
            "$1=[REDACTED]"@,
        ),
        (
            r#"^(API[_-]?KEY|API[_-]?SECRET|ACCESS[_-]?TOKEN|AUTH[_-]?TOKEN|CLIENT[_-]?SECRET|DB[_-]?PASSWORD|DATABASE[_-]?PASSWORD|AWS_ACCESS_KEY_ID|AWS_SECRET_ACCESS_KEY|GOOGLE_API_KEY|AZURE_CLIENT_SECRET|DATABASE_URL|MONGO_URI|MYSQL_URL|JWT[_-]?SECRET|SECRET[_-]?KEY|PRIVATE[_-]?KEY)\s*=\s*(?:"[^"]*"|'[^']*'|[^\s#\n]*)"#@,
            "$1=[REDACTED]"@,
        ),
        (r"bearer\s+[a-zA-Z0-9\-._~+\/=]+"@, "bearer [REDACTED]"@),
        (r"eyJ[A-Za-z0-9_\-=]+\.[A-Za-z0-9_\-=]+\.[A-Za-z0-9_\-=.]+"@, "[REDACTED_JWT]"@),
        (r"\b[a-f0-9]{40}\b"@, "[REDACTED_HASH]"@),
        (r"\b[a-f0-9]{64}\b"@, "[REDACTED_HASH]"@),
        (r#"["']([A-Za-z0-9+/]{40,}={0,2})["']"#@, "[REDACTED_BASE64]"@),
    ]
}

/// The patterns that clean code.
pub fn get_cleaning_patterns() -> (rules: Vec<(&'static str, &'static str)>)
    ensures
        rule_views(rules@) == cleaning_patterns(),
{
    let rules = vec![
        (r"//.*?$", ""),
        (r"/\*[\s\S]*?\*/", ""),
        (r"console\.(log|error|warn|info)\([^)]*\);?", ""),
        (r"^\s*[\r\n]", ""),
        (r" +$", ""),
        (r"^\s*import\s+.*?;?\s*$", ""),
        (r"^\s*\n+", "\n"),
    ];
    assert(rule_views(rules@) =~= cleaning_patterns());
    rules
}

/// The patterns that find secrets.
pub fn get_secret_patterns() -> (rules: Vec<(&'static str, &'static str)>)
    ensures
        rule_views(rules@) == secret_patterns(),
{
    let rules = vec![
        (
            r#"((?:api|stripe|access|auth|client|secret|private|jwt)[_-]?(?:key|secret|token))\s*=\s*["']([^"']+)["']"#,
            "$1=[REDACTED]",
        ),
        (
            r#"^(API[_-]?KEY|API[_-]?SECRET|ACCESS[_-]?TOKEN|AUTH[_-]?TOKEN|CLIENT[_-]?SECRET|DB[_-]?PASSWORD|DATABASE[_-]?PASSWORD|AWS_ACCESS_KEY_ID|AWS_SECRET_ACCESS_KEY|GOOGLE_API_KEY|AZURE_CLIENT_SECRET|DATABASE_URL|MONGO_URI|MYSQL_URL|JWT[_-]?SECRET|SECRET[_-]?KEY|PRIVATE[_-]?KEY)\s*=\s*(?:"[^"]*"|'[^']*'|[^\s#\n]*)"#,
            "$1=[REDACTED]",
        ),
        (r"bearer\s+[a-zA-Z0-9\-._~+\/=]+", "bearer [REDACTED]"),
        (r"eyJ[A-Za-z0-9_\-=]+\.[A-Za-z0-9_\-=]+\.[A-Za-z0-9_\-=.]+", "[REDACTED_JWT]"),
        (r"\b[a-f0-9]{40}\b", "[REDACTED_HASH]"),
        (r"\b[a-f0-9]{64}\b", "[REDACTED_HASH]"),
        (r#"["']([A-Za-z0-9+/]{40,}={0,2})["']"#, "[REDACTED_BASE64]"),
    ];
    assert(rule_views(rules@) =~= secret_patterns());
    rules
}

/// Counts the tokens of `text`: its runs of characters that are not
/// whitespace.
pub fn count_tokens(text: &str) -> (tokens: usize)
    ensures
        tokens == token_count(text@),
{
    let chars = chars_of(text);
    count_tokens_in(&chars)
}

/// `text` after one pattern: with every match replaced where the pattern
/// compiles, unchanged where it does not.
pub open spec fn apply_rule(
    text: Seq<char>,
    rule: (Seq<char>, Seq<char>),
    multi_line: bool,
    dot_matches_new_line: bool,
    case_insensitive: bool,
) -> Seq<char> {
    match regex_replace_all(
        rule.0,
        multi_line,
        dot_matches_new_line,
        case_insensitive,
        text,
        rule.1,
    ) {
        Some(replaced) => replaced,
        None => text,
    }
}

/// `text` after each of `rules` in turn.
pub open spec fn apply_rules(
    text: Seq<char>,
    rules: Seq<(Seq<char>, Seq<char>)>,
    multi_line: bool,
    dot_matches_new_line: bool,
    case_insensitive: bool,
) -> Seq<char>
    decreases rules.len(),
{
    if rules.len() == 0 {
        text
    } else {
        apply_rule(
            apply_rules(
                text,
                rules.drop_last(),
                multi_line,
                dot_matches_new_line,
                case_insensitive,
            ),
            rules.last(),
            multi_line,
            dot_matches_new_line,
            case_insensitive,
        )
    }
}

/// The text to go on with after a pattern was tried on `current`: the
/// replaced text where there is one, `current` where the pattern did not
/// compile.
pub fn replaced_or_kept(current: String, replaced: Option<String>) -> (next: String)
    ensures
        next@ == match replaced {
            Some(text) => text@,
            None => current@,
        },
{
    match replaced {
        Some(text) => text,
        None => current,
    }
}

/// Runs `rules` over `code`, one after the other.
fn run_rules(
    code: &str,
    rules: &Vec<(&'static str, &'static str)>,
    multi_line: bool,
    dot_matches_new_line: bool,
    case_insensitive: bool,
) -> (result: String)
    ensures
        result@ == apply_rules(
            code@,
            rule_views(rules@),
            multi_line,
            dot_matches_new_line,
            case_insensitive,
        ),
{
    let mut result: String = code.to_owned();
    let mut i: usize = 0;
    let ghost all = rule_views(rules@);
    assert(all.take(0) =~= Seq::<(Seq<char>, Seq<char>)>::empty());
    while i < rules.len()
        invariant
            i <= rules.len(),
            all == rule_views(rules@),
            result@ == apply_rules(
                code@,
                all.take(i as int),
                multi_line,
                dot_matches_new_line,
                case_insensitive,
            ),
        decreases rules.len() - i,
    {
        let rule = rules[i];
        let replaced = replace_all(
            rule.0,
            multi_line,
            dot_matches_new_line,
            case_insensitive,
            result.as_str(),
            rule.1,
        );
        proof {
            assert(all.take(i + 1).drop_last() =~= all.take(i as int));
            assert(all.take(i + 1).last() == (rule.0@, rule.1@));
        }
        result = replaced_or_kept(result, replaced);
        i += 1;
    }
    assert(all.take(rules.len() as int) =~= all);
    result
}

/// `text` without the whitespace at either end, as a string.
pub fn trimmed(text: &str) -> (result: String)
    ensures
        result@ == trim(text@),
{
    let chars = chars_of(text);
    let kept = trim_chars(&chars);
    string_of(&kept)
}

/// Code without comments, imports, console statements and idle whitespace.
pub open spec fn clean_code_model(code: Seq<char>) -> Seq<char> {
    trim(apply_rules(code, cleaning_patterns(), true, true, false))
}

/// Cleans code by removing comments, imports, console statements and
/// excessive whitespace.
pub fn clean_code(code: &str) -> (cleaned: String)
    ensures
        cleaned@ == clean_code_model(code@),
{
    let rules = get_cleaning_patterns();
    let result = run_rules(code, &rules, true, true, false);
    trimmed(result.as_str())
}

/// Code with each secret replaced by a marker.
pub open spec fn redact_secrets_model(code: Seq<char>) -> Seq<char> {
    apply_rules(code, secret_patterns(), true, false, true)
}

/// Redacts sensitive information from code: API keys, tokens, passwords.
pub fn redact_secrets(code: &str) -> (redacted: String)
    ensures
        redacted@ == redact_secrets_model(code@),
{
    let rules = get_secret_patterns();
    run_rules(code, &rules, true, false, true)
}

/// The lines `ls` joined by single line feeds.
pub open spec fn join_with_feed(ls: Seq<Seq<char>>) -> Seq<char>
    decreases ls.len(),
{
    if ls.len() == 0 {
        Seq::empty()
    } else if ls.len() == 1 {
        ls[0]
    } else {
        join_with_feed(ls.drop_last()) + seq!['\n'] + ls.last()
    }
}

/// The lines of `ls` that hold no redaction marker, in order.
pub open spec fn unredacted(ls: Seq<Seq<char>>) -> Seq<Seq<char>>
    decreases ls.len(),
{
    if ls.len() == 0 {
        Seq::empty()
    } else if has_substring(ls.last(), "[REDACTED"@) {
        unredacted(ls.drop_last())
    } else {
        unredacted(ls.drop_last()).push(ls.last())
    }
}

/// Code without the lines that hold a redaction marker.
pub open spec fn remove_redacted_lines_model(code: Seq<char>) -> Seq<char> {
    join_with_feed(unredacted(lines(code)))
}

/// Removes the lines that hold redacted content.
pub fn remove_redacted_lines(code: &str) -> (kept: String)
    ensures
        kept@ == remove_redacted_lines_model(code@),
{
    let chars = chars_of(code);
    let marker = chars_of("[REDACTED");
    let all = split_lines(&chars);
    let ghost ls = rows(all@);
    let mut out: Vec<char> = Vec::new();
    let mut taken: usize = 0;
    let mut i: usize = 0;
    assert(ls.take(0) =~= Seq::<Seq<char>>::empty());
    while i < all.len()
        invariant
            i <= all.len(),
            ls == rows(all@),
            marker@ == "[REDACTED"@,
            taken == unredacted(ls.take(i as int)).len(),
            taken <= i,
            out@ == join_with_feed(unredacted(ls.take(i as int))),
        decreases all.len() - i,
    {
        proof {
            assert(ls.take(i + 1).drop_last() =~= ls.take(i as int));
            assert(ls.take(i + 1).last() == all@[i as int]@);
        }
        if !contains_chars(&all[i], &marker) {
            let ghost before = unredacted(ls.take(i as int));
            if taken > 0 {
                out.push('\n');
            }
            let ghost fed = out@;
            extend_chars(&mut out, &all[i]);
            proof {
                let after = before.push(all@[i as int]@);
                assert(after.drop_last() =~= before);
                if taken == 0 {
                    assert(out@ =~= all@[i as int]@);
                } else {
                    assert(fed =~= join_with_feed(before) + seq!['\n']);
                }
            }
            taken += 1;
        }
        i += 1;
    }
    assert(ls.take(all.len() as int) =~= ls);
    string_of(&out)
}

/// Code made ready for chunking: secrets redacted, the lines that held
/// them dropped, and what is left cleaned.
pub open spec fn clean_and_redact_model(code: Seq<char>) -> Seq<char> {
    trim(clean_code_model(remove_redacted_lines_model(redact_secrets_model(code))))
}

/// Cleans and redacts code: redacts secrets, removes the lines that hold
/// redacted content, then cleans what is left.
pub fn clean_and_redact(code: &str) -> (cleaned: String)
    ensures
        cleaned@ == clean_and_redact_model(code@),
{
    let redacted = redact_secrets(code);
    let without_redacted_lines = remove_redacted_lines(redacted.as_str());
    let cleaned = clean_code(without_redacted_lines.as_str());
    trimmed(cleaned.as_str())
}

} // verus!
