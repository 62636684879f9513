//! Regular expressions, as the `regex` crate compiles and runs them.

use crate::text::{chars_of, extend_chars, replace_chars, replace_each, string_of};
use regex::{Regex, RegexBuilder};
use vstd::prelude::*;

verus! {

/// What `Regex::replace_all` gives for `haystack` and `replacement` with the
/// regex that `RegexBuilder` compiles from `pattern` under the three flags;
/// `None` where the pattern does not compile.
pub uninterp spec fn regex_replace_all(
    pattern: Seq<char>,
    multi_line: bool,
    dot_matches_new_line: bool,
    case_insensitive: bool,
    haystack: Seq<char>,
    replacement: Seq<char>,
) -> Option<Seq<char>>;

/// Whether the regex that `Regex::new` compiles from `pattern` has a match
/// in `haystack`, as `Regex::is_match` tells; `None` where the pattern does
/// not compile.
pub uninterp spec fn regex_is_match(pattern: Seq<char>, haystack: Seq<char>) -> Option<bool>;

/// The view of an optional string.
pub open spec fn text_of(s: Option<String>) -> Option<Seq<char>> {
    match s {
        Some(s) => Some(s@),
        None => None,
    }
}

/// Compiles `pattern` with `RegexBuilder::build` under the three flags and
/// replaces every match in `haystack` with `Regex::replace_all`. The
/// contract claims only that the outcome is the one that these two always
/// give for the same arguments: no text where the pattern does not
/// compile, else the text with the replacements made.
#[verifier::external_body]
pub(crate) fn replace_all(
    pattern: &str,
    multi_line: bool,
    dot_matches_new_line: bool,
    case_insensitive: bool,
    haystack: &str,
    replacement: &str,
) -> (replaced: Option<String>)
    ensures
        text_of(replaced) == regex_replace_all(
            pattern@,
            multi_line,
            dot_matches_new_line,
            case_insensitive,
            haystack@,
            replacement@,
        ),
{
    let compiled = RegexBuilder::new(pattern)
        .multi_line(multi_line)
        .dot_matches_new_line(dot_matches_new_line)
        .case_insensitive(case_insensitive)
        .build();
    match compiled {
        Ok(re) => Some(re.replace_all(haystack, replacement).into_owned()),
        Err(_) => None,
    }
}

/// Compiles `pattern` with `Regex::new` and asks `Regex::is_match` whether
/// it matches anywhere in `haystack`. The contract claims only that the
/// outcome is the one that these two always give for the same arguments:
/// nothing where the pattern does not compile, else the answer.
#[verifier::external_body]
pub(crate) fn is_match(pattern: &str, haystack: &str) -> (found: Option<bool>)
    ensures
        found == regex_is_match(pattern@, haystack@),
{
    match Regex::new(pattern) {
        Ok(re) => Some(re.is_match(haystack)),
        Err(_) => None,
    }
}

/// The regular expression for a glob: `.*` for `**`, then `[^/]*` for `*`,
/// then `[^/]` for `?`, each over the whole of what the step before made,
/// between `^` and `$`.
pub open spec fn glob_regex(pattern: Seq<char>) -> Seq<char> {
    "^"@ + replace_each(
        replace_each(replace_each(pattern, "**"@, ".*"@), "*"@, "[^/]*"@),
        "?"@,
        "[^/]"@,
    ) + "$"@
}

/// Whether the glob `pattern` matches `path`: what its regular expression
/// finds, and no match where that does not compile.
pub open spec fn glob_matches(pattern: Seq<char>, path: Seq<char>) -> bool {
    glob_found(regex_is_match(glob_regex(pattern), path))
}

/// What a search with a glob's regular expression means: a match where it
/// found one, none where it found none or did not compile.
pub open spec fn glob_found(found: Option<bool>) -> bool {
    match found {
        Some(matched) => matched,
        None => false,
    }
}

/// Tells a match from none after a glob's regular expression was tried.
pub fn glob_outcome(found: Option<bool>) -> (matched: bool)
    ensures
        matched == glob_found(found),
{
    match found {
        Some(matched) => matched,
        None => false,
    }
}

/// The regular expression for the glob `pattern`.
pub fn glob_to_regex(pattern: &str) -> (regex: String)
    ensures
        regex@ == glob_regex(pattern@),
{
    proof {
        reveal_strlit("**");
        reveal_strlit("*");
        reveal_strlit("?");
    }
    let chars = chars_of(pattern);
    let first = replace_chars(&chars, &chars_of("**"), &chars_of(".*"));
    let second = replace_chars(&first, &chars_of("*"), &chars_of("[^/]*"));
    let third = replace_chars(&second, &chars_of("?"), &chars_of("[^/]"));
    let mut out = chars_of("^");
    extend_chars(&mut out, &third);
    extend_chars(&mut out, &chars_of("$"));
    string_of(&out)
}

/// Simple glob pattern matching.
pub fn glob_match(pattern: &str, path: &str) -> (matched: bool)
    ensures
        matched == glob_matches(pattern@, path@),
{
    let regex = glob_to_regex(pattern);
    glob_outcome(is_match(regex.as_str(), path))
}

/// One of `patterns` matches `file`.
pub open spec fn any_glob_matches(patterns: Seq<String>, file: Seq<char>) -> bool {
    exists|i: int| 0 <= i < patterns.len() && glob_matches(#[trigger] patterns[i]@, file)
}

/// Whether a file path matches any of the exclusion patterns.
pub fn matches_any_pattern(patterns: &Vec<String>, file: &str) -> (matched: bool)
    ensures
        matched == any_glob_matches(patterns@, file@),
{
    let mut i: usize = 0;
    while i < patterns.len()
        invariant
            i <= patterns.len(),
            forall|k: int| 0 <= k < i ==> !glob_matches(#[trigger] patterns@[k]@, file@),
        decreases patterns.len() - i,
    {
        if glob_match(patterns[i].as_str(), file) {
            return true;
        }
        i += 1;
    }
    false
}

} // verus!
