//! Which files of a repository are processed: those that the listing of
//! tracked files names and that no exclusion removes.

use crate::matching::{any_glob_matches, matches_any_pattern, text_of};
use crate::paths::{extension_of, path_extension};
use crate::text::{
    all_whitespace, chars_of, extend_chars, is_blank, lemma_text_views_push, lines, rows, split_lines,
    string_of, text_views,
};
use vstd::prelude::*;

verus! {

/// The lines of `ls` that are not blank, in order.
pub open spec fn nonblank(ls: Seq<Seq<char>>) -> Seq<Seq<char>>
    decreases ls.len(),
{
    if ls.len() == 0 {
        Seq::empty()
    } else if is_blank(ls.last()) {
        nonblank(ls.drop_last())
    } else {
        nonblank(ls.drop_last()).push(ls.last())
    }
}

/// The files that a listing names: its lines that are not blank.
pub fn listed_files(listing: &str) -> (files: Vec<String>)
    ensures
        text_views(files@) == nonblank(lines(listing@)),
{
    let chars = chars_of(listing);
    let all = split_lines(&chars);
    let ghost ls = rows(all@);
    let mut files: Vec<String> = Vec::new();
    let mut i: usize = 0;
    assert(ls.take(0) =~= Seq::<Seq<char>>::empty());
    assert(text_views(files@) =~= Seq::<Seq<char>>::empty());
    while i < all.len()
        invariant
            i <= all.len(),
            ls == rows(all@),
            text_views(files@) == nonblank(ls.take(i as int)),
        decreases all.len() - i,
    {
        proof {
            assert(ls.take(i + 1).drop_last() =~= ls.take(i as int));
            assert(ls.take(i + 1).last() == all@[i as int]@);
        }
        if !all_whitespace(&all[i]) {
            let file = string_of(&all[i]);
            proof {
                lemma_text_views_push(files@, file);
            }
            files.push(file);
        }
        i += 1;
    }
    assert(ls.take(all.len() as int) =~= ls);
    files
}

/// The extension of a file as the exclusions write it: with a dot in
/// front, and empty where the file has none.
pub open spec fn dotted_extension(extension: Option<Seq<char>>) -> Seq<char> {
    match extension {
        Some(e) => "."@ + e,
        None => Seq::empty(),
    }
}

/// Puts the dot in front of an extension; no extension gives the empty
/// string.
pub fn dotted(extension: Option<String>) -> (dotted: String)
    ensures
        dotted@ == dotted_extension(text_of(extension)),
{
    match extension {
        Some(e) => {
            let mut out = chars_of(".");
            extend_chars(&mut out, &chars_of(e.as_str()));
            string_of(&out)
        },
        None => String::new(),
    }
}

/// `text` is one of `texts`.
pub open spec fn lists(texts: Seq<String>, text: Seq<char>) -> bool {
    exists|i: int| 0 <= i < texts.len() && (#[trigger] texts[i])@ == text
}

/// Whether `text` is one of `texts`.
pub fn listed(texts: &Vec<String>, text: &String) -> (found: bool)
    ensures
        found == lists(texts@, text@),
{
    let mut i: usize = 0;
    while i < texts.len()
        invariant
            i <= texts.len(),
            forall|k: int| 0 <= k < i ==> (#[trigger] texts@[k])@ != text@,
        decreases texts.len() - i,
    {
        if texts[i] == *text {
            return true;
        }
        i += 1;
    }
    false
}

/// A file is excluded when its extension is among the excluded types or
/// one of the exclusion patterns matches its path.
pub open spec fn is_excluded(file: Seq<char>, types: Seq<String>, patterns: Seq<String>) -> bool {
    lists(types, dotted_extension(path_extension(file))) || any_glob_matches(patterns, file)
}

/// Whether `file` is excluded by its type or by a pattern.
pub fn file_is_excluded(file: &str, types: &Vec<String>, patterns: &Vec<String>) -> (excluded: bool)
    ensures
        excluded == is_excluded(file@, types@, patterns@),
{
    let extension = dotted(extension_of(file));
    if listed(types, &extension) {
        return true;
    }
    matches_any_pattern(patterns, file)
}

/// The files of `files` that are not excluded, in order.
pub open spec fn kept_files(files: Seq<Seq<char>>, types: Seq<String>, patterns: Seq<String>) -> Seq<
    Seq<char>,
>
    decreases files.len(),
{
    if files.len() == 0 {
        Seq::empty()
    } else if is_excluded(files.last(), types, patterns) {
        kept_files(files.drop_last(), types, patterns)
    } else {
        kept_files(files.drop_last(), types, patterns).push(files.last())
    }
}

/// The files to process: those of `files` that no exclusion removes.
pub fn filter_files(files: Vec<String>, types: &Vec<String>, patterns: &Vec<String>) -> (kept: Vec<
    String,
>)
    ensures
        text_views(kept@) == kept_files(text_views(files@), types@, patterns@),
{
    let ghost all = text_views(files@);
    let mut kept: Vec<String> = Vec::new();
    assert(all.take(0) =~= Seq::<Seq<char>>::empty());
    assert(text_views(kept@) =~= Seq::<Seq<char>>::empty());
    for file in it: files.into_iter()
        invariant
            it.seq() == files@,
            all == text_views(files@),
            text_views(kept@) == kept_files(all.take(it.index()), types@, patterns@),
    {
        let ghost i = it.index();
        proof {
            assert(all.take(i + 1).drop_last() =~= all.take(i));
            assert(all.take(i + 1).last() == file@);
        }
        if !file_is_excluded(file.as_str(), types, patterns) {
            proof {
                lemma_text_views_push(kept@, file);
            }
            kept.push(file);
        }
    }
    assert(all.take(all.len() as int) =~= all);
    kept
}

} // verus!
