//! File paths as git lists them: components with `/` between them.

use crate::matching::text_of;
use crate::text::{chars_of, copy_range, string_of};
use vstd::prelude::*;

verus! {

/// The path without the `/` and the `.` components at its end, which name
/// nothing further.
pub open spec fn without_idle_end(path: Seq<char>) -> Seq<char>
    decreases path.len(),
{
    if path.len() > 0 && path.last() == '/' {
        without_idle_end(path.drop_last())
    } else if path.len() >= 2 && path.last() == '.' && path[path.len() - 2] == '/' {
        without_idle_end(path.drop_last())
    } else {
        path
    }
}

/// What follows the last `/` of the path, or all of it where it has none.
pub open spec fn last_component(path: Seq<char>) -> Seq<char>
    decreases path.len(),
{
    if path.len() == 0 || path.last() == '/' {
        Seq::empty()
    } else {
        last_component(path.drop_last()).push(path.last())
    }
}

/// The name of the file that the path leads to: its last component, unless
/// the path ends in the root, in `.` or in `..`.
pub open spec fn file_name(path: Seq<char>) -> Option<Seq<char>> {
    let name = last_component(without_idle_end(path));
    if name.len() == 0 || name == seq!['.'] || name == seq!['.', '.'] {
        None
    } else {
        Some(name)
    }
}

/// The place of the last `.` in `name`, or `-1` where it has none.
pub open spec fn last_dot(name: Seq<char>) -> int
    decreases name.len(),
{
    if name.len() == 0 {
        -1
    } else if name.last() == '.' {
        name.len() - 1
    } else {
        last_dot(name.drop_last())
    }
}

/// The extension of the file that the path leads to: what follows the last
/// `.` of the file name. A path without a file name has none, nor has a
/// name without a `.` or one whose only `.` stands first.
pub open spec fn path_extension(path: Seq<char>) -> Option<Seq<char>> {
    match file_name(path) {
        Some(name) => if last_dot(name) <= 0 {
            None
        } else {
            Some(name.skip(last_dot(name) + 1))
        },
        None => None,
    }
}

/// The length of the path without its idle end.
fn idle_end(path: &Vec<char>) -> (end: usize)
    ensures
        end <= path.len(),
        path@.take(end as int) == without_idle_end(path@),
{
    let mut end: usize = path.len();
    assert(path@.take(end as int) =~= path@);
    while end > 0 && (path[end - 1] == '/' || (end >= 2 && path[end - 1] == '.' && path[end - 2]
        == '/'))
        invariant
            end <= path.len(),
            without_idle_end(path@) == without_idle_end(path@.take(end as int)),
        decreases end,
    {
        assert(path@.take(end as int).drop_last() =~= path@.take(end - 1));
        end -= 1;
    }
    end
}

/// The place where the last component of the first `end` characters begins.
fn component_start(path: &Vec<char>, end: usize) -> (start: usize)
    requires
        end <= path.len(),
    ensures
        start <= end,
        path@.subrange(start as int, end as int) == last_component(path@.take(end as int)),
{
    let mut start: usize = end;
    let ghost whole = path@.take(end as int);
    while start > 0 && path[start - 1] != '/'
        invariant
            start <= end <= path.len(),
            whole == path@.take(end as int),
            forall|k: int| start <= k < end ==> path@[k] != '/',
        decreases start,
    {
        start -= 1;
    }
    proof {
        lemma_last_component_is_tail(whole, start as int);
        assert(whole.skip(start as int) =~= path@.subrange(start as int, end as int));
    }
    start
}

/// Where no `/` stands from `start` on and one stands right before, or
/// `start` is the beginning, the last component is what stands from `start`
/// on.
proof fn lemma_last_component_is_tail(path: Seq<char>, start: int)
    requires
        0 <= start <= path.len(),
        forall|k: int| start <= k < path.len() ==> path[k] != '/',
        start == 0 || path[start - 1] == '/',
    ensures
        last_component(path) == path.skip(start),
    decreases path.len(),
{
    if path.len() == start {
        assert(path.skip(start) =~= Seq::<char>::empty());
    } else {
        lemma_last_component_is_tail(path.drop_last(), start);
        assert(path.skip(start) =~= path.drop_last().skip(start).push(path.last()));
    }
}

/// The extension of the file that the path leads to.
pub fn extension_of(file: &str) -> (extension: Option<String>)
    ensures
        text_of(extension) == path_extension(file@),
{
    let path = chars_of(file);
    let end = idle_end(&path);
    let start = component_start(&path, end);
    let ghost name = path@.subrange(start as int, end as int);
    let length = end - start;
    if length == 0 {
        return None;
    }
    if length == 1 && path[start] == '.' {
        assert(name =~= seq!['.']);
        return None;
    }
    if length == 2 && path[start] == '.' && path[start + 1] == '.' {
        assert(name =~= seq!['.', '.']);
        return None;
    }
    proof {
        if name == seq!['.'] {
            assert(name.len() == 1 && name[0] == '.');
        }
        if name == seq!['.', '.'] {
            assert(name.len() == 2 && name[0] == '.' && name[1] == '.');
        }
        assert(file_name(file@) == Some(name));
    }
    let mut dot: usize = end;
    assert(name.take(dot - start) =~= name);
    while dot > start && path[dot - 1] != '.'
        invariant
            start <= dot <= end <= path.len(),
            name == path@.subrange(start as int, end as int),
            last_dot(name) == last_dot(name.take(dot - start)),
        decreases dot,
    {
        assert(name.take(dot - start).drop_last() =~= name.take(dot - start - 1));
        dot -= 1;
    }
    proof {
        let head = name.take(dot - start);
        if dot > start {
            assert(head.last() == path@[dot - 1]);
        }
    }
    if dot <= start + 1 {
        // no `.`, or the only one stands first
        return None;
    }
    let extension = copy_range(&path, dot, end);
    assert(extension@ =~= name.skip(dot - start));
    Some(string_of(&extension))
}

} // verus!
