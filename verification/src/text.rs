//! Character-level text primitives: whitespace, tokens, lines and trimming,
//! each with a mathematical model over `Seq<char>`.

use vstd::prelude::*;

verus! {

/// Whether `c` carries the Unicode `White_Space` property.
pub open spec fn is_whitespace(c: char) -> bool {
    let u = c as u32;
    ||| 0x09 <= u <= 0x0D
    ||| u == 0x20
    ||| u == 0x85
    ||| u == 0xA0
    ||| u == 0x1680
    ||| 0x2000 <= u <= 0x200A
    ||| u == 0x2028
    ||| u == 0x2029
    ||| u == 0x202F
    ||| u == 0x205F
    ||| u == 0x3000
}

/// Executable test for the Unicode `White_Space` property.
pub fn char_is_whitespace(c: char) -> (r: bool)
    ensures
        r == is_whitespace(c),
{
    let u: u32 = c as u32;
    (0x09 <= u && u <= 0x0D) || u == 0x20 || u == 0x85 || u == 0xA0 || u == 0x1680 || (0x2000 <= u
        && u <= 0x200A) || u == 0x2028 || u == 0x2029 || u == 0x202F || u == 0x205F || u == 0x3000
}

/// The characters of `s`, in order.
pub fn chars_of(s: &str) -> (v: Vec<char>)
    ensures
        v@ == s@,
{
    let mut v: Vec<char> = Vec::new();
    for c in it: s.chars()
        invariant
            v@ == it.history(),
    {
        v.push(c);
    }
    assert(v@ =~= s@);
    v
}

/// `String::push`: appends one character to the end of the string.
#[verifier::external_body]
fn push_char(s: &mut String, c: char)
    ensures
        final(s)@ == old(s)@.push(c),
{
    s.push(c);
}

/// The string made of the characters of `v`, in order.
pub fn string_of(v: &Vec<char>) -> (s: String)
    ensures
        s@ == v@,
{
    let mut s = String::new();
    let mut i: usize = 0;
    while i < v.len()
        invariant
            i <= v.len(),
            s@ == v@.take(i as int),
        decreases v.len() - i,
    {
        push_char(&mut s, v[i]);
        assert(v@.take(i + 1) =~= v@.take(i as int).push(v@[i as int]));
        i += 1;
    }
    assert(v@.take(v.len() as int) =~= v@);
    s
}

/// A copy of the characters of `v` from `from` up to, not including, `to`.
pub fn copy_range(v: &Vec<char>, from: usize, to: usize) -> (r: Vec<char>)
    requires
        from <= to <= v.len(),
    ensures
        r@ == v@.subrange(from as int, to as int),
{
    let mut r: Vec<char> = Vec::new();
    let mut i: usize = from;
    while i < to
        invariant
            from <= i <= to <= v.len(),
            r@ == v@.subrange(from as int, i as int),
        decreases to - i,
    {
        r.push(v[i]);
        assert(v@.subrange(from as int, i + 1) =~= v@.subrange(from as int, i as int).push(
            v@[i as int],
        ));
        i += 1;
    }
    r
}

/// Appends the characters of `src` to `dst`.
pub fn extend_chars(dst: &mut Vec<char>, src: &Vec<char>)
    ensures
        final(dst)@ == old(dst)@ + src@,
{
    let mut i: usize = 0;
    while i < src.len()
        invariant
            i <= src.len(),
            dst@ == old(dst)@ + src@.take(i as int),
        decreases src.len() - i,
    {
        dst.push(src[i]);
        assert(old(dst)@ + src@.take(i + 1) =~= (old(dst)@ + src@.take(i as int)).push(
            src@[i as int],
        ));
        i += 1;
    }
    assert(src@.take(src.len() as int) =~= src@);
}

/// The views of a sequence of character vectors.
pub open spec fn rows(v: Seq<Vec<char>>) -> Seq<Seq<char>> {
    Seq::new(v.len(), |i: int| v[i]@)
}

/// The views of a sequence of strings.
pub open spec fn text_views(texts: Seq<String>) -> Seq<Seq<char>> {
    Seq::new(texts.len(), |i: int| texts[i]@)
}

/// The views of a sequence with one more string are its views with one more.
pub proof fn lemma_text_views_push(texts: Seq<String>, text: String)
    ensures
        text_views(texts.push(text)) == text_views(texts).push(text@),
{
    assert(text_views(texts.push(text)) =~= text_views(texts).push(text@));
}

/// A text is blank when every character of it is whitespace.
pub open spec fn is_blank(s: Seq<char>) -> bool {
    forall|i: int| 0 <= i < s.len() ==> is_whitespace(#[trigger] s[i])
}

/// Whether `v` holds nothing but whitespace.
pub fn all_whitespace(v: &Vec<char>) -> (r: bool)
    ensures
        r == is_blank(v@),
{
    let mut i: usize = 0;
    while i < v.len()
        invariant
            i <= v.len(),
            forall|j: int| 0 <= j < i ==> is_whitespace(#[trigger] v@[j]),
        decreases v.len() - i,
    {
        if !char_is_whitespace(v[i]) {
            return false;
        }
        i += 1;
    }
    true
}

/// Position `i` of `s` opens a token: a character that is not whitespace
/// and that stands first or follows whitespace.
pub open spec fn starts_token(s: Seq<char>, i: int) -> bool {
    !is_whitespace(s[i]) && (i == 0 || is_whitespace(s[i - 1]))
}

/// The number of tokens of `s`: its maximal runs of characters that are not
/// whitespace.
pub open spec fn token_count(s: Seq<char>) -> nat
    decreases s.len(),
{
    if s.len() == 0 {
        0
    } else {
        token_count(s.drop_last()) + if starts_token(s, s.len() - 1) {
            1nat
        } else {
            0nat
        }
    }
}

/// Twice the tokens of a text fit in its length, plus one where the text
/// does not end in whitespace.
pub proof fn lemma_token_count_bound(s: Seq<char>)
    ensures
        2 * token_count(s) <= s.len() + if s.len() > 0 && !is_whitespace(s.last()) {
            1int
        } else {
            0int
        },
    decreases s.len(),
{
    if s.len() > 0 {
        lemma_token_count_bound(s.drop_last());
    }
}

/// Tokens add up over a concatenation whose left part is empty or ends in
/// whitespace.
pub proof fn lemma_token_count_concat(a: Seq<char>, b: Seq<char>)
    requires
        a.len() == 0 || is_whitespace(a.last()),
    ensures
        token_count(a + b) == token_count(a) + token_count(b),
    decreases b.len(),
{
    if b.len() == 0 {
        assert(a + b =~= a);
    } else {
        assert((a + b).drop_last() =~= a + b.drop_last());
        lemma_token_count_concat(a, b.drop_last());
        assert(starts_token(a + b, (a + b).len() - 1) == starts_token(b, b.len() - 1));
    }
}

/// A blank text has no token.
proof fn lemma_blank_has_no_token(s: Seq<char>)
    requires
        is_blank(s),
    ensures
        token_count(s) == 0,
    decreases s.len(),
{
    if s.len() > 0 {
        assert(is_whitespace(s[s.len() - 1]));
        assert forall|i: int| 0 <= i < s.drop_last().len() implies is_whitespace(
            #[trigger] s.drop_last()[i],
        ) by {
            assert(s.drop_last()[i] == s[i]);
        }
        lemma_blank_has_no_token(s.drop_last());
    }
}

/// A text that is not blank has a token.
proof fn lemma_not_blank_has_token(s: Seq<char>)
    requires
        !is_blank(s),
    ensures
        token_count(s) > 0,
    decreases s.len(),
{
    if s.len() > 0 {
        let p = s.drop_last();
        if is_blank(p) {
            lemma_blank_has_no_token(p);
            if is_whitespace(s.last()) {
                assert forall|i: int| 0 <= i < s.len() implies is_whitespace(#[trigger] s[i]) by {
                    if i < s.len() - 1 {
                        assert(p[i] == s[i]);
                    }
                }
            } else {
                if s.len() >= 2 {
                    assert(p[s.len() - 2] == s[s.len() - 2]);
                }
            }
        } else {
            lemma_not_blank_has_token(p);
        }
    }
}

/// A text is blank exactly when it has no token.
pub proof fn blank_iff_no_token(s: Seq<char>)
    ensures
        is_blank(s) <==> token_count(s) == 0,
{
    if is_blank(s) {
        lemma_blank_has_no_token(s);
    } else {
        lemma_not_blank_has_token(s);
    }
}

/// The number of tokens of `v`.
pub fn count_tokens_in(v: &Vec<char>) -> (n: usize)
    ensures
        n == token_count(v@),
{
    let mut n: usize = 0;
    let mut after_space: bool = true;
    let mut i: usize = 0;
    while i < v.len()
        invariant
            i <= v.len(),
            n == token_count(v@.take(i as int)),
            n <= i,
            after_space == (i == 0 || is_whitespace(v@[i - 1])),
        decreases v.len() - i,
    {
        let space = char_is_whitespace(v[i]);
        proof {
            let t = v@.take(i + 1);
            assert(t.drop_last() =~= v@.take(i as int));
            assert(starts_token(t, i as int) == starts_token(v@, i as int));
        }
        if !space && after_space {
            n += 1;
        }
        after_space = space;
        i += 1;
    }
    assert(v@.take(v.len() as int) =~= v@);
    n
}

/// A text is open when it is not empty and does not end in a line feed: its
/// last line is still being written.
pub open spec fn ends_open(s: Seq<char>) -> bool {
    s.len() > 0 && s.last() != '\n'
}

/// `l` without one carriage return at its end, where it has one.
pub open spec fn strip_cr(l: Seq<char>) -> Seq<char> {
    if l.len() > 0 && l.last() == '\r' {
        l.drop_last()
    } else {
        l
    }
}

/// The lines of `s`. A line ends at a line feed, which is dropped, and so is
/// one carriage return right before it. What follows the last line feed is
/// a line of its own unless it is empty, and keeps a carriage return at its
/// end.
pub open spec fn lines(s: Seq<char>) -> Seq<Seq<char>>
    decreases s.len(),
{
    if s.len() == 0 {
        Seq::empty()
    } else {
        let before = lines(s.drop_last());
        let c = s.last();
        if ends_open(s.drop_last()) {
            if c == '\n' {
                before.drop_last().push(strip_cr(before.last()))
            } else {
                before.drop_last().push(before.last().push(c))
            }
        } else {
            if c == '\n' {
                before.push(Seq::empty())
            } else {
                before.push(seq![c])
            }
        }
    }
}

/// An open text has a last line, and no line holds a line feed.
pub proof fn lemma_lines_shape(s: Seq<char>)
    ensures
        ends_open(s) ==> lines(s).len() > 0,
        forall|i: int, j: int|
            0 <= i < lines(s).len() && 0 <= j < lines(s)[i].len() ==> #[trigger] lines(s)[i][j]
                != '\n',
    decreases s.len(),
{
    if s.len() > 0 {
        lemma_lines_shape(s.drop_last());
    }
}

/// A text that is not empty has a line.
pub proof fn lemma_lines_nonempty(s: Seq<char>)
    requires
        s.len() > 0,
    ensures
        lines(s).len() > 0,
{
    lemma_lines_shape(s.drop_last());
}

/// The lines of `v`, as `lines` gives them.
pub fn split_lines(v: &Vec<char>) -> (r: Vec<Vec<char>>)
    ensures
        rows(r@) == lines(v@),
{
    let mut done: Vec<Vec<char>> = Vec::new();
    let mut cur: Vec<char> = Vec::new();
    let mut open: bool = false;
    let mut i: usize = 0;
    while i < v.len()
        invariant
            i <= v.len(),
            open == ends_open(v@.take(i as int)),
            !open ==> cur@.len() == 0,
            lines(v@.take(i as int)) == if open {
                rows(done@).push(cur@)
            } else {
                rows(done@)
            },
        decreases v.len() - i,
    {
        let c = v[i];
        proof {
            let t = v@.take(i + 1);
            assert(t.drop_last() =~= v@.take(i as int));
            assert(t.last() == c);
        }
        let ghost before = rows(done@);
        let ghost was = cur@;
        let ghost was_open = open;
        if c == '\n' {
            if open {
                let n = cur.len();
                if n > 0 && cur[n - 1] == '\r' {
                    cur.pop();
                }
                assert(cur@ =~= strip_cr(was));
            }
            done.push(cur);
            cur = Vec::new();
            open = false;
            proof {
                let t = v@.take(i + 1);
                assert(rows(done@) =~= before.push(strip_cr(was)));
                if was_open {
                    assert(before.push(was).drop_last() =~= before);
                    assert(before.push(was).last() == was);
                    assert(lines(t) == before.push(strip_cr(was)));
                } else {
                    assert(strip_cr(was) =~= Seq::<char>::empty());
                    assert(lines(t) == before.push(Seq::<char>::empty()));
                }
            }
        } else {
            cur.push(c);
            open = true;
            proof {
                let t = v@.take(i + 1);
                assert(rows(done@) == before);
                if was_open {
                    assert(before.push(was).drop_last() =~= before);
                    assert(before.push(was).last() == was);
                    assert(lines(t) == before.push(was.push(c)));
                } else {
                    assert(cur@ =~= seq![c]);
                    assert(lines(t) == before.push(seq![c]));
                }
            }
        }
        i += 1;
    }
    if open {
        done.push(cur);
    }
    assert(v@.take(v.len() as int) =~= v@);
    done
}

/// `s` without the whitespace at its start.
pub open spec fn trim_start(s: Seq<char>) -> Seq<char>
    decreases s.len(),
{
    if s.len() > 0 && is_whitespace(s[0]) {
        trim_start(s.drop_first())
    } else {
        s
    }
}

/// `s` without the whitespace at its end.
pub open spec fn trim_end(s: Seq<char>) -> Seq<char>
    decreases s.len(),
{
    if s.len() > 0 && is_whitespace(s.last()) {
        trim_end(s.drop_last())
    } else {
        s
    }
}

/// `s` without the whitespace at its start and at its end.
pub open spec fn trim(s: Seq<char>) -> Seq<char> {
    trim_end(trim_start(s))
}

/// The characters of `v` without the whitespace at either end.
pub fn trim_chars(v: &Vec<char>) -> (r: Vec<char>)
    ensures
        r@ == trim(v@),
{
    let n = v.len();
    let mut from: usize = 0;
    assert(v@.skip(0) =~= v@);
    while from < n && char_is_whitespace(v[from])
        invariant
            n == v.len(),
            from <= n,
            trim_start(v@) == trim_start(v@.skip(from as int)),
        decreases n - from,
    {
        assert(v@.skip(from as int).drop_first() =~= v@.skip(from + 1));
        from += 1;
    }
    let ghost rest = v@.skip(from as int);
    assert(trim_start(rest) == rest);
    let mut to: usize = n;
    assert(rest =~= v@.subrange(from as int, to as int));
    while to > from && char_is_whitespace(v[to - 1])
        invariant
            n == v.len(),
            from <= to <= n,
            trim_end(rest) == trim_end(v@.subrange(from as int, to as int)),
        decreases to,
    {
        assert(v@.subrange(from as int, to as int).drop_last() =~= v@.subrange(
            from as int,
            to - 1,
        ));
        to -= 1;
    }
    assert(trim_end(v@.subrange(from as int, to as int)) == v@.subrange(from as int, to as int));
    copy_range(v, from, to)
}

/// `needle` stands in `hay` at position `i`.
pub open spec fn occurs_at(hay: Seq<char>, needle: Seq<char>, i: int) -> bool {
    0 <= i && i + needle.len() <= hay.len() && hay.subrange(i, i + needle.len()) == needle
}

/// `needle` stands somewhere in `hay`.
pub open spec fn has_substring(hay: Seq<char>, needle: Seq<char>) -> bool {
    exists|i: int| occurs_at(hay, needle, i)
}

/// Whether `needle` stands in `hay` at position `i`.
pub fn matches_at(hay: &Vec<char>, needle: &Vec<char>, i: usize) -> (r: bool)
    ensures
        r == occurs_at(hay@, needle@, i as int),
{
    if needle.len() > hay.len() || i > hay.len() - needle.len() {
        return false;
    }
    let mut k: usize = 0;
    while k < needle.len()
        invariant
            k <= needle.len(),
            i + needle.len() <= hay.len(),
            forall|j: int| 0 <= j < k ==> hay@[i + j] == needle@[j],
        decreases needle.len() - k,
    {
        if hay[i + k] != needle[k] {
            assert(hay@.subrange(i as int, i + needle.len())[k as int] != needle@[k as int]);
            return false;
        }
        k += 1;
    }
    assert(hay@.subrange(i as int, i + needle.len()) =~= needle@);
    true
}

/// Whether `needle` stands somewhere in `hay`.
pub fn contains_chars(hay: &Vec<char>, needle: &Vec<char>) -> (r: bool)
    ensures
        r == has_substring(hay@, needle@),
{
    let mut i: usize = 0;
    while i < hay.len()
        invariant
            i <= hay.len(),
            forall|j: int| 0 <= j < i ==> !occurs_at(hay@, needle@, j),
        decreases hay.len() - i,
    {
        if matches_at(hay, needle, i) {
            return true;
        }
        i += 1;
    }
    matches_at(hay, needle, i)
}

/// `s` with `to` in place of each occurrence of `from`, found from left to
/// right and never overlapping. An empty `from` leaves `s` as it is.
pub open spec fn replace_each(s: Seq<char>, from: Seq<char>, to: Seq<char>) -> Seq<char>
    decreases s.len(),
{
    if from.len() == 0 || s.len() < from.len() {
        s
    } else if occurs_at(s, from, 0) {
        to + replace_each(s.skip(from.len() as int), from, to)
    } else {
        seq![s[0]] + replace_each(s.skip(1), from, to)
    }
}

/// The characters of `v` with `to` in place of each occurrence of `from`.
pub fn replace_chars(v: &Vec<char>, from: &Vec<char>, to: &Vec<char>) -> (r: Vec<char>)
    requires
        from.len() > 0,
    ensures
        r@ == replace_each(v@, from@, to@),
{
    let mut out: Vec<char> = Vec::new();
    let n = v.len();
    let mut i: usize = 0;
    assert(v@.skip(0) =~= v@);
    assert(out@ + replace_each(v@, from@, to@) =~= replace_each(v@, from@, to@));
    while i < n
        invariant
            n == v.len(),
            i <= n,
            from.len() > 0,
            out@ + replace_each(v@.skip(i as int), from@, to@) == replace_each(v@, from@, to@),
        decreases n - i,
    {
        let ghost rest = v@.skip(i as int);
        let ghost before = out@;
        let here = matches_at(v, from, i);
        proof {
            assert(occurs_at(v@, from@, i as int) == occurs_at(rest, from@, 0)) by {
                if i + from.len() <= n {
                    assert(v@.subrange(i as int, i + from.len()) =~= rest.subrange(
                        0,
                        from.len() as int,
                    ));
                }
            }
        }
        if here {
            extend_chars(&mut out, to);
            proof {
                let after = replace_each(v@.skip(i + from.len()), from@, to@);
                assert(rest.skip(from.len() as int) =~= v@.skip(i + from.len()));
                assert((before + to@) + after =~= before + (to@ + after));
            }
            i += from.len();
        } else {
            out.push(v[i]);
            proof {
                assert(rest.skip(1) =~= v@.skip(i + 1));
                if rest.len() < from.len() {
                    // what is left is shorter than `from`: it stays as it is
                    lemma_replace_each_short(rest.skip(1), from@, to@);
                    assert(seq![rest[0]] + rest.skip(1) =~= rest);
                }
                let after = replace_each(v@.skip(i + 1), from@, to@);
                assert(before.push(v@[i as int]) + after =~= before + (seq![rest[0]] + after));
            }
            i += 1;
        }
    }
    assert(out@ + Seq::<char>::empty() =~= out@);
    out
}

/// A text shorter than `from` holds no occurrence of it.
pub proof fn lemma_replace_each_short(s: Seq<char>, from: Seq<char>, to: Seq<char>)
    requires
        s.len() < from.len(),
    ensures
        replace_each(s, from, to) == s,
{
}

/// The characters of `v` without the whitespace at the end.
pub fn trim_end_chars(v: &Vec<char>) -> (r: Vec<char>)
    ensures
        r@ == trim_end(v@),
{
    let mut to: usize = v.len();
    assert(v@ =~= v@.subrange(0, to as int));
    while to > 0 && char_is_whitespace(v[to - 1])
        invariant
            to <= v.len(),
            trim_end(v@) == trim_end(v@.subrange(0, to as int)),
        decreases to,
    {
        assert(v@.subrange(0, to as int).drop_last() =~= v@.subrange(0, to - 1));
        to -= 1;
    }
    assert(trim_end(v@.subrange(0, to as int)) == v@.subrange(0, to as int));
    copy_range(v, 0, to)
}

/// Appends the characters of `s` to `dst`.
pub fn push_str_chars(dst: &mut Vec<char>, s: &str)
    ensures
        final(dst)@ == old(dst)@ + s@,
{
    let chars = chars_of(s);
    extend_chars(dst, &chars);
}

/// Whether the characters of `a` are those of `b`.
pub fn same_chars(a: &Vec<char>, b: &Vec<char>) -> (same: bool)
    ensures
        same == (a@ == b@),
{
    if a.len() != b.len() {
        return false;
    }
    let same = matches_at(a, b, 0);
    proof {
        assert(a@.subrange(0, a@.len() as int) =~= a@);
    }
    same
}

/// Copies of the texts from `from` up to, not including, `to`.
pub fn copy_texts(texts: &Vec<String>, from: usize, to: usize) -> (copy: Vec<String>)
    requires
        from <= to <= texts.len(),
    ensures
        text_views(copy@) == text_views(texts@).subrange(from as int, to as int),
{
    let mut copy: Vec<String> = Vec::new();
    let mut i: usize = from;
    assert(text_views(copy@) =~= text_views(texts@).subrange(from as int, i as int));
    while i < to
        invariant
            from <= i <= to <= texts.len(),
            text_views(copy@) == text_views(texts@).subrange(from as int, i as int),
        decreases to - i,
    {
        let text = texts[i].clone();
        proof {
            lemma_text_views_push(copy@, text);
            assert(text_views(texts@)[i as int] == text@);
            assert(text_views(texts@).subrange(from as int, i as int).push(text@) =~= text_views(
                texts@,
            ).subrange(from as int, i + 1));
        }
        copy.push(text);
        i += 1;
    }
    copy
}

/// The character that writes the digit `d`.
pub open spec fn digit_char(d: nat) -> char {
    if d == 0 {
        '0'
    } else if d == 1 {
        '1'
    } else if d == 2 {
        '2'
    } else if d == 3 {
        '3'
    } else if d == 4 {
        '4'
    } else if d == 5 {
        '5'
    } else if d == 6 {
        '6'
    } else if d == 7 {
        '7'
    } else if d == 8 {
        '8'
    } else {
        '9'
    }
}

/// The number `n` written in base ten, without leading zeros.
pub open spec fn decimal_text(n: nat) -> Seq<char>
    decreases n,
{
    if n < 10 {
        seq![digit_char(n)]
    } else {
        decimal_text(n / 10).push(digit_char(n % 10))
    }
}

/// The character that writes a digit.
fn digit_of(d: u64) -> (c: char)
    requires
        d < 10,
    ensures
        c == digit_char(d as nat),
{
    if d == 0 {
        '0'
    } else if d == 1 {
        '1'
    } else if d == 2 {
        '2'
    } else if d == 3 {
        '3'
    } else if d == 4 {
        '4'
    } else if d == 5 {
        '5'
    } else if d == 6 {
        '6'
    } else if d == 7 {
        '7'
    } else if d == 8 {
        '8'
    } else {
        '9'
    }
}

/// Appends the number `n`, written in base ten, to `dst`.
pub fn push_number(dst: &mut Vec<char>, n: u64)
    ensures
        final(dst)@ == old(dst)@ + decimal_text(n as nat),
    decreases n,
{
    if n < 10 {
        dst.push(digit_of(n));
        assert(dst@ =~= old(dst)@ + decimal_text(n as nat));
    } else {
        push_number(dst, n / 10);
        dst.push(digit_of(n % 10));
        assert(dst@ =~= old(dst)@ + decimal_text(n as nat));
    }
}

} // verus!
