//! Splits text into token-bounded chunks that overlap at their seams.

use crate::text::{
    all_whitespace, chars_of, copy_range, count_tokens_in, ends_open, extend_chars, is_blank,
    lemma_lines_nonempty, lemma_text_views_push, lemma_token_count_bound, lemma_token_count_concat, lines,
    rows, split_lines, string_of, text_views, token_count,
};
use crate::chunk_overlap::{
    begins_with_overlap, chunks_are_made_of_lines, chunks_begin_with_overlap,
    later_chunks_begin_with_overlap, lines_fit, made_of_lines, overlap_links,
};
use vstd::prelude::*;
use vstd::utf8::encode_utf8;

verus! {

/// Configuration for text chunking.
#[derive(Clone, Copy, Debug)]
pub struct ChunkerConfig {
    /// Target size of each chunk, in tokens.
    pub chunk_size: usize,
    /// Tokens carried over from one chunk into the next.
    pub overlap_size: usize,
}

impl Default for ChunkerConfig {
    fn default() -> (config: Self)
        ensures
            config.chunk_size == 800,
            config.overlap_size == 100,
    {
        ChunkerConfig { chunk_size: 800, overlap_size: 100 }
    }
}

/// A chunk of text with its position.
#[derive(Debug, Clone)]
pub struct TextChunk {
    pub content: String,
    /// The line at which the chunk begins, after the lines it took over
    /// from the chunk before; for a text that fits in one chunk, `0`.
    pub start_index: usize,
    /// Line after the last one of the chunk; for a text that fits in one
    /// chunk, its length in bytes.
    pub end_index: usize,
    /// Position of the chunk among the chunks of its text, from `0`.
    pub chunk_index: usize,
}

/// What a `TextChunk` holds, as mathematical values.
pub struct ChunkView {
    pub content: Seq<char>,
    pub start_index: nat,
    pub end_index: nat,
    pub chunk_index: nat,
}

impl View for TextChunk {
    type V = ChunkView;

    open spec fn view(&self) -> ChunkView {
        ChunkView {
            content: self.content@,
            start_index: self.start_index as nat,
            end_index: self.end_index as nat,
            chunk_index: self.chunk_index as nat,
        }
    }
}

/// The views of a sequence of chunks.
pub open spec fn chunk_views(chunks: Seq<TextChunk>) -> Seq<ChunkView> {
    Seq::new(chunks.len(), |i: int| chunks[i]@)
}

/// The slices of a line that holds more tokens than a chunk may. A slice
/// takes `4 * chunk_size` characters, or what is left of the line; where
/// that holds more tokens than a chunk may, it takes half as many
/// characters. A chunk size of zero leaves room for no slice.
pub open spec fn line_slices(line: Seq<char>, chunk_size: nat) -> Seq<Seq<char>>
    decreases line.len(),
{
    if line.len() == 0 || chunk_size == 0 {
        Seq::empty()
    } else {
        let width = 4 * chunk_size;
        let end = if width < line.len() {
            width
        } else {
            line.len()
        };
        let half = if width / 2 >= 1 {
            width / 2
        } else {
            1
        };
        let cut = if token_count(line.take(end as int)) <= chunk_size {
            end
        } else {
            half
        };
        proof {
            lemma_token_count_bound(line.take(end as int));
        }
        seq![line.take(cut as int)] + line_slices(line.skip(cut as int), chunk_size)
    }
}

/// The texts `parts`, one after the other.
pub open spec fn glued(parts: Seq<Seq<char>>) -> Seq<char>
    decreases parts.len(),
{
    if parts.len() == 0 {
        Seq::empty()
    } else {
        parts[0] + glued(parts.drop_first())
    }
}

/// The slices of a line are not empty, none holds more tokens than a chunk
/// may, there are no more of them than the line has characters, and one
/// after the other they are the line.
pub proof fn slices_fit_and_make_the_line(line: Seq<char>, chunk_size: nat)
    ensures
        forall|k: int|
            0 <= k < line_slices(line, chunk_size).len() ==> (#[trigger] line_slices(
                line,
                chunk_size,
            )[k]).len() > 0 && token_count(line_slices(line, chunk_size)[k]) <= chunk_size,
        line_slices(line, chunk_size).len() <= line.len(),
        chunk_size > 0 ==> glued(line_slices(line, chunk_size)) == line,
        chunk_size > 0 && line.len() > 0 ==> line_slices(line, chunk_size).len() > 0,
    decreases line.len(),
{
    if line.len() == 0 || chunk_size == 0 {
        assert(glued(Seq::<Seq<char>>::empty()) =~= Seq::<char>::empty());
        assert(line.len() == 0 ==> line =~= Seq::<char>::empty());
    } else {
        let width = 4 * chunk_size;
        let end = if width < line.len() {
            width
        } else {
            line.len()
        };
        let cut = if token_count(line.take(end as int)) <= chunk_size {
            end
        } else {
            2 * chunk_size
        };
        lemma_token_count_bound(line.take(end as int));
        lemma_token_count_bound(line.take(cut as int));
        let first = line.take(cut as int);
        let rest = line_slices(line.skip(cut as int), chunk_size);
        let all = line_slices(line, chunk_size);
        assert(all == seq![first] + rest);
        slices_fit_and_make_the_line(line.skip(cut as int), chunk_size);
        assert forall|k: int| 0 <= k < all.len() implies (#[trigger] all[k]).len() > 0
            && token_count(all[k]) <= chunk_size by {
            if k > 0 {
                assert(all[k] == rest[k - 1]);
            }
        }
        assert(all.drop_first() =~= rest);
        assert(first + line.skip(cut as int) =~= line);
    }
}

/// The lines `ls`, each followed by a line feed, one after the other.
pub open spec fn join_lines(ls: Seq<Seq<char>>) -> Seq<char>
    decreases ls.len(),
{
    if ls.len() == 0 {
        Seq::empty()
    } else {
        join_lines(ls.drop_last()) + ls.last().push('\n')
    }
}

/// The tokens of all lines of `ls` together.
pub open spec fn line_tokens(ls: Seq<Seq<char>>) -> nat
    decreases ls.len(),
{
    if ls.len() == 0 {
        0
    } else {
        line_tokens(ls.drop_last()) + token_count(ls.last())
    }
}

/// The longest run of lines at the end of `ls` whose tokens together fit
/// in `budget`: what a chunk that closes hands on to the next.
pub open spec fn trailing_lines(ls: Seq<Seq<char>>, budget: nat) -> Seq<Seq<char>>
    decreases ls.len(),
{
    if ls.len() == 0 {
        Seq::empty()
    } else {
        let tokens = token_count(ls.last());
        if tokens > budget {
            Seq::empty()
        } else {
            trailing_lines(ls.drop_last(), (budget - tokens) as nat).push(ls.last())
        }
    }
}

/// The chunks `chunks` and after them one more, with the next index.
pub open spec fn close_chunk(
    chunks: Seq<ChunkView>,
    content: Seq<char>,
    start: nat,
    end: nat,
) -> Seq<ChunkView> {
    chunks.push(
        ChunkView { content, start_index: start, end_index: end, chunk_index: chunks.len() },
    )
}

/// One chunk for each slice of line `line_idx`, indexed from `base` on.
pub open spec fn slice_chunks(slices: Seq<Seq<char>>, line_idx: nat, base: nat) -> Seq<ChunkView> {
    Seq::new(
        slices.len(),
        |k: int|
            ChunkView {
                content: slices[k],
                start_index: line_idx,
                end_index: line_idx + 1,
                chunk_index: (base + k) as nat,
            },
    )
}

/// Where the chunker stands between two lines.
pub struct Packing {
    /// The chunks closed so far.
    pub chunks: Seq<ChunkView>,
    /// The lines of the chunk being filled, as they stand in the text.
    pub current: Seq<Seq<char>>,
    /// The line at which the chunk being filled began, after what it took
    /// over from the chunk before.
    pub start_line: nat,
}

/// The chunker before the first line.
pub open spec fn packing_start() -> Packing {
    Packing { chunks: Seq::empty(), current: Seq::empty(), start_line: 0 }
}

/// The chunker after it has taken in line `idx`.
///
/// A line with more tokens than a chunk may hold closes the chunk being
/// filled and is cut into slices, each a chunk of its own; nothing is
/// carried over it. Any other line joins the chunk being filled, unless
/// that chunk would then hold too many tokens: then the chunk closes, and
/// the line joins a new one that begins with the overlap, the trailing
/// lines of the closed chunk whose tokens fit in `overlap_size`.
pub open spec fn pack_line(
    st: Packing,
    idx: nat,
    line: Seq<char>,
    chunk_size: nat,
    overlap_size: nat,
) -> Packing {
    let tokens = token_count(line);
    if tokens > chunk_size {
        let closed = if st.current.len() > 0 {
            close_chunk(st.chunks, join_lines(st.current), st.start_line, idx)
        } else {
            st.chunks
        };
        Packing {
            chunks: closed + slice_chunks(line_slices(line, chunk_size), idx, closed.len()),
            current: Seq::empty(),
            start_line: idx + 1,
        }
    } else {
        let full = st.current.len() > 0 && token_count(join_lines(st.current)) + tokens
            > chunk_size;
        Packing {
            chunks: if full {
                close_chunk(st.chunks, join_lines(st.current), st.start_line, idx)
            } else {
                st.chunks
            },
            current: (if full {
                trailing_lines(st.current, overlap_size)
            } else {
                st.current
            }).push(line),
            start_line: if full {
                idx
            } else {
                st.start_line
            },
        }
    }
}

/// The chunker after the first `n` lines of `ls`.
pub open spec fn pack_lines(ls: Seq<Seq<char>>, n: nat, chunk_size: nat, overlap_size: nat) -> Packing
    decreases n,
{
    if n == 0 {
        packing_start()
    } else {
        pack_line(
            pack_lines(ls, (n - 1) as nat, chunk_size, overlap_size),
            (n - 1) as nat,
            ls[n - 1],
            chunk_size,
            overlap_size,
        )
    }
}

/// The chunks once the last of `n` lines is in: the chunk being filled
/// closes if it holds anything.
pub open spec fn packed_chunks(st: Packing, n: nat) -> Seq<ChunkView> {
    if st.current.len() > 0 {
        close_chunk(st.chunks, join_lines(st.current), st.start_line, n)
    } else {
        st.chunks
    }
}

/// The chunks of `text`.
///
/// A blank text has none. A text whose tokens fit in one chunk is that
/// chunk, from `0` to its length in bytes. Any other text is packed line by
/// line.
pub open spec fn chunk_text_model(text: Seq<char>, chunk_size: nat, overlap_size: nat) -> Seq<
    ChunkView,
> {
    if is_blank(text) {
        Seq::empty()
    } else if token_count(text) <= chunk_size {
        seq![
            ChunkView {
                content: text,
                start_index: 0,
                end_index: encode_utf8(text).len(),
                chunk_index: 0,
            },
        ]
    } else {
        let ls = lines(text);
        packed_chunks(pack_lines(ls, ls.len(), chunk_size, overlap_size), ls.len())
    }
}

/// The chunks of `chunks` are numbered `0, 1, 2, ...` in order.
pub open spec fn indexed_in_order(chunks: Seq<ChunkView>) -> bool {
    forall|i: int| 0 <= i < chunks.len() ==> (#[trigger] chunks[i]).chunk_index == i
}

/// However many lines the chunker has taken in, the chunks it has closed
/// are numbered in order.
proof fn lemma_packing_indexed_in_order(
    ls: Seq<Seq<char>>,
    n: nat,
    chunk_size: nat,
    overlap_size: nat,
)
    ensures
        indexed_in_order(pack_lines(ls, n, chunk_size, overlap_size).chunks),
    decreases n,
{
    if n > 0 {
        lemma_packing_indexed_in_order(ls, (n - 1) as nat, chunk_size, overlap_size);
    }
}

/// A text that is not blank and whose tokens fit in one chunk comes back
/// as exactly one chunk, which holds the whole text.
pub proof fn small_text_is_one_chunk(text: Seq<char>, chunk_size: nat, overlap_size: nat)
    requires
        !is_blank(text),
        token_count(text) <= chunk_size,
    ensures
        chunk_text_model(text, chunk_size, overlap_size).len() == 1,
        chunk_text_model(text, chunk_size, overlap_size)[0].content == text,
{
}

/// Once a line is in, the chunker has closed a chunk or is filling one,
/// if a chunk may hold a token at all.
proof fn lemma_packing_holds_text(ls: Seq<Seq<char>>, n: nat, chunk_size: nat, overlap_size: nat)
    requires
        chunk_size > 0,
        1 <= n <= ls.len(),
    ensures
        pack_lines(ls, n, chunk_size, overlap_size).chunks.len() > 0 || pack_lines(
            ls,
            n,
            chunk_size,
            overlap_size,
        ).current.len() > 0,
{
    let line = ls[n - 1];
    if token_count(line) > chunk_size {
        assert(line.len() > 0);
        slices_fit_and_make_the_line(line, chunk_size);
    }
}

/// A blank text has no chunk, whatever the configuration.
pub proof fn blank_text_has_no_chunk(text: Seq<char>, chunk_size: nat, overlap_size: nat)
    requires
        is_blank(text),
    ensures
        chunk_text_model(text, chunk_size, overlap_size).len() == 0,
{
}

/// Where a chunk may hold a token, a text has a chunk exactly when it is
/// not blank.
pub proof fn has_chunk_iff_not_blank(text: Seq<char>, chunk_size: nat, overlap_size: nat)
    requires
        chunk_size > 0,
    ensures
        chunk_text_model(text, chunk_size, overlap_size).len() > 0 <==> !is_blank(text),
{
    if !is_blank(text) && token_count(text) > chunk_size {
        let ls = lines(text);
        lemma_lines_nonempty(text);
        lemma_packing_holds_text(ls, ls.len(), chunk_size, overlap_size);
    }
}

/// The chunks of any text are numbered `0, 1, 2, ...` without a gap.
pub proof fn chunk_indices_are_sequential(text: Seq<char>, chunk_size: nat, overlap_size: nat)
    ensures
        indexed_in_order(chunk_text_model(text, chunk_size, overlap_size)),
{
    let ls = lines(text);
    lemma_packing_indexed_in_order(ls, ls.len(), chunk_size, overlap_size);
}

/// Joined lines are empty or end in a line feed.
pub proof fn lemma_join_lines_closed(ls: Seq<Seq<char>>)
    ensures
        !ends_open(join_lines(ls)),
{
}

/// The tokens of joined lines are the tokens of the lines.
pub proof fn lemma_tokens_of_join(ls: Seq<Seq<char>>)
    ensures
        token_count(join_lines(ls)) == line_tokens(ls),
    decreases ls.len(),
{
    if ls.len() > 0 {
        let init = ls.drop_last();
        let entry = ls.last().push('\n');
        lemma_tokens_of_join(init);
        lemma_join_lines_closed(init);
        lemma_token_count_concat(join_lines(init), entry);
        assert(entry.drop_last() =~= ls.last());
        assert(token_count(entry) == token_count(ls.last()));
    }
}

/// The lines from `k` on hold the tokens of the lines from `k + 1` on and
/// those of line `k`.
pub proof fn lemma_line_tokens_skip(ls: Seq<Seq<char>>, k: int)
    requires
        0 <= k < ls.len(),
    ensures
        line_tokens(ls.skip(k)) == token_count(ls[k]) + line_tokens(ls.skip(k + 1)),
    decreases ls.len() - k,
{
    let tail = ls.skip(k);
    if k == ls.len() - 1 {
        assert(tail.drop_last() =~= Seq::<Seq<char>>::empty());
        assert(ls.skip(k + 1) =~= Seq::<Seq<char>>::empty());
        assert(line_tokens(tail.drop_last()) == 0);
    } else {
        assert(tail.drop_last() =~= ls.drop_last().skip(k));
        assert(ls.skip(k + 1).drop_last() =~= ls.drop_last().skip(k + 1));
        assert(tail.last() == ls.last());
        assert(ls.skip(k + 1).last() == ls.last());
        lemma_line_tokens_skip(ls.drop_last(), k);
        assert(ls.drop_last()[k] == ls[k]);
    }
}

proof fn lemma_rows_push(v: Seq<Vec<char>>, x: Vec<char>)
    ensures
        rows(v.push(x)) == rows(v).push(x@),
{
    assert(rows(v.push(x)) =~= rows(v).push(x@));
}

proof fn lemma_chunk_views_push(v: Seq<TextChunk>, x: TextChunk)
    ensures
        chunk_views(v.push(x)) == chunk_views(v).push(x@),
{
    assert(chunk_views(v.push(x)) =~= chunk_views(v).push(x@));
}

/// Cuts the characters `line` into slices, as `line_slices` gives them.
fn slice_chars(line: &Vec<char>, chunk_size: usize) -> (out: Vec<Vec<char>>)
    ensures
        rows(out@) == line_slices(line@, chunk_size as nat),
{
    let mut out: Vec<Vec<char>> = Vec::new();
    if chunk_size == 0 {
        assert(rows(out@) =~= line_slices(line@, 0));
        return out;
    }
    let n = line.len();
    let width: usize = if chunk_size > usize::MAX / 4 {
        usize::MAX
    } else {
        chunk_size * 4
    };
    let mut start: usize = 0;
    proof {
        assert(line@.skip(0) =~= line@);
        assert(rows(out@) + line_slices(line@, chunk_size as nat) =~= line_slices(
            line@,
            chunk_size as nat,
        ));
    }
    while start < n
        invariant
            n == line.len(),
            start <= n,
            chunk_size > 0,
            width == if 4 * chunk_size <= usize::MAX {
                4 * chunk_size
            } else {
                usize::MAX as int
            },
            rows(out@) + line_slices(line@.skip(start as int), chunk_size as nat) == line_slices(
                line@,
                chunk_size as nat,
            ),
        decreases n - start,
    {
        let ghost rest = line@.skip(start as int);
        let end: usize = if width < n - start {
            start + width
        } else {
            n
        };
        let piece = copy_range(line, start, end);
        let ghost pre = out@;
        assert(rest.take(end - start) =~= piece@);
        let cut: usize = if count_tokens_in(&piece) <= chunk_size {
            proof {
                lemma_rows_push(pre, piece);
            }
            out.push(piece);
            end
        } else {
            proof {
                lemma_token_count_bound(piece@);
            }
            let half: usize = chunk_size * 2;
            let reduced = copy_range(line, start, start + half);
            assert(rest.take(half as int) =~= reduced@);
            proof {
                lemma_rows_push(pre, reduced);
            }
            out.push(reduced);
            start + half
        };
        proof {
            let taken = rest.take(cut - start);
            let after = line_slices(line@.skip(cut as int), chunk_size as nat);
            assert(rows(out@) == rows(pre).push(taken));
            assert(rest.skip(cut - start) =~= line@.skip(cut as int));
            assert(line_slices(rest, chunk_size as nat) == seq![taken] + after);
            assert(rows(pre).push(taken) + after =~= rows(pre) + (seq![taken] + after));
        }
        start = cut;
    }
    assert(rows(out@) + Seq::<Seq<char>>::empty() =~= rows(out@));
    out
}

/// Splits a line that holds more tokens than a chunk may into slices by
/// character count: no slice is empty or holds more tokens than a chunk
/// may, and one after the other they are the line. At a chunk size of zero
/// there is no slice.
pub fn split_large_line(line: &str, config: &ChunkerConfig) -> (out: Vec<String>)
    ensures
        text_views(out@) == line_slices(line@, config.chunk_size as nat),
        forall|k: int|
            0 <= k < out@.len() ==> (#[trigger] out@[k])@.len() > 0 && token_count(out@[k]@)
                <= config.chunk_size,
        out@.len() <= line@.len(),
        config.chunk_size > 0 ==> glued(text_views(out@)) == line@,
        config.chunk_size == 0 ==> out@.len() == 0,
{
    let chars = chars_of(line);
    let pieces = slice_chars(&chars, config.chunk_size);
    let mut out: Vec<String> = Vec::new();
    let mut k: usize = 0;
    assert(text_views(out@) =~= rows(pieces@).take(0));
    while k < pieces.len()
        invariant
            k <= pieces.len(),
            text_views(out@) == rows(pieces@).take(k as int),
        decreases pieces.len() - k,
    {
        let piece = string_of(&pieces[k]);
        proof {
            lemma_text_views_push(out@, piece);
            assert(rows(pieces@).take(k as int).push(piece@) =~= rows(pieces@).take(k + 1));
        }
        out.push(piece);
        k += 1;
    }
    proof {
        assert(rows(pieces@).take(pieces.len() as int) =~= rows(pieces@));
        slices_fit_and_make_the_line(line@, config.chunk_size as nat);
        assert forall|k: int| 0 <= k < out@.len() implies (#[trigger] out@[k])@.len() > 0
            && token_count(out@[k]@) <= config.chunk_size by {
            assert(text_views(out@)[k] == out@[k]@);
        }
    }
    out
}

/// The lines from `from` up to, not including, `to`, each followed by a
/// line feed, one after the other.
fn join_range(lines: &Vec<Vec<char>>, from: usize, to: usize) -> (out: Vec<char>)
    requires
        from <= to <= lines.len(),
    ensures
        out@ == join_lines(rows(lines@).subrange(from as int, to as int)),
{
    let ghost all = rows(lines@);
    let mut out: Vec<char> = Vec::new();
    let mut k: usize = from;
    proof {
        assert(all.subrange(from as int, k as int) =~= Seq::<Seq<char>>::empty());
    }
    while k < to
        invariant
            all == rows(lines@),
            from <= k <= to <= lines.len(),
            out@ == join_lines(all.subrange(from as int, k as int)),
        decreases to - k,
    {
        extend_chars(&mut out, &lines[k]);
        out.push('\n');
        proof {
            let upto = all.subrange(from as int, k + 1);
            assert(upto.drop_last() =~= all.subrange(from as int, k as int));
            assert(upto.last() == lines@[k as int]@);
            assert(out@ =~= join_lines(upto.drop_last()) + upto.last().push('\n'));
        }
        k += 1;
    }
    out
}

/// Where the lines begin that the chunk of the lines from `from` up to `to`
/// hands on, and the tokens they hold.
fn kept_from(lines: &Vec<Vec<char>>, from: usize, to: usize, overlap_size: usize) -> (kept: (
    usize,
    usize,
))
    requires
        from <= to <= lines.len(),
    ensures
        from <= kept.0 <= to,
        rows(lines@).subrange(kept.0 as int, to as int) == trailing_lines(
            rows(lines@).subrange(from as int, to as int),
            overlap_size as nat,
        ),
        kept.1 == line_tokens(rows(lines@).subrange(kept.0 as int, to as int)),
        kept.1 <= overlap_size,
{
    let ghost all = rows(lines@).subrange(from as int, to as int);
    let mut first: usize = to;
    let mut used: usize = 0;
    let mut searching: bool = true;
    proof {
        assert(all.take(first - from) =~= all);
        assert(all.skip(first - from) =~= Seq::<Seq<char>>::empty());
        assert(trailing_lines(all, overlap_size as nat) + Seq::<Seq<char>>::empty()
            =~= trailing_lines(all, overlap_size as nat));
    }
    while searching && first > from
        invariant
            all == rows(lines@).subrange(from as int, to as int),
            from <= first <= to <= lines.len(),
            used <= overlap_size,
            used == line_tokens(all.skip(first - from)),
            trailing_lines(all, overlap_size as nat) == trailing_lines(
                all.take(first - from),
                (overlap_size - used) as nat,
            ) + all.skip(first - from),
            !searching ==> first > from && token_count(all[first - from - 1]) > overlap_size
                - used,
        decreases
                first + if searching {
                    1int
                } else {
                    0int
                },
    {
        let tokens = count_tokens_in(&lines[first - 1]);
        proof {
            assert(all.take(first - from).last() == all[first - from - 1]);
            assert(all[first - from - 1] == lines@[first - 1]@);
        }
        if tokens > overlap_size - used {
            searching = false;
        } else {
            proof {
                let j = first - from;
                let head = all.take(j);
                let budget = (overlap_size - used) as nat;
                let inner = trailing_lines(all.take(j - 1), (budget - tokens) as nat);
                assert(head.drop_last() =~= all.take(j - 1));
                assert(trailing_lines(head, budget) == inner.push(all[j - 1]));
                assert(inner.push(all[j - 1]) + all.skip(j) =~= inner + all.skip(j - 1));
                lemma_line_tokens_skip(all, j - 1);
            }
            used += tokens;
            first -= 1;
        }
    }
    proof {
        assert(trailing_lines(all.take(first - from), (overlap_size - used) as nat)
            =~= Seq::<Seq<char>>::empty()) by {
            if first > from {
                assert(all.take(first - from).last() == all[first - from - 1]);
            }
        }
        assert(Seq::<Seq<char>>::empty() + all.skip(first - from) =~= all.skip(first - from));
        assert(all.skip(first - from) =~= rows(lines@).subrange(first as int, to as int));
    }
    (first, used)
}

/// The chunker at work over the lines of a text: the chunks closed so far,
/// and of the chunk being filled its first line, the line at which it
/// began after what it took over, and its tokens.
struct Packer {
    chunks: Vec<TextChunk>,
    from: usize,
    start_line: usize,
    current_tokens: u128,
}

impl Packer {
    spec fn model(&self, ls: Seq<Seq<char>>, n: nat) -> Packing {
        Packing {
            chunks: chunk_views(self.chunks@),
            current: ls.subrange(self.from as int, n as int),
            start_line: self.start_line as nat,
        }
    }

    spec fn wf(&self, ls: Seq<Seq<char>>, n: nat) -> bool {
        &&& self.from <= n <= ls.len()
        &&& self.current_tokens == line_tokens(ls.subrange(self.from as int, n as int))
        &&& self.current_tokens <= 2 * usize::MAX
    }

    fn new(Ghost(ls): Ghost<Seq<Seq<char>>>) -> (p: Packer)
        ensures
            p.wf(ls, 0),
            p.model(ls, 0) == packing_start(),
    {
        let p = Packer { chunks: Vec::new(), from: 0, start_line: 0, current_tokens: 0 };
        assert(chunk_views(p.chunks@) =~= Seq::<ChunkView>::empty());
        assert(ls.subrange(0, 0) =~= Seq::<Seq<char>>::empty());
        p
    }

    /// Closes a chunk with the given content and line range.
    fn push_chunk(&mut self, content: &Vec<char>, start: usize, end: usize)
        ensures
            chunk_views(final(self).chunks@) == close_chunk(
                chunk_views(old(self).chunks@),
                content@,
                start as nat,
                end as nat,
            ),
            final(self).from == old(self).from,
            final(self).current_tokens == old(self).current_tokens,
            final(self).start_line == old(self).start_line,
    {
        let chunk = TextChunk {
            content: string_of(content),
            start_index: start,
            end_index: end,
            chunk_index: self.chunks.len(),
        };
        proof {
            lemma_chunk_views_push(self.chunks@, chunk);
        }
        self.chunks.push(chunk);
    }

    /// Takes in line `idx`, which holds more tokens than a chunk may.
    fn take_large_line(
        &mut self,
        lines: &Vec<Vec<char>>,
        idx: usize,
        chunk_size: usize,
        overlap_size: usize,
    )
        requires
            idx < lines.len(),
            old(self).wf(rows(lines@), idx as nat),
            token_count(lines@[idx as int]@) > chunk_size,
        ensures
            final(self).wf(rows(lines@), (idx + 1) as nat),
            final(self).model(rows(lines@), (idx + 1) as nat) == pack_line(
                old(self).model(rows(lines@), idx as nat),
                idx as nat,
                lines@[idx as int]@,
                chunk_size as nat,
                overlap_size as nat,
            ),
    {
        let ghost ls = rows(lines@);
        if self.from < idx {
            let content = join_range(lines, self.from, idx);
            self.push_chunk(&content, self.start_line, idx);
        }
        let ghost closed = chunk_views(self.chunks@);
        let pieces = slice_chars(&lines[idx], chunk_size);
        let ghost made = slice_chunks(rows(pieces@), idx as nat, closed.len());
        let mut k: usize = 0;
        assert(closed + made.take(0) =~= closed);
        while k < pieces.len()
            invariant
                k <= pieces.len(),
                idx < lines.len(),
                made == slice_chunks(rows(pieces@), idx as nat, closed.len()),
                chunk_views(self.chunks@) == closed + made.take(k as int),
            decreases pieces.len() - k,
        {
            self.push_chunk(&pieces[k], idx, idx + 1);
            assert(chunk_views(self.chunks@) =~= closed + made.take(k + 1));
            k += 1;
        }
        assert(made.take(pieces.len() as int) =~= made);
        self.from = idx + 1;
        self.current_tokens = 0;
        self.start_line = idx + 1;
        assert(ls.subrange(idx + 1, idx + 1) =~= Seq::<Seq<char>>::empty());
    }

    /// Takes in line `idx`, whose tokens fit in a chunk.
    fn take_line(
        &mut self,
        lines: &Vec<Vec<char>>,
        idx: usize,
        line_tokens: usize,
        chunk_size: usize,
        overlap_size: usize,
    )
        requires
            idx < lines.len(),
            old(self).wf(rows(lines@), idx as nat),
            line_tokens == token_count(lines@[idx as int]@),
            line_tokens <= chunk_size,
        ensures
            final(self).wf(rows(lines@), (idx + 1) as nat),
            final(self).model(rows(lines@), (idx + 1) as nat) == pack_line(
                old(self).model(rows(lines@), idx as nat),
                idx as nat,
                lines@[idx as int]@,
                chunk_size as nat,
                overlap_size as nat,
            ),
    {
        let ghost ls = rows(lines@);
        let ghost before = ls.subrange(self.from as int, idx as int);
        proof {
            lemma_tokens_of_join(before);
        }
        let room: usize = chunk_size - line_tokens;
        if self.from < idx && self.current_tokens > room as u128 {
            let content = join_range(lines, self.from, idx);
            self.push_chunk(&content, self.start_line, idx);
            let kept = kept_from(lines, self.from, idx, overlap_size);
            self.from = kept.0;
            self.current_tokens = kept.1 as u128;
            self.start_line = idx;
        }
        proof {
            let base = ls.subrange(self.from as int, idx as int);
            let grown = ls.subrange(self.from as int, idx + 1);
            assert(grown =~= base.push(ls[idx as int]));
            assert(grown.drop_last() =~= base);
        }
        self.current_tokens = self.current_tokens + line_tokens as u128;
    }

    /// Closes the chunk being filled, if it holds anything, after all lines.
    fn finish(self, lines: &Vec<Vec<char>>) -> (chunks: Vec<TextChunk>)
        requires
            self.wf(rows(lines@), lines@.len()),
        ensures
            chunk_views(chunks@) == packed_chunks(
                self.model(rows(lines@), lines@.len()),
                lines@.len(),
            ),
    {
        let mut packer = self;
        if packer.from < lines.len() {
            let content = join_range(lines, packer.from, lines.len());
            packer.push_chunk(&content, packer.start_line, lines.len());
        }
        packer.chunks
    }
}

/// Chunks text into overlapping segments by token count.
///
/// With a chunk size of zero no chunk can hold a token: a line that holds
/// one is left out, and only lines without tokens are chunked.
pub fn chunk_text(text: &str, config: &ChunkerConfig) -> (chunks: Vec<TextChunk>)
    ensures
        chunk_views(chunks@) == chunk_text_model(
            text@,
            config.chunk_size as nat,
            config.overlap_size as nat,
        ),
        is_blank(text@) ==> chunks@.len() == 0,
        config.chunk_size > 0 && !is_blank(text@) ==> chunks@.len() > 0,
        !is_blank(text@) && token_count(text@) <= config.chunk_size ==> chunks@.len() == 1
            && chunks@[0].content@ == text@,
        forall|i: int| 0 <= i < chunks@.len() ==> (#[trigger] chunks@[i]).chunk_index == i,
        overlap_links(
            lines(text@),
            config.chunk_size as nat,
            config.overlap_size as nat,
            chunk_views(chunks@),
        ),
        token_count(text@) > config.chunk_size && lines_fit(
            lines(text@),
            config.chunk_size as nat,
        ) ==> forall|j: int|
            1 <= j < chunks@.len() ==> begins_with_overlap(
                chunks@[j - 1].content@,
                (#[trigger] chunks@[j]).content@,
                config.overlap_size as nat,
            ),
        token_count(text@) > config.chunk_size ==> made_of_lines(
            lines(text@),
            config.chunk_size as nat,
            chunk_views(chunks@),
        ),
{
    proof {
        if token_count(text@) > config.chunk_size {
            chunks_are_made_of_lines(
                text@,
                config.chunk_size as nat,
                config.overlap_size as nat,
            );
        }
        if config.chunk_size > 0 {
            has_chunk_iff_not_blank(text@, config.chunk_size as nat, config.overlap_size as nat);
        }
        chunk_indices_are_sequential(text@, config.chunk_size as nat, config.overlap_size as nat);
        chunks_begin_with_overlap(text@, config.chunk_size as nat, config.overlap_size as nat);
        if token_count(text@) > config.chunk_size && lines_fit(
            lines(text@),
            config.chunk_size as nat,
        ) {
            later_chunks_begin_with_overlap(
                text@,
                config.chunk_size as nat,
                config.overlap_size as nat,
            );
        }
    }
    let chunks = chunk_text_as_modelled(text, config);
    proof {
        let views = chunk_views(chunks@);
        if token_count(text@) > config.chunk_size && lines_fit(
            lines(text@),
            config.chunk_size as nat,
        ) {
            assert forall|j: int| 1 <= j < chunks@.len() implies begins_with_overlap(
                chunks@[j - 1].content@,
                (#[trigger] chunks@[j]).content@,
                config.overlap_size as nat,
            ) by {
                assert(views[j] == chunks@[j]@);
                assert(views[j - 1] == chunks@[j - 1]@);
            }
        }
        assert forall|i: int| 0 <= i < chunks@.len() implies (#[trigger] chunks@[i]).chunk_index
            == i by {
            assert(views[i] == chunks@[i]@);
        }
        if chunks@.len() > 0 {
            assert(views[0] == chunks@[0]@);
        }
    }
    chunks
}

/// Chunks text as `chunk_text_model` says.
fn chunk_text_as_modelled(text: &str, config: &ChunkerConfig) -> (chunks: Vec<TextChunk>)
    ensures
        chunk_views(chunks@) == chunk_text_model(
            text@,
            config.chunk_size as nat,
            config.overlap_size as nat,
        ),
{
    let chars = chars_of(text);
    if all_whitespace(&chars) {
        let none: Vec<TextChunk> = Vec::new();
        assert(chunk_views(none@) =~= Seq::<ChunkView>::empty());
        return none;
    }
    let total_tokens = count_tokens_in(&chars);
    if total_tokens <= config.chunk_size {
        let mut one: Vec<TextChunk> = Vec::new();
        let whole = TextChunk {
            content: text.to_owned(),
            start_index: 0,
            end_index: text.as_bytes().len(),
            chunk_index: 0,
        };
        one.push(whole);
        assert(chunk_views(one@) =~= seq![whole@]);
        return one;
    }
    let chunk_size = config.chunk_size;
    let overlap_size = config.overlap_size;
    let all_lines = split_lines(&chars);
    let ghost ls = rows(all_lines@);
    let mut packer = Packer::new(Ghost(ls));
    let mut line_idx: usize = 0;
    while line_idx < all_lines.len()
        invariant
            ls == rows(all_lines@),
            line_idx <= all_lines.len(),
            packer.wf(ls, line_idx as nat),
            packer.model(ls, line_idx as nat) == pack_lines(
                ls,
                line_idx as nat,
                chunk_size as nat,
                overlap_size as nat,
            ),
        decreases all_lines.len() - line_idx,
    {
        assert(ls[line_idx as int] == all_lines@[line_idx as int]@);
        let line_tokens = count_tokens_in(&all_lines[line_idx]);
        if line_tokens > chunk_size {
            packer.take_large_line(&all_lines, line_idx, chunk_size, overlap_size);
        } else {
            packer.take_line(&all_lines, line_idx, line_tokens, chunk_size, overlap_size);
        }
        line_idx += 1;
    }
    packer.finish(&all_lines)
}

/// A configuration that the chunker cannot work with.
#[derive(Debug, Clone, Copy, PartialEq, Eq, Structural)]
pub enum ChunkingError {
    /// The chunk size is zero: no chunk could hold a token.
    ZeroChunkSize,
}

impl ChunkingError {
    /// The error in words.
    pub open spec fn message_model(self) -> Seq<char> {
        "chunk size must be at least one token"@
    }

    /// The error in words.
    pub fn message(&self) -> (text: String)
        ensures
            text@ == self.message_model(),
    {
        "chunk size must be at least one token".to_owned()
    }
}

/// Chunks text after checking the configuration: a chunk size of zero is
/// refused, any other configuration chunks as `chunk_text` does.
pub fn try_chunk_text(text: &str, config: &ChunkerConfig) -> (result: Result<
    Vec<TextChunk>,
    ChunkingError,
>)
    ensures
        config.chunk_size == 0 ==> result == Err::<Vec<TextChunk>, ChunkingError>(
            ChunkingError::ZeroChunkSize,
        ),
        config.chunk_size > 0 ==> (result matches Ok(chunks) && chunk_views(chunks@)
            == chunk_text_model(text@, config.chunk_size as nat, config.overlap_size as nat)),
{
    if config.chunk_size == 0 {
        return Err(ChunkingError::ZeroChunkSize);
    }
    Ok(chunk_text(text, config))
}

} // verus!
