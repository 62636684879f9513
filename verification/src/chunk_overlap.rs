//! What one chunk hands on to the next: the last lines of the chunk before
//! it, as they stand, as far as their tokens fit in the overlap.

use crate::text::{ends_open, is_blank, lemma_lines_shape, lines, token_count};
use crate::text_chunker::{
    chunk_text_model, close_chunk, join_lines, lemma_join_lines_closed, lemma_tokens_of_join,
    line_slices, line_tokens, pack_line, pack_lines, slice_chunks, trailing_lines, ChunkView, Packing,
};
use vstd::prelude::*;

verus! {

/// The lines of `s` as they stand: a line ends at a line feed, which is
/// dropped and nothing else; what follows the last line feed is a line of
/// its own unless it is empty.
pub open spec fn feed_lines(s: Seq<char>) -> Seq<Seq<char>>
    decreases s.len(),
{
    if s.len() == 0 {
        Seq::empty()
    } else {
        let before = feed_lines(s.drop_last());
        let c = s.last();
        if ends_open(s.drop_last()) {
            if c == '\n' {
                before
            } else {
                before.drop_last().push(before.last().push(c))
            }
        } else {
            if c == '\n' {
                before.push(Seq::empty())
            } else {
                before.push(seq![c])
            }
        }
    }
}

/// No line of `ls` holds a line feed.
pub open spec fn no_feeds(ls: Seq<Seq<char>>) -> bool {
    forall|i: int, j: int| 0 <= i < ls.len() && 0 <= j < ls[i].len() ==> #[trigger] ls[i][j] != '\n'
}

/// After a text that is not open, the first characters of a line without
/// a line feed are a line of their own, still open.
proof fn lemma_feed_lines_partial(c: Seq<char>, l: Seq<char>, i: int)
    requires
        !ends_open(c),
        forall|j: int| 0 <= j < l.len() ==> l[j] != '\n',
        1 <= i <= l.len(),
    ensures
        feed_lines(c + l.take(i)) == feed_lines(c).push(l.take(i)),
        ends_open(c + l.take(i)),
    decreases i,
{
    let s = c + l.take(i);
    assert(s.last() == l[i - 1]);
    if i == 1 {
        assert(s.drop_last() =~= c);
        assert(l.take(1) =~= seq![l[0]]);
    } else {
        lemma_feed_lines_partial(c, l, i - 1);
        assert(s.drop_last() =~= c + l.take(i - 1));
        let before = feed_lines(c).push(l.take(i - 1));
        assert(before.drop_last() =~= feed_lines(c));
        assert(before.last().push(l[i - 1]) =~= l.take(i));
    }
}

/// After a text that is not open, a line without a line feed, followed by
/// one, is one more line.
proof fn lemma_feed_lines_push(c: Seq<char>, l: Seq<char>)
    requires
        !ends_open(c),
        forall|j: int| 0 <= j < l.len() ==> l[j] != '\n',
    ensures
        feed_lines(c + l.push('\n')) == feed_lines(c).push(l),
{
    let s = c + l.push('\n');
    assert(s.last() == '\n');
    if l.len() == 0 {
        assert(s.drop_last() =~= c);
        assert(l =~= Seq::<char>::empty());
    } else {
        assert(l.take(l.len() as int) =~= l);
        lemma_feed_lines_partial(c, l, l.len() as int);
        assert(s.drop_last() =~= c + l);
    }
}

/// Lines without line feeds, joined, read back as they stand.
pub proof fn lemma_feed_lines_of_join(ls: Seq<Seq<char>>)
    requires
        no_feeds(ls),
    ensures
        feed_lines(join_lines(ls)) == ls,
    decreases ls.len(),
{
    if ls.len() == 0 {
        assert(feed_lines(join_lines(ls)) =~= ls);
    } else {
        let init = ls.drop_last();
        assert(no_feeds(init)) by {
            assert forall|i: int, j: int|
                0 <= i < init.len() && 0 <= j < init[i].len() implies #[trigger] init[i][j]
                != '\n' by {
                assert(init[i][j] == ls[i][j]);
            }
        }
        lemma_feed_lines_of_join(init);
        lemma_join_lines_closed(init);
        assert forall|j: int| 0 <= j < ls.last().len() implies ls.last()[j] != '\n' by {
            assert(ls[ls.len() - 1][j] != '\n');
        }
        lemma_feed_lines_push(join_lines(init), ls.last());
        assert(init.push(ls.last()) =~= ls);
    }
}

/// Joining two runs of lines is joining each and putting them together.
pub proof fn lemma_join_lines_concat(a: Seq<Seq<char>>, b: Seq<Seq<char>>)
    ensures
        join_lines(a + b) == join_lines(a) + join_lines(b),
    decreases b.len(),
{
    if b.len() == 0 {
        assert(a + b =~= a);
        assert(join_lines(a) + join_lines(b) =~= join_lines(a));
    } else {
        assert((a + b).drop_last() =~= a + b.drop_last());
        assert((a + b).last() == b.last());
        lemma_join_lines_concat(a, b.drop_last());
        assert(join_lines(a + b) =~= join_lines(a) + join_lines(b));
    }
}

/// What a chunk hands on is the longest run of its last lines whose tokens
/// fit in the budget: the lines from some place on to the end, whose
/// tokens fit, while with the line before them they would not.
pub proof fn overlap_is_the_longest_fitting_tail(ls: Seq<Seq<char>>, budget: nat)
    ensures
        trailing_lines(ls, budget).len() <= ls.len(),
        trailing_lines(ls, budget) == ls.skip(ls.len() - trailing_lines(ls, budget).len()),
        line_tokens(trailing_lines(ls, budget)) <= budget,
        trailing_lines(ls, budget).len() < ls.len() ==> line_tokens(
            ls.skip(ls.len() - trailing_lines(ls, budget).len() - 1),
        ) > budget,
    decreases ls.len(),
{
    if ls.len() == 0 {
        assert(trailing_lines(ls, budget) =~= ls.skip(0));
    } else {
        let tokens = token_count(ls.last());
        let init = ls.drop_last();
        if tokens > budget {
            let one = ls.skip(ls.len() - 1);
            assert(trailing_lines(ls, budget) =~= ls.skip(ls.len() as int));
            assert(one.drop_last() =~= Seq::<Seq<char>>::empty());
            assert(line_tokens(one.drop_last()) == 0);
            assert(one.last() == ls.last());
        } else {
            let rest = (budget - tokens) as nat;
            let inner = trailing_lines(init, rest);
            overlap_is_the_longest_fitting_tail(init, rest);
            let kept = inner.push(ls.last());
            let k = ls.len() - kept.len();
            assert(kept =~= ls.skip(k));
            assert(kept.drop_last() =~= inner);
            if kept.len() < ls.len() {
                let more = ls.skip(k - 1);
                assert(more.drop_last() =~= init.skip(k - 1));
                assert(more.last() == ls.last());
            }
        }
    }
}

/// A text is in line form when it is its lines as they stand, each with
/// its line feed.
pub open spec fn in_line_form(c: Seq<char>) -> bool {
    c == join_lines(feed_lines(c))
}

/// What a chunk with this content hands on to the next: its last lines as
/// they stand, as many as fit in the overlap by their tokens.
pub open spec fn carried_overlap(content: Seq<char>, overlap_size: nat) -> Seq<char> {
    join_lines(trailing_lines(feed_lines(content), overlap_size))
}

/// The chunk `next` begins with what the chunk `prev` hands on, and goes
/// on after it; what is handed on is the end of `prev` and holds no more
/// tokens than the overlap allows.
pub open spec fn begins_with_overlap(prev: Seq<char>, next: Seq<char>, overlap_size: nat) -> bool {
    &&& carried_overlap(prev, overlap_size).is_prefix_of(next)
    &&& carried_overlap(prev, overlap_size).len() < next.len()
    &&& carried_overlap(prev, overlap_size).is_suffix_of(prev)
    &&& token_count(carried_overlap(prev, overlap_size)) <= overlap_size
}

/// A chunk that begins at line `start` follows its predecessor by overlap:
/// it is not the first of its text, and neither its first line nor the
/// line before that holds more tokens than a chunk may, so that neither
/// was cut into slices.
pub open spec fn follows_by_overlap(ls: Seq<Seq<char>>, chunk_size: nat, start: nat) -> bool {
    &&& 1 <= start < ls.len()
    &&& token_count(ls[start as int]) <= chunk_size
    &&& token_count(ls[start - 1]) <= chunk_size
}

/// Every chunk that follows its predecessor by overlap begins with what
/// the predecessor hands on.
pub open spec fn overlap_links(
    ls: Seq<Seq<char>>,
    chunk_size: nat,
    overlap_size: nat,
    chunks: Seq<ChunkView>,
) -> bool {
    forall|j: int|
        1 <= j < chunks.len() && follows_by_overlap(ls, chunk_size, (#[trigger] chunks[j]).start_index)
            ==> begins_with_overlap(chunks[j - 1].content, chunks[j].content, overlap_size)
}

/// The chunk is a run of lines of the text, each with its line feed: the
/// lines up to where the chunk ends, as many as the chunk holds, the first
/// of them no later than where the chunk begins.
pub open spec fn is_run_of_lines(ls: Seq<Seq<char>>, chunk: ChunkView) -> bool {
    let count = feed_lines(chunk.content).len();
    &&& count <= chunk.end_index <= ls.len()
    &&& chunk.end_index - count <= chunk.start_index < chunk.end_index
    &&& chunk.content == join_lines(
        ls.subrange(chunk.end_index - count, chunk.end_index as int),
    )
}

/// The chunk is one of the slices of the line at which it begins.
pub open spec fn is_slice_of_line(ls: Seq<Seq<char>>, chunk_size: nat, chunk: ChunkView) -> bool {
    &&& chunk.end_index == chunk.start_index + 1
    &&& line_slices(ls[chunk.start_index as int], chunk_size).contains(chunk.content)
}

/// Every chunk is made of the lines of the text: a slice of its line where
/// that line holds more tokens than a chunk may, else a run of lines.
pub open spec fn made_of_lines(ls: Seq<Seq<char>>, chunk_size: nat, chunks: Seq<ChunkView>) -> bool {
    forall|j: int|
        0 <= j < chunks.len() ==> (#[trigger] chunks[j]).start_index < ls.len() && if token_count(
            ls[chunks[j].start_index as int],
        ) > chunk_size {
            is_slice_of_line(ls, chunk_size, chunks[j])
        } else {
            is_run_of_lines(ls, chunks[j])
        }
}

/// What holds of the chunker after `n` lines.
pub open spec fn packing_inv(
    ls: Seq<Seq<char>>,
    chunk_size: nat,
    overlap_size: nat,
    n: nat,
    st: Packing,
) -> bool {
    &&& n <= ls.len()
    &&& no_feeds(st.current)
    &&& (st.current.len() > 0 ==> st.start_line < n && token_count(ls[st.start_line as int])
        <= chunk_size)
    &&& (st.current.len() == 0 ==> st.start_line == n && (n >= 1 ==> token_count(ls[n - 1])
        > chunk_size))
    &&& (st.current.len() > 0 && follows_by_overlap(ls, chunk_size, st.start_line) ==> {
        &&& st.chunks.len() > 0
        &&& in_line_form(st.chunks.last().content)
        &&& trailing_lines(feed_lines(st.chunks.last().content), overlap_size).is_prefix_of(
            st.current,
        )
        &&& trailing_lines(feed_lines(st.chunks.last().content), overlap_size).len()
            < st.current.len()
    })
    &&& overlap_links(ls, chunk_size, overlap_size, st.chunks)
    &&& st.current.len() <= n
    &&& st.current == ls.subrange(n - st.current.len(), n as int)
    &&& (st.current.len() > 0 ==> n - st.current.len() <= st.start_line)
    &&& made_of_lines(ls, chunk_size, st.chunks)
}

/// A chunk whose lines begin with what the chunk before hands on, and go
/// on after it, begins with that overlap.
proof fn lemma_overlap_link(prev: Seq<char>, current: Seq<Seq<char>>, overlap_size: nat)
    requires
        in_line_form(prev),
        trailing_lines(feed_lines(prev), overlap_size).is_prefix_of(current),
        trailing_lines(feed_lines(prev), overlap_size).len() < current.len(),
    ensures
        begins_with_overlap(prev, join_lines(current), overlap_size),
{
    let all = feed_lines(prev);
    let kept = trailing_lines(all, overlap_size);
    let overlap = join_lines(kept);
    let rest = current.skip(kept.len() as int);
    overlap_is_the_longest_fitting_tail(all, overlap_size);
    lemma_tokens_of_join(kept);
    assert(current =~= kept + rest);
    lemma_join_lines_concat(kept, rest);
    assert(rest.len() > 0);
    assert(join_lines(rest).len() > 0);
    assert(overlap =~= join_lines(current).subrange(0, overlap.len() as int));
    let head = all.take(all.len() - kept.len());
    assert(all =~= head + kept);
    lemma_join_lines_concat(head, kept);
    assert(overlap =~= prev.subrange(prev.len() - overlap.len(), prev.len() as int));
}

/// Closing one more chunk keeps the links, if the new chunk begins with
/// what the last one hands on wherever it follows by overlap.
proof fn lemma_links_after_close(
    ls: Seq<Seq<char>>,
    chunk_size: nat,
    overlap_size: nat,
    chunks: Seq<ChunkView>,
    content: Seq<char>,
    start: nat,
    end: nat,
)
    requires
        overlap_links(ls, chunk_size, overlap_size, chunks),
        follows_by_overlap(ls, chunk_size, start) ==> chunks.len() > 0 && begins_with_overlap(
            chunks.last().content,
            content,
            overlap_size,
        ),
    ensures
        overlap_links(ls, chunk_size, overlap_size, close_chunk(chunks, content, start, end)),
{
    let closed = close_chunk(chunks, content, start, end);
    assert forall|j: int|
        1 <= j < closed.len() && follows_by_overlap(
            ls,
            chunk_size,
            (#[trigger] closed[j]).start_index,
        ) implies begins_with_overlap(closed[j - 1].content, closed[j].content, overlap_size) by {
        if j < chunks.len() {
            assert(closed[j] == chunks[j]);
            assert(closed[j - 1] == chunks[j - 1]);
        } else {
            assert(closed[j - 1] == chunks.last());
        }
    }
}

/// The slices of a line that was cut keep the links: no slice follows by
/// overlap.
proof fn lemma_links_after_slices(
    ls: Seq<Seq<char>>,
    chunk_size: nat,
    overlap_size: nat,
    chunks: Seq<ChunkView>,
    slices: Seq<Seq<char>>,
    idx: nat,
)
    requires
        overlap_links(ls, chunk_size, overlap_size, chunks),
        idx < ls.len(),
        token_count(ls[idx as int]) > chunk_size,
    ensures
        overlap_links(
            ls,
            chunk_size,
            overlap_size,
            chunks + slice_chunks(slices, idx, chunks.len()),
        ),
{
    let all = chunks + slice_chunks(slices, idx, chunks.len());
    assert forall|j: int|
        1 <= j < all.len() && follows_by_overlap(
            ls,
            chunk_size,
            (#[trigger] all[j]).start_index,
        ) implies begins_with_overlap(all[j - 1].content, all[j].content, overlap_size) by {
        if j < chunks.len() {
            assert(all[j] == chunks[j]);
            assert(all[j - 1] == chunks[j - 1]);
        } else {
            assert(all[j].start_index == idx);
        }
    }
}

/// The chunk being filled closes with its links in place.
proof fn lemma_close_current(
    ls: Seq<Seq<char>>,
    chunk_size: nat,
    overlap_size: nat,
    n: nat,
    st: Packing,
    end: nat,
)
    requires
        packing_inv(ls, chunk_size, overlap_size, n, st),
        st.current.len() > 0,
    ensures
        overlap_links(
            ls,
            chunk_size,
            overlap_size,
            close_chunk(st.chunks, join_lines(st.current), st.start_line, end),
        ),
        in_line_form(join_lines(st.current)),
        feed_lines(join_lines(st.current)) == st.current,
        end == n ==> made_of_lines(
            ls,
            chunk_size,
            close_chunk(st.chunks, join_lines(st.current), st.start_line, end),
        ),
{
    if follows_by_overlap(ls, chunk_size, st.start_line) {
        lemma_overlap_link(st.chunks.last().content, st.current, overlap_size);
    }
    lemma_feed_lines_of_join(st.current);
    if end == n {
        let closed = close_chunk(st.chunks, join_lines(st.current), st.start_line, end);
        assert forall|j: int| 0 <= j < closed.len() implies (#[trigger] closed[j]).start_index
            < ls.len() && if token_count(ls[closed[j].start_index as int]) > chunk_size {
            is_slice_of_line(ls, chunk_size, closed[j])
        } else {
            is_run_of_lines(ls, closed[j])
        } by {
            if j < st.chunks.len() {
                assert(closed[j] == st.chunks[j]);
            } else {
                assert(is_run_of_lines(ls, closed[j]));
            }
        }
    }
    lemma_links_after_close(
        ls,
        chunk_size,
        overlap_size,
        st.chunks,
        join_lines(st.current),
        st.start_line,
        end,
    );
    lemma_feed_lines_of_join(st.current);
}

/// The slices of a line that was cut are made of that line.
proof fn lemma_made_after_slices(
    ls: Seq<Seq<char>>,
    chunk_size: nat,
    chunks: Seq<ChunkView>,
    idx: nat,
)
    requires
        made_of_lines(ls, chunk_size, chunks),
        idx < ls.len(),
        token_count(ls[idx as int]) > chunk_size,
    ensures
        made_of_lines(
            ls,
            chunk_size,
            chunks + slice_chunks(line_slices(ls[idx as int], chunk_size), idx, chunks.len()),
        ),
{
    let slices = line_slices(ls[idx as int], chunk_size);
    let all = chunks + slice_chunks(slices, idx, chunks.len());
    assert forall|j: int| 0 <= j < all.len() implies (#[trigger] all[j]).start_index < ls.len()
        && if token_count(ls[all[j].start_index as int]) > chunk_size {
        is_slice_of_line(ls, chunk_size, all[j])
    } else {
        is_run_of_lines(ls, all[j])
    } by {
        if j < chunks.len() {
            assert(all[j] == chunks[j]);
        } else {
            let k = j - chunks.len();
            assert(all[j].content == slices[k]);
            assert(slices.contains(slices[k]));
        }
    }
}

/// One more line keeps what holds of the chunker.
proof fn lemma_pack_line_keeps_inv(
    ls: Seq<Seq<char>>,
    chunk_size: nat,
    overlap_size: nat,
    n: nat,
    st: Packing,
)
    requires
        no_feeds(ls),
        n < ls.len(),
        packing_inv(ls, chunk_size, overlap_size, n, st),
    ensures
        packing_inv(
            ls,
            chunk_size,
            overlap_size,
            n + 1,
            pack_line(st, n, ls[n as int], chunk_size, overlap_size),
        ),
{
    let line = ls[n as int];
    let next = pack_line(st, n, line, chunk_size, overlap_size);
    let tokens = token_count(line);
    assert forall|j: int| 0 <= j < line.len() implies line[j] != '\n' by {
        assert(ls[n as int][j] != '\n');
    }
    if tokens > chunk_size {
        let closed = if st.current.len() > 0 {
            close_chunk(st.chunks, join_lines(st.current), st.start_line, n)
        } else {
            st.chunks
        };
        if st.current.len() > 0 {
            lemma_close_current(ls, chunk_size, overlap_size, n, st, n);
        }
        lemma_links_after_slices(
            ls,
            chunk_size,
            overlap_size,
            closed,
            line_slices(line, chunk_size),
            n,
        );
        lemma_made_after_slices(ls, chunk_size, closed, n);
        assert(next.current =~= ls.subrange(n + 1 - next.current.len(), (n + 1) as int));
    } else {
        let full = st.current.len() > 0 && token_count(join_lines(st.current)) + tokens
            > chunk_size;
        if full {
            lemma_close_current(ls, chunk_size, overlap_size, n, st, n);
            let kept = trailing_lines(st.current, overlap_size);
            overlap_is_the_longest_fitting_tail(st.current, overlap_size);
            assert(next.chunks.last().content == join_lines(st.current));
            assert(kept =~= next.current.subrange(0, kept.len() as int));
            assert(next.current =~= ls.subrange(n + 1 - next.current.len(), (n + 1) as int));
            assert(no_feeds(next.current)) by {
                assert forall|i: int, j: int|
                    0 <= i < next.current.len() && 0 <= j < next.current[i].len() implies
                    #[trigger] next.current[i][j] != '\n' by {
                    if i < kept.len() {
                        assert(next.current[i] == st.current[st.current.len() - kept.len() + i]);
                        assert(st.current[st.current.len() - kept.len() + i][j] != '\n');
                    }
                }
            }
        } else {
            assert(no_feeds(next.current)) by {
                assert forall|i: int, j: int|
                    0 <= i < next.current.len() && 0 <= j < next.current[i].len() implies
                    #[trigger] next.current[i][j] != '\n' by {
                    if i < st.current.len() {
                        assert(next.current[i] == st.current[i]);
                        assert(st.current[i][j] != '\n');
                    }
                }
            }
            assert(next.current =~= ls.subrange(n + 1 - next.current.len(), (n + 1) as int));
            if st.current.len() > 0 {
                if follows_by_overlap(ls, chunk_size, st.start_line) {
                    let kept = trailing_lines(
                        feed_lines(st.chunks.last().content),
                        overlap_size,
                    );
                    assert(kept =~= next.current.subrange(0, kept.len() as int));
                }
            } else {
                assert(!follows_by_overlap(ls, chunk_size, n));
            }
        }
    }
}

/// What holds of the chunker holds after any number of lines.
proof fn lemma_packing_inv(ls: Seq<Seq<char>>, chunk_size: nat, overlap_size: nat, n: nat)
    requires
        no_feeds(ls),
        n <= ls.len(),
    ensures
        packing_inv(ls, chunk_size, overlap_size, n, pack_lines(ls, n, chunk_size, overlap_size)),
    decreases n,
{
    if n == 0 {
        assert(ls.subrange(0, 0) =~= Seq::<Seq<char>>::empty());
    } else {
        lemma_packing_inv(ls, chunk_size, overlap_size, (n - 1) as nat);
        lemma_pack_line_keeps_inv(
            ls,
            chunk_size,
            overlap_size,
            (n - 1) as nat,
            pack_lines(ls, (n - 1) as nat, chunk_size, overlap_size),
        );
    }
}

/// In every text, each chunk that follows its predecessor by overlap
/// begins with the trailing lines of that predecessor as they stand, as
/// many as fit in `overlap_size` tokens, and goes on after them.
pub proof fn chunks_begin_with_overlap(text: Seq<char>, chunk_size: nat, overlap_size: nat)
    ensures
        overlap_links(
            lines(text),
            chunk_size,
            overlap_size,
            chunk_text_model(text, chunk_size, overlap_size),
        ),
{
    let ls = lines(text);
    if is_blank(text) || token_count(text) <= chunk_size {
    } else {
        lemma_lines_shape(text);
        lemma_packing_inv(ls, chunk_size, overlap_size, ls.len());
        let st = pack_lines(ls, ls.len(), chunk_size, overlap_size);
        if st.current.len() > 0 {
            lemma_close_current(ls, chunk_size, overlap_size, ls.len(), st, ls.len());
        }
    }
}

/// The chunks of a text that needs more than one chunk are made of its
/// lines: each is a run of lines of the text, every line followed by a
/// line feed, or a slice of a line that holds more tokens than a chunk may.
pub proof fn chunks_are_made_of_lines(text: Seq<char>, chunk_size: nat, overlap_size: nat)
    requires
        token_count(text) > chunk_size,
    ensures
        made_of_lines(lines(text), chunk_size, chunk_text_model(text, chunk_size, overlap_size)),
{
    let ls = lines(text);
    if !is_blank(text) {
        lemma_lines_shape(text);
        lemma_packing_inv(ls, chunk_size, overlap_size, ls.len());
        let st = pack_lines(ls, ls.len(), chunk_size, overlap_size);
        if st.current.len() > 0 {
            lemma_close_current(ls, chunk_size, overlap_size, ls.len(), st, ls.len());
        }
    }
}

/// No line of `ls` holds more tokens than a chunk may.
pub open spec fn lines_fit(ls: Seq<Seq<char>>, chunk_size: nat) -> bool {
    forall|i: int| 0 <= i < ls.len() ==> token_count(#[trigger] ls[i]) <= chunk_size
}

/// Where the chunks begin after `n` lines that all fit in a chunk: each at
/// a line taken in, and each but the first after the first line.
pub open spec fn starts_inv(ls: Seq<Seq<char>>, n: nat, st: Packing) -> bool {
    &&& n <= ls.len()
    &&& forall|j: int| 0 <= j < st.chunks.len() ==> (#[trigger] st.chunks[j]).start_index < n
    &&& forall|j: int| 1 <= j < st.chunks.len() ==> (#[trigger] st.chunks[j]).start_index >= 1
    &&& (st.current.len() > 0 ==> st.start_line < n)
    &&& (st.chunks.len() > 0 ==> st.current.len() > 0 && st.start_line >= 1)
}

/// Where the chunks begin, after any number of lines that all fit.
proof fn lemma_starts_inv(ls: Seq<Seq<char>>, chunk_size: nat, overlap_size: nat, n: nat)
    requires
        lines_fit(ls, chunk_size),
        n <= ls.len(),
    ensures
        starts_inv(ls, n, pack_lines(ls, n, chunk_size, overlap_size)),
    decreases n,
{
    if n > 0 {
        lemma_starts_inv(ls, chunk_size, overlap_size, (n - 1) as nat);
        let st = pack_lines(ls, (n - 1) as nat, chunk_size, overlap_size);
        let next = pack_lines(ls, n, chunk_size, overlap_size);
        assert(token_count(ls[n - 1]) <= chunk_size);
        assert forall|j: int| 0 <= j < next.chunks.len() implies (#[trigger] next.chunks[j]).start_index
            < n by {
            if j < st.chunks.len() {
                assert(next.chunks[j] == st.chunks[j]);
            }
        }
        assert forall|j: int| 1 <= j < next.chunks.len() implies (
        #[trigger] next.chunks[j]).start_index >= 1 by {
            if j < st.chunks.len() {
                assert(next.chunks[j] == st.chunks[j]);
            }
        }
    }
}

/// In a text that needs more than one chunk and has no line that holds
/// more tokens than a chunk may, each chunk after the first begins with the
/// trailing lines of the chunk before it, as they stand and as many as fit
/// in `overlap_size` tokens, and goes on after them.
pub proof fn later_chunks_begin_with_overlap(text: Seq<char>, chunk_size: nat, overlap_size: nat)
    requires
        token_count(text) > chunk_size,
        lines_fit(lines(text), chunk_size),
    ensures
        forall|j: int|
            1 <= j < chunk_text_model(text, chunk_size, overlap_size).len()
                ==> begins_with_overlap(
                chunk_text_model(text, chunk_size, overlap_size)[j - 1].content,
                (#[trigger] chunk_text_model(text, chunk_size, overlap_size)[j]).content,
                overlap_size,
            ),
{
    let ls = lines(text);
    let chunks = chunk_text_model(text, chunk_size, overlap_size);
    chunks_begin_with_overlap(text, chunk_size, overlap_size);
    if is_blank(text) {
    } else {
        lemma_starts_inv(ls, chunk_size, overlap_size, ls.len());
        let st = pack_lines(ls, ls.len(), chunk_size, overlap_size);
        assert forall|j: int| 1 <= j < chunks.len() implies begins_with_overlap(
            chunks[j - 1].content,
            (#[trigger] chunks[j]).content,
            overlap_size,
        ) by {
            if j < st.chunks.len() {
                assert(chunks[j] == st.chunks[j]);
            }
            let start = chunks[j].start_index;
            assert(1 <= start < ls.len());
            assert(token_count(ls[start as int]) <= chunk_size);
            assert(token_count(ls[start - 1]) <= chunk_size);
            assert(follows_by_overlap(ls, chunk_size, start));
        }
    }
}

} // verus!
