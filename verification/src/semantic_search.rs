//! Ranks the chunks of an embeddings database against a query by their
//! similarity to it.

use crate::text::{chars_of, decimal_text, push_number, push_str_chars, string_of};
use vstd::prelude::*;
use vstd::set_lib::{lemma_int_range, lemma_len_subset, lemma_subset_equality, set_int_range};

verus! {

/// A chunk with its embedding, as the database holds it. Each component of
/// the embedding is held by the bits of its single-precision value.
#[derive(Debug, Clone)]
pub struct EmbeddingChunk {
    pub file_path: String,
    pub content: String,
    pub embedding: Vec<u32>,
}

/// Metadata about an embeddings database.
#[derive(Debug, Clone)]
pub struct EmbeddingsDatabaseMetadata {
    pub version: String,
    pub generated_at: String,
    pub model: String,
    pub chunk_size: usize,
    pub overlap_size: usize,
    pub total_files: usize,
    pub total_chunks: usize,
}

/// The complete embeddings database, as it is loaded.
#[derive(Debug, Clone)]
pub struct EmbeddingsDatabase {
    pub version: String,
    pub generated_at: String,
    pub model: String,
    pub chunk_size: usize,
    pub overlap_size: usize,
    pub total_files: usize,
    pub total_chunks: usize,
    pub chunks: Vec<EmbeddingChunk>,
}

/// A chunk with its similarity to the query, held by the bits of its
/// single-precision value.
#[derive(Debug, Clone)]
pub struct SearchResult {
    pub file_path: String,
    pub content: String,
    pub similarity_bits: u32,
}

/// A database that states another number of chunks than it holds.
#[derive(Debug, Clone, Copy)]
pub struct DatabaseFormatError {
    /// The number of chunks that the database states.
    pub total_chunks: usize,
    /// The number of chunks that the database holds.
    pub chunk_count: usize,
}

impl DatabaseFormatError {
    /// The error in words.
    pub open spec fn message_model(self) -> Seq<char> {
        "malformed embeddings database: it states "@ + decimal_text(self.total_chunks as nat)
            + " chunks and holds "@ + decimal_text(self.chunk_count as nat)
    }

    /// The error in words.
    pub fn message(&self) -> (text: String)
        ensures
            text@ == self.message_model(),
    {
        let mut out = chars_of("malformed embeddings database: it states ");
        push_number(&mut out, self.total_chunks as u64);
        push_str_chars(&mut out, " chunks and holds ");
        push_number(&mut out, self.chunk_count as u64);
        string_of(&out)
    }
}

/// The bits of a single-precision value without its sign.
pub open spec fn magnitude_bits(bits: u32) -> int {
    if bits >= 0x8000_0000 {
        bits - 0x8000_0000
    } else {
        bits as int
    }
}

/// Whether the bits are those of a NaN, which no similarity is.
pub open spec fn is_nan_bits(bits: u32) -> bool {
    magnitude_bits(bits) > 0x7f80_0000
}

/// The place of a single-precision value among all of them, from its bits:
/// of two values that are not NaN the greater has the greater key, and the
/// two zeros share one. A NaN stands beyond the infinity of its sign.
pub open spec fn similarity_key(bits: u32) -> int {
    if bits >= 0x8000_0000 {
        -magnitude_bits(bits)
    } else {
        magnitude_bits(bits)
    }
}

/// Chunk `i` ranks before chunk `j`: it is more similar, or as similar and
/// earlier in the database.
pub open spec fn ranks_before(scores: Seq<u32>, i: int, j: int) -> bool {
    similarity_key(scores[i]) > similarity_key(scores[j]) || (similarity_key(scores[i])
        == similarity_key(scores[j]) && i < j)
}

/// `order` lists the `top_n` best of the chunks scored by `scores`, best
/// first: chunks of the database, each ranking before the next and before
/// every chunk that is not listed.
pub open spec fn is_ranking(scores: Seq<u32>, top_n: nat, order: Seq<int>) -> bool {
    &&& order.len() == if top_n < scores.len() {
        top_n
    } else {
        scores.len()
    }
    &&& forall|a: int| 0 <= a < order.len() ==> 0 <= #[trigger] order[a] < scores.len()
    &&& forall|a: int, b: int|
        0 <= a < b < order.len() ==> ranks_before(scores, #[trigger] order[a], #[trigger] order[b])
    &&& forall|a: int, j: int|
        0 <= a < order.len() && 0 <= j < scores.len() ==> #[trigger] order.contains(j)
            || ranks_before(scores, #[trigger] order[a], j)
}

/// The indices of a list of chunks, as integers.
pub open spec fn index_views(order: Seq<usize>) -> Seq<int> {
    Seq::new(order.len(), |a: int| order[a] as int)
}

/// A score with the chunk it belongs to: the key of the score, then the
/// index of the chunk.
pub open spec fn entry_of(scores: Seq<u32>, i: int) -> (i64, usize) {
    (similarity_key(scores[i]) as i64, i as usize)
}

/// Entry `a` stands before entry `b`: greater key first, and of equal keys
/// the smaller index.
pub open spec fn stands_before(a: (i64, usize), b: (i64, usize)) -> bool {
    a.0 > b.0 || (a.0 == b.0 && a.1 < b.1)
}

/// Each entry stands before every later one.
pub open spec fn in_rank_order(entries: Seq<(i64, usize)>) -> bool {
    forall|a: int, b: int|
        0 <= a < b < entries.len() ==> stands_before(#[trigger] entries[a], #[trigger] entries[b])
}

/// No two entries of `left` and `right` belong to the same chunk.
pub open spec fn apart(left: Seq<(i64, usize)>, right: Seq<(i64, usize)>) -> bool {
    forall|a: int, b: int|
        0 <= a < left.len() && 0 <= b < right.len() ==> (#[trigger] left[a]).1 != (
        #[trigger] right[b]).1
}

/// The key of a similarity.
pub fn key_of(bits: u32) -> (key: i64)
    ensures
        key == similarity_key(bits),
{
    if bits >= 0x8000_0000 {
        -((bits - 0x8000_0000) as i64)
    } else {
        bits as i64
    }
}

/// Whether the bits are those of a NaN.
pub fn is_nan(bits: u32) -> (nan: bool)
    ensures
        nan == is_nan_bits(bits),
{
    let magnitude = if bits >= 0x8000_0000 {
        bits - 0x8000_0000
    } else {
        bits
    };
    magnitude > 0x7f80_0000
}

fn entry_stands_before(a: &(i64, usize), b: &(i64, usize)) -> (before: bool)
    ensures
        before == stands_before(*a, *b),
{
    a.0 > b.0 || (a.0 == b.0 && a.1 < b.1)
}

/// Merges two runs in rank order into one.
fn merge_runs(left: Vec<(i64, usize)>, right: Vec<(i64, usize)>) -> (out: Vec<(i64, usize)>)
    requires
        in_rank_order(left@),
        in_rank_order(right@),
        apart(left@, right@),
    ensures
        in_rank_order(out@),
        out@.len() == left@.len() + right@.len(),
        forall|a: int|
            0 <= a < out@.len() ==> left@.contains(#[trigger] out@[a]) || right@.contains(out@[a]),
{
    let mut out: Vec<(i64, usize)> = Vec::new();
    let mut i: usize = 0;
    let mut j: usize = 0;
    while i < left.len() || j < right.len()
        invariant
            i <= left.len(),
            j <= right.len(),
            out@.len() == i + j,
            in_rank_order(left@),
            in_rank_order(right@),
            apart(left@, right@),
            in_rank_order(out@),
            forall|a: int|
                0 <= a < out@.len() ==> left@.contains(#[trigger] out@[a]) || right@.contains(
                    out@[a],
                ),
            forall|a: int, b: int|
                0 <= a < out@.len() && i <= b < left@.len() ==> stands_before(
                    #[trigger] out@[a],
                    #[trigger] left@[b],
                ),
            forall|a: int, b: int|
                0 <= a < out@.len() && j <= b < right@.len() ==> stands_before(
                    #[trigger] out@[a],
                    #[trigger] right@[b],
                ),
        decreases left.len() - i + (right.len() - j),
    {
        let take_left = if i == left.len() {
            false
        } else if j == right.len() {
            true
        } else {
            entry_stands_before(&left[i], &right[j])
        };
        let ghost before = out@;
        if take_left {
            let entry = left[i];
            out.push(entry);
            proof {
                assert(left@.contains(left@[i as int]));
                assert forall|a: int, b: int|
                    0 <= a < out@.len() && j <= b < right@.len() implies stands_before(
                    #[trigger] out@[a],
                    #[trigger] right@[b],
                ) by {
                    if a == before.len() {
                        assert(stands_before(left@[i as int], right@[j as int]));
                        if b > j {
                            assert(stands_before(right@[j as int], right@[b]));
                        }
                    } else {
                        assert(out@[a] == before[a]);
                    }
                }
                assert forall|a: int, b: int|
                    0 <= a < out@.len() && i + 1 <= b < left@.len() implies stands_before(
                    #[trigger] out@[a],
                    #[trigger] left@[b],
                ) by {
                    if a == before.len() {
                        assert(stands_before(left@[i as int], left@[b]));
                    } else {
                        assert(out@[a] == before[a]);
                    }
                }
                assert forall|a: int, b: int| 0 <= a < b < out@.len() implies stands_before(
                    #[trigger] out@[a],
                    #[trigger] out@[b],
                ) by {
                    if b == before.len() {
                        assert(out@[a] == before[a]);
                        assert(stands_before(before[a], left@[i as int]));
                    } else {
                        assert(out@[a] == before[a] && out@[b] == before[b]);
                    }
                }
                assert forall|a: int| 0 <= a < out@.len() implies left@.contains(
                    #[trigger] out@[a],
                ) || right@.contains(out@[a]) by {
                    if a < before.len() {
                        assert(out@[a] == before[a]);
                    }
                }
            }
            i += 1;
        } else {
            let entry = right[j];
            out.push(entry);
            proof {
                assert(right@.contains(right@[j as int]));
                if i < left@.len() {
                    assert(left@[i as int].1 != right@[j as int].1);
                    assert(stands_before(right@[j as int], left@[i as int]));
                }
                assert forall|a: int, b: int|
                    0 <= a < out@.len() && i <= b < left@.len() implies stands_before(
                    #[trigger] out@[a],
                    #[trigger] left@[b],
                ) by {
                    if a == before.len() {
                        if b > i {
                            assert(stands_before(left@[i as int], left@[b]));
                        }
                    } else {
                        assert(out@[a] == before[a]);
                    }
                }
                assert forall|a: int, b: int|
                    0 <= a < out@.len() && j + 1 <= b < right@.len() implies stands_before(
                    #[trigger] out@[a],
                    #[trigger] right@[b],
                ) by {
                    if a == before.len() {
                        assert(stands_before(right@[j as int], right@[b]));
                    } else {
                        assert(out@[a] == before[a]);
                    }
                }
                assert forall|a: int, b: int| 0 <= a < b < out@.len() implies stands_before(
                    #[trigger] out@[a],
                    #[trigger] out@[b],
                ) by {
                    if b == before.len() {
                        assert(out@[a] == before[a]);
                        assert(stands_before(before[a], right@[j as int]));
                    } else {
                        assert(out@[a] == before[a] && out@[b] == before[b]);
                    }
                }
                assert forall|a: int| 0 <= a < out@.len() implies left@.contains(
                    #[trigger] out@[a],
                ) || right@.contains(out@[a]) by {
                    if a < before.len() {
                        assert(out@[a] == before[a]);
                    }
                }
            }
            j += 1;
        }
    }
    out
}

/// No two entries belong to the same chunk.
pub open spec fn one_entry_each(entries: Seq<(i64, usize)>) -> bool {
    forall|a: int, b: int|
        0 <= a < entries.len() && 0 <= b < entries.len() && a != b ==> (#[trigger] entries[a]).1
            != (#[trigger] entries[b]).1
}

/// Puts entries into rank order by merging.
fn sort_entries(entries: Vec<(i64, usize)>) -> (out: Vec<(i64, usize)>)
    requires
        one_entry_each(entries@),
    ensures
        in_rank_order(out@),
        out@.len() == entries@.len(),
        forall|a: int| 0 <= a < out@.len() ==> entries@.contains(#[trigger] out@[a]),
    decreases entries@.len(),
{
    let n = entries.len();
    if n <= 1 {
        proof {
            assert forall|a: int| 0 <= a < entries@.len() implies entries@.contains(
                #[trigger] entries@[a],
            ) by {}
        }
        return entries;
    }
    let mid = n / 2;
    let mut left = entries;
    let right = left.split_off(mid);
    proof {
        assert forall|a: int, b: int|
            0 <= a < left@.len() && 0 <= b < left@.len() && a != b implies (#[trigger] left@[a]).1
            != (#[trigger] left@[b]).1 by {
            assert(left@[a] == entries@[a] && left@[b] == entries@[b]);
        }
        assert forall|a: int, b: int|
            0 <= a < right@.len() && 0 <= b < right@.len() && a != b implies (
        #[trigger] right@[a]).1 != (#[trigger] right@[b]).1 by {
            assert(right@[a] == entries@[mid + a] && right@[b] == entries@[mid + b]);
        }
    }
    let sorted_left = sort_entries(left);
    let sorted_right = sort_entries(right);
    proof {
        assert forall|a: int, b: int|
            0 <= a < sorted_left@.len() && 0 <= b < sorted_right@.len() implies (
        #[trigger] sorted_left@[a]).1 != (#[trigger] sorted_right@[b]).1 by {
            assert(left@.contains(sorted_left@[a]));
            assert(right@.contains(sorted_right@[b]));
            let x = choose|x: int| 0 <= x < left@.len() && left@[x] == sorted_left@[a];
            let y = choose|y: int| 0 <= y < right@.len() && right@[y] == sorted_right@[b];
            assert(left@[x] == entries@[x]);
            assert(right@[y] == entries@[mid + y]);
        }
    }
    let out = merge_runs(sorted_left, sorted_right);
    proof {
        assert forall|a: int| 0 <= a < out@.len() implies entries@.contains(#[trigger] out@[a]) by {
            if sorted_left@.contains(out@[a]) {
                let p = choose|p: int| 0 <= p < sorted_left@.len() && sorted_left@[p] == out@[a];
                assert(left@.contains(sorted_left@[p]));
                let x = choose|x: int| 0 <= x < left@.len() && left@[x] == sorted_left@[p];
                assert(entries@[x] == out@[a]);
            } else {
                let p = choose|p: int| 0 <= p < sorted_right@.len() && sorted_right@[p] == out@[a];
                assert(right@.contains(sorted_right@[p]));
                let y = choose|y: int| 0 <= y < right@.len() && right@[y] == sorted_right@[p];
                assert(entries@[mid + y] == out@[a]);
            }
        }
    }
    out
}

/// A list of `n` different numbers below `n` holds every number below `n`.
pub proof fn lemma_all_indices_listed(order: Seq<int>, n: nat)
    requires
        order.len() == n,
        order.no_duplicates(),
        forall|a: int| 0 <= a < n ==> 0 <= #[trigger] order[a] < n,
    ensures
        forall|j: int| 0 <= j < n ==> order.contains(j),
{
    let listed = order.to_set();
    let all = set_int_range(0, n as int);
    lemma_int_range(0, n as int);
    order.unique_seq_to_set();
    assert(listed.subset_of(all)) by {
        assert forall|x: int| listed.contains(x) implies all.contains(x) by {
            let a = choose|a: int| 0 <= a < order.len() && order[a] == x;
            assert(0 <= order[a] < n);
        }
    }
    lemma_len_subset(listed, all);
    lemma_subset_equality(listed, all);
    assert forall|j: int| 0 <= j < n implies order.contains(j) by {
        assert(all.contains(j));
        assert(listed.contains(j));
    }
}

/// The chunks to show for a query: the `top_n` best by similarity, best
/// first, chunks of equal similarity in the order of the database.
pub fn rank(similarities: &Vec<u32>, top_n: usize) -> (order: Vec<usize>)
    ensures
        is_ranking(similarities@, top_n as nat, index_views(order@)),
{
    let n = similarities.len();
    let ghost scores = similarities@;
    let mut entries: Vec<(i64, usize)> = Vec::new();
    let mut i: usize = 0;
    while i < n
        invariant
            i <= n,
            n == similarities.len(),
            scores == similarities@,
            entries@.len() == i,
            forall|k: int| 0 <= k < i ==> #[trigger] entries@[k] == entry_of(scores, k),
        decreases n - i,
    {
        entries.push((key_of(similarities[i]), i));
        i += 1;
    }
    let sorted = sort_entries(entries);
    let ghost full = Seq::new(sorted@.len(), |a: int| sorted@[a].1 as int);
    proof {
        assert forall|a: int| 0 <= a < n implies 0 <= #[trigger] full[a] < n && sorted@[a]
            == entry_of(scores, full[a]) by {
            assert(entries@.contains(sorted@[a]));
            let k = choose|k: int| 0 <= k < entries@.len() && entries@[k] == sorted@[a];
            assert(entries@[k] == entry_of(scores, k));
        }
        assert forall|a: int, b: int| 0 <= a < b < n implies ranks_before(
            scores,
            #[trigger] full[a],
            #[trigger] full[b],
        ) by {
            assert(stands_before(sorted@[a], sorted@[b]));
            assert(sorted@[a] == entry_of(scores, full[a]));
            assert(sorted@[b] == entry_of(scores, full[b]));
        }
        assert(full.no_duplicates()) by {
            assert forall|a: int, b: int|
                0 <= a < full.len() && 0 <= b < full.len() && a != b implies full[a] != full[b] by {
                if a < b {
                    assert(ranks_before(scores, full[a], full[b]));
                } else {
                    assert(ranks_before(scores, full[b], full[a]));
                }
            }
        }
        lemma_all_indices_listed(full, n as nat);
    }
    let kept: usize = if top_n < n {
        top_n
    } else {
        n
    };
    let mut order: Vec<usize> = Vec::new();
    let mut a: usize = 0;
    while a < kept
        invariant
            a <= kept <= n,
            n == sorted@.len(),
            full == Seq::new(sorted@.len(), |a: int| sorted@[a].1 as int),
            order@.len() == a,
            forall|k: int| 0 <= k < a ==> #[trigger] order@[k] as int == full[k],
        decreases kept - a,
    {
        order.push(sorted[a].1);
        a += 1;
    }
    proof {
        let listed = index_views(order@);
        assert forall|p: int, j: int|
            0 <= p < listed.len() && 0 <= j < scores.len() implies #[trigger] listed.contains(j)
            || ranks_before(scores, #[trigger] listed[p], j) by {
            assert(full.contains(j));
            let q = choose|q: int| 0 <= q < full.len() && full[q] == j;
            if q < kept {
                assert(listed[q] == j);
                assert(listed.contains(j));
            } else {
                assert(listed[p] == full[p]);
                assert(ranks_before(scores, full[p], full[q]));
            }
        }
        assert forall|p: int, q: int| 0 <= p < q < listed.len() implies ranks_before(
            scores,
            #[trigger] listed[p],
            #[trigger] listed[q],
        ) by {
            assert(listed[p] == full[p] && listed[q] == full[q]);
        }
        assert forall|p: int| 0 <= p < listed.len() implies 0 <= #[trigger] listed[p]
            < scores.len() by {
            assert(listed[p] == full[p]);
        }
    }
    order
}

/// A ranking is settled by the scores: two rankings of the same scores for
/// the same number of results are the same.
pub proof fn ranking_is_unique(scores: Seq<u32>, top_n: nat, first: Seq<int>, second: Seq<int>)
    requires
        is_ranking(scores, top_n, first),
        is_ranking(scores, top_n, second),
    ensures
        first == second,
{
    assert forall|a: int| 0 <= a < first.len() implies first[a] == second[a] by {
        lemma_rankings_agree(scores, top_n, first, second, a);
    }
    assert(first =~= second);
}

/// Two rankings of the same scores agree at every place.
proof fn lemma_rankings_agree(scores: Seq<u32>, top_n: nat, first: Seq<int>, second: Seq<int>, a: int)
    requires
        is_ranking(scores, top_n, first),
        is_ranking(scores, top_n, second),
        0 <= a < first.len(),
    ensures
        first[a] == second[a],
    decreases a,
{
    if a > 0 {
        lemma_rankings_agree(scores, top_n, first, second, a - 1);
    }
    assert forall|b: int| 0 <= b < a implies first[b] == second[b] by {
        lemma_rankings_agree(scores, top_n, first, second, b);
    }
    let x = first[a];
    let y = second[a];
    if x != y {
        // `y` stands in `first` before `a`, at `a` or after it, or not at all
        if first.contains(y) {
            let p = choose|p: int| 0 <= p < first.len() && first[p] == y;
            if p < a {
                assert(second[p] == y);
                assert(ranks_before(scores, second[p], second[a]));
            } else {
                assert(ranks_before(scores, first[a], first[p]));
            }
        } else {
            assert(first.contains(y) || ranks_before(scores, first[a], y));
        }
        assert(ranks_before(scores, x, y));
        if second.contains(x) {
            let q = choose|q: int| 0 <= q < second.len() && second[q] == x;
            if q < a {
                assert(first[q] == x);
                assert(ranks_before(scores, first[q], first[a]));
            } else {
                assert(ranks_before(scores, second[a], second[q]));
            }
        } else {
            assert(second.contains(x) || ranks_before(scores, second[a], x));
        }
        assert(ranks_before(scores, y, x));
    }
}

/// A chunk as the search holds it: the chunk of a generated database
/// without its metadata.
pub open spec fn searchable(chunk: crate::json_database_generator::EmbeddedChunk) -> EmbeddingChunk {
    EmbeddingChunk {
        file_path: chunk.file_path,
        content: chunk.content,
        embedding: chunk.embedding,
    }
}

impl EmbeddingsDatabase {
    /// The database as the search loads it, from the one that a run
    /// generated: the same header, and each chunk without its metadata.
    pub fn from_generated(generated: crate::json_database_generator::EmbeddingsDatabase) -> (loaded:
        Self)
        ensures
            loaded.version == generated.version,
            loaded.generated_at == generated.generated_at,
            loaded.model == generated.model,
            loaded.chunk_size == generated.chunk_size,
            loaded.overlap_size == generated.overlap_size,
            loaded.total_files == generated.total_files,
            loaded.total_chunks == generated.total_chunks,
            loaded.chunks@.len() == generated.chunks@.len(),
            forall|i: int|
                0 <= i < generated.chunks@.len() ==> #[trigger] loaded.chunks@[i] == searchable(
                    generated.chunks@[i],
                ),
    {
        let mut chunks: Vec<EmbeddingChunk> = Vec::new();
        let ghost all = generated.chunks@;
        for chunk in it: generated.chunks.into_iter()
            invariant
                it.seq() == all,
                chunks@.len() == it.index(),
                forall|i: int|
                    0 <= i < it.index() ==> #[trigger] chunks@[i] == searchable(all[i]),
        {
            chunks.push(
                EmbeddingChunk {
                    file_path: chunk.file_path,
                    content: chunk.content,
                    embedding: chunk.embedding,
                },
            );
        }
        EmbeddingsDatabase {
            version: generated.version,
            generated_at: generated.generated_at,
            model: generated.model,
            chunk_size: generated.chunk_size,
            overlap_size: generated.overlap_size,
            total_files: generated.total_files,
            total_chunks: generated.total_chunks,
            chunks,
        }
    }
}

/// The result for chunk `i` of `chunks` under `scores`.
pub open spec fn result_for(chunks: Seq<EmbeddingChunk>, scores: Seq<u32>, i: int) -> SearchResult {
    SearchResult {
        file_path: chunks[i].file_path,
        content: chunks[i].content,
        similarity_bits: scores[i],
    }
}

/// Semantic search over a loaded embeddings database.
pub struct SemanticSearch {
    database: EmbeddingsDatabase,
}

impl SemanticSearch {
    #[verifier::type_invariant]
    spec fn counts_agree(&self) -> bool {
        self.database.total_chunks == self.database.chunks@.len()
    }

    /// The database that is searched.
    pub closed spec fn database(&self) -> EmbeddingsDatabase {
        self.database
    }

    /// Takes a loaded database up for searching. A database that states
    /// another number of chunks than it holds is malformed and is refused.
    pub fn new(database: EmbeddingsDatabase) -> (search: Result<Self, DatabaseFormatError>)
        ensures
            database.total_chunks == database.chunks@.len() ==> (search matches Ok(s)
                && s.database() == database),
            database.total_chunks != database.chunks@.len() ==> search == Err::<
                Self,
                DatabaseFormatError,
            >(
                DatabaseFormatError {
                    total_chunks: database.total_chunks,
                    chunk_count: database.chunks@.len() as usize,
                },
            ),
    {
        let chunk_count = database.chunks.len();
        if database.total_chunks != chunk_count {
            return Err(DatabaseFormatError { total_chunks: database.total_chunks, chunk_count });
        }
        Ok(SemanticSearch { database })
    }

    /// Metadata about the loaded database.
    pub fn metadata(&self) -> (metadata: EmbeddingsDatabaseMetadata)
        ensures
            metadata.version == self.database().version,
            metadata.generated_at == self.database().generated_at,
            metadata.model == self.database().model,
            metadata.chunk_size == self.database().chunk_size,
            metadata.overlap_size == self.database().overlap_size,
            metadata.total_files == self.database().total_files,
            metadata.total_chunks == self.database().total_chunks,
            metadata.total_chunks == self.database().chunks@.len(),
    {
        proof {
            use_type_invariant(self);
        }
        EmbeddingsDatabaseMetadata {
            version: self.database.version.clone(),
            generated_at: self.database.generated_at.clone(),
            model: self.database.model.clone(),
            chunk_size: self.database.chunk_size,
            overlap_size: self.database.overlap_size,
            total_files: self.database.total_files,
            total_chunks: self.database.total_chunks,
        }
    }

    /// The total number of chunks in the database: the number it states.
    pub fn chunk_count(&self) -> (count: usize)
        ensures
            count == self.database().chunks@.len(),
            count == self.database().total_chunks,
    {
        proof {
            use_type_invariant(self);
        }
        self.database.chunks.len()
    }

    /// The chunks of the database.
    pub fn chunks(&self) -> (chunks: &Vec<EmbeddingChunk>)
        ensures
            *chunks == self.database().chunks,
    {
        &self.database.chunks
    }

    /// The `top_n` chunks most similar to a query, best first, given the
    /// similarity of each chunk of the database to that query. Chunks of
    /// equal similarity keep the order of the database.
    pub fn search(&self, similarities: &Vec<u32>, top_n: usize) -> (results: Vec<SearchResult>)
        requires
            similarities@.len() == self.database().chunks@.len(),
        ensures
            results@.len() <= top_n,
            results@.len() <= self.database().chunks@.len(),
            forall|a: int, b: int|
                0 <= a < b < results@.len() ==> similarity_key(
                    (#[trigger] results@[a]).similarity_bits,
                ) >= similarity_key((#[trigger] results@[b]).similarity_bits),
            exists|order: Seq<int>|
                {
                    &&& is_ranking(similarities@, top_n as nat, order)
                    &&& results@.len() == order.len()
                    &&& forall|a: int|
                        0 <= a < order.len() ==> #[trigger] results@[a] == result_for(
                            self.database().chunks@,
                            similarities@,
                            order[a],
                        )
                },
    {
        let order = rank(similarities, top_n);
        let ghost listed = index_views(order@);
        let mut results: Vec<SearchResult> = Vec::new();
        let mut a: usize = 0;
        while a < order.len()
            invariant
                a <= order.len(),
                listed == index_views(order@),
                is_ranking(similarities@, top_n as nat, listed),
                similarities@.len() == self.database().chunks@.len(),
                results@.len() == a,
                forall|k: int|
                    0 <= k < a ==> #[trigger] results@[k] == result_for(
                        self.database().chunks@,
                        similarities@,
                        listed[k],
                    ),
            decreases order.len() - a,
        {
            let i = order[a];
            assert(listed[a as int] == i);
            let chunk = &self.database.chunks[i];
            results.push(
                SearchResult {
                    file_path: chunk.file_path.clone(),
                    content: chunk.content.clone(),
                    similarity_bits: similarities[i],
                },
            );
            a += 1;
        }
        proof {
            assert forall|a: int, b: int| 0 <= a < b < results@.len() implies similarity_key(
                (#[trigger] results@[a]).similarity_bits,
            ) >= similarity_key((#[trigger] results@[b]).similarity_bits) by {
                assert(ranks_before(similarities@, listed[a], listed[b]));
            }
        }
        results
    }
}

} // verus!
