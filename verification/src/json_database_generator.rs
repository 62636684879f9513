//! Stages the chunks of a repository's files, has them embedded in global
//! batches, and assembles the embeddings database.

use crate::embedding_pool::{
    all_ready, cursor_after, default_pool_size, default_pool_size_model, first_not_ready, init_error,
    job_batch_model, job_plan, job_views, pool_size_model, signal_of, EmbeddingJob, EmbeddingPool,
    PoolInitError, ReadySignal, DEFAULT_JOB_BATCH,
};
use crate::file_selection::{filter_files, kept_files, listed_files, nonblank};
use crate::matching::{any_glob_matches, glob_match, glob_matches, matches_any_pattern, text_of};
use crate::text::{
    all_whitespace, chars_of, decimal_text, is_blank, lines, push_number, string_of, text_views,
};
use crate::text_chunker::{chunk_text, chunk_text_model, chunk_views, ChunkerConfig};
use crate::token_cleaner::{clean_and_redact, clean_and_redact_model};
use vstd::prelude::*;

verus! {

/// The format version written into a database.
pub const DATABASE_VERSION: &'static str = "1.0";

/// The name of the embedding model written into a database.
pub const MODEL_NAME: &'static str = "EmbeddingGemma300M";

/// Files staged at once, unless set otherwise.
pub const DEFAULT_MAX_CONCURRENT_FILES: usize = 4;

/// Metadata for a file chunk.
#[derive(Debug, Clone)]
pub struct ChunkMetadata {
    pub chunk_index: usize,
    pub total_chunks: usize,
    pub file_size: u64,
    pub last_modified: Option<String>,
    pub start_index: usize,
    pub end_index: usize,
}

/// A chunk of file content with its embedding. Each component of the
/// embedding is held by the bits of its single-precision value.
#[derive(Debug, Clone)]
pub struct EmbeddedChunk {
    pub file_path: String,
    pub content: String,
    pub embedding: Vec<u32>,
    pub metadata: ChunkMetadata,
}

/// A chunk staged for embedding: no vector yet.
#[derive(Debug, Clone)]
pub struct PendingChunk {
    pub file_path: String,
    pub content: String,
    pub metadata: ChunkMetadata,
}

/// The complete database.
#[derive(Debug)]
pub struct EmbeddingsDatabase {
    pub version: String,
    pub generated_at: String,
    pub model: String,
    pub chunk_size: usize,
    pub overlap_size: usize,
    pub total_files: usize,
    pub total_chunks: usize,
    pub chunks: Vec<EmbeddedChunk>,
}

/// Options for database generation.
pub struct JsonDatabaseOptions {
    pub dir: String,
    pub output_file_path: String,
    pub file_type_exclusions: Vec<String>,
    pub file_exclusions: Vec<String>,
    pub verbose: bool,
    pub chunker_config: ChunkerConfig,
    /// Maximum number of files to process concurrently.
    pub max_concurrent_files: usize,
    /// Number of parallel embedding workers, each with its own model.
    pub embedding_pool_size: usize,
    /// Optional batch size hint passed to the embedding backend.
    pub embedding_batch_size: Option<usize>,
}

/// Result returned after a generation run.
#[derive(Debug, Clone)]
pub struct JsonDatabaseResult {
    pub success: bool,
    pub total_files: usize,
    pub total_chunks: usize,
}

/// A file that could not be read or decoded. It contributes no chunk and
/// does not stop the staging of the other files.
#[derive(Debug)]
pub struct ReadError {
    pub path: String,
    pub reason: String,
}

/// A chunk was left without a vector: the embeddings ran out at `chunk`.
#[derive(Debug)]
pub struct MissingEmbedding {
    pub chunk: usize,
}

impl MissingEmbedding {
    /// The error in words.
    pub open spec fn message_model(self) -> Seq<char> {
        "missing embedding for chunk "@ + decimal_text(self.chunk as nat)
    }

    /// The error in words.
    pub fn message(&self) -> (text: String)
        ensures
            text@ == self.message_model(),
    {
        let mut out = chars_of("missing embedding for chunk ");
        push_number(&mut out, self.chunk as u64);
        string_of(&out)
    }
}

/// What a `PendingChunk` holds, as mathematical values.
pub struct PendingView {
    pub file_path: Seq<char>,
    pub content: Seq<char>,
    pub chunk_index: nat,
    pub total_chunks: nat,
    pub file_size: u64,
    pub last_modified: Option<Seq<char>>,
    pub start_index: nat,
    pub end_index: nat,
}

impl View for PendingChunk {
    type V = PendingView;

    open spec fn view(&self) -> PendingView {
        PendingView {
            file_path: self.file_path@,
            content: self.content@,
            chunk_index: self.metadata.chunk_index as nat,
            total_chunks: self.metadata.total_chunks as nat,
            file_size: self.metadata.file_size,
            last_modified: match self.metadata.last_modified {
                Some(stamp) => Some(stamp@),
                None => None,
            },
            start_index: self.metadata.start_index as nat,
            end_index: self.metadata.end_index as nat,
        }
    }
}

/// The views of a sequence of pending chunks.
pub open spec fn pending_views(pending: Seq<PendingChunk>) -> Seq<PendingView> {
    Seq::new(pending.len(), |i: int| pending[i]@)
}

impl EmbeddingsDatabase {
    /// The count that the database states is the number of chunks it holds.
    pub open spec fn wf(&self) -> bool {
        self.total_chunks == self.chunks@.len()
    }

    /// Every embedding has as many components as the first.
    pub open spec fn uniform_dimension(&self) -> bool {
        forall|i: int|
            0 <= i < self.chunks@.len() ==> (#[trigger] self.chunks@[i]).embedding@.len()
                == self.chunks@[0].embedding@.len()
    }

    /// Whether every embedding has the same number of components.
    pub fn has_uniform_dimension(&self) -> (uniform: bool)
        ensures
            uniform == self.uniform_dimension(),
    {
        let mut i: usize = 1;
        while i < self.chunks.len()
            invariant
                1 <= i,
                forall|k: int|
                    0 <= k < i && k < self.chunks@.len() ==> (#[trigger] self.chunks@[k]).embedding@.len()
                        == self.chunks@[0].embedding@.len(),
            decreases self.chunks.len() - i,
        {
            if self.chunks[i].embedding.len() != self.chunks[0].embedding.len() {
                return false;
            }
            i += 1;
        }
        true
    }

    /// The result to report for a run that wrote this database.
    pub fn generation_result(&self) -> (result: JsonDatabaseResult)
        ensures
            result.success,
            result.total_files == self.total_files,
            result.total_chunks == self.total_chunks,
    {
        JsonDatabaseResult {
            success: true,
            total_files: self.total_files,
            total_chunks: self.total_chunks,
        }
    }
}

impl JsonDatabaseOptions {
    /// The default options on a machine that can run `available` threads
    /// at once, `None` where the machine does not tell: the current
    /// directory, `embeddings.json`, no exclusions, verbose, the default
    /// chunking, four files at once, and a pool of at most four workers.
    pub fn for_parallelism(available: Option<usize>) -> (options: Self)
        ensures
            options.dir@ == "."@,
            options.output_file_path@ == "embeddings.json"@,
            options.file_type_exclusions@.len() == 0,
            options.file_exclusions@.len() == 0,
            options.verbose,
            options.chunker_config.chunk_size == 800,
            options.chunker_config.overlap_size == 100,
            options.max_concurrent_files == DEFAULT_MAX_CONCURRENT_FILES,
            options.embedding_pool_size == default_pool_size_model(available),
            options.embedding_batch_size is None,
    {
        JsonDatabaseOptions {
            dir: ".".to_owned(),
            output_file_path: "embeddings.json".to_owned(),
            file_type_exclusions: Vec::new(),
            file_exclusions: Vec::new(),
            verbose: true,
            chunker_config: ChunkerConfig::default(),
            max_concurrent_files: DEFAULT_MAX_CONCURRENT_FILES,
            embedding_pool_size: default_pool_size(available),
            embedding_batch_size: None,
        }
    }
}

/// The chunks that a file stages: none where its cleaned content is blank,
/// else one for each chunk of that content, with the file's path, size and
/// modification time and the number of chunks of the file.
pub open spec fn staged_chunks(
    path: Seq<char>,
    raw: Seq<char>,
    file_size: u64,
    last_modified: Option<Seq<char>>,
    chunk_size: nat,
    overlap_size: nat,
) -> Seq<PendingView> {
    let content = clean_and_redact_model(raw);
    if is_blank(content) {
        Seq::empty()
    } else {
        let chunks = chunk_text_model(content, chunk_size, overlap_size);
        Seq::new(
            chunks.len(),
            |i: int|
                PendingView {
                    file_path: path,
                    content: chunks[i].content,
                    chunk_index: chunks[i].chunk_index,
                    total_chunks: chunks.len(),
                    file_size,
                    last_modified,
                    start_index: chunks[i].start_index,
                    end_index: chunks[i].end_index,
                },
        )
    }
}

/// Stages one file: cleans and redacts its content, chunks what is left,
/// and binds each chunk to the file.
pub fn stage_file_chunks(
    relative_path: &str,
    raw: &str,
    file_size: u64,
    last_modified: Option<String>,
    chunker_config: &ChunkerConfig,
) -> (pending: Vec<PendingChunk>)
    ensures
        pending_views(pending@) == staged_chunks(
            relative_path@,
            raw@,
            file_size,
            text_of(last_modified),
            chunker_config.chunk_size as nat,
            chunker_config.overlap_size as nat,
        ),
{
    let content = clean_and_redact(raw);
    let content_chars = chars_of(content.as_str());
    if all_whitespace(&content_chars) {
        let none: Vec<PendingChunk> = Vec::new();
        assert(pending_views(none@) =~= Seq::<PendingView>::empty());
        return none;
    }
    let text_chunks = chunk_text(content.as_str(), chunker_config);
    let total_chunks = text_chunks.len();
    let ghost chunks = chunk_views(text_chunks@);
    let ghost goal = staged_chunks(
        relative_path@,
        raw@,
        file_size,
        text_of(last_modified),
        chunker_config.chunk_size as nat,
        chunker_config.overlap_size as nat,
    );
    let mut pending: Vec<PendingChunk> = Vec::new();
    assert(pending_views(pending@) =~= goal.take(0));
    for text_chunk in it: text_chunks.into_iter()
        invariant
            it.seq() == text_chunks@,
            chunks == chunk_views(text_chunks@),
            total_chunks == chunks.len(),
            goal.len() == chunks.len(),
            forall|i: int|
                0 <= i < chunks.len() ==> #[trigger] goal[i] == (PendingView {
                    file_path: relative_path@,
                    content: chunks[i].content,
                    chunk_index: chunks[i].chunk_index,
                    total_chunks: chunks.len(),
                    file_size,
                    last_modified: text_of(last_modified),
                    start_index: chunks[i].start_index,
                    end_index: chunks[i].end_index,
                }),
            pending_views(pending@) == goal.take(it.index()),
    {
        let ghost i = it.index();
        assert(chunks[i] == text_chunk@);
        let staged = PendingChunk {
            file_path: relative_path.to_owned(),
            content: text_chunk.content,
            metadata: ChunkMetadata {
                chunk_index: text_chunk.chunk_index,
                total_chunks,
                file_size,
                last_modified: match &last_modified {
                    Some(stamp) => Some(stamp.clone()),
                    None => None,
                },
                start_index: text_chunk.start_index,
                end_index: text_chunk.end_index,
            },
        };
        proof {
            assert(staged@ == goal[i]);
            assert(pending_views(pending@.push(staged)) =~= goal.take(i).push(goal[i]));
            assert(goal.take(i).push(goal[i]) =~= goal.take(i + 1));
        }
        pending.push(staged);
    }
    assert(goal.take(goal.len() as int) =~= goal);
    pending
}

/// The chunks of the files that were staged, file after file; a file that
/// failed contributes none.
pub open spec fn gathered(staged: Seq<Result<Vec<PendingChunk>, ReadError>>) -> Seq<PendingChunk>
    decreases staged.len(),
{
    if staged.len() == 0 {
        Seq::empty()
    } else {
        gathered(staged.drop_last()) + match staged.last() {
            Ok(chunks) => chunks@,
            Err(_) => Seq::empty(),
        }
    }
}

/// Collects the chunks of all staged files in the order in which their
/// staging was handed in. A file that could not be read is passed over.
pub fn gather_staged(staged: Vec<Result<Vec<PendingChunk>, ReadError>>) -> (pending: Vec<
    PendingChunk,
>)
    ensures
        pending@ == gathered(staged@),
{
    let mut pending: Vec<PendingChunk> = Vec::new();
    let ghost all = staged@;
    assert(all.take(0) =~= Seq::<Result<Vec<PendingChunk>, ReadError>>::empty());
    for file in it: staged.into_iter()
        invariant
            it.seq() == all,
            pending@ == gathered(all.take(it.index())),
    {
        let ghost i = it.index();
        proof {
            assert(all.take(i + 1).drop_last() =~= all.take(i));
            assert(all.take(i + 1).last() == file);
        }
        match file {
            Ok(chunks) => {
                let mut chunks = chunks;
                pending.append(&mut chunks);
            },
            Err(_) => {
                assert(pending@ + Seq::<PendingChunk>::empty() =~= pending@);
            },
        }
    }
    assert(all.take(all.len() as int) =~= all);
    pending
}

/// The contents of the staged chunks, in order: the texts to embed.
pub fn documents(pending: &Vec<PendingChunk>) -> (texts: Vec<String>)
    ensures
        texts@.len() == pending@.len(),
        forall|i: int| 0 <= i < pending@.len() ==> (#[trigger] texts@[i])@ == pending@[i].content@,
{
    let mut texts: Vec<String> = Vec::new();
    let mut i: usize = 0;
    while i < pending.len()
        invariant
            i <= pending.len(),
            texts@.len() == i,
            forall|k: int| 0 <= k < i ==> (#[trigger] texts@[k])@ == pending@[k].content@,
        decreases pending.len() - i,
    {
        texts.push(pending[i].content.clone());
        i += 1;
    }
    texts
}

/// The chunk that a staged chunk becomes once it has its vector.
pub open spec fn embedded(pending: PendingChunk, embedding: Vec<u32>) -> EmbeddedChunk {
    EmbeddedChunk {
        file_path: pending.file_path,
        content: pending.content,
        embedding,
        metadata: pending.metadata,
    }
}

/// The first `n` vectors all have as many components as the first of them.
pub open spec fn same_dimension(vectors: Seq<Vec<u32>>, n: int) -> bool {
    forall|i: int| 0 <= i < n ==> (#[trigger] vectors[i])@.len() == vectors[0]@.len()
}

/// Binds each staged chunk to the vector at its place and assembles the
/// database. Where the vectors run out before the chunks do, nothing is
/// assembled. An empty staging gives the empty database. The embeddings of
/// the database have one dimension exactly when the vectors bound to the
/// chunks have.
pub fn assemble_database(
    pending: Vec<PendingChunk>,
    embeddings: Vec<Vec<u32>>,
    generated_at: String,
    chunker_config: &ChunkerConfig,
    total_files: usize,
) -> (result: Result<EmbeddingsDatabase, MissingEmbedding>)
    ensures
        pending@.len() > embeddings@.len() ==> (result matches Err(e) && e.chunk
            == embeddings@.len()),
        pending@.len() <= embeddings@.len() ==> (result matches Ok(db) && {
            &&& db.wf()
            &&& db.version@ == DATABASE_VERSION@
            &&& db.model@ == MODEL_NAME@
            &&& db.generated_at == generated_at
            &&& db.chunk_size == chunker_config.chunk_size
            &&& db.overlap_size == chunker_config.overlap_size
            &&& db.total_files == total_files
            &&& db.chunks@.len() == pending@.len()
            &&& forall|i: int|
                0 <= i < pending@.len() ==> #[trigger] db.chunks@[i] == embedded(
                    pending@[i],
                    embeddings@[i],
                )
            &&& db.uniform_dimension() <==> same_dimension(embeddings@, pending@.len() as int)
        }),
{
    if pending.len() > embeddings.len() {
        return Err(MissingEmbedding { chunk: embeddings.len() });
    }
    let total_chunks = pending.len();
    let mut vectors = embeddings;
    let mut staged = pending;
    let mut reversed: Vec<EmbeddedChunk> = Vec::new();
    vectors.truncate(total_chunks);
    while staged.len() > 0
        invariant
            staged@.len() == vectors@.len(),
            staged@.len() <= total_chunks,
            total_chunks == pending@.len(),
            pending@.len() <= embeddings@.len(),
            staged@ == pending@.take(staged@.len() as int),
            vectors@ == embeddings@.take(vectors@.len() as int),
            reversed@.len() == total_chunks - staged@.len(),
            forall|k: int|
                0 <= k < reversed@.len() ==> #[trigger] reversed@[k] == embedded(
                    pending@[total_chunks - 1 - k],
                    embeddings@[total_chunks - 1 - k],
                ),
        decreases staged@.len(),
    {
        let ghost left = staged@.len() - 1;
        let chunk = staged.pop().unwrap();
        let embedding = vectors.pop().unwrap();
        proof {
            assert(staged@ =~= pending@.take(left));
            assert(vectors@ =~= embeddings@.take(left));
            assert(chunk == pending@[left]);
            assert(embedding == embeddings@[left]);
        }
        reversed.push(
            EmbeddedChunk {
                file_path: chunk.file_path,
                content: chunk.content,
                embedding,
                metadata: chunk.metadata,
            },
        );
    }
    let mut chunks: Vec<EmbeddedChunk> = Vec::new();
    while reversed.len() > 0
        invariant
            reversed@.len() + chunks@.len() == total_chunks,
            total_chunks == pending@.len(),
            pending@.len() <= embeddings@.len(),
            forall|k: int|
                0 <= k < reversed@.len() ==> #[trigger] reversed@[k] == embedded(
                    pending@[total_chunks - 1 - k],
                    embeddings@[total_chunks - 1 - k],
                ),
            forall|k: int|
                0 <= k < chunks@.len() ==> #[trigger] chunks@[k] == embedded(
                    pending@[k],
                    embeddings@[k],
                ),
        decreases reversed@.len(),
    {
        let chunk = reversed.pop().unwrap();
        chunks.push(chunk);
    }
    let db = EmbeddingsDatabase {
        version: DATABASE_VERSION.to_owned(),
        generated_at,
        model: MODEL_NAME.to_owned(),
        chunk_size: chunker_config.chunk_size,
        overlap_size: chunker_config.overlap_size,
        total_files,
        total_chunks,
        chunks,
    };
    proof {
        let n = pending@.len() as int;
        if same_dimension(embeddings@, n) {
            assert forall|i: int| 0 <= i < db.chunks@.len() implies (
            #[trigger] db.chunks@[i]).embedding@.len() == db.chunks@[0].embedding@.len() by {
                assert(embeddings@[i]@.len() == embeddings@[0]@.len());
            }
        }
        if db.uniform_dimension() {
            assert forall|i: int| 0 <= i < n implies (#[trigger] embeddings@[i])@.len()
                == embeddings@[0]@.len() by {
                assert(db.chunks@[i].embedding@.len() == db.chunks@[0].embedding@.len());
            }
        }
    }
    Ok(db)
}

/// Generator of the embeddings database: its options and its pool of
/// embedding workers.
pub struct JsonDatabaseGenerator {
    options: JsonDatabaseOptions,
    embeddings_pool: EmbeddingPool,
}

impl JsonDatabaseGenerator {
    /// The options the generator was made with.
    pub closed spec fn options(&self) -> JsonDatabaseOptions {
        self.options
    }

    /// The generator's pool of workers.
    pub closed spec fn pool(&self) -> EmbeddingPool {
        self.embeddings_pool
    }

    /// Creates a generator once the workers of its pool have been started
    /// and waited for. The generator is made exactly when the pool starts.
    pub fn new(options: JsonDatabaseOptions, signals: &Vec<ReadySignal>, init_timeout_secs: u64) -> (generator:
        Result<Self, PoolInitError>)
        ensures
            generator is Ok <==> all_ready(
                signals@,
                pool_size_model(options.embedding_pool_size as nat),
            ),
            generator matches Ok(g) ==> g.options() == options && g.pool().size()
                == pool_size_model(options.embedding_pool_size as nat) && g.pool().cursor() == 0,
            generator matches Err(e) ==> exists|w: int|
                first_not_ready(signals@, pool_size_model(options.embedding_pool_size as nat), w)
                    && e == init_error(signal_of(signals@, w), w as usize, init_timeout_secs),
    {
        match EmbeddingPool::new(options.embedding_pool_size, signals, init_timeout_secs) {
            Ok(embeddings_pool) => Ok(JsonDatabaseGenerator { options, embeddings_pool }),
            Err(e) => Err(e),
        }
    }

    /// The options the generator was made with.
    pub fn get_options(&self) -> (options: &JsonDatabaseOptions)
        ensures
            *options == self.options(),
    {
        &self.options
    }

    /// Whether an exclusion pattern of the options matches `file`.
    pub fn matches_exclusion_patterns(&self, file: &str) -> (matched: bool)
        ensures
            matched == any_glob_matches(self.options().file_exclusions@, file@),
    {
        matches_any_pattern(&self.options.file_exclusions, file)
    }

    /// Simple glob pattern matching.
    pub fn glob_match(&self, pattern: &str, path: &str) -> (matched: bool)
        ensures
            matched == glob_matches(pattern@, path@),
    {
        glob_match(pattern, path)
    }

    /// The files to process among those that a listing of the tracked
    /// files names: its lines that are not blank, without the files that
    /// the options exclude by type or by pattern.
    pub fn get_tracked_files(&self, listing: &str) -> (files: Vec<String>)
        ensures
            text_views(files@) == kept_files(
                nonblank(lines(listing@)),
                self.options().file_type_exclusions@,
                self.options().file_exclusions@,
            ),
    {
        let named = listed_files(listing);
        filter_files(named, &self.options.file_type_exclusions, &self.options.file_exclusions)
    }

    /// Stages one file under the generator's chunking.
    pub fn process_file_stage_chunks(
        &self,
        relative_path: &str,
        raw: &str,
        file_size: u64,
        last_modified: Option<String>,
    ) -> (pending: Vec<PendingChunk>)
        ensures
            pending_views(pending@) == staged_chunks(
                relative_path@,
                raw@,
                file_size,
                text_of(last_modified),
                self.options().chunker_config.chunk_size as nat,
                self.options().chunker_config.overlap_size as nat,
            ),
    {
        stage_file_chunks(relative_path, raw, file_size, last_modified, &self.options.chunker_config)
    }

    /// Plans the embedding of the staged chunks: their contents, sliced
    /// into jobs of 2048 texts dealt out to the workers in turn.
    pub fn plan_embedding(&mut self, pending: &Vec<PendingChunk>) -> (jobs: Vec<EmbeddingJob>)
        ensures
            final(self).options() == old(self).options(),
            final(self).pool().size() == old(self).pool().size(),
            final(self).pool().cursor() == cursor_after(old(self).pool().cursor(), jobs@.len()),
            exists|texts: Seq<String>|
                {
                    &&& texts.len() == pending@.len()
                    &&& forall|i: int|
                        0 <= i < texts.len() ==> (#[trigger] texts[i])@ == pending@[i].content@
                    &&& job_views(jobs@) == job_plan(
                        text_views(texts),
                        0,
                        DEFAULT_JOB_BATCH as nat,
                        old(self).options().embedding_batch_size,
                        old(self).pool().size(),
                        old(self).pool().cursor(),
                    )
                },
    {
        let texts = documents(pending);
        let jobs = self.embeddings_pool.plan_jobs(
            &texts,
            Some(DEFAULT_JOB_BATCH),
            self.options.embedding_batch_size,
        );
        assert(job_batch_model(Some(DEFAULT_JOB_BATCH)) == DEFAULT_JOB_BATCH as nat);
        jobs
    }

    /// Assembles the database of a run from the staged chunks and their
    /// vectors, for `total_files` files that were processed.
    pub fn assemble(
        &self,
        pending: Vec<PendingChunk>,
        embeddings: Vec<Vec<u32>>,
        generated_at: String,
        total_files: usize,
    ) -> (result: Result<EmbeddingsDatabase, MissingEmbedding>)
        ensures
            pending@.len() > embeddings@.len() ==> (result matches Err(e) && e.chunk
                == embeddings@.len()),
            pending@.len() <= embeddings@.len() ==> (result matches Ok(db) && {
                &&& db.wf()
                &&& db.version@ == DATABASE_VERSION@
                &&& db.model@ == MODEL_NAME@
                &&& db.generated_at == generated_at
                &&& db.chunk_size == self.options().chunker_config.chunk_size
                &&& db.overlap_size == self.options().chunker_config.overlap_size
                &&& db.total_files == total_files
                &&& db.chunks@.len() == pending@.len()
                &&& forall|i: int|
                    0 <= i < pending@.len() ==> #[trigger] db.chunks@[i] == embedded(
                        pending@[i],
                        embeddings@[i],
                    )
                &&& db.uniform_dimension() <==> same_dimension(
                    embeddings@,
                    pending@.len() as int,
                )
            }),
    {
        assemble_database(pending, embeddings, generated_at, &self.options.chunker_config, total_files)
    }
}

} // verus!
