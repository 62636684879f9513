use toak_rs::embedding_pool::{collect_ordered, EmbeddingPool, JobOutcome, PoolInitError, ReadySignal};
use toak_rs::file_selection::{dotted, file_is_excluded, filter_files, listed_files};
use toak_rs::json_database_generator::{
    assemble_database, documents, gather_staged, stage_file_chunks, ChunkMetadata, EmbeddingsDatabase,
    JsonDatabaseGenerator, JsonDatabaseOptions, PendingChunk, ReadError, DATABASE_VERSION,
    MODEL_NAME,
};
use toak_rs::semantic_search::SemanticSearch;
use toak_rs::text_chunker::ChunkerConfig;

fn strings(items: &[&str]) -> Vec<String> {
    items.iter().map(|s| s.to_string()).collect()
}

/// Stands in for a model: a vector that depends on nothing but the text.
fn fake_vector(text: &str) -> Vec<u32> {
    let sum: u32 = text.bytes().map(|b| b as u32).sum();
    vec![(text.len() as f32).to_bits(), (sum as f32 / 7.0).to_bits(), 1.0f32.to_bits()]
}

fn pending(path: &str, content: &str, index: usize, total: usize) -> PendingChunk {
    PendingChunk {
        file_path: path.to_string(),
        content: content.to_string(),
        metadata: ChunkMetadata {
            chunk_index: index,
            total_chunks: total,
            file_size: 10,
            last_modified: None,
            start_index: 0,
            end_index: content.len(),
        },
    }
}

fn options(pool_size: usize) -> JsonDatabaseOptions {
    JsonDatabaseOptions {
        dir: ".".to_string(),
        output_file_path: "embeddings.json".to_string(),
        file_type_exclusions: strings(&[".png", ".lock"]),
        file_exclusions: strings(&["*.md", "docs/*"]),
        verbose: false,
        chunker_config: ChunkerConfig { chunk_size: 100, overlap_size: 10 },
        max_concurrent_files: 4,
        embedding_pool_size: pool_size,
        embedding_batch_size: None,
    }
}

#[test]
fn three_texts_through_two_workers() {
    let config = ChunkerConfig { chunk_size: 100, overlap_size: 10 };
    let inputs = ["alpha beta", "gamma delta epsilon", "alpha beta"];
    let mut staged = Vec::new();
    for (i, text) in inputs.iter().enumerate() {
        let path = format!("file{}.txt", i);
        staged.push(Ok(stage_file_chunks(&path, text, text.len() as u64, None, &config)));
    }
    let chunks = gather_staged(staged);
    assert_eq!(chunks.len(), 3);
    let texts = documents(&chunks);
    assert_eq!(texts, strings(&inputs));

    let signals = vec![ReadySignal::Ready, ReadySignal::Ready];
    let mut pool = EmbeddingPool::new(2, &signals, 20).ok().unwrap();
    let jobs = pool.plan_jobs(&texts, Some(2), None);
    assert_eq!(jobs.len(), 2);
    let answers = jobs
        .iter()
        .map(|job| {
            let vectors = job.texts.iter().map(|t| fake_vector(t)).collect();
            (job.start, JobOutcome::Completed(vectors))
        })
        .collect();
    let embeddings = collect_ordered(texts.len(), answers, 120).ok().unwrap();
    assert_eq!(embeddings.len(), 3);
    assert_eq!(embeddings[0], embeddings[2]);
    assert_ne!(embeddings[0], embeddings[1]);

    let generated =
        assemble_database(chunks, embeddings, "2024-05-01T12:00:00+00:00".to_string(), &config, 3)
            .ok()
            .unwrap();
    assert_eq!(generated.total_chunks, 3);
    assert!(generated.has_uniform_dimension());
    let result = generated.generation_result();
    assert!(result.success);
    assert_eq!((result.total_files, result.total_chunks), (3, 3));

    let loaded = toak_rs::semantic_search::EmbeddingsDatabase::from_generated(generated);
    let search = SemanticSearch::new(loaded).ok().unwrap();
    assert_eq!(search.chunk_count(), 3);
    assert_eq!(search.chunks()[0].embedding, search.chunks()[2].embedding);
    assert_eq!(search.chunks()[1].content, "gamma delta epsilon");
}

#[test]
fn staged_chunks_carry_the_file() {
    let config = ChunkerConfig { chunk_size: 3, overlap_size: 1 };
    let staged = stage_file_chunks(
        "src/a.txt",
        "a\nb\nc\nd\ne",
        9,
        Some("2024-05-01T12:00:00+00:00".to_string()),
        &config,
    );
    assert_eq!(staged.len(), 2);
    assert_eq!(staged[0].file_path, "src/a.txt");
    assert_eq!(staged[0].content, "a\nb\nc\n");
    assert_eq!(staged[1].content, "c\nd\ne\n");
    for (i, chunk) in staged.iter().enumerate() {
        assert_eq!(chunk.metadata.chunk_index, i);
        assert_eq!(chunk.metadata.total_chunks, 2);
        assert_eq!(chunk.metadata.file_size, 9);
        assert_eq!(chunk.metadata.last_modified.as_deref(), Some("2024-05-01T12:00:00+00:00"));
    }
    assert_eq!((staged[0].metadata.start_index, staged[0].metadata.end_index), (0, 3));
    assert_eq!((staged[1].metadata.start_index, staged[1].metadata.end_index), (3, 5));
}

#[test]
fn file_that_cleans_to_nothing_stages_no_chunk() {
    let config = ChunkerConfig::default();
    assert!(stage_file_chunks("a.js", "// only a comment\n", 18, None, &config).is_empty());
    assert!(stage_file_chunks("b.env", "API_KEY=\"abcdef\"\n", 17, None, &config).is_empty());
    assert!(stage_file_chunks("c.txt", "", 0, None, &config).is_empty());
}

#[test]
fn staging_cleans_before_it_chunks() {
    let config = ChunkerConfig::default();
    let staged = stage_file_chunks("a.rs", "let x = 1; // note\n", 19, None, &config);
    assert_eq!(staged.len(), 1);
    assert_eq!(staged[0].content, "let x = 1;");
    assert_eq!(staged[0].metadata.total_chunks, 1);
    assert_eq!(staged[0].metadata.end_index, 10);
}

#[test]
fn unreadable_file_contributes_no_chunk() {
    let staged = vec![
        Ok(vec![pending("a", "one", 0, 2), pending("a", "two", 1, 2)]),
        Err(ReadError { path: "b".to_string(), reason: "not UTF-8".to_string() }),
        Ok(Vec::new()),
        Ok(vec![pending("c", "three", 0, 1)]),
    ];
    let chunks = gather_staged(staged);
    assert_eq!(documents(&chunks), strings(&["one", "two", "three"]));
    assert_eq!(chunks[2].file_path, "c");
    assert!(gather_staged(Vec::new()).is_empty());
}

#[test]
fn database_binds_each_chunk_to_its_vector() {
    let config = ChunkerConfig { chunk_size: 50, overlap_size: 5 };
    let chunks = vec![pending("a", "one", 0, 2), pending("a", "two", 1, 2), pending("b", "three", 0, 1)];
    let embeddings = vec![vec![1, 2], vec![3, 4], vec![5, 6], vec![7, 8]];
    let db: EmbeddingsDatabase =
        assemble_database(chunks, embeddings, "now".to_string(), &config, 2).ok().unwrap();
    assert_eq!(db.version, "1.0");
    assert_eq!(db.version, DATABASE_VERSION);
    assert_eq!(db.model, "EmbeddingGemma300M");
    assert_eq!(db.model, MODEL_NAME);
    assert_eq!(db.generated_at, "now");
    assert_eq!((db.chunk_size, db.overlap_size), (50, 5));
    assert_eq!((db.total_files, db.total_chunks), (2, 3));
    assert_eq!(db.chunks.len(), 3);
    assert_eq!(db.chunks[1].file_path, "a");
    assert_eq!(db.chunks[1].content, "two");
    assert_eq!(db.chunks[1].embedding, vec![3, 4]);
    assert_eq!(db.chunks[1].metadata.chunk_index, 1);
    assert_eq!(db.chunks[2].embedding, vec![5, 6]);
}

#[test]
fn missing_vector_stops_the_assembly() {
    let config = ChunkerConfig::default();
    let chunks = vec![pending("a", "one", 0, 2), pending("a", "two", 1, 2)];
    let error = assemble_database(chunks, vec![vec![1]], "now".to_string(), &config, 1).err().unwrap();
    assert_eq!(error.chunk, 1);
    assert_eq!(error.message(), "missing embedding for chunk 1");
}

#[test]
fn empty_staging_gives_the_empty_database() {
    let config = ChunkerConfig::default();
    let db = assemble_database(Vec::new(), Vec::new(), "now".to_string(), &config, 4).ok().unwrap();
    assert_eq!((db.total_files, db.total_chunks), (4, 0));
    assert!(db.chunks.is_empty());
    assert!(db.has_uniform_dimension());
}

#[test]
fn uneven_vectors_are_noticed() {
    let config = ChunkerConfig::default();
    let chunks = vec![pending("a", "one", 0, 2), pending("a", "two", 1, 2)];
    let db = assemble_database(chunks, vec![vec![1, 2], vec![3]], "now".to_string(), &config, 1)
        .ok()
        .unwrap();
    assert!(!db.has_uniform_dimension());
}

#[test]
fn listing_names_the_lines_that_are_not_blank() {
    assert_eq!(listed_files("a.rs\n\n  \nsrc/b.rs\r\nc d.txt"), strings(&["a.rs", "src/b.rs", "c d.txt"]));
    assert!(listed_files("").is_empty());
}

#[test]
fn extension_gets_its_dot() {
    assert_eq!(dotted(Some("rs".to_string())), ".rs");
    assert_eq!(dotted(None), "");
}

#[test]
fn files_are_excluded_by_type_or_pattern() {
    let types = strings(&[".png", ".lock"]);
    let patterns = strings(&["*.md", "docs/*"]);
    assert!(file_is_excluded("img/logo.png", &types, &patterns));
    assert!(file_is_excluded("Cargo.lock", &types, &patterns));
    assert!(file_is_excluded("README.md", &types, &patterns));
    assert!(file_is_excluded("docs/guide.txt", &types, &patterns));
    assert!(!file_is_excluded("src/main.rs", &types, &patterns));
    assert!(!file_is_excluded("src/notes.md", &types, &patterns));
    assert!(!file_is_excluded("png", &types, &patterns));
    assert!(!file_is_excluded(".png", &types, &patterns));
    // a file without extension is excluded where the empty type is
    assert!(file_is_excluded("Makefile", &strings(&[""]), &Vec::new()));
    assert_eq!(
        filter_files(strings(&["a.rs", "b.png", "README.md", "src/c.rs"]), &types, &patterns),
        strings(&["a.rs", "src/c.rs"])
    );
}

#[test]
fn default_options_follow_the_machine() {
    let options = JsonDatabaseOptions::for_parallelism(Some(16));
    assert_eq!(options.dir, ".");
    assert_eq!(options.output_file_path, "embeddings.json");
    assert!(options.file_type_exclusions.is_empty());
    assert!(options.file_exclusions.is_empty());
    assert!(options.verbose);
    assert_eq!(options.chunker_config.chunk_size, 800);
    assert_eq!(options.chunker_config.overlap_size, 100);
    assert_eq!(options.max_concurrent_files, 4);
    assert_eq!(options.embedding_pool_size, 4);
    assert_eq!(options.embedding_batch_size, None);
    assert_eq!(JsonDatabaseOptions::for_parallelism(Some(2)).embedding_pool_size, 2);
    assert_eq!(JsonDatabaseOptions::for_parallelism(None).embedding_pool_size, 4);
}

#[test]
fn generator_starts_with_its_pool() {
    let signals = vec![ReadySignal::Ready, ReadySignal::Ready];
    let mut generator = JsonDatabaseGenerator::new(options(2), &signals, 20).ok().unwrap();
    assert_eq!(generator.get_options().embedding_pool_size, 2);
    assert!(generator.matches_exclusion_patterns("README.md"));
    assert!(!generator.matches_exclusion_patterns("src/main.rs"));
    assert!(generator.glob_match("src/*.rs", "src/main.rs"));
    assert_eq!(
        generator.get_tracked_files("src/main.rs\nREADME.md\nlogo.png\n\ndocs/a.txt\nnotes.txt\n"),
        strings(&["src/main.rs", "notes.txt"])
    );
    let staged = generator.process_file_stage_chunks("notes.txt", "alpha beta", 10, None);
    assert_eq!(staged.len(), 1);
    let jobs = generator.plan_embedding(&staged);
    assert_eq!(jobs.len(), 1);
    assert_eq!(jobs[0].texts, strings(&["alpha beta"]));
    assert_eq!((jobs[0].worker, jobs[0].start, jobs[0].batch_size), (0, 0, None));
    let db = generator.assemble(staged, vec![vec![9]], "now".to_string(), 2).ok().unwrap();
    assert_eq!((db.chunk_size, db.overlap_size, db.total_files, db.total_chunks), (100, 10, 2, 1));
}

#[test]
fn generator_fails_with_its_pool() {
    let signals = vec![ReadySignal::Ready];
    match JsonDatabaseGenerator::new(options(2), &signals, 20) {
        Err(PoolInitError::TimedOut { worker: 1, timeout_secs: 20 }) => {}
        _ => panic!("the generator must not be made"),
    }
    let error = JsonDatabaseGenerator::new(options(2), &signals, 20).err().unwrap();
    assert_eq!(error.message(), "embedding pool init timed out after 20s waiting for worker 1");
}

#[test]
fn database_has_one_dimension_when_the_vectors_have() {
    let config = ChunkerConfig::default();
    let chunks = vec![pending("a", "one", 0, 2), pending("a", "two", 1, 2)];
    // a vector beyond the chunks is not bound to any and does not count
    let vectors = vec![vec![1, 2], vec![3, 4], vec![5]];
    let db = assemble_database(chunks, vectors, "now".to_string(), &config, 1).ok().unwrap();
    assert!(db.has_uniform_dimension());
}

#[test]
fn staging_takes_any_chunk_size() {
    let config = ChunkerConfig { chunk_size: 0, overlap_size: 0 };
    assert!(stage_file_chunks("a.txt", "alpha beta", 10, None, &config).is_empty());
    assert!(stage_file_chunks("b.txt", "", 0, None, &config).is_empty());
}
