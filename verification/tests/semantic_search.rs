use toak_rs::prelude::{EmbeddingChunk, SearchResult, SemanticSearch};
use toak_rs::semantic_search::{is_nan, key_of, rank, DatabaseFormatError, EmbeddingsDatabase};

fn chunk(path: &str, content: &str, embedding: &[f32]) -> EmbeddingChunk {
    EmbeddingChunk {
        file_path: path.to_string(),
        content: content.to_string(),
        embedding: embedding.iter().map(|x| x.to_bits()).collect(),
    }
}

fn database(total_chunks: usize, chunks: Vec<EmbeddingChunk>) -> EmbeddingsDatabase {
    EmbeddingsDatabase {
        version: "1.0".to_string(),
        generated_at: "2024-01-01T00:00:00+00:00".to_string(),
        model: "EmbeddingGemma300M".to_string(),
        chunk_size: 800,
        overlap_size: 100,
        total_files: 3,
        total_chunks,
        chunks,
    }
}

fn five_chunks() -> Vec<EmbeddingChunk> {
    vec![
        chunk(".gitignore", "target/\nnode_modules/", &[1.0, 0.0]),
        chunk("src/main.rs", "fn main() {}", &[0.0, 1.0]),
        chunk("README.md", "# About", &[0.5, 0.5]),
        chunk("src/lib.rs", "pub mod a;", &[0.0, 1.0]),
        chunk("Cargo.toml", "[package]", &[-1.0, 0.0]),
    ]
}

fn bits(scores: &[f32]) -> Vec<u32> {
    scores.iter().map(|x| x.to_bits()).collect()
}

fn similarity(result: &SearchResult) -> f32 {
    f32::from_bits(result.similarity_bits)
}

#[test]
fn test_semantic_search_with_embeddings_file() {
    let search = SemanticSearch::new(database(5, five_chunks())).expect("Failed to load embeddings database");

    // Get metadata
    let metadata = search.metadata();
    println!("Loaded embeddings database:");
    println!("  Model: {}", metadata.model);
    println!("  Total chunks: {}", metadata.total_chunks);
    println!("  Chunk size: {}", metadata.chunk_size);

    // Perform a search
    let results = search.search(&bits(&[0.9, 0.1, 0.4, 0.1, -0.8]), 3);

    assert!(!results.is_empty(), "Expected to find at least one result");

    println!("\nSearch results for 'gitignore configuration':");
    for (i, result) in results.iter().enumerate() {
        println!("{}. {} (similarity: {:.4})", i + 1, result.file_path, similarity(result));
        println!("   Content: {}", result.content.lines().next().unwrap_or(""));
    }

    // Verify results are sorted by similarity (descending)
    for i in 1..results.len() {
        assert!(
            similarity(&results[i - 1]) >= similarity(&results[i]),
            "Results should be sorted by similarity in descending order"
        );
    }
}

#[test]
fn test_semantic_search_different_queries() {
    let search = SemanticSearch::new(database(5, five_chunks())).expect("Failed to load embeddings database");

    let queries = vec![
        ("rust code", vec![0.0, 0.9, 0.3, 0.8, 0.1]),
        ("configuration files", vec![0.7, 0.0, 0.1, 0.0, 0.9]),
        ("documentation", vec![0.1, 0.1, 0.95, 0.1, 0.1]),
    ];

    for (query, scores) in queries {
        let results = search.search(&bits(&scores), 2);

        println!("\nTop 2 results for '{}':", query);
        for result in &results {
            println!("  - {} (similarity: {:.4})", result.file_path, similarity(result));
        }

        assert!(results.len() <= 2, "Should return at most 2 results");
    }
}

#[test]
fn test_chunk_count() {
    let search = SemanticSearch::new(database(5, five_chunks())).expect("Failed to load embeddings database");

    let count = search.chunk_count();
    let metadata = search.metadata();

    assert_eq!(count, metadata.total_chunks, "Chunk count should match metadata");
    println!("Database contains {} chunks", count);
}

#[test]
fn top_two_of_five_are_the_two_best() {
    let search = SemanticSearch::new(database(5, five_chunks())).unwrap();
    let results = search.search(&bits(&[0.1, 0.9, 0.5, 0.7, -0.3]), 2);
    assert_eq!(results.len(), 2);
    assert!(similarity(&results[0]) >= similarity(&results[1]));
    assert_eq!(results[0].file_path, "src/main.rs");
    assert_eq!(results[0].content, "fn main() {}");
    assert_eq!(similarity(&results[0]), 0.9);
    assert_eq!(results[1].file_path, "src/lib.rs");
    assert_eq!(similarity(&results[1]), 0.7);
}

#[test]
fn database_with_a_wrong_count_is_refused() {
    let mut chunks = five_chunks();
    chunks.pop();
    let error = SemanticSearch::new(database(5, chunks)).err().unwrap();
    assert_eq!(error.total_chunks, 5);
    assert_eq!(error.chunk_count, 4);
    let error: DatabaseFormatError = SemanticSearch::new(database(0, five_chunks())).err().unwrap();
    assert_eq!((error.total_chunks, error.chunk_count), (0, 5));
    assert_eq!(error.message(), "malformed embeddings database: it states 0 chunks and holds 5");
}

#[test]
fn empty_database_is_searched_without_results() {
    let search = SemanticSearch::new(database(0, Vec::new())).unwrap();
    assert_eq!(search.chunk_count(), 0);
    assert!(search.search(&Vec::new(), 3).is_empty());
}

#[test]
fn metadata_repeats_the_header() {
    let search = SemanticSearch::new(database(5, five_chunks())).unwrap();
    let metadata = search.metadata();
    assert_eq!(metadata.version, "1.0");
    assert_eq!(metadata.generated_at, "2024-01-01T00:00:00+00:00");
    assert_eq!(metadata.model, "EmbeddingGemma300M");
    assert_eq!(metadata.chunk_size, 800);
    assert_eq!(metadata.overlap_size, 100);
    assert_eq!(metadata.total_files, 3);
    assert_eq!(metadata.total_chunks, 5);
    assert_eq!(search.chunks().len(), 5);
}

#[test]
fn ranking_is_descending_and_stable() {
    assert_eq!(rank(&bits(&[0.1, 0.9, 0.5, 0.9, -0.3]), 5), vec![1, 3, 2, 0, 4]);
    assert_eq!(rank(&bits(&[0.1, 0.9, 0.5, 0.9, -0.3]), 2), vec![1, 3]);
    assert_eq!(rank(&bits(&[0.1, 0.9, 0.5, 0.9, -0.3]), 9), vec![1, 3, 2, 0, 4]);
    assert_eq!(rank(&bits(&[0.1, 0.9]), 0), Vec::<usize>::new());
    assert_eq!(rank(&bits(&[0.5, 0.5, 0.5, 0.5]), 4), vec![0, 1, 2, 3]);
    assert_eq!(rank(&Vec::new(), 3), Vec::<usize>::new());
}

#[test]
fn ranking_orders_negative_numbers_and_zeros() {
    assert_eq!(rank(&bits(&[-0.5, -1.0, -0.25, 0.0, 1.0]), 5), vec![4, 3, 2, 0, 1]);
    // the two zeros are equal: the chunks keep their order
    assert_eq!(rank(&bits(&[-0.0, 0.0, -0.0]), 3), vec![0, 1, 2]);
    assert_eq!(rank(&bits(&[0.0, -0.0, 1e-30, -1e-30]), 4), vec![2, 0, 1, 3]);
    assert_eq!(
        rank(&bits(&[f32::NEG_INFINITY, f32::MAX, f32::INFINITY, f32::MIN]), 4),
        vec![2, 1, 3, 0]
    );
}

#[test]
fn ranking_agrees_with_a_stable_sort() {
    let scores: Vec<f32> = (0..200).map(|i| (((i * 37) % 41) as f32 - 20.0) / 20.0).collect();
    let mut expected: Vec<usize> = (0..scores.len()).collect();
    expected.sort_by(|a, b| scores[*b].partial_cmp(&scores[*a]).unwrap());
    assert_eq!(rank(&bits(&scores), scores.len()), expected);
    expected.truncate(17);
    assert_eq!(rank(&bits(&scores), 17), expected);
}

#[test]
fn keys_follow_the_numbers() {
    let ascending = [f32::NEG_INFINITY, -2.0, -1.0, -0.5, -1e-40, 0.0, 1e-40, 0.5, 1.0, 2.0, f32::INFINITY];
    for pair in ascending.windows(2) {
        assert!(key_of(pair[0].to_bits()) < key_of(pair[1].to_bits()));
    }
    assert_eq!(key_of(0.0f32.to_bits()), 0);
    assert_eq!(key_of((-0.0f32).to_bits()), 0);
    assert_eq!(key_of(1.0f32.to_bits()), 0x3f80_0000);
    assert_eq!(key_of((-1.0f32).to_bits()), -0x3f80_0000);
}

#[test]
fn nan_is_told_from_numbers() {
    assert!(is_nan(f32::NAN.to_bits()));
    assert!(is_nan((-f32::NAN).to_bits()));
    assert!(!is_nan(f32::INFINITY.to_bits()));
    assert!(!is_nan(f32::NEG_INFINITY.to_bits()));
    assert!(!is_nan(0.0f32.to_bits()));
    assert!(!is_nan(1.5f32.to_bits()));
}
