//! Turns a repository's files into token-bounded, overlapping text chunks,
//! plans their embedding across a pool of workers, and ranks stored chunks
//! against a query.
//!
//! The library decides and computes; it does no I/O. Files, threads, the
//! embedding model and the clock belong to the caller, who hands the
//! library plain values and acts on what it returns. A number that is a
//! floating-point value to the caller is held here by its bits.

pub mod chunk_overlap;
pub mod cli;
pub mod embedding_pool;
pub mod file_selection;
pub mod json_database_generator;
pub mod markdown_generator;
pub mod matching;
pub mod ocr;
pub mod paths;
pub mod prelude;
pub mod semantic_search;
pub mod text;
pub mod text_chunker;
pub mod token_cleaner;

pub use json_database_generator::{
    ChunkMetadata, EmbeddedChunk, EmbeddingsDatabase, JsonDatabaseGenerator, JsonDatabaseOptions,
    JsonDatabaseResult,
};
pub use markdown_generator::{MarkdownGenerator, MarkdownGeneratorOptions, MarkdownResult};
pub use semantic_search::{EmbeddingChunk, EmbeddingsDatabaseMetadata, SearchResult, SemanticSearch};
pub use text_chunker::{chunk_text, ChunkerConfig, TextChunk};
pub use token_cleaner::{clean_and_redact, clean_code, count_tokens, redact_secrets};
