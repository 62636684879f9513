//! The items most callers need, for one import.

pub use crate::{
    chunk_text, clean_and_redact, clean_code, count_tokens, redact_secrets, ChunkMetadata,
    ChunkerConfig, EmbeddedChunk, EmbeddingChunk, EmbeddingsDatabase, EmbeddingsDatabaseMetadata,
    JsonDatabaseGenerator, JsonDatabaseOptions, JsonDatabaseResult, MarkdownGenerator,
    MarkdownGeneratorOptions, MarkdownResult, SearchResult, SemanticSearch, TextChunk,
};
