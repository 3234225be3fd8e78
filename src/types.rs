//! The requests and settings that the embedding service exchanges.
use crate::split_criteria::SplitCriteria;
use vstd::prelude::*;

verus! {

/// The number of results a query returns when it names none.
pub const DEFAULT_TOP_K: u32 = 10;

/// The token budget of a chunk under the service's default policy.
pub const DEFAULT_MAX_TOKENS: usize = 512;

/// The context sentences of a chunk under the service's default policy.
pub const DEFAULT_CONTEXT_SENTENCES: usize = 1;

/// Represents a text document to be embedded
#[derive(Debug, PartialEq, Eq)]
pub struct TextToEmbed {
    /// Unique identifier for the query
    pub query_id: String,
    /// The name of the index in the vector store
    pub index_name: String,
    /// The actual text content to be embedded
    pub content: String,
    /// Optional source of the document
    pub source: Option<String>,
    /// Optional author of the document
    pub author: Option<String>,
    /// Optional page number of the document
    pub page: Option<u16>,
    /// Optional publication date of the document
    pub date: Option<String>,
}

/// Input parameters for querying the index
#[derive(Debug, PartialEq, Eq)]
pub struct QueryInput {
    /// The name of the index to query
    pub index_name: String,
    /// The text to search for in the index
    pub query_text: String,
    /// Optional number of top results to return
    pub top_k: Option<u32>,
}

/// Input parameters for creating a new index
#[derive(Debug, PartialEq, Eq)]
pub struct CreateIndexInput {
    /// The name of the index to create
    pub index_name: String,
    /// The dimensionality of the vectors in the index
    pub dimension: i32,
    /// Optional similarity metric to use for the index
    pub metric: Option<MetricOptions>,
}

/// Available similarity metrics for index creation
#[derive(Clone, Copy, Debug, PartialEq, Eq)]
pub enum MetricOptions {
    /// Cosine similarity
    Cosine,
    /// Euclidean distance
    Euclidean,
    /// Dot product
    Dotproduct,
}

impl QueryInput {
    /// The number of results to return: the one asked for, else ten.
    pub fn top_k_or_default(&self) -> (r: u32)
        ensures
            r == match self.top_k {
                Some(k) => k,
                None => DEFAULT_TOP_K,
            },
    {
        match self.top_k {
            Some(k) => k,
            None => DEFAULT_TOP_K,
        }
    }
}

impl CreateIndexInput {
    /// The metric of the new index: the one asked for, else cosine.
    pub fn metric_or_default(&self) -> (r: MetricOptions)
        ensures
            r == match self.metric {
                Some(m) => m,
                None => MetricOptions::Cosine,
            },
    {
        match self.metric {
            Some(m) => m,
            None => MetricOptions::Cosine,
        }
    }
}

/// The policy the service splits with: the one configured, else token
/// counting with the default budget and context.
pub fn criteria_or_default(configured: Option<SplitCriteria>) -> (r: SplitCriteria)
    ensures
        r == match configured {
            Some(c) => c,
            None => SplitCriteria::TokenCount {
                max_tokens: DEFAULT_MAX_TOKENS,
                context_sentences: DEFAULT_CONTEXT_SENTENCES,
            },
        },
{
    match configured {
        Some(c) => c,
        None => SplitCriteria::TokenCount {
            max_tokens: DEFAULT_MAX_TOKENS,
            context_sentences: DEFAULT_CONTEXT_SENTENCES,
        },
    }
}

} // verus!
