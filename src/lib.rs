//! Splitting documents into chunks of text: by sentence, by paragraph, or
//! under a token budget with a sliding window of preceding sentences.
//!
//! - `split_criteria`: the policies and `SplitCriteria::split`, with the laws
//!   that its chunks obey.
//! - `packing`: the token-budget packer, a state machine that takes the
//!   tokenizer's counts as plain answers, and its model.
//! - `corpus`: a word-level splitter that packs the token ids of words and
//!   decodes each chunk.
//! - `text`, `segment`, `tokens`: characters, sentence and word boundaries,
//!   and the tokenizer.
//! - `types`, `tweets`, `note_tweet`, `parser`: the embedding service's
//!   requests and the tweet archive whose notes it embeds.
pub mod corpus;
pub mod note_tweet;
pub mod packing;
pub mod parser;
pub mod segment;
pub mod split_criteria;
pub mod text;
pub mod tokens;
pub mod tweets;
pub mod types;
