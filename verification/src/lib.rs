//! An in-memory engine that indexes text documents and finds the sentences
//! that mention the terms of a query.
//!
//! A text is normalised into a bijective dictionary of tokens and, sentence by
//! sentence, the ids of its words. A document keeps both, together with an
//! approximate filter over its vocabulary; a corpus index keeps a batch of
//! documents in stable slots and answers free-text queries by first asking each
//! document's filter and then searching the documents that passed.
pub mod text;
pub mod filter;
pub mod dictionary;
pub mod pipeline;
pub mod document;
pub mod index;
pub mod feed;

pub use crate::dictionary::Dictionary;
pub use crate::document::Document;
pub use crate::feed::{Feed, FeedError, RawDoc};
pub use crate::filter::{CapacityWarning, PreFilter};
pub use crate::index::{Index, SearchResult, SAMPLE_LIMIT};
pub use crate::pipeline::{assign_ids, normalise, segment, NormalizationInvariantViolation};
pub use crate::text::{Language, Normalisation, Tokeniser};
