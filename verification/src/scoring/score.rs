//! What the score of a message is computed from.

use crate::float::Float32;
use vstd::prelude::*;

verus! {

/// Two embeddings that are to be compared.
#[derive(Debug, Clone)]
pub struct EmbeddingPair {
    /// That of the message.
    pub message: Vec<Float32>,
    /// That of the end of the conversation.
    pub recent: Vec<Float32>,
}

/// What has been learned of a tool's output, as far as it counts.
#[derive(Debug, Clone, Copy)]
pub struct ToinImportance {
    /// How often the output was asked for again, between zero and one.
    pub retrieval_rate: Float32,
    /// How many fields are often asked for again.
    pub retrieved_fields: usize,
}

/// What the importance of a message is computed from. Where a factor is
/// missing, the message is neutral in it.
#[derive(Debug, Clone)]
pub struct MessageScore {
    pub message_index: usize,
    /// How many messages come after this one. Missing for the only message.
    pub position_from_end: Option<usize>,
    /// The embeddings whose similarity counts.
    pub semantic: Option<EmbeddingPair>,
    /// What has been learned of the tool's output.
    pub toin: Option<ToinImportance>,
    /// How many fields of the tool's output indicate errors.
    pub error_fields: usize,
    /// How many of them do so with high confidence.
    pub sure_error_fields: usize,
    /// How many later messages refer to this one.
    pub reference_count: usize,
    /// The distinct words and all words.
    pub density: Option<(usize, usize)>,
    /// About how many tokens the message takes.
    pub tokens: usize,
    pub is_protected: bool,
    /// False only for a protected message within a tool unit.
    pub drop_safe: bool,
}

} // verus!
