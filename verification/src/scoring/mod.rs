//! How important the messages of a conversation are.
//!
//! Six factors tell how important a message is: how recent it is, how close it
//! is to what the conversation is about, what has been learned of the tool that
//! it comes from, whether it reports errors, how many later messages refer to
//! it, and how dense it is. This module gathers what each factor is computed
//! from.

pub mod laws;
pub mod messages;
pub mod references;
pub mod score;
pub mod scorer;
pub mod traits;

pub use score::MessageScore;
pub use scorer::MessageScorer;
pub use traits::{EmbeddingProvider, ToinFieldSemantic, ToinPattern, ToinProvider};
