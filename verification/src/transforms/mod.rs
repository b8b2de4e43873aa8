//! Transforms that make content smaller.

use vstd::prelude::*;

pub mod pipeline;

verus! {

/// The kind of content that a transform is offered.
#[derive(Debug, Clone, Copy, PartialEq, Eq, Hash, Structural)]
pub enum ContentType {
    /// A JSON document.
    JsonArray,
    /// The output of a build or a test run.
    BuildOutput,
    /// The output of a search tool.
    SearchResults,
    /// Any other text.
    PlainText,
}

impl ContentType {
    /// The number of this content type.
    pub open spec fn spec_code(self) -> u64 {
        match self {
            ContentType::JsonArray => 0,
            ContentType::BuildOutput => 1,
            ContentType::SearchResults => 2,
            ContentType::PlainText => 3,
        }
    }

    /// The number of this content type; no two share one.
    pub fn code(self) -> (r: u64)
        ensures
            r == self.spec_code(),
    {
        match self {
            ContentType::JsonArray => 0,
            ContentType::BuildOutput => 1,
            ContentType::SearchResults => 2,
            ContentType::PlainText => 3,
        }
    }
}

} // verus!
