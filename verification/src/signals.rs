//! Signals that tell how important a line of text is.

use crate::float::Float32;
use vstd::prelude::*;

verus! {

/// The kind of text that a line comes from.
#[derive(Debug, Clone, Copy, PartialEq, Eq, Structural)]
pub enum ImportanceContext {
    /// Prose, logs and other text.
    Text,
    /// A diff.
    Diff,
}

/// What makes a line important.
#[derive(Debug, Clone, Copy, PartialEq, Eq, Structural)]
pub enum ImportanceCategory {
    /// A warning.
    Warning,
    /// A mark of general importance.
    Importance,
}

/// How important a line is.
#[derive(Debug, Clone, Copy)]
pub struct ImportanceSignal {
    /// What makes the line important, if anything does.
    pub category: Option<ImportanceCategory>,
    /// Between zero and one; the higher, the more important.
    pub priority: Float32,
    /// Between zero and one; the higher, the surer.
    pub confidence: Float32,
}

impl ImportanceSignal {
    /// The signal of a line that matched.
    pub fn matched(category: ImportanceCategory, priority: Float32, confidence: Float32) -> (r:
        Self)
        ensures
            r.category == Some(category),
            r.priority == priority,
            r.confidence == confidence,
    {
        ImportanceSignal { category: Some(category), priority, confidence }
    }

    /// The signal of a line that did not match: priority and confidence zero.
    pub fn neutral() -> (r: Self)
        ensures
            r.category is None,
            r.priority.bits == 0,
            r.confidence.bits == 0,
    {
        ImportanceSignal {
            category: None,
            priority: Float32 { bits: 0 },
            confidence: Float32 { bits: 0 },
        }
    }
}

/// Tells how important a line is.
pub trait LineImportanceDetector: Send + Sync {
    /// Whether `score` may return `signal`. An implementation that does not say
    /// may return any.
    open spec fn may_score(
        &self,
        line: Seq<char>,
        context: ImportanceContext,
        signal: ImportanceSignal,
    ) -> bool {
        true
    }

    /// The signal of `line`.
    fn score(&self, line: &str, ctx: ImportanceContext) -> (r: ImportanceSignal)
        ensures
            self.may_score(line@, ctx, r),
    ;
}

} // verus!
