//! What a transform is, what it is given and what it returns.

use crate::float::Float32;
use crate::text::length;
use crate::transforms::ContentType;
use vstd::prelude::*;
use vstd::string::StringExecFns;

verus! {

/// `String::from`, for a string slice, copies its characters.
pub assume_specification<'a>[ <String as From<&'a str>>::from ](s: &str) -> (r: String)
    ensures
        r@ == s@,
;

/// `From::from`, from a type to itself, returns its argument unchanged.
pub assume_specification<T>[ <T as From<T>>::from ](value: T) -> (r: T)
    ensures
        r == value,
;

/// Errors a transform can return.
///
/// `InvalidInput` is for input that the transform cannot parse. `Skipped` is
/// for a transform that ran and found nothing to do. `Internal` is for a
/// failure of the transform itself. None of them stops the pipeline.
#[derive(Debug)]
pub enum TransformError {
    /// The transform could not parse the input.
    InvalidInput { transform: &'static str, message: String },
    /// The transform decided not to run.
    Skipped { transform: &'static str, message: String },
    /// The transform failed.
    Internal { transform: &'static str, message: String },
}

impl TransformError {
    pub fn invalid_input<M: Into<String>>(transform: &'static str, message: M) -> (r: Self)
        ensures
            r matches TransformError::InvalidInput { transform: t, message: m } && t == transform
                && call_ensures(<M as Into<String>>::into, (message,), m),
    {
        TransformError::InvalidInput { transform, message: message.into() }
    }

    pub fn skipped<M: Into<String>>(transform: &'static str, message: M) -> (r: Self)
        ensures
            r matches TransformError::Skipped { transform: t, message: m } && t == transform
                && call_ensures(<M as Into<String>>::into, (message,), m),
    {
        TransformError::Skipped { transform, message: message.into() }
    }

    pub fn internal<M: Into<String>>(transform: &'static str, message: M) -> (r: Self)
        ensures
            r matches TransformError::Internal { transform: t, message: m } && t == transform
                && call_ensures(<M as Into<String>>::into, (message,), m),
    {
        TransformError::Internal { transform, message: message.into() }
    }

    /// The sentence that describes the error.
    pub open spec fn description(self) -> Seq<char> {
        match self {
            TransformError::InvalidInput { transform, message } => "invalid input for "@
                + transform@ + ": "@ + message@,
            TransformError::Skipped { transform, message } => transform@ + " skipped: "@
                + message@,
            TransformError::Internal { transform, message } => transform@ + " internal error: "@
                + message@,
        }
    }

    /// The sentence that describes the error.
    pub fn to_string(&self) -> (r: String)
        ensures
            r@ == self.description(),
    {
        let mut out = String::new();
        match self {
            TransformError::InvalidInput { transform, message } => {
                out.append("invalid input for ");
                out.append(transform);
                out.append(": ");
                out.append(message.as_str());
            },
            TransformError::Skipped { transform, message } => {
                out.append(transform);
                out.append(" skipped: ");
                out.append(message.as_str());
            },
            TransformError::Internal { transform, message } => {
                out.append(transform);
                out.append(" internal error: ");
                out.append(message.as_str());
            },
        }
        out
    }
}

/// Result of a single transform invocation.
///
/// Every successful run owns its `output` and reports how much it saved. The
/// pipeline decides whether the savings are worth keeping.
#[derive(Debug, Clone)]
pub struct TransformResult {
    /// The compressed content.
    pub output: String,
    /// The input length less the output length, and zero if the output is the
    /// longer one.
    pub bytes_saved: usize,
    /// True if the transform keeps the structure of the content.
    pub structure_preserved: bool,
    /// The key under which content that was taken out can be retrieved.
    pub reversible_via: Option<String>,
}

/// The number of bytes that an output of `output_len` bytes saves.
pub open spec fn savings(input_len: nat, output_len: nat) -> nat {
    if input_len >= output_len {
        (input_len - output_len) as nat
    } else {
        0
    }
}

impl TransformResult {
    /// Whether the reported savings are those of an input of `input_len` bytes.
    pub open spec fn is_truthful(self, input_len: nat) -> bool {
        self.bytes_saved == savings(input_len, crate::text::byte_len(self.output@))
    }

    /// Construct a result whose `bytes_saved` is computed from the difference
    /// between input and output lengths.
    pub fn from_lengths(input_len: usize, output: String, structure_preserved: bool) -> (r: Self)
        ensures
            r.output == output,
            r.is_truthful(input_len as nat),
            r.structure_preserved == structure_preserved,
            r.reversible_via is None,
    {
        let output_len: usize = length(output.as_str());
        let bytes_saved: usize = input_len.saturating_sub(output_len);
        TransformResult { output, bytes_saved, structure_preserved, reversible_via: None }
    }
}

/// Per-call context that the pipeline hands to each lossy transform.
#[derive(Debug, Clone)]
pub struct CompressionContext {
    /// The user's question. Empty if there is none.
    pub query: String,
    /// The number of tokens to aim for, if there is one.
    pub token_budget: Option<usize>,
}

impl Default for CompressionContext {
    fn default() -> (r: Self)
        ensures
            r.query@ == Seq::<char>::empty(),
            r.token_budget is None,
    {
        CompressionContext { query: String::new(), token_budget: None }
    }
}

impl CompressionContext {
    pub fn with_query<Q: Into<String>>(query: Q) -> (r: Self)
        ensures
            call_ensures(<Q as Into<String>>::into, (query,), r.query),
            r.token_budget is None,
    {
        CompressionContext { query: query.into(), token_budget: None }
    }

    pub fn with_budget(token_budget: usize) -> (r: Self)
        ensures
            r.query@ == Seq::<char>::empty(),
            r.token_budget == Some(token_budget),
    {
        CompressionContext { query: String::new(), token_budget: Some(token_budget) }
    }
}

/// Compression that preserves all information. These transforms run first.
///
/// The three specification functions let each implementation say what its
/// methods may return. An implementation that does not say may return
/// anything.
pub trait LosslessTransform: Send + Sync {
    /// Whether `name` may return `name`.
    open spec fn may_be_named(&self, name: Seq<char>) -> bool {
        true
    }

    /// Whether `applies_to` may return `content_types`.
    open spec fn may_accept(&self, content_types: Seq<ContentType>) -> bool {
        true
    }

    /// Whether `apply` may return `outcome` for `content`.
    open spec fn may_return(
        &self,
        content: Seq<char>,
        outcome: Result<TransformResult, TransformError>,
    ) -> bool {
        true
    }

    /// Stable telemetry name, in lower-case snake case.
    fn name(&self) -> (r: &'static str)
        ensures
            self.may_be_named(r@),
    ;

    /// Content types this transform accepts.
    fn applies_to(&self) -> (r: &[ContentType])
        ensures
            self.may_accept(r@),
    ;

    /// Run the transform. A run that saves nothing is a success too; the
    /// pipeline decides by `bytes_saved`.
    fn apply(&self, content: &str) -> (r: Result<TransformResult, TransformError>)
        ensures
            self.may_return(content@, r),
    ;
}

/// Compression that drops content on purpose. These transforms run after the
/// lossless ones. The specification functions are as in `LosslessTransform`.
pub trait LossyTransform: Send + Sync {
    /// Whether `name` may return `name`.
    open spec fn may_be_named(&self, name: Seq<char>) -> bool {
        true
    }

    /// Whether `applies_to` may return `content_types`.
    open spec fn may_accept(&self, content_types: Seq<ContentType>) -> bool {
        true
    }

    /// Whether `apply` may return `outcome` for `content` in `context`.
    open spec fn may_return(
        &self,
        content: Seq<char>,
        context: CompressionContext,
        outcome: Result<TransformResult, TransformError>,
    ) -> bool {
        true
    }

    /// Stable telemetry name, in lower-case snake case.
    fn name(&self) -> (r: &'static str)
        ensures
            self.may_be_named(r@),
    ;

    /// Content types this transform accepts.
    fn applies_to(&self) -> (r: &[ContentType])
        ensures
            self.may_accept(r@),
    ;

    /// Run the transform, with the query and the budget at hand.
    fn apply(&self, content: &str, ctx: &CompressionContext) -> (r: Result<
        TransformResult,
        TransformError,
    >)
        ensures
            self.may_return(content@, *ctx, r),
    ;

    /// Quality score between zero and one, as a binary32 number. The pipeline
    /// does not act on it.
    fn confidence(&self) -> (r: Float32)
        ensures
            r.spec_at_least(Float32 { bits: 0 }),
            (Float32 { bits: crate::float::ONE_32 }).spec_at_least(r),
    ;
}

/// A truthful result saves what its output is shorter than the input, whatever
/// the lengths, and nothing if the output is not shorter.
pub proof fn law_savings_are_told_truthfully(result: TransformResult, input_len: nat)
    requires
        result.is_truthful(input_len),
    ensures
        crate::text::byte_len(result.output@) <= input_len ==> result.bytes_saved
            + crate::text::byte_len(result.output@) == input_len,
        crate::text::byte_len(result.output@) >= input_len ==> result.bytes_saved == 0,
{
}

/// What an error says of itself: what kind of error it is, the transform and
/// the whole message.
pub proof fn law_errors_tell_their_message(transform: &'static str, message: String)
    ensures
        (TransformError::InvalidInput { transform, message }).description() == "invalid input for "@
            + transform@ + ": "@ + message@,
        (TransformError::Skipped { transform, message }).description() == transform@ + " skipped: "@
            + message@,
        (TransformError::Internal { transform, message }).description() == transform@
            + " internal error: "@ + message@,
{
}

} // verus!
