//! `JsonMinifier` removes decorative white space from JSON documents.
//!
//! It parses the document and writes it again without white space. A document
//! that is compact already saves nothing, so the pipeline passes the result
//! over.

use crate::json::{error_text, parse_value, value_text};
use crate::text::length;
use crate::transforms::pipeline::laws::lemma_logs_of_a_run;
use crate::transforms::pipeline::orchestrator;
use crate::transforms::pipeline::orchestrator::{
    Accepted, CompressionPipeline, Phase, PipelineResult,
};
use crate::transforms::pipeline::traits::{
    CompressionContext, LosslessTransform, TransformError, TransformResult,
};
use crate::transforms::ContentType;
use vstd::prelude::*;
use vstd::string::StringExecFns;

verus! {

/// Minifies any JSON document by parsing it and writing it again.
#[derive(Debug, Default, Clone, Copy)]
pub struct JsonMinifier;

/// Why a document was not rewritten, with the sentence of the error.
#[derive(Debug)]
pub enum RewriteFailure {
    /// The content is not a JSON document.
    Parse(String),
    /// The document could not be written.
    Write(String),
}

impl JsonMinifier {
    pub const NAME: &'static str = "json_minifier";

    /// Whether `outcome` is what the minifier makes of a content of
    /// `content_len` bytes that was rewritten, or not, as `written` says.
    pub open spec fn concludes(
        content_len: nat,
        written: Result<String, RewriteFailure>,
        outcome: Result<TransformResult, TransformError>,
    ) -> bool {
        match written {
            Ok(minified) => {
                &&& outcome matches Ok(result)
                &&& result.output == minified
                &&& result.is_truthful(content_len)
                &&& result.structure_preserved
                &&& result.reversible_via is None
            },
            Err(RewriteFailure::Parse(error)) => {
                &&& outcome matches Err(TransformError::InvalidInput { transform, message })
                &&& transform@ == Self::NAME@
                &&& message@ == "not valid json: "@ + error@
            },
            Err(RewriteFailure::Write(error)) => {
                &&& outcome matches Err(TransformError::Internal { transform, message })
                &&& transform@ == Self::NAME@
                &&& message@ == "serialize failed: "@ + error@
            },
        }
    }

    /// What the minifier makes of a content of `content_len` bytes that was
    /// rewritten, or not, as `written` says.
    pub fn conclude(content_len: usize, written: Result<String, RewriteFailure>) -> (r: Result<
        TransformResult,
        TransformError,
    >)
        ensures
            Self::concludes(content_len as nat, written, r),
    {
        match written {
            Ok(minified) => Ok(TransformResult::from_lengths(content_len, minified, true)),
            Err(RewriteFailure::Parse(error)) => {
                let mut message = String::new();
                message.append("not valid json: ");
                message.append(error.as_str());
                Err(TransformError::invalid_input(Self::NAME, message))
            },
            Err(RewriteFailure::Write(error)) => {
                let mut message = String::new();
                message.append("serialize failed: ");
                message.append(error.as_str());
                Err(TransformError::internal(Self::NAME, message))
            },
        }
    }
}

impl LosslessTransform for JsonMinifier {
    open spec fn may_be_named(&self, name: Seq<char>) -> bool {
        name == "json_minifier"@
    }

    open spec fn may_accept(&self, content_types: Seq<ContentType>) -> bool {
        content_types == seq![ContentType::JsonArray]
    }

    /// An empty content is skipped; a content that is no document is invalid
    /// input; any other comes back as the writer writes it.
    open spec fn may_return(
        &self,
        content: Seq<char>,
        outcome: Result<TransformResult, TransformError>,
    ) -> bool {
        if content.len() == 0 {
            &&& outcome matches Err(TransformError::Skipped { transform, message })
            &&& transform@ == Self::NAME@
            &&& message@ == "empty input"@
        } else {
            match crate::json::json_parse(content) {
                Ok(tree) => {
                    &&& outcome matches Ok(result)
                    &&& result.output@ == crate::json::json_text(tree)
                    &&& crate::json::is_faithful(result.output@, tree)
                    &&& result.is_truthful(crate::text::byte_len(content))
                    &&& result.structure_preserved
                    &&& result.reversible_via is None
                },
                Err(error) => {
                    &&& outcome matches Err(TransformError::InvalidInput { transform, message })
                    &&& transform@ == Self::NAME@
                    &&& message@ == "not valid json: "@ + error
                },
            }
        }
    }

    fn name(&self) -> (r: &'static str) {
        Self::NAME
    }

    fn applies_to(&self) -> (r: &[ContentType]) {
        let r: &[ContentType] = &[ContentType::JsonArray];
        assert(r@ == seq![ContentType::JsonArray]);
        r
    }

    fn apply(&self, content: &str) -> (r: Result<TransformResult, TransformError>) {
        if content.is_empty() {
            return Err(TransformError::skipped(Self::NAME, "empty input"));
        }
        let written = match parse_value(content) {
            Ok(value) => match value_text(&value) {
                Ok(minified) => Ok(minified),
                Err(error) => Err(RewriteFailure::Write(error_text(&error))),
            },
            Err(error) => Err(RewriteFailure::Parse(error_text(&error))),
        };
        Self::conclude(length(content), written)
    }
}

/// A minified document stands on one line, and holds no white space outside its
/// strings.
pub proof fn law_no_decorative_white_space_is_left(
    content: Seq<char>,
    outcome: Result<TransformResult, TransformError>,
)
    requires
        content.len() > 0,
        crate::json::json_parse(content) is Ok,
        JsonMinifier.may_return(content, outcome),
    ensures
        outcome matches Ok(result) && {
            &&& crate::json::is_compact(result.output@)
            &&& !result.output@.contains('\n')
        },
{
    let written = outcome->Ok_0.output@;
    if written.contains('\n') {
        let i = choose|i: int| 0 <= i < written.len() && written[i] == '\n';
        assert(written[i] as u32 >= 0x20);
    }
}

/// The minified document says what the document said. The law leaves out
/// documents that are nested deeper than the parser follows, that hold a number
/// that is not parsed as it was written, or that have an object that starts
/// with the parser's reserved key.
pub proof fn law_minifying_keeps_the_document(
    content: Seq<char>,
    tree: crate::json::JsonTree,
    outcome: Result<TransformResult, TransformError>,
)
    requires
        content.len() > 0,
        crate::json::json_parse(content) == Ok::<crate::json::JsonTree, Seq<char>>(tree),
        tree.reads_back(),
        tree.nesting() <= crate::json::NESTING_LIMIT,
        JsonMinifier.may_return(content, outcome),
    ensures
        outcome matches Ok(result) && crate::json::json_parse(result.output@) == Ok::<
            crate::json::JsonTree,
            Seq<char>,
        >(tree),
{
}

/// Minifying a minified document changes nothing and saves nothing. The law
/// leaves out the documents that `law_minifying_keeps_the_document` leaves out.
pub proof fn law_minifying_twice_changes_nothing(
    content: Seq<char>,
    tree: crate::json::JsonTree,
    first: TransformResult,
    second: Result<TransformResult, TransformError>,
)
    requires
        content.len() > 0,
        crate::json::json_parse(content) == Ok::<crate::json::JsonTree, Seq<char>>(tree),
        tree.reads_back(),
        tree.nesting() <= crate::json::NESTING_LIMIT,
        JsonMinifier.may_return(content, Ok(first)),
        JsonMinifier.may_return(first.output@, second),
    ensures
        second matches Ok(result) && result.output@ == first.output@ && result.bytes_saved == 0,
{
}

/// What the minifier returns. An empty content is skipped, and a content that is
/// no document is invalid input. Any document, whatever its kind, comes back
/// compact, with its structure, and with savings of the content's length less
/// the output's, or none if the output is the longer one.
pub proof fn law_every_document_is_minified(
    content: Seq<char>,
    outcome: Result<TransformResult, TransformError>,
)
    requires
        JsonMinifier.may_return(content, outcome),
    ensures
        content.len() == 0 ==> (outcome matches Err(TransformError::Skipped { transform, message })
            && transform@ == "json_minifier"@ && message@ == "empty input"@),
        content.len() > 0 ==> match crate::json::json_parse(content) {
            Ok(tree) => {
                &&& outcome matches Ok(result)
                &&& result.output@ == crate::json::json_text(tree)
                &&& result.bytes_saved == if crate::text::byte_len(result.output@)
                    <= crate::text::byte_len(content) {
                    crate::text::byte_len(content) - crate::text::byte_len(result.output@)
                } else {
                    0
                }
                &&& result.structure_preserved
                &&& result.reversible_via is None
            },
            Err(error) => {
                &&& outcome matches Err(TransformError::InvalidInput { transform, message })
                &&& transform@ == "json_minifier"@
                &&& message@ == "not valid json: "@ + error
            },
        },
{
}

/// A pipeline with the default thresholds and the minifier alone returns the
/// compact text of a document, of whatever kind, exactly if that saves a
/// twentieth of the document's length or more; otherwise it returns the
/// document as it was. The law is for lengths below 2^53.
pub proof fn law_a_pipeline_with_the_minifier_returns_the_compact_text(
    pipeline: CompressionPipeline,
    content: Seq<char>,
    tree: crate::json::JsonTree,
    context: CompressionContext,
    result: PipelineResult,
)
    requires
        pipeline.lossless_for(ContentType::JsonArray).len() == 1,
        pipeline.lossy_for(ContentType::JsonArray).len() == 0,
        pipeline.spec_config().min_savings_ratio.bits == 0x3FA9_9999_9999_999A,
        pipeline.spec_config().lossless_target_ratio.bits == 0x3FE0_0000_0000_0000,
        forall|input: Seq<char>, outcome: Result<TransformResult, TransformError>| #[trigger]
            pipeline.lossless_for(ContentType::JsonArray)[0].transform.may_return(input, outcome)
                ==> JsonMinifier.may_return(input, outcome),
        forall|name: Seq<char>| #[trigger]
            pipeline.lossless_for(ContentType::JsonArray)[0].transform.may_be_named(name)
                ==> JsonMinifier.may_be_named(name),
        content.len() > 0,
        crate::text::byte_len(content) < 0x20_0000_0000_0000,
        crate::json::json_parse(content) == Ok::<crate::json::JsonTree, Seq<char>>(tree),
        pipeline.may_run_to(content, ContentType::JsonArray, context, result),
    ensures
        ({
            let compact = crate::json::json_text(tree);
            let before = crate::text::byte_len(content) as int;
            let after = crate::text::byte_len(compact) as int;
            if after < before && 20 * (before - after) >= before {
                &&& result.output@ == compact
                &&& result.bytes_saved == before - after
                &&& result.structure_preserved
                &&& result.steps_applied@.len() == 1
                &&& result.steps_applied@[0]@ == "json_minifier"@
                &&& result.reversible_via is None
            } else {
                &&& result.output@ == content
                &&& result.bytes_saved == 0
                &&& result.structure_preserved
                &&& result.steps_applied@.len() == 0
                &&& result.reversible_via is None
            }
        }),
{
    let compact = crate::json::json_text(tree);
    let before = crate::text::byte_len(content);
    let after = crate::text::byte_len(compact);
    let rest = content.drop_first();
    crate::text::law_bytes_add_up(Seq::empty(), rest, content[0]);
    crate::text::law_bytes_add_up(Seq::<char>::empty().push(content[0]), rest, content[0]);
    assert(content =~= Seq::<char>::empty().push(content[0]) + rest);
    crate::float::law_one_half_is_exact(before, before);
    if after < before {
        crate::float::law_one_twentieth_is_exact((before - after) as nat, before);
    }
    let config = pipeline.spec_config();
    let lossless = pipeline.lossless_for(ContentType::JsonArray);
    let none = Seq::<Accepted>::empty();
    let (middle, log) = lemma_logs_of_a_run(
        pipeline,
        content,
        ContentType::JsonArray,
        context,
        result,
    );
    assert(log == middle);
    let earlier = choose|earlier: Seq<Accepted>|
        {
            &&& orchestrator::lossless_log(lossless.drop_last(), config, content, earlier)
            &&& #[trigger] orchestrator::lossless_step(
                lossless.last(),
                config,
                content,
                earlier,
                middle,
            )
        };
    assert(earlier =~= none);
    assert(orchestrator::gate_open(config, content, none));
    let entry = lossless[0];
    let (name, outcome) = choose|name: Seq<char>, outcome: Result<TransformResult, TransformError>|
        {
            &&& #[trigger] entry.transform.may_be_named(name)
            &&& #[trigger] entry.transform.may_return(
                orchestrator::current(content, none),
                outcome,
            )
            &&& middle == orchestrator::decided(
                config,
                Phase::Lossless,
                content,
                none,
                name,
                outcome,
            )
        };
    law_every_document_is_minified(content, outcome);
    let steps = crate::text::texts(result.steps_applied@);
    assert(steps.len() == log.len());
    if log.len() > 0 {
        assert(log.drop_last() =~= none);
        assert(orchestrator::total_saved(none) == 0);
        assert(orchestrator::last_handle(none) is None);
        assert(steps[0] == log[0].name);
    }
}

/// What the minifier concludes from the text that was written, or from the
/// reason why none was, for a content of any length.
pub proof fn law_conclusions_follow_what_was_written(
    content_len: nat,
    written: Result<String, RewriteFailure>,
    outcome: Result<TransformResult, TransformError>,
)
    requires
        JsonMinifier::concludes(content_len, written, outcome),
    ensures
        match written {
            Ok(minified) => {
                &&& outcome matches Ok(result)
                &&& result.output@ == minified@
                &&& result.bytes_saved == if crate::text::byte_len(minified@) <= content_len {
                    content_len - crate::text::byte_len(minified@)
                } else {
                    0
                }
                &&& result.structure_preserved
                &&& result.reversible_via is None
            },
            Err(RewriteFailure::Parse(error)) => {
                &&& outcome matches Err(TransformError::InvalidInput { transform, message })
                &&& transform@ == "json_minifier"@
                &&& message@ == "not valid json: "@ + error@
            },
            Err(RewriteFailure::Write(error)) => {
                &&& outcome matches Err(TransformError::Internal { transform, message })
                &&& transform@ == "json_minifier"@
                &&& message@ == "serialize failed: "@ + error@
            },
        },
{
}

} // verus!
