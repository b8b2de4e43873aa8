//! What holds of every run of a pipeline.

use crate::float;
use crate::text;
use crate::transforms::pipeline::orchestrator;
use crate::transforms::pipeline::orchestrator::{
    Accepted, CompressionPipeline, Phase, PipelineConfig, PipelineResult,
};
use crate::transforms::pipeline::registry::Registered;
use crate::transforms::pipeline::traits::{
    CompressionContext, LosslessTransform, LossyTransform, TransformError, TransformResult,
};
use crate::transforms::ContentType;
use vstd::prelude::*;

verus! {

/// A property of the number of transforms that have had their turn and of the
/// results that were kept.
type Property = spec_fn(int, Seq<Accepted>) -> bool;

/// Whether `property` survives a turn in which nothing runs.
spec fn survives_idle(property: Property, i: int, earlier: Seq<Accepted>) -> bool {
    property(i, earlier) ==> property(i + 1, earlier)
}

/// Whether `property` survives the turn of transform `i` of a lossless phase.
spec fn survives_lossless(
    property: Property,
    transforms: Seq<Registered<dyn LosslessTransform>>,
    config: PipelineConfig,
    content: Seq<char>,
    i: int,
    earlier: Seq<Accepted>,
    name: Seq<char>,
    outcome: Result<TransformResult, TransformError>,
) -> bool {
    let transform = transforms[i].transform;
    property(i, earlier) && orchestrator::gate_open(config, content, earlier)
        && transform.may_be_named(name) && transform.may_return(
        orchestrator::current(content, earlier),
        outcome,
    ) ==> property(i + 1, orchestrator::decided(config, Phase::Lossless, content, earlier, name, outcome))
}

/// Whether `property` survives the turn of transform `i` of a lossy phase.
spec fn survives_lossy(
    property: Property,
    transforms: Seq<Registered<dyn LossyTransform>>,
    config: PipelineConfig,
    context: CompressionContext,
    content: Seq<char>,
    i: int,
    earlier: Seq<Accepted>,
    name: Seq<char>,
    outcome: Result<TransformResult, TransformError>,
) -> bool {
    let transform = transforms[i].transform;
    property(i, earlier) && transform.may_be_named(name) && transform.may_return(
        orchestrator::current(content, earlier),
        context,
        outcome,
    ) ==> property(i + 1, orchestrator::decided(config, Phase::Lossy, content, earlier, name, outcome))
}

/// What holds at the start of a lossless phase and survives each turn holds at
/// its end.
proof fn lemma_lossless_induction(
    transforms: Seq<Registered<dyn LosslessTransform>>,
    config: PipelineConfig,
    content: Seq<char>,
    log: Seq<Accepted>,
    property: Property,
)
    requires
        orchestrator::lossless_log(transforms, config, content, log),
        property(0, Seq::empty()),
        forall|i: int, earlier: Seq<Accepted>|
            0 <= i < transforms.len() ==> #[trigger] survives_idle(property, i, earlier),
        forall|
            i: int,
            earlier: Seq<Accepted>,
            name: Seq<char>,
            outcome: Result<TransformResult, TransformError>,
        |
            0 <= i < transforms.len() ==> #[trigger] survives_lossless(
                property,
                transforms,
                config,
                content,
                i,
                earlier,
                name,
                outcome,
            ),
    ensures
        property(transforms.len() as int, log),
    decreases transforms.len(),
{
    if transforms.len() == 0 {
        assert(log == Seq::<Accepted>::empty());
    } else {
        let shorter = transforms.drop_last();
        let n = shorter.len() as int;
        let earlier = choose|earlier: Seq<Accepted>|
            {
                &&& orchestrator::lossless_log(shorter, config, content, earlier)
                &&& #[trigger] orchestrator::lossless_step(
                    transforms.last(),
                    config,
                    content,
                    earlier,
                    log,
                )
            };
        assert forall|
            i: int,
            before: Seq<Accepted>,
            name: Seq<char>,
            outcome: Result<TransformResult, TransformError>,
        |
            0 <= i < n implies #[trigger] survives_lossless(
            property,
            shorter,
            config,
            content,
            i,
            before,
            name,
            outcome,
        ) by {
            assert(shorter[i] == transforms[i]);
            assert(survives_lossless(
                property,
                transforms,
                config,
                content,
                i,
                before,
                name,
                outcome,
            ));
        }
        lemma_lossless_induction(shorter, config, content, earlier, property);
        if orchestrator::gate_open(config, content, earlier) {
            let last = transforms[n].transform;
            let (name, outcome) = choose|
                name: Seq<char>,
                outcome: Result<TransformResult, TransformError>,
            |
                {
                    &&& #[trigger] last.may_be_named(name)
                    &&& #[trigger] last.may_return(
                        orchestrator::current(content, earlier),
                        outcome,
                    )
                    &&& log == orchestrator::decided(config, Phase::Lossless, content, earlier, name, outcome)
                };
            assert(survives_lossless(
                property,
                transforms,
                config,
                content,
                n,
                earlier,
                name,
                outcome,
            ));
        } else {
            assert(survives_idle(property, n, earlier));
        }
    }
}

/// What holds at the start of a lossy phase and survives each turn holds at
/// its end.
proof fn lemma_lossy_induction(
    transforms: Seq<Registered<dyn LossyTransform>>,
    config: PipelineConfig,
    context: CompressionContext,
    content: Seq<char>,
    start: Seq<Accepted>,
    log: Seq<Accepted>,
    property: Property,
)
    requires
        orchestrator::lossy_log(transforms, config, context, content, start, log),
        property(0, start),
        forall|
            i: int,
            earlier: Seq<Accepted>,
            name: Seq<char>,
            outcome: Result<TransformResult, TransformError>,
        |
            0 <= i < transforms.len() ==> #[trigger] survives_lossy(
                property,
                transforms,
                config,
                context,
                content,
                i,
                earlier,
                name,
                outcome,
            ),
    ensures
        property(transforms.len() as int, log),
    decreases transforms.len(),
{
    if transforms.len() > 0 {
        let shorter = transforms.drop_last();
        let n = shorter.len() as int;
        let earlier = choose|earlier: Seq<Accepted>|
            {
                &&& orchestrator::lossy_log(shorter, config, context, content, start, earlier)
                &&& #[trigger] orchestrator::lossy_step(
                    transforms.last(),
                    config,
                    context,
                    content,
                    earlier,
                    log,
                )
            };
        assert forall|
            i: int,
            before: Seq<Accepted>,
            name: Seq<char>,
            outcome: Result<TransformResult, TransformError>,
        |
            0 <= i < n implies #[trigger] survives_lossy(
            property,
            shorter,
            config,
            context,
            content,
            i,
            before,
            name,
            outcome,
        ) by {
            assert(shorter[i] == transforms[i]);
            assert(survives_lossy(
                property,
                transforms,
                config,
                context,
                content,
                i,
                before,
                name,
                outcome,
            ));
        }
        lemma_lossy_induction(shorter, config, context, content, start, earlier, property);
        let last = transforms[n].transform;
        let (name, outcome) = choose|
            name: Seq<char>,
            outcome: Result<TransformResult, TransformError>,
        |
            {
                &&& #[trigger] last.may_be_named(name)
                &&& #[trigger] last.may_return(
                    orchestrator::current(content, earlier),
                    context,
                    outcome,
                )
                &&& log == orchestrator::decided(config, Phase::Lossy, content, earlier, name, outcome)
            };
        assert(survives_lossy(
            property,
            transforms,
            config,
            context,
            content,
            n,
            earlier,
            name,
            outcome,
        ));
    }
}

/// The results that a run kept at the end of the lossless phase, and at its own
/// end.
pub(crate) proof fn lemma_logs_of_a_run(
    pipeline: CompressionPipeline,
    content: Seq<char>,
    content_type: ContentType,
    context: CompressionContext,
    result: PipelineResult,
) -> (logs: (Seq<Accepted>, Seq<Accepted>))
    requires
        pipeline.may_run_to(content, content_type, context, result),
    ensures
        orchestrator::lossless_log(
            pipeline.lossless_for(content_type),
            pipeline.spec_config(),
            content,
            logs.0,
        ),
        orchestrator::lossy_log(
            pipeline.lossy_for(content_type),
            pipeline.spec_config(),
            context,
            content,
            logs.0,
            logs.1,
        ),
        result.summarises(content, logs.1),
{
    let config = pipeline.spec_config();
    let lossless = pipeline.lossless_for(content_type);
    let lossy = pipeline.lossy_for(content_type);
    choose|middle: Seq<Accepted>, log: Seq<Accepted>|
        {
            &&& #[trigger] orchestrator::lossless_log(lossless, config, content, middle)
            &&& #[trigger] orchestrator::lossy_log(lossy, config, context, content, middle, log)
            &&& result.summarises(content, log)
        }
}

/// Whether the transform in place `i` for the content type, where the lossless
/// ones come before the lossy ones, belongs to `phase`, may be called `name`
/// and may return `outcome` for `input`.
spec fn may_take_turn(
    pipeline: CompressionPipeline,
    content_type: ContentType,
    context: CompressionContext,
    i: int,
    input: Seq<char>,
    phase: Phase,
    name: Seq<char>,
    outcome: Result<TransformResult, TransformError>,
) -> bool {
    let lossless = pipeline.lossless_for(content_type);
    let lossy = pipeline.lossy_for(content_type);
    if i < lossless.len() {
        &&& phase == Phase::Lossless
        &&& lossless[i].transform.may_be_named(name)
        &&& lossless[i].transform.may_return(input, outcome)
    } else {
        let entry = lossy[i - lossless.len()];
        &&& phase == Phase::Lossy
        &&& entry.transform.may_be_named(name)
        &&& entry.transform.may_return(input, context, outcome)
    }
}

/// Whether `property` survives the turn of the transform in place `i`.
spec fn survives(
    property: Property,
    pipeline: CompressionPipeline,
    content_type: ContentType,
    context: CompressionContext,
    content: Seq<char>,
    i: int,
    earlier: Seq<Accepted>,
    phase: Phase,
    name: Seq<char>,
    outcome: Result<TransformResult, TransformError>,
) -> bool {
    property(i, earlier) && may_take_turn(
        pipeline,
        content_type,
        context,
        i,
        orchestrator::current(content, earlier),
        phase,
        name,
        outcome,
    ) ==> property(
        i + 1,
        orchestrator::decided(pipeline.spec_config(), phase, content, earlier, name, outcome),
    )
}

/// What holds at the start of a run and survives each turn holds of the results
/// that the run kept.
proof fn lemma_run_induction(
    pipeline: CompressionPipeline,
    content: Seq<char>,
    content_type: ContentType,
    context: CompressionContext,
    result: PipelineResult,
    property: Property,
) -> (log: Seq<Accepted>)
    requires
        pipeline.may_run_to(content, content_type, context, result),
        property(0, Seq::empty()),
        forall|i: int, earlier: Seq<Accepted>|
            0 <= i < pipeline.lossless_for(content_type).len() ==> #[trigger] survives_idle(
                property,
                i,
                earlier,
            ),
        forall|
            i: int,
            earlier: Seq<Accepted>,
            phase: Phase,
            name: Seq<char>,
            outcome: Result<TransformResult, TransformError>,
        |
            0 <= i < pipeline.lossless_for(content_type).len() + pipeline.lossy_for(
                content_type,
            ).len() ==> #[trigger] survives(
                property,
                pipeline,
                content_type,
                context,
                content,
                i,
                earlier,
                phase,
                name,
                outcome,
            ),
    ensures
        result.summarises(content, log),
        property(
            pipeline.lossless_for(content_type).len() as int + pipeline.lossy_for(
                content_type,
            ).len(),
            log,
        ),
{
    let config = pipeline.spec_config();
    let lossless = pipeline.lossless_for(content_type);
    let lossy = pipeline.lossy_for(content_type);
    let half = lossless.len() as int;
    let (middle, log) = lemma_logs_of_a_run(pipeline, content, content_type, context, result);
    assert forall|
        i: int,
        earlier: Seq<Accepted>,
        name: Seq<char>,
        outcome: Result<TransformResult, TransformError>,
    |
        0 <= i < lossless.len() implies #[trigger] survives_lossless(
        property,
        lossless,
        config,
        content,
        i,
        earlier,
        name,
        outcome,
    ) by {
        assert(survives(
            property,
            pipeline,
            content_type,
            context,
            content,
            i,
            earlier,
            Phase::Lossless,
            name,
            outcome,
        ));
    }
    lemma_lossless_induction(lossless, config, content, middle, property);
    let shifted: Property = |i: int, log: Seq<Accepted>| property(half + i, log);
    assert forall|
        i: int,
        earlier: Seq<Accepted>,
        name: Seq<char>,
        outcome: Result<TransformResult, TransformError>,
    |
        0 <= i < lossy.len() implies #[trigger] survives_lossy(
        shifted,
        lossy,
        config,
        context,
        content,
        i,
        earlier,
        name,
        outcome,
    ) by {
        assert(survives(
            property,
            pipeline,
            content_type,
            context,
            content,
            half + i,
            earlier,
            Phase::Lossy,
            name,
            outcome,
        ));
    }
    lemma_lossy_induction(lossy, config, context, content, middle, log, shifted);
    log
}

/// Whether every result in `log` was shorter and saved enough when it was kept.
pub open spec fn each_accepted(
    config: PipelineConfig,
    content: Seq<char>,
    log: Seq<Accepted>,
) -> bool {
    forall|i: int|
        0 <= i < log.len() ==> saved_enough(
            config,
            orchestrator::current(content, log.take(i)),
            #[trigger] log[i],
        )
}

/// Whether `entry` is shorter than `input`, and saves enough of it.
pub open spec fn saved_enough(config: PipelineConfig, input: Seq<char>, entry: Accepted) -> bool {
    &&& text::byte_len(entry.output) < text::byte_len(input)
    &&& config.accepts(entry.bytes_saved, text::byte_len(input))
}

proof fn lemma_each_accepted_step(
    config: PipelineConfig,
    phase: Phase,
    content: Seq<char>,
    log: Seq<Accepted>,
    name: Seq<char>,
    outcome: Result<TransformResult, TransformError>,
)
    requires
        each_accepted(config, content, log),
    ensures
        each_accepted(
            config,
            content,
            orchestrator::decided(config, phase, content, log, name, outcome),
        ),
{
    let next = orchestrator::decided(config, phase, content, log, name, outcome);
    assert forall|i: int| 0 <= i < next.len() implies saved_enough(
        config,
        orchestrator::current(content, next.take(i)),
        #[trigger] next[i],
    ) by {
        assert(next.take(i) == log.take(i));
        if i < log.len() {
            assert(next[i] == log[i]);
        } else {
            assert(log.take(i) == log);
        }
    }
}

/// Every result that a lossless phase keeps was shorter and saved enough, and
/// was reached while the lossless target was not.
pub proof fn law_lossless_phase_keeps_only_savings(
    transforms: Seq<Registered<dyn LosslessTransform>>,
    config: PipelineConfig,
    content: Seq<char>,
    log: Seq<Accepted>,
)
    requires
        orchestrator::lossless_log(transforms, config, content, log),
    ensures
        each_accepted(config, content, log),
        forall|i: int|
            0 <= i < log.len() ==> #[trigger] orchestrator::gate_open(
                config,
                content,
                log.take(i),
            ),
        log.len() <= transforms.len(),
{
    let property: Property = |i: int, log: Seq<Accepted>|
        {
            &&& each_accepted(config, content, log)
            &&& forall|i: int|
                0 <= i < log.len() ==> #[trigger] orchestrator::gate_open(
                    config,
                    content,
                    log.take(i),
                )
            &&& log.len() <= i
        };
    assert forall|
        i: int,
        earlier: Seq<Accepted>,
        name: Seq<char>,
        outcome: Result<TransformResult, TransformError>,
    |
        0 <= i < transforms.len() implies #[trigger] survives_lossless(
        property,
        transforms,
        config,
        content,
        i,
        earlier,
        name,
        outcome,
    ) by {
        let next = orchestrator::decided(config, Phase::Lossless, content, earlier, name, outcome);
        if property(i, earlier) && orchestrator::gate_open(config, content, earlier) {
            lemma_each_accepted_step(config, Phase::Lossless, content, earlier, name, outcome);
            assert forall|j: int|
                0 <= j < next.len() implies #[trigger] orchestrator::gate_open(
                config,
                content,
                next.take(j),
            ) by {
                assert(next.take(j) == earlier.take(j));
                if j == earlier.len() {
                    assert(earlier.take(j) == earlier);
                }
            }
        }
    }
    lemma_lossless_induction(transforms, config, content, log, property);
}

/// A lossy phase keeps the results that it starts with, and every result that
/// it adds was shorter and saved enough.
pub proof fn law_lossy_phase_keeps_only_savings(
    transforms: Seq<Registered<dyn LossyTransform>>,
    config: PipelineConfig,
    context: CompressionContext,
    content: Seq<char>,
    start: Seq<Accepted>,
    log: Seq<Accepted>,
)
    requires
        orchestrator::lossy_log(transforms, config, context, content, start, log),
        each_accepted(config, content, start),
    ensures
        each_accepted(config, content, log),
        start.is_prefix_of(log),
        log.len() <= start.len() + transforms.len(),
{
    let property: Property = |i: int, log: Seq<Accepted>|
        {
            &&& each_accepted(config, content, log)
            &&& start.is_prefix_of(log)
            &&& log.len() <= start.len() + i
        };
    assert forall|
        i: int,
        earlier: Seq<Accepted>,
        name: Seq<char>,
        outcome: Result<TransformResult, TransformError>,
    |
        0 <= i < transforms.len() implies #[trigger] survives_lossy(
        property,
        transforms,
        config,
        context,
        content,
        i,
        earlier,
        name,
        outcome,
    ) by {
        if property(i, earlier) {
            lemma_each_accepted_step(config, Phase::Lossy, content, earlier, name, outcome);
        }
    }
    lemma_lossy_induction(transforms, config, context, content, start, log, property);
}

/// Whether the pipeline passes over `outcome` of a transform on `content`.
pub open spec fn passed_over(
    config: PipelineConfig,
    content: Seq<char>,
    outcome: Result<TransformResult, TransformError>,
) -> bool {
    match outcome {
        Ok(result) => !config.keeps(content, result),
        Err(_) => true,
    }
}

/// Where every transform fails, grows the content or saves too little, and so
/// also where there is no transform for the content type, the input comes back unchanged, with
/// nothing saved and no step recorded.
pub proof fn law_input_comes_back_when_nothing_is_kept(
    pipeline: CompressionPipeline,
    content: Seq<char>,
    content_type: ContentType,
    context: CompressionContext,
    result: PipelineResult,
)
    requires
        pipeline.may_run_to(content, content_type, context, result),
        forall|i: int, outcome: Result<TransformResult, TransformError>|
            0 <= i < pipeline.lossless_for(content_type).len()
                && #[trigger] pipeline.lossless_for(content_type)[i].transform.may_return(
                content,
                outcome,
            ) ==> passed_over(pipeline.spec_config(), content, outcome),
        forall|i: int, outcome: Result<TransformResult, TransformError>|
            0 <= i < pipeline.lossy_for(content_type).len()
                && #[trigger] pipeline.lossy_for(content_type)[i].transform.may_return(
                content,
                context,
                outcome,
            ) ==> passed_over(pipeline.spec_config(), content, outcome),
    ensures
        result.output@ == content,
        result.bytes_saved == 0,
        result.structure_preserved,
        result.steps_applied@.len() == 0,
        result.reversible_via is None,
{
    let lossless = pipeline.lossless_for(content_type);
    let lossy = pipeline.lossy_for(content_type);
    let property: Property = |i: int, log: Seq<Accepted>| log.len() == 0;
    assert forall|
        i: int,
        earlier: Seq<Accepted>,
        phase: Phase,
        name: Seq<char>,
        outcome: Result<TransformResult, TransformError>,
    |
        0 <= i < lossless.len() + lossy.len() implies #[trigger] survives(
        property,
        pipeline,
        content_type,
        context,
        content,
        i,
        earlier,
        phase,
        name,
        outcome,
    ) by {}
    let log = lemma_run_induction(
        pipeline,
        content,
        content_type,
        context,
        result,
        property,
    );
    assert(text::texts(result.steps_applied@).len() == 0);
}

/// Whatever the transforms report, the output is shorter than the input by at
/// least one byte for each step.
pub proof fn law_each_step_shortens_the_content(
    pipeline: CompressionPipeline,
    content: Seq<char>,
    content_type: ContentType,
    context: CompressionContext,
    result: PipelineResult,
)
    requires
        pipeline.may_run_to(content, content_type, context, result),
    ensures
        text::byte_len(result.output@) + result.steps_applied@.len() <= text::byte_len(content),
{
    let lossless = pipeline.lossless_for(content_type);
    let lossy = pipeline.lossy_for(content_type);
    let property: Property = |i: int, log: Seq<Accepted>|
        text::byte_len(orchestrator::current(content, log)) + log.len() <= text::byte_len(content);
    assert forall|
        i: int,
        earlier: Seq<Accepted>,
        phase: Phase,
        name: Seq<char>,
        outcome: Result<TransformResult, TransformError>,
    |
        0 <= i < lossless.len() + lossy.len() implies #[trigger] survives(
        property,
        pipeline,
        content_type,
        context,
        content,
        i,
        earlier,
        phase,
        name,
        outcome,
    ) by {}
    let log = lemma_run_induction(
        pipeline,
        content,
        content_type,
        context,
        result,
        property,
    );
    assert(text::texts(result.steps_applied@).len() == orchestrator::names(log).len());
}

/// Whether `log` accounts for every byte between `content` and what is left of
/// it.
spec fn balanced(content: Seq<char>, log: Seq<Accepted>) -> bool {
    orchestrator::total_saved(log) + text::byte_len(orchestrator::current(content, log))
        == text::byte_len(content)
}

proof fn lemma_balanced_step(
    config: PipelineConfig,
    phase: Phase,
    content: Seq<char>,
    log: Seq<Accepted>,
    name: Seq<char>,
    outcome: Result<TransformResult, TransformError>,
)
    requires
        balanced(content, log),
        text::byte_len(content) <= usize::MAX,
        outcome matches Ok(result) ==> result.is_truthful(
            text::byte_len(orchestrator::current(content, log)),
        ),
    ensures
        balanced(content, orchestrator::decided(config, phase, content, log, name, outcome)),
{
    let next = orchestrator::decided(config, phase, content, log, name, outcome);
    if next != log {
        assert(next.drop_last() == log);
    }
}

/// Where every transform reports its savings truthfully, the bytes saved are
/// the length of the input less the length of the output.
pub proof fn law_savings_are_the_difference_in_length(
    pipeline: CompressionPipeline,
    content: Seq<char>,
    content_type: ContentType,
    context: CompressionContext,
    result: PipelineResult,
)
    requires
        pipeline.may_run_to(content, content_type, context, result),
        text::byte_len(content) <= usize::MAX,
        forall|i: int, input: Seq<char>, step: TransformResult|
            0 <= i < pipeline.lossless_for(content_type).len()
                && #[trigger] pipeline.lossless_for(content_type)[i].transform.may_return(
                input,
                Ok(step),
            ) ==> step.is_truthful(text::byte_len(input)),
        forall|i: int, input: Seq<char>, step: TransformResult|
            0 <= i < pipeline.lossy_for(content_type).len()
                && #[trigger] pipeline.lossy_for(content_type)[i].transform.may_return(
                input,
                context,
                Ok(step),
            ) ==> step.is_truthful(text::byte_len(input)),
    ensures
        result.bytes_saved + text::byte_len(result.output@) == text::byte_len(content),
{
    let config = pipeline.spec_config();
    let lossless = pipeline.lossless_for(content_type);
    let lossy = pipeline.lossy_for(content_type);
    let property: Property = |i: int, log: Seq<Accepted>| balanced(content, log);
    assert forall|
        i: int,
        earlier: Seq<Accepted>,
        phase: Phase,
        name: Seq<char>,
        outcome: Result<TransformResult, TransformError>,
    |
        0 <= i < lossless.len() + lossy.len() implies #[trigger] survives(
        property,
        pipeline,
        content_type,
        context,
        content,
        i,
        earlier,
        phase,
        name,
        outcome,
    ) by {
        let input = orchestrator::current(content, earlier);
        if property(i, earlier) && may_take_turn(
            pipeline,
            content_type,
            context,
            i,
            input,
            phase,
            name,
            outcome,
        ) {
            if let Ok(step) = outcome {
                if i < lossless.len() {
                    assert(lossless[i].transform.may_return(input, Ok(step)));
                } else {
                    let entry = lossy[i - lossless.len()];
                    assert(entry.transform.may_return(input, context, Ok(step)));
                }
            }
            lemma_balanced_step(config, phase, content, earlier, name, outcome);
        }
    }
    let log = lemma_run_induction(
        pipeline,
        content,
        content_type,
        context,
        result,
        property,
    );
}

/// What every transform for the content type preserves, from its input to its
/// output, a run preserves too.
pub proof fn law_a_run_preserves_what_its_transforms_preserve(
    pipeline: CompressionPipeline,
    content: Seq<char>,
    content_type: ContentType,
    context: CompressionContext,
    result: PipelineResult,
    alike: spec_fn(Seq<char>, Seq<char>) -> bool,
)
    requires
        pipeline.may_run_to(content, content_type, context, result),
        forall|a: Seq<char>| #[trigger] alike(a, a),
        forall|a: Seq<char>, b: Seq<char>, c: Seq<char>| #[trigger]
            alike(a, b) && #[trigger] alike(b, c) ==> alike(a, c),
        forall|i: int, input: Seq<char>, step: TransformResult|
            0 <= i < pipeline.lossless_for(content_type).len()
                && #[trigger] pipeline.lossless_for(content_type)[i].transform.may_return(
                input,
                Ok(step),
            ) ==> alike(input, step.output@),
        forall|i: int, input: Seq<char>, step: TransformResult|
            0 <= i < pipeline.lossy_for(content_type).len()
                && #[trigger] pipeline.lossy_for(content_type)[i].transform.may_return(
                input,
                context,
                Ok(step),
            ) ==> alike(input, step.output@),
    ensures
        alike(content, result.output@),
{
    let lossless = pipeline.lossless_for(content_type);
    let lossy = pipeline.lossy_for(content_type);
    let property: Property = |i: int, log: Seq<Accepted>|
        alike(content, orchestrator::current(content, log));
    assert forall|
        i: int,
        earlier: Seq<Accepted>,
        phase: Phase,
        name: Seq<char>,
        outcome: Result<TransformResult, TransformError>,
    |
        0 <= i < lossless.len() + lossy.len() implies #[trigger] survives(
        property,
        pipeline,
        content_type,
        context,
        content,
        i,
        earlier,
        phase,
        name,
        outcome,
    ) by {
        let input = orchestrator::current(content, earlier);
        if property(i, earlier) && may_take_turn(
            pipeline,
            content_type,
            context,
            i,
            input,
            phase,
            name,
            outcome,
        ) {
            if let Ok(step) = outcome {
                if i < lossless.len() {
                    assert(lossless[i].transform.may_return(input, Ok(step)));
                } else {
                    let entry = lossy[i - lossless.len()];
                    assert(entry.transform.may_return(input, context, Ok(step)));
                }
                assert(alike(content, input) && alike(input, step.output@));
            }
        }
    }
    let log = lemma_run_induction(
        pipeline,
        content,
        content_type,
        context,
        result,
        property,
    );
}

/// The structure is reported as preserved exactly if no lossy result was kept
/// and every lossless one that was kept preserved it.
pub proof fn law_a_lossy_step_clears_the_structure_flag(
    pipeline: CompressionPipeline,
    content: Seq<char>,
    content_type: ContentType,
    context: CompressionContext,
    middle: Seq<Accepted>,
    log: Seq<Accepted>,
    result: PipelineResult,
)
    requires
        orchestrator::lossless_log(
            pipeline.lossless_for(content_type),
            pipeline.spec_config(),
            content,
            middle,
        ),
        orchestrator::lossy_log(
            pipeline.lossy_for(content_type),
            pipeline.spec_config(),
            context,
            content,
            middle,
            log,
        ),
        result.summarises(content, log),
    ensures
        result.structure_preserved <==> log == middle && orchestrator::all_preserve_structure(
            middle,
        ),
{
    let config = pipeline.spec_config();
    let lossy = pipeline.lossy_for(content_type);
    let cleared: Property = |i: int, log: Seq<Accepted>|
        log == middle || !orchestrator::all_preserve_structure(log);
    assert forall|
        i: int,
        earlier: Seq<Accepted>,
        name: Seq<char>,
        outcome: Result<TransformResult, TransformError>,
    |
        0 <= i < lossy.len() implies #[trigger] survives_lossy(
        cleared,
        lossy,
        config,
        context,
        content,
        i,
        earlier,
        name,
        outcome,
    ) by {
        let next = orchestrator::decided(config, Phase::Lossy, content, earlier, name, outcome);
        if cleared(i, earlier) && next != earlier {
            assert(!next[earlier.len() as int].structure_preserved);
        }
    }
    lemma_lossy_induction(lossy, config, context, content, middle, log, cleared);
}

/// Whether `name` may be that of the transform in place `place`, where the
/// lossless transforms come before the lossy ones.
pub open spec fn may_be_called(
    lossless: Seq<Registered<dyn LosslessTransform>>,
    lossy: Seq<Registered<dyn LossyTransform>>,
    place: int,
    name: Seq<char>,
) -> bool {
    if place < lossless.len() {
        lossless[place].transform.may_be_named(name)
    } else {
        lossy[place - lossless.len()].transform.may_be_named(name)
    }
}

/// Whether `names` may be those of the transforms in the ascending `places`,
/// all before `end`.
pub open spec fn are_called(
    lossless: Seq<Registered<dyn LosslessTransform>>,
    lossy: Seq<Registered<dyn LossyTransform>>,
    end: int,
    places: Seq<int>,
    names: Seq<Seq<char>>,
) -> bool {
    &&& places.len() == names.len()
    &&& forall|i: int|
        0 <= i < places.len() ==> 0 <= #[trigger] places[i] < end && may_be_called(
            lossless,
            lossy,
            places[i],
            names[i],
        )
    &&& forall|i: int, j: int| 0 <= i < j < places.len() ==> places[i] < places[j]
}

/// Whether `names` may be those of transforms before `end`, in their order.
pub open spec fn in_order(
    lossless: Seq<Registered<dyn LosslessTransform>>,
    lossy: Seq<Registered<dyn LossyTransform>>,
    end: int,
    names: Seq<Seq<char>>,
) -> bool {
    exists|places: Seq<int>| #[trigger] are_called(lossless, lossy, end, places, names)
}

proof fn lemma_in_order_step(
    lossless: Seq<Registered<dyn LosslessTransform>>,
    lossy: Seq<Registered<dyn LossyTransform>>,
    end: int,
    config: PipelineConfig,
    phase: Phase,
    content: Seq<char>,
    log: Seq<Accepted>,
    name: Seq<char>,
    outcome: Result<TransformResult, TransformError>,
)
    requires
        end >= 0,
        in_order(lossless, lossy, end, orchestrator::names(log)),
    ensures
        in_order(lossless, lossy, end + 1, orchestrator::names(log)),
        may_be_called(lossless, lossy, end, name) ==> in_order(
            lossless,
            lossy,
            end + 1,
            orchestrator::names(orchestrator::decided(config, phase, content, log, name, outcome)),
        ),
{
    let names = orchestrator::names(log);
    let places = choose|places: Seq<int>| #[trigger]
        are_called(lossless, lossy, end, places, names);
    let next = orchestrator::decided(config, phase, content, log, name, outcome);
    assert(are_called(lossless, lossy, end + 1, places, names));
    if may_be_called(lossless, lossy, end, name) && next != log {
        let more = places.push(end);
        assert(orchestrator::names(next) == names.push(name));
        assert forall|i: int| 0 <= i < more.len() implies 0 <= #[trigger] more[i] < end + 1
            && may_be_called(lossless, lossy, more[i], names.push(name)[i]) by {
            if i < places.len() {
                assert(more[i] == places[i]);
            }
        }
        assert(are_called(lossless, lossy, end + 1, more, names.push(name)));
    }
}

/// The recorded steps are names of transforms for the content type, those of
/// lossless transforms before those of lossy ones, each in the order of
/// registration.
pub proof fn law_steps_follow_the_registration(
    pipeline: CompressionPipeline,
    content: Seq<char>,
    content_type: ContentType,
    context: CompressionContext,
    result: PipelineResult,
)
    requires
        pipeline.may_run_to(content, content_type, context, result),
    ensures
        in_order(
            pipeline.lossless_for(content_type),
            pipeline.lossy_for(content_type),
            pipeline.lossless_for(content_type).len() as int + pipeline.lossy_for(
                content_type,
            ).len(),
            text::texts(result.steps_applied@),
        ),
{
    let config = pipeline.spec_config();
    let lossless = pipeline.lossless_for(content_type);
    let lossy = pipeline.lossy_for(content_type);
    let property: Property = |i: int, log: Seq<Accepted>|
        in_order(lossless, lossy, i, orchestrator::names(log));
    assert(property(0, Seq::empty())) by {
        assert(are_called(
            lossless,
            lossy,
            0,
            Seq::empty(),
            orchestrator::names(Seq::empty()),
        ));
    }
    assert forall|i: int, earlier: Seq<Accepted>|
        0 <= i < lossless.len() implies #[trigger] survives_idle(property, i, earlier) by {
        if property(i, earlier) {
            lemma_in_order_step(
                lossless,
                lossy,
                i,
                config,
                Phase::Lossless,
                content,
                earlier,
                Seq::empty(),
                Err(arbitrary()),
            );
        }
    }
    assert forall|
        i: int,
        earlier: Seq<Accepted>,
        phase: Phase,
        name: Seq<char>,
        outcome: Result<TransformResult, TransformError>,
    |
        0 <= i < lossless.len() + lossy.len() implies #[trigger] survives(
        property,
        pipeline,
        content_type,
        context,
        content,
        i,
        earlier,
        phase,
        name,
        outcome,
    ) by {
        if property(i, earlier) {
            lemma_in_order_step(
                lossless,
                lossy,
                i,
                config,
                phase,
                content,
                earlier,
                name,
                outcome,
            );
        }
    }
    let log = lemma_run_induction(
        pipeline,
        content,
        content_type,
        context,
        result,
        property,
    );
}

/// With the default thresholds, and for lengths below 2^53, a result is kept
/// exactly if it saves a twentieth of the current length or more, and the
/// lossless phase goes on exactly while more than half of the input is left.
pub proof fn law_default_thresholds_are_a_twentieth_and_a_half(
    config: PipelineConfig,
    part: nat,
    whole: nat,
)
    requires
        config.min_savings_ratio.bits == float::ONE_TWENTIETH,
        config.lossless_target_ratio.bits == float::ONE_HALF,
        part < float::SIGNIFICAND_LIMIT,
        whole < float::SIGNIFICAND_LIMIT,
    ensures
        config.accepts(part, whole) <==> part > 0 && whole > 0 && 20 * part >= whole,
        config.continues(part, whole) <==> whole > 0 && 2 * part > whole,
{
    if part > 0 && whole > 0 {
        float::law_one_twentieth_is_exact(part, whole);
    }
    if whole > 0 {
        float::law_one_half_is_exact(part, whole);
    }
}

} // verus!
