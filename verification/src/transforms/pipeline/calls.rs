//! Which transforms a run calls, with what, what it reports of them, and what a
//! transform that is passed over changes.

use crate::text;
use crate::transforms::pipeline::laws;
use crate::transforms::pipeline::laws::lemma_logs_of_a_run;
use crate::transforms::pipeline::orchestrator;
use crate::transforms::pipeline::orchestrator::{
    Accepted, CompressionPipeline, CompressionPipelineBuilder, Event, PipelineConfig,
    PipelineResult, Trace,
};
use crate::transforms::pipeline::registry;
use crate::transforms::pipeline::registry::Registered;
use crate::transforms::pipeline::traits::{
    CompressionContext, LosslessTransform, LossyTransform, TransformError, TransformResult,
};
use crate::transforms::ContentType;
use vstd::prelude::*;

verus! {

proof fn lemma_occurrences(types: Seq<ContentType>, content_type: ContentType)
    requires
        types.no_duplicates(),
    ensures
        registry::occurrences(types, content_type) == if types.contains(content_type) {
            1nat
        } else {
            0nat
        },
    decreases types.len(),
{
    if types.len() > 0 {
        let shorter = types.drop_last();
        lemma_occurrences(shorter, content_type);
        if shorter.contains(content_type) {
            let i = choose|i: int| 0 <= i < shorter.len() && shorter[i] == content_type;
            assert(types[i] == content_type);
        }
        if types.contains(content_type) && types.last() != content_type {
            let i = choose|i: int| 0 <= i < types.len() && types[i] == content_type;
            assert(shorter[i] == content_type);
        }
    }
}

proof fn lemma_repeated<S: ?Sized>(before: Seq<Registered<S>>, entry: Registered<S>)
    ensures
        before + registry::repeated(entry, 1) == before.push(entry),
        before + registry::repeated(entry, 0) == before,
{
    assert(before + registry::repeated(entry, 1) =~= before.push(entry));
    assert(before + registry::repeated(entry, 0) =~= before);
}

/// A lossless transform whose content types are distinct is listed once, last,
/// for each of them. The lists for other types, the lossy transforms and the
/// thresholds stay as they are.
pub proof fn law_a_lossless_transform_is_listed_last(
    before: CompressionPipelineBuilder,
    after: CompressionPipelineBuilder,
    entry: Registered<dyn LosslessTransform>,
    types: Seq<ContentType>,
    content_type: ContentType,
)
    requires
        after.adds_lossless(before, entry, types),
        types.no_duplicates(),
    ensures
        after.lossless_for(content_type) == if types.contains(content_type) {
            before.lossless_for(content_type).push(entry)
        } else {
            before.lossless_for(content_type)
        },
        after.lossy_for(content_type) == before.lossy_for(content_type),
        after.spec_config() == before.spec_config(),
{
    lemma_occurrences(types, content_type);
    lemma_repeated(before.lossless_for(content_type), entry);
}

/// A lossy transform whose content types are distinct is listed once, last, for
/// each of them. The lists for other types, the lossless transforms and the
/// thresholds stay as they are.
pub proof fn law_a_lossy_transform_is_listed_last(
    before: CompressionPipelineBuilder,
    after: CompressionPipelineBuilder,
    entry: Registered<dyn LossyTransform>,
    types: Seq<ContentType>,
    content_type: ContentType,
)
    requires
        after.adds_lossy(before, entry, types),
        types.no_duplicates(),
    ensures
        after.lossy_for(content_type) == if types.contains(content_type) {
            before.lossy_for(content_type).push(entry)
        } else {
            before.lossy_for(content_type)
        },
        after.lossless_for(content_type) == before.lossless_for(content_type),
        after.spec_config() == before.spec_config(),
{
    lemma_occurrences(types, content_type);
    lemma_repeated(before.lossy_for(content_type), entry);
}

/// Whether a lossless phase may call the first `called` of `transforms` and no
/// others, where `stages` are the results that are kept before each transform
/// and after the last.
///
/// Each is called with what the results before it left. The target is not
/// reached before any of the calls; once it is reached no other call follows.
pub open spec fn lossless_calls(
    transforms: Seq<Registered<dyn LosslessTransform>>,
    config: PipelineConfig,
    content: Seq<char>,
    stages: Seq<Seq<Accepted>>,
    called: nat,
) -> bool {
    &&& stages.len() == transforms.len() + 1
    &&& stages[0].len() == 0
    &&& called <= transforms.len()
    &&& forall|i: int|
        0 <= i < called ==> orchestrator::gate_open(config, content, #[trigger] stages[i])
    &&& forall|i: int|
        0 <= i < called ==> orchestrator::lossless_turn(
            #[trigger] transforms[i],
            config,
            content,
            stages[i],
            stages[i + 1],
        )
    &&& forall|i: int|
        called <= i <= transforms.len() ==> #[trigger] stages[i] == stages[called as int]
    &&& called < transforms.len() ==> !orchestrator::gate_open(
        config,
        content,
        stages[called as int],
    )
}

/// The lossless transforms are called in the order of registration, each with
/// what the results before it left, until the target is reached, and then no
/// more.
pub proof fn law_lossless_transforms_are_called_until_the_target(
    transforms: Seq<Registered<dyn LosslessTransform>>,
    config: PipelineConfig,
    content: Seq<char>,
    log: Seq<Accepted>,
)
    requires
        orchestrator::lossless_log(transforms, config, content, log),
    ensures
        exists|stages: Seq<Seq<Accepted>>, called: nat|
            #[trigger] lossless_calls(transforms, config, content, stages, called)
                && stages.last() == log,
    decreases transforms.len(),
{
    if transforms.len() == 0 {
        assert(lossless_calls(transforms, config, content, seq![log], 0));
    } else {
        let shorter = transforms.drop_last();
        let n = shorter.len();
        let earlier = choose|earlier: Seq<Accepted>|
            {
                &&& orchestrator::lossless_log(shorter, config, content, earlier)
                &&& #[trigger] orchestrator::lossless_step(
                    transforms.last(),
                    config,
                    content,
                    earlier,
                    log,
                )
            };
        law_lossless_transforms_are_called_until_the_target(shorter, config, content, earlier);
        let (before, count) = choose|stages: Seq<Seq<Accepted>>, called: nat|
            #[trigger] lossless_calls(shorter, config, content, stages, called) && stages.last()
                == earlier;
        let stages = before.push(log);
        let open = orchestrator::gate_open(config, content, earlier);
        let called = if open {
            transforms.len()
        } else {
            count
        };
        assert(before[n as int] == earlier);
        if open {
            assert(count == n) by {
                assert(before[n as int] == before[count as int]);
            }
        }
        assert forall|i: int| 0 <= i < called implies orchestrator::gate_open(
            config,
            content,
            #[trigger] stages[i],
        ) by {
            assert(stages[i] == before[i]);
        }
        assert forall|i: int| 0 <= i < called implies orchestrator::lossless_turn(
            #[trigger] transforms[i],
            config,
            content,
            stages[i],
            stages[i + 1],
        ) by {
            if i < n {
                assert(stages[i] == before[i]);
                assert(stages[i + 1] == before[i + 1]);
                assert(transforms[i] == shorter[i]);
            }
        }
        assert forall|i: int| called <= i <= transforms.len() implies #[trigger] stages[i]
            == stages[called as int] by {
            if !open {
                assert(stages[called as int] == before[count as int]);
                assert(before[n as int] == before[count as int]);
                if i <= n {
                    assert(stages[i] == before[i]);
                }
            }
        }
        assert(stages[0] == before[0]);
        if called < transforms.len() {
            assert(stages[called as int] == before[count as int]);
            assert(!orchestrator::gate_open(config, content, before[count as int]));
        }
        assert(lossless_calls(transforms, config, content, stages, called));
    }
}

/// Whether a lossy phase may call all of `transforms`, where `stages` are the
/// results that are kept before each transform and after the last. Each is
/// called with what the results before it left, and with `context`.
pub open spec fn lossy_calls(
    transforms: Seq<Registered<dyn LossyTransform>>,
    config: PipelineConfig,
    context: CompressionContext,
    content: Seq<char>,
    stages: Seq<Seq<Accepted>>,
) -> bool {
    &&& stages.len() == transforms.len() + 1
    &&& forall|i: int|
        0 <= i < transforms.len() ==> orchestrator::lossy_step(
            #[trigger] transforms[i],
            config,
            context,
            content,
            stages[i],
            stages[i + 1],
        )
}

/// All lossy transforms are called, in the order of registration, each with
/// what the results before it left and with the context of the run.
pub proof fn law_all_lossy_transforms_are_called(
    transforms: Seq<Registered<dyn LossyTransform>>,
    config: PipelineConfig,
    context: CompressionContext,
    content: Seq<char>,
    start: Seq<Accepted>,
    log: Seq<Accepted>,
)
    requires
        orchestrator::lossy_log(transforms, config, context, content, start, log),
    ensures
        exists|stages: Seq<Seq<Accepted>>|
            {
                &&& #[trigger] lossy_calls(transforms, config, context, content, stages)
                &&& stages[0] == start
                &&& stages.last() == log
            },
    decreases transforms.len(),
{
    if transforms.len() == 0 {
        assert(lossy_calls(transforms, config, context, content, seq![log]));
    } else {
        let shorter = transforms.drop_last();
        let n = shorter.len();
        let earlier = choose|earlier: Seq<Accepted>|
            {
                &&& orchestrator::lossy_log(shorter, config, context, content, start, earlier)
                &&& #[trigger] orchestrator::lossy_step(
                    transforms.last(),
                    config,
                    context,
                    content,
                    earlier,
                    log,
                )
            };
        law_all_lossy_transforms_are_called(shorter, config, context, content, start, earlier);
        let before = choose|stages: Seq<Seq<Accepted>>|
            {
                &&& #[trigger] lossy_calls(shorter, config, context, content, stages)
                &&& stages[0] == start
                &&& stages.last() == earlier
            };
        let stages = before.push(log);
        assert forall|i: int| 0 <= i < transforms.len() implies orchestrator::lossy_step(
            #[trigger] transforms[i],
            config,
            context,
            content,
            stages[i],
            stages[i + 1],
        ) by {
            assert(stages[i] == before[i]);
            if i < n {
                assert(stages[i + 1] == before[i + 1]);
                assert(transforms[i] == shorter[i]);
            }
        }
        assert(lossy_calls(transforms, config, context, content, stages));
    }
}

/// A run calls the lossless transforms for its content type in the order of
/// registration until the target is reached, and then all the lossy ones in
/// theirs, each with what the results before it left. What it returns is made
/// of the results that were kept.
pub proof fn law_a_run_calls_its_transforms_in_order(
    pipeline: CompressionPipeline,
    content: Seq<char>,
    content_type: ContentType,
    context: CompressionContext,
    result: PipelineResult,
)
    requires
        pipeline.may_run_to(content, content_type, context, result),
    ensures
        exists|first: Seq<Seq<Accepted>>, called: nat, second: Seq<Seq<Accepted>>|
            {
                &&& #[trigger] lossless_calls(
                    pipeline.lossless_for(content_type),
                    pipeline.spec_config(),
                    content,
                    first,
                    called,
                )
                &&& #[trigger] lossy_calls(
                    pipeline.lossy_for(content_type),
                    pipeline.spec_config(),
                    context,
                    content,
                    second,
                )
                &&& second[0] == first.last()
                &&& result.summarises(content, second.last())
            },
{
    let config = pipeline.spec_config();
    let lossless = pipeline.lossless_for(content_type);
    let lossy = pipeline.lossy_for(content_type);
    let (middle, log) = lemma_logs_of_a_run(pipeline, content, content_type, context, result);
    law_lossless_transforms_are_called_until_the_target(lossless, config, content, middle);
    law_all_lossy_transforms_are_called(lossy, config, context, content, middle, log);
}

/// A run has to do with the transforms for its content type alone: pipelines
/// that agree in those and in the thresholds may return the same results.
pub proof fn law_transforms_for_other_types_do_not_matter(
    first: CompressionPipeline,
    second: CompressionPipeline,
    content: Seq<char>,
    content_type: ContentType,
    context: CompressionContext,
    result: PipelineResult,
)
    requires
        first.lossless_for(content_type) == second.lossless_for(content_type),
        first.lossy_for(content_type) == second.lossy_for(content_type),
        first.spec_config() == second.spec_config(),
    ensures
        first.may_run_to(content, content_type, context, result) == second.may_run_to(
            content,
            content_type,
            context,
            result,
        ),
{
}

/// Whether the lossless transform `entry` always fails, grows the content or
/// saves too little.
pub open spec fn is_idle_lossless(
    config: PipelineConfig,
    entry: Registered<dyn LosslessTransform>,
) -> bool {
    forall|input: Seq<char>, outcome: Result<TransformResult, TransformError>| #[trigger]
        entry.transform.may_return(input, outcome) ==> laws::passed_over(config, input, outcome)
}

/// Whether the lossy transform `entry` always fails, grows the content or saves
/// too little.
pub open spec fn is_idle_lossy(
    config: PipelineConfig,
    context: CompressionContext,
    entry: Registered<dyn LossyTransform>,
) -> bool {
    forall|input: Seq<char>, outcome: Result<TransformResult, TransformError>| #[trigger]
        entry.transform.may_return(input, context, outcome) ==> laws::passed_over(
            config,
            input,
            outcome,
        )
}

proof fn lemma_idle_lossless(
    transforms: Seq<Registered<dyn LosslessTransform>>,
    k: int,
    entry: Registered<dyn LosslessTransform>,
    config: PipelineConfig,
    content: Seq<char>,
    log: Seq<Accepted>,
)
    requires
        0 <= k <= transforms.len(),
        is_idle_lossless(config, entry),
        orchestrator::lossless_log(transforms.insert(k, entry), config, content, log),
    ensures
        orchestrator::lossless_log(transforms, config, content, log),
    decreases transforms.len(),
{
    let more = transforms.insert(k, entry);
    let earlier = choose|earlier: Seq<Accepted>|
        {
            &&& orchestrator::lossless_log(more.drop_last(), config, content, earlier)
            &&& #[trigger] orchestrator::lossless_step(more.last(), config, content, earlier, log)
        };
    if k == transforms.len() {
        assert(more.drop_last() == transforms);
        assert(log == earlier);
    } else {
        assert(more.drop_last() == transforms.drop_last().insert(k, entry));
        assert(more.last() == transforms.last());
        lemma_idle_lossless(transforms.drop_last(), k, entry, config, content, earlier);
        assert(orchestrator::lossless_step(transforms.last(), config, content, earlier, log));
    }
}

proof fn lemma_idle_lossy(
    transforms: Seq<Registered<dyn LossyTransform>>,
    k: int,
    entry: Registered<dyn LossyTransform>,
    config: PipelineConfig,
    context: CompressionContext,
    content: Seq<char>,
    start: Seq<Accepted>,
    log: Seq<Accepted>,
)
    requires
        0 <= k <= transforms.len(),
        is_idle_lossy(config, context, entry),
        orchestrator::lossy_log(
            transforms.insert(k, entry),
            config,
            context,
            content,
            start,
            log,
        ),
    ensures
        orchestrator::lossy_log(transforms, config, context, content, start, log),
    decreases transforms.len(),
{
    let more = transforms.insert(k, entry);
    let earlier = choose|earlier: Seq<Accepted>|
        {
            &&& orchestrator::lossy_log(more.drop_last(), config, context, content, start, earlier)
            &&& #[trigger] orchestrator::lossy_step(
                more.last(),
                config,
                context,
                content,
                earlier,
                log,
            )
        };
    if k == transforms.len() {
        assert(more.drop_last() == transforms);
        assert(log == earlier);
    } else {
        assert(more.drop_last() == transforms.drop_last().insert(k, entry));
        assert(more.last() == transforms.last());
        lemma_idle_lossy(
            transforms.drop_last(),
            k,
            entry,
            config,
            context,
            content,
            start,
            earlier,
        );
        assert(orchestrator::lossy_step(
            transforms.last(),
            config,
            context,
            content,
            earlier,
            log,
        ));
    }
}

/// A lossless transform that always fails, grows the content or saves too
/// little changes no run, wherever it stands: what a pipeline with it may
/// return, the one without it may return too.
pub proof fn law_an_idle_lossless_transform_changes_no_run(
    with: CompressionPipeline,
    without: CompressionPipeline,
    k: int,
    entry: Registered<dyn LosslessTransform>,
    content: Seq<char>,
    content_type: ContentType,
    context: CompressionContext,
    result: PipelineResult,
)
    requires
        0 <= k <= without.lossless_for(content_type).len(),
        with.lossless_for(content_type) == without.lossless_for(content_type).insert(k, entry),
        with.lossy_for(content_type) == without.lossy_for(content_type),
        with.spec_config() == without.spec_config(),
        is_idle_lossless(with.spec_config(), entry),
        with.may_run_to(content, content_type, context, result),
    ensures
        without.may_run_to(content, content_type, context, result),
{
    let (middle, log) = lemma_logs_of_a_run(with, content, content_type, context, result);
    lemma_idle_lossless(
        without.lossless_for(content_type),
        k,
        entry,
        with.spec_config(),
        content,
        middle,
    );
}

/// A lossy transform that always fails, grows the content or saves too little
/// changes no run, wherever it stands: what a pipeline with it may return, the
/// one without it may return too.
pub proof fn law_an_idle_lossy_transform_changes_no_run(
    with: CompressionPipeline,
    without: CompressionPipeline,
    k: int,
    entry: Registered<dyn LossyTransform>,
    content: Seq<char>,
    content_type: ContentType,
    context: CompressionContext,
    result: PipelineResult,
)
    requires
        0 <= k <= without.lossy_for(content_type).len(),
        with.lossy_for(content_type) == without.lossy_for(content_type).insert(k, entry),
        with.lossless_for(content_type) == without.lossless_for(content_type),
        with.spec_config() == without.spec_config(),
        is_idle_lossy(with.spec_config(), context, entry),
        with.may_run_to(content, content_type, context, result),
    ensures
        without.may_run_to(content, content_type, context, result),
{
    let (middle, log) = lemma_logs_of_a_run(with, content, content_type, context, result);
    lemma_idle_lossy(
        without.lossy_for(content_type),
        k,
        entry,
        with.spec_config(),
        context,
        content,
        middle,
        log,
    );
}

/// Whether two outcomes say the same, but for the reason of a failure.
pub open spec fn say_the_same(
    first: Result<TransformResult, TransformError>,
    second: Result<TransformResult, TransformError>,
) -> bool {
    match (first, second) {
        (Ok(a), Ok(b)) => {
            &&& a.output@ == b.output@
            &&& a.bytes_saved == b.bytes_saved
            &&& a.structure_preserved == b.structure_preserved
            &&& orchestrator::handle_of(a.reversible_via) == orchestrator::handle_of(
                b.reversible_via,
            )
        },
        (Err(_), Err(_)) => true,
        _ => false,
    }
}

/// Whether a lossless transform has one name, and one outcome for each input.
pub open spec fn is_settled_lossless(entry: Registered<dyn LosslessTransform>) -> bool {
    &&& forall|a: Seq<char>, b: Seq<char>| #[trigger]
        entry.transform.may_be_named(a) && #[trigger] entry.transform.may_be_named(b) ==> a == b
    &&& forall|
        input: Seq<char>,
        a: Result<TransformResult, TransformError>,
        b: Result<TransformResult, TransformError>,
    | #[trigger]
        entry.transform.may_return(input, a) && #[trigger] entry.transform.may_return(input, b)
            ==> say_the_same(a, b)
}

/// Whether a lossy transform has one name, and one outcome for each input in
/// `context`.
pub open spec fn is_settled_lossy(
    context: CompressionContext,
    entry: Registered<dyn LossyTransform>,
) -> bool {
    &&& forall|a: Seq<char>, b: Seq<char>| #[trigger]
        entry.transform.may_be_named(a) && #[trigger] entry.transform.may_be_named(b) ==> a == b
    &&& forall|
        input: Seq<char>,
        a: Result<TransformResult, TransformError>,
        b: Result<TransformResult, TransformError>,
    | #[trigger]
        entry.transform.may_return(input, context, a) && #[trigger] entry.transform.may_return(
            input,
            context,
            b,
        ) ==> say_the_same(a, b)
}

/// Whether all transforms of a pipeline for `content_type` are settled.
pub open spec fn is_settled(
    pipeline: CompressionPipeline,
    content_type: ContentType,
    context: CompressionContext,
) -> bool {
    &&& forall|i: int|
        0 <= i < pipeline.lossless_for(content_type).len() ==> is_settled_lossless(
            #[trigger] pipeline.lossless_for(content_type)[i],
        )
    &&& forall|i: int|
        0 <= i < pipeline.lossy_for(content_type).len() ==> is_settled_lossy(
            context,
            #[trigger] pipeline.lossy_for(content_type)[i],
        )
}

proof fn lemma_settled_lossless(
    transforms: Seq<Registered<dyn LosslessTransform>>,
    config: PipelineConfig,
    content: Seq<char>,
    first: Seq<Accepted>,
    second: Seq<Accepted>,
)
    requires
        forall|i: int|
            0 <= i < transforms.len() ==> is_settled_lossless(#[trigger] transforms[i]),
        orchestrator::lossless_log(transforms, config, content, first),
        orchestrator::lossless_log(transforms, config, content, second),
    ensures
        first == second,
    decreases transforms.len(),
{
    if transforms.len() > 0 {
        let shorter = transforms.drop_last();
        let a = choose|earlier: Seq<Accepted>|
            {
                &&& orchestrator::lossless_log(shorter, config, content, earlier)
                &&& #[trigger] orchestrator::lossless_step(
                    transforms.last(),
                    config,
                    content,
                    earlier,
                    first,
                )
            };
        let b = choose|earlier: Seq<Accepted>|
            {
                &&& orchestrator::lossless_log(shorter, config, content, earlier)
                &&& #[trigger] orchestrator::lossless_step(
                    transforms.last(),
                    config,
                    content,
                    earlier,
                    second,
                )
            };
        assert forall|i: int| 0 <= i < shorter.len() implies is_settled_lossless(
            #[trigger] shorter[i],
        ) by {
            assert(shorter[i] == transforms[i]);
        }
        lemma_settled_lossless(shorter, config, content, a, b);
        assert(is_settled_lossless(transforms[transforms.len() - 1]));
    }
}

proof fn lemma_settled_lossy(
    transforms: Seq<Registered<dyn LossyTransform>>,
    config: PipelineConfig,
    context: CompressionContext,
    content: Seq<char>,
    start: Seq<Accepted>,
    first: Seq<Accepted>,
    second: Seq<Accepted>,
)
    requires
        forall|i: int|
            0 <= i < transforms.len() ==> is_settled_lossy(context, #[trigger] transforms[i]),
        orchestrator::lossy_log(transforms, config, context, content, start, first),
        orchestrator::lossy_log(transforms, config, context, content, start, second),
    ensures
        first == second,
    decreases transforms.len(),
{
    if transforms.len() > 0 {
        let shorter = transforms.drop_last();
        let a = choose|earlier: Seq<Accepted>|
            {
                &&& orchestrator::lossy_log(shorter, config, context, content, start, earlier)
                &&& #[trigger] orchestrator::lossy_step(
                    transforms.last(),
                    config,
                    context,
                    content,
                    earlier,
                    first,
                )
            };
        let b = choose|earlier: Seq<Accepted>|
            {
                &&& orchestrator::lossy_log(shorter, config, context, content, start, earlier)
                &&& #[trigger] orchestrator::lossy_step(
                    transforms.last(),
                    config,
                    context,
                    content,
                    earlier,
                    second,
                )
            };
        assert forall|i: int| 0 <= i < shorter.len() implies is_settled_lossy(
            context,
            #[trigger] shorter[i],
        ) by {
            assert(shorter[i] == transforms[i]);
        }
        lemma_settled_lossy(shorter, config, context, content, start, a, b);
        assert(is_settled_lossy(context, transforms[transforms.len() - 1]));
    }
}

/// Whether two results say the same.
pub open spec fn agree(first: PipelineResult, second: PipelineResult) -> bool {
    &&& first.output@ == second.output@
    &&& first.bytes_saved == second.bytes_saved
    &&& first.structure_preserved == second.structure_preserved
    &&& text::texts(first.steps_applied@) == text::texts(second.steps_applied@)
    &&& orchestrator::handle_of(first.reversible_via) == orchestrator::handle_of(
        second.reversible_via,
    )
}

/// Where every transform for the content type has one name and one outcome for
/// each input, so has the pipeline one result.
pub proof fn law_settled_transforms_give_one_result(
    pipeline: CompressionPipeline,
    content: Seq<char>,
    content_type: ContentType,
    context: CompressionContext,
    first: PipelineResult,
    second: PipelineResult,
)
    requires
        is_settled(pipeline, content_type, context),
        pipeline.may_run_to(content, content_type, context, first),
        pipeline.may_run_to(content, content_type, context, second),
    ensures
        agree(first, second),
{
    let config = pipeline.spec_config();
    let lossless = pipeline.lossless_for(content_type);
    let lossy = pipeline.lossy_for(content_type);
    let (a, x) = lemma_logs_of_a_run(pipeline, content, content_type, context, first);
    let (b, y) = lemma_logs_of_a_run(pipeline, content, content_type, context, second);
    lemma_settled_lossless(lossless, config, content, a, b);
    lemma_settled_lossy(lossy, config, context, content, a, x, y);
}

/// Where the other transforms are settled, a run with an idle lossless
/// transform and one without it agree.
pub proof fn law_runs_agree_with_and_without_an_idle_lossless_transform(
    with: CompressionPipeline,
    without: CompressionPipeline,
    k: int,
    entry: Registered<dyn LosslessTransform>,
    content: Seq<char>,
    content_type: ContentType,
    context: CompressionContext,
    first: PipelineResult,
    second: PipelineResult,
)
    requires
        0 <= k <= without.lossless_for(content_type).len(),
        with.lossless_for(content_type) == without.lossless_for(content_type).insert(k, entry),
        with.lossy_for(content_type) == without.lossy_for(content_type),
        with.spec_config() == without.spec_config(),
        is_idle_lossless(with.spec_config(), entry),
        is_settled(without, content_type, context),
        with.may_run_to(content, content_type, context, first),
        without.may_run_to(content, content_type, context, second),
    ensures
        agree(first, second),
{
    law_an_idle_lossless_transform_changes_no_run(
        with,
        without,
        k,
        entry,
        content,
        content_type,
        context,
        first,
    );
    law_settled_transforms_give_one_result(without, content, content_type, context, first, second);
}

/// Where the other transforms are settled, a run with an idle lossy transform
/// and one without it agree.
pub proof fn law_runs_agree_with_and_without_an_idle_lossy_transform(
    with: CompressionPipeline,
    without: CompressionPipeline,
    k: int,
    entry: Registered<dyn LossyTransform>,
    content: Seq<char>,
    content_type: ContentType,
    context: CompressionContext,
    first: PipelineResult,
    second: PipelineResult,
)
    requires
        0 <= k <= without.lossy_for(content_type).len(),
        with.lossy_for(content_type) == without.lossy_for(content_type).insert(k, entry),
        with.lossless_for(content_type) == without.lossless_for(content_type),
        with.spec_config() == without.spec_config(),
        is_idle_lossy(with.spec_config(), context, entry),
        is_settled(without, content_type, context),
        with.may_run_to(content, content_type, context, first),
        without.may_run_to(content, content_type, context, second),
    ensures
        agree(first, second),
{
    law_an_idle_lossy_transform_changes_no_run(
        with,
        without,
        k,
        entry,
        content,
        content_type,
        context,
        first,
    );
    law_settled_transforms_give_one_result(without, content, content_type, context, first, second);
}

/// How many of `events` report that the lossless phase stopped.
pub open spec fn stops(events: Seq<Event>) -> nat
    decreases events.len(),
{
    if events.len() == 0 {
        0
    } else {
        stops(events.drop_last()) + if events.last() is TargetReached {
            1nat
        } else {
            0nat
        }
    }
}

proof fn lemma_stops_push(events: Seq<Event>, event: Event)
    ensures
        stops(events.push(event)) == stops(events) + if event is TargetReached {
            1nat
        } else {
            0nat
        },
{
    assert(events.push(event).drop_last() == events);
}

proof fn lemma_lossless_reports(
    transforms: Seq<Registered<dyn LosslessTransform>>,
    config: PipelineConfig,
    content: Seq<char>,
    trace: Trace,
)
    requires
        orchestrator::lossless_trace(transforms, config, content, trace),
    ensures
        stops(trace.events) <= 1,
        stops(trace.events) == 1 <==> orchestrator::has_stopped(trace),
        stops(trace.events) == 1 ==> !orchestrator::gate_open(config, content, trace.log),
        stops(trace.events) == 0 ==> trace.log.len() + trace.events.len() == transforms.len(),
        trace.log.len() + trace.events.len() <= transforms.len(),
    decreases transforms.len(),
{
    if transforms.len() > 0 {
        let earlier = choose|earlier: Trace|
            {
                &&& orchestrator::lossless_trace(transforms.drop_last(), config, content, earlier)
                &&& #[trigger] orchestrator::lossless_traced_step(
                    transforms.last(),
                    config,
                    content,
                    earlier,
                    trace,
                )
            };
        lemma_lossless_reports(transforms.drop_last(), config, content, earlier);
        if trace.events.len() > 0 {
            lemma_stops_push(earlier.events, trace.events.last());
        }
    }
}

proof fn lemma_lossy_reports(
    transforms: Seq<Registered<dyn LossyTransform>>,
    config: PipelineConfig,
    context: CompressionContext,
    content: Seq<char>,
    start: Trace,
    trace: Trace,
)
    requires
        orchestrator::lossy_trace(transforms, config, context, content, start, trace),
    ensures
        stops(trace.events) == stops(start.events),
        trace.log.len() + trace.events.len() == start.log.len() + start.events.len()
            + transforms.len(),
    decreases transforms.len(),
{
    if transforms.len() > 0 {
        let earlier = choose|earlier: Trace|
            {
                &&& orchestrator::lossy_trace(
                    transforms.drop_last(),
                    config,
                    context,
                    content,
                    start,
                    earlier,
                )
                &&& #[trigger] orchestrator::lossy_traced_step(
                    transforms.last(),
                    config,
                    context,
                    content,
                    earlier,
                    trace,
                )
            };
        lemma_lossy_reports(transforms.drop_last(), config, context, content, start, earlier);
        if trace.events.len() > 0 {
            lemma_stops_push(earlier.events, trace.events.last());
        }
    }
}

/// Every transform for the content type is recorded as a step or reported,
/// unless the lossless phase stopped before all were called. That it stopped is
/// reported at most once.
pub proof fn law_every_transform_is_recorded_or_reported(
    pipeline: CompressionPipeline,
    content: Seq<char>,
    content_type: ContentType,
    context: CompressionContext,
    result: PipelineResult,
    events: Seq<Event>,
)
    requires
        pipeline.may_report(content, content_type, context, result, events),
    ensures
        stops(events) <= 1,
        stops(events) == 0 ==> result.steps_applied@.len() + events.len()
            == pipeline.lossless_for(content_type).len() + pipeline.lossy_for(content_type).len(),
        result.steps_applied@.len() + events.len() <= pipeline.lossless_for(content_type).len()
            + pipeline.lossy_for(content_type).len(),
{
    let config = pipeline.spec_config();
    let lossless = pipeline.lossless_for(content_type);
    let lossy = pipeline.lossy_for(content_type);
    let (middle, end) = choose|middle: Trace, end: Trace|
        {
            &&& #[trigger] orchestrator::lossless_trace(lossless, config, content, middle)
            &&& #[trigger] orchestrator::lossy_trace(
                lossy,
                config,
                context,
                content,
                middle,
                end,
            )
            &&& result.summarises(content, end.log)
            &&& events == end.events
        };
    lemma_lossless_reports(lossless, config, content, middle);
    lemma_lossy_reports(lossy, config, context, content, middle, end);
    assert(text::texts(result.steps_applied@).len() == end.log.len());
}

proof fn lemma_occurrences_are_places(types: Seq<ContentType>, content_type: ContentType)
    ensures
        Set::new(|i: int| 0 <= i < types.len() && types[i] == content_type).finite(),
        registry::occurrences(types, content_type) == Set::new(
            |i: int| 0 <= i < types.len() && types[i] == content_type,
        ).len(),
    decreases types.len(),
{
    let places = Set::new(|i: int| 0 <= i < types.len() && types[i] == content_type);
    if types.len() == 0 {
        assert(places =~= Set::empty());
    } else {
        let shorter = types.drop_last();
        let last = types.len() - 1;
        lemma_occurrences_are_places(shorter, content_type);
        let fewer = Set::new(|i: int| 0 <= i < shorter.len() && shorter[i] == content_type);
        if types.last() == content_type {
            assert(places =~= fewer.insert(last));
        } else {
            assert(places =~= fewer);
        }
    }
}

/// A transform is listed, behind those that are there, as often as a content
/// type stands among its types; those that are there stay as they are.
pub proof fn law_a_transform_is_listed_for_each_of_its_types(
    before: CompressionPipelineBuilder,
    after: CompressionPipelineBuilder,
    lossless: Registered<dyn LosslessTransform>,
    lossy: Registered<dyn LossyTransform>,
    types: Seq<ContentType>,
    content_type: ContentType,
)
    ensures
        ({
            let places = Set::new(|i: int| 0 <= i < types.len() && types[i] == content_type);
            &&& places.finite()
            &&& after.adds_lossless(before, lossless, types) ==> {
                let old_list = before.lossless_for(content_type);
                let new_list = after.lossless_for(content_type);
                &&& new_list.len() == old_list.len() + places.len()
                &&& forall|i: int| 0 <= i < old_list.len() ==> #[trigger] new_list[i] == old_list[i]
                &&& forall|i: int|
                    old_list.len() <= i < new_list.len() ==> #[trigger] new_list[i] == lossless
            }
            &&& after.adds_lossy(before, lossy, types) ==> {
                let old_list = before.lossy_for(content_type);
                let new_list = after.lossy_for(content_type);
                &&& new_list.len() == old_list.len() + places.len()
                &&& forall|i: int| 0 <= i < old_list.len() ==> #[trigger] new_list[i] == old_list[i]
                &&& forall|i: int|
                    old_list.len() <= i < new_list.len() ==> #[trigger] new_list[i] == lossy
            }
        }),
{
    lemma_occurrences_are_places(types, content_type);
}

} // verus!
