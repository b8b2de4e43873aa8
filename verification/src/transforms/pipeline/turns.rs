//! What a run does turn by turn, in terms of what the transforms return.

use crate::float;
use crate::text;
use crate::transforms::pipeline::calls;
use crate::transforms::pipeline::calls::law_a_run_calls_its_transforms_in_order;
use crate::transforms::pipeline::orchestrator;
use crate::transforms::pipeline::orchestrator::{
    Accepted, CompressionPipeline, Event, Phase, PipelineConfig, PipelineEvent, PipelineResult,
    Trace,
};
use crate::transforms::pipeline::registry::Registered;
use crate::transforms::pipeline::traits::{
    CompressionContext, LosslessTransform, LossyTransform, TransformError, TransformResult,
};
use crate::transforms::ContentType;
use vstd::prelude::*;

verus! {

/// A result that is shorter than its input, and whose reported savings are
/// positive and reach the least share of the input's length, is kept, however
/// long the input is: it is the next entry of the log. Any other result is not,
/// nor is anything kept of a transform that fails.
pub proof fn law_a_result_that_saves_enough_is_kept(
    config: PipelineConfig,
    phase: Phase,
    content: Seq<char>,
    log: Seq<Accepted>,
    name: Seq<char>,
    step: TransformResult,
    error: TransformError,
)
    ensures
        ({
            let input = if log.len() == 0 {
                content
            } else {
                log[log.len() - 1].output
            };
            let enough = text::byte_len(step.output@) < text::byte_len(input) && step.bytes_saved
                > 0 && float::at_least(
                float::float_ratio(step.bytes_saved as nat, text::byte_len(input)),
                config.min_savings_ratio.value(),
            );
            let entry = Accepted {
                name,
                output: step.output@,
                bytes_saved: step.bytes_saved as nat,
                structure_preserved: phase == Phase::Lossless && step.structure_preserved,
                reversible_via: match step.reversible_via {
                    Some(handle) => Some(handle@),
                    None => None,
                },
            };
            &&& orchestrator::decided(config, phase, content, log, name, Ok(step)) == if enough {
                log.push(entry)
            } else {
                log
            }
            &&& orchestrator::decided(config, phase, content, log, name, Err(error)) == log
        }),
{
}

/// With the default thresholds, and for lengths below 2^53, a result is kept
/// exactly if it is shorter than its input and saves a twentieth of it or more.
pub proof fn law_by_default_a_twentieth_is_enough(
    config: PipelineConfig,
    phase: Phase,
    content: Seq<char>,
    log: Seq<Accepted>,
    name: Seq<char>,
    step: TransformResult,
)
    requires
        config.min_savings_ratio.bits == 0x3FA9_9999_9999_999A,
        step.bytes_saved < 0x20_0000_0000_0000,
        text::byte_len(content) < 0x20_0000_0000_0000,
        log.len() > 0 ==> text::byte_len(log[log.len() - 1].output) < 0x20_0000_0000_0000,
    ensures
        ({
            let input = if log.len() == 0 {
                content
            } else {
                log[log.len() - 1].output
            };
            let after = orchestrator::decided(config, phase, content, log, name, Ok(step));
            let kept = text::byte_len(step.output@) < text::byte_len(input) && 20
                * step.bytes_saved >= text::byte_len(input);
            &&& after.len() == log.len() + if kept {
                1nat
            } else {
                0
            }
            &&& kept ==> after[log.len() as int].output == step.output@ && after[log.len() as int].name
                == name
            &&& forall|i: int| 0 <= i < log.len() ==> #[trigger] after[i] == log[i]
        }),
{
    let input = if log.len() == 0 {
        content
    } else {
        log[log.len() - 1].output
    };
    if step.bytes_saved > 0 && text::byte_len(input) > 0 {
        float::law_one_twentieth_is_exact(step.bytes_saved as nat, text::byte_len(input));
    }
}

/// The lossless phase goes on while the share of the content that is left is
/// above the target, whatever the lengths. With the default threshold, and for
/// lengths below 2^53, that is while more than half is left.
pub proof fn law_the_lossless_phase_goes_on_above_the_target(
    config: PipelineConfig,
    content: Seq<char>,
    log: Seq<Accepted>,
)
    ensures
        ({
            let left = text::byte_len(
                if log.len() == 0 {
                    content
                } else {
                    log[log.len() - 1].output
                },
            );
            let all = text::byte_len(content);
            &&& orchestrator::gate_open(config, content, log) <==> all > 0 && float::exceeds(
                float::float_ratio(left, all),
                config.lossless_target_ratio.value(),
            )
            &&& config.lossless_target_ratio.bits == 0x3FE0_0000_0000_0000 && 0 < all
                < 0x20_0000_0000_0000 && left < 0x20_0000_0000_0000 ==> (orchestrator::gate_open(
                config,
                content,
                log,
            ) <==> 2 * left > all)
        }),
{
    let left = text::byte_len(orchestrator::current(content, log));
    let all = text::byte_len(content);
    if config.lossless_target_ratio.bits == 0x3FE0_0000_0000_0000 && 0 < all < 0x20_0000_0000_0000
        && left < 0x20_0000_0000_0000 {
        float::law_one_half_is_exact(left, all);
    }
}

/// Where a run stands between two turns.
pub struct Moment {
    /// What is left of the content.
    pub text: Seq<char>,
    /// The savings so far.
    pub saved: nat,
    /// Whether the structure is preserved so far.
    pub preserved: bool,
    /// The names of the steps so far.
    pub steps: Seq<Seq<char>>,
    /// The most recent retrieval key.
    pub handle: Option<Seq<char>>,
}

/// A call of a transform: what it is called, and what it returned.
pub struct Turn {
    pub name: Seq<char>,
    pub outcome: Result<TransformResult, TransformError>,
}

/// Where a run stands that has kept the results of `log`.
#[verifier::opaque]
spec fn moment_of(content: Seq<char>, log: Seq<Accepted>) -> Moment {
    Moment {
        text: orchestrator::current(content, log),
        saved: orchestrator::total_saved(log),
        preserved: orchestrator::all_preserve_structure(log),
        steps: orchestrator::names(log),
        handle: orchestrator::last_handle(log),
    }
}

/// Where a run stands after a turn in which a transform called `name` returned
/// `outcome`.
spec fn moment_after(
    config: PipelineConfig,
    lossless: bool,
    moment: Moment,
    name: Seq<char>,
    outcome: Result<TransformResult, TransformError>,
) -> Moment {
    match outcome {
        Ok(step) => if text::byte_len(step.output@) < text::byte_len(moment.text)
            && step.bytes_saved > 0 && float::at_least(
            float::float_ratio(step.bytes_saved as nat, text::byte_len(moment.text)),
            config.min_savings_ratio.value(),
        ) {
            Moment {
                text: step.output@,
                saved: if moment.saved + step.bytes_saved <= usize::MAX {
                    (moment.saved + step.bytes_saved) as nat
                } else {
                    usize::MAX as nat
                },
                preserved: moment.preserved && lossless && step.structure_preserved,
                steps: moment.steps.push(name),
                handle: match step.reversible_via {
                    Some(handle) => Some(handle@),
                    None => moment.handle,
                },
            }
        } else {
            moment
        },
        Err(_) => moment,
    }
}

/// Whether `next` is what `log` becomes after `turn`.
#[verifier::opaque]
spec fn leads(
    config: PipelineConfig,
    phase: Phase,
    content: Seq<char>,
    log: Seq<Accepted>,
    next: Seq<Accepted>,
    turn: Turn,
) -> bool {
    next == orchestrator::decided(config, phase, content, log, turn.name, turn.outcome)
}

proof fn lemma_moment_after(
    config: PipelineConfig,
    phase: Phase,
    content: Seq<char>,
    log: Seq<Accepted>,
    next: Seq<Accepted>,
    turn: Turn,
)
    requires
        leads(config, phase, content, log, next, turn),
    ensures
        moment_of(content, next) == moment_after(
            config,
            phase == Phase::Lossless,
            moment_of(content, log),
            turn.name,
            turn.outcome,
        ),
{
    reveal(moment_of);
    reveal(leads);
    let name = turn.name;
    if next != log {
        let entry = next.last();
        assert(next == log.push(entry));
        assert(next.drop_last() =~= log);
        assert(orchestrator::names(next) =~= orchestrator::names(log).push(name));
        assert(orchestrator::all_preserve_structure(next) == (orchestrator::all_preserve_structure(
            log,
        ) && entry.structure_preserved)) by {
            assert(forall|i: int| 0 <= i < log.len() ==> next[i] == log[i]);
            assert(next[log.len() as int] == entry);
        }
    } else if let Ok(step) = turn.outcome {
        assert(log.push(orchestrator::accepted(phase, name, step)).len() != log.len());
    }
}

proof fn lemma_moment_of(content: Seq<char>, log: Seq<Accepted>)
    ensures
        moment_of(content, log).text == orchestrator::current(content, log),
        log.len() == 0 ==> {
            let moment = moment_of(content, log);
            &&& moment.text == content
            &&& moment.saved == 0
            &&& moment.preserved
            &&& moment.steps.len() == 0
            &&& moment.handle is None
        },
{
    reveal(moment_of);
}

proof fn lemma_summary(content: Seq<char>, log: Seq<Accepted>, result: PipelineResult)
    requires
        result.summarises(content, log),
    ensures
        ({
            let moment = moment_of(content, log);
            &&& result.output@ == moment.text
            &&& result.bytes_saved == moment.saved
            &&& result.structure_preserved == moment.preserved
            &&& result.steps_applied@.len() == moment.steps.len()
            &&& forall|i: int|
                0 <= i < result.steps_applied@.len() ==> (#[trigger] result.steps_applied@[i])@
                    == moment.steps[i]
            &&& match result.reversible_via {
                Some(handle) => moment.handle == Some(handle@),
                None => moment.handle is None,
            }
        }),
{
    reveal(moment_of);
    let steps = text::texts(result.steps_applied@);
    assert(steps == orchestrator::names(log));
    assert forall|i: int| 0 <= i < result.steps_applied@.len() implies (
    #[trigger] result.steps_applied@[i])@ == moment_of(content, log).steps[i] by {
        assert(steps[i] == result.steps_applied@[i]@);
    }
}

/// What a lossless transform was called and returned when `log` followed
/// `earlier`.
#[verifier::opaque]
spec fn lossless_turn_of(
    entry: Registered<dyn LosslessTransform>,
    config: PipelineConfig,
    content: Seq<char>,
    earlier: Seq<Accepted>,
    log: Seq<Accepted>,
) -> Turn {
    let (name, outcome) = choose|
        name: Seq<char>,
        outcome: Result<TransformResult, TransformError>,
    |
        {
            &&& #[trigger] entry.transform.may_be_named(name)
            &&& #[trigger] entry.transform.may_return(
                orchestrator::current(content, earlier),
                outcome,
            )
            &&& log == orchestrator::decided(
                config,
                Phase::Lossless,
                content,
                earlier,
                name,
                outcome,
            )
        };
    Turn { name, outcome }
}

/// What a lossy transform was called and returned when `log` followed
/// `earlier`.
#[verifier::opaque]
spec fn lossy_turn_of(
    entry: Registered<dyn LossyTransform>,
    config: PipelineConfig,
    context: CompressionContext,
    content: Seq<char>,
    earlier: Seq<Accepted>,
    log: Seq<Accepted>,
) -> Turn {
    let (name, outcome) = choose|
        name: Seq<char>,
        outcome: Result<TransformResult, TransformError>,
    |
        {
            &&& #[trigger] entry.transform.may_be_named(name)
            &&& #[trigger] entry.transform.may_return(
                orchestrator::current(content, earlier),
                context,
                outcome,
            )
            &&& log == orchestrator::decided(config, Phase::Lossy, content, earlier, name, outcome)
        };
    Turn { name, outcome }
}

proof fn lemma_lossless_turn_leads(
    entry: Registered<dyn LosslessTransform>,
    config: PipelineConfig,
    content: Seq<char>,
    log: Seq<Accepted>,
    next: Seq<Accepted>,
)
    requires
        orchestrator::lossless_turn(entry, config, content, log, next),
    ensures
        ({
            let turn = lossless_turn_of(entry, config, content, log, next);
            &&& entry.transform.may_be_named(turn.name)
            &&& entry.transform.may_return(orchestrator::current(content, log), turn.outcome)
            &&& leads(config, Phase::Lossless, content, log, next, turn)
        }),
{
    reveal(leads);
    reveal(lossless_turn_of);
}

proof fn lemma_lossy_turn_leads(
    entry: Registered<dyn LossyTransform>,
    config: PipelineConfig,
    context: CompressionContext,
    content: Seq<char>,
    log: Seq<Accepted>,
    next: Seq<Accepted>,
)
    requires
        orchestrator::lossy_step(entry, config, context, content, log, next),
    ensures
        ({
            let turn = lossy_turn_of(entry, config, context, content, log, next);
            &&& entry.transform.may_be_named(turn.name)
            &&& entry.transform.may_return(
                orchestrator::current(content, log),
                context,
                turn.outcome,
            )
            &&& leads(config, Phase::Lossy, content, log, next, turn)
        }),
{
    reveal(leads);
    reveal(lossy_turn_of);
}

/// What a run has kept before each turn and at its end, and the turns.
proof fn lemma_stages(
    pipeline: CompressionPipeline,
    content: Seq<char>,
    content_type: ContentType,
    context: CompressionContext,
    result: PipelineResult,
) -> (r: (Seq<Seq<Accepted>>, Seq<Option<Turn>>))
    requires
        pipeline.may_run_to(content, content_type, context, result),
    ensures
        ({
            let (stages, turns) = r;
            let lossless = pipeline.lossless_for(content_type);
            let lossy = pipeline.lossy_for(content_type);
            let n = lossless.len() as int;
            let m = lossy.len() as int;
            let config = pipeline.spec_config();
            &&& stages.len() == n + m + 1
            &&& turns.len() == n + m
            &&& stages[0].len() == 0
            &&& result.summarises(content, stages[n + m])
            &&& forall|i: int|
                0 <= i < n ==> (#[trigger] turns[i] is Some <==> orchestrator::gate_open(
                    config,
                    content,
                    stages[i],
                ))
            &&& forall|i: int| n <= i < n + m ==> #[trigger] turns[i] is Some
            &&& forall|i: int|
                0 <= i < n && #[trigger] turns[i] is Some ==> {
                    &&& lossless[i].transform.may_be_named((turns[i]->0).name)
                    &&& lossless[i].transform.may_return(
                        orchestrator::current(content, stages[i]),
                        (turns[i]->0).outcome,
                    )
                    &&& leads(
                        config,
                        Phase::Lossless,
                        content,
                        stages[i],
                        stages[i + 1],
                        turns[i]->0,
                    )
                }
            &&& forall|i: int|
                n <= i < n + m && #[trigger] turns[i] is Some ==> {
                    &&& lossy[i - n].transform.may_be_named((turns[i]->0).name)
                    &&& lossy[i - n].transform.may_return(
                        orchestrator::current(content, stages[i]),
                        context,
                        (turns[i]->0).outcome,
                    )
                    &&& leads(
                        config,
                        Phase::Lossy,
                        content,
                        stages[i],
                        stages[i + 1],
                        turns[i]->0,
                    )
                }
            &&& forall|i: int|
                0 <= i < n && #[trigger] turns[i] is None ==> stages[i + 1] == stages[i]
        }),
{
    let config = pipeline.spec_config();
    let lossless = pipeline.lossless_for(content_type);
    let lossy = pipeline.lossy_for(content_type);
    let n = lossless.len() as int;
    let m = lossy.len() as int;
    law_a_run_calls_its_transforms_in_order(pipeline, content, content_type, context, result);
    let (first, called, second) = choose|
        first: Seq<Seq<Accepted>>,
        called: nat,
        second: Seq<Seq<Accepted>>,
    |
        {
            &&& #[trigger] calls::lossless_calls(lossless, config, content, first, called)
            &&& #[trigger] calls::lossy_calls(lossy, config, context, content, second)
            &&& second[0] == first.last()
            &&& result.summarises(content, second.last())
        };
    let stages = Seq::new(
        (n + m + 1) as nat,
        |i: int|
            if i < n {
                first[i]
            } else {
                second[i - n]
            },
    );
    let turns = Seq::new(
        (n + m) as nat,
        |i: int|
            if i < n {
                if i < called {
                    Some(
                        lossless_turn_of(lossless[i], config, content, stages[i], stages[i + 1]),
                    )
                } else {
                    None
                }
            } else {
                Some(
                    lossy_turn_of(
                        lossy[i - n],
                        config,
                        context,
                        content,
                        stages[i],
                        stages[i + 1],
                    ),
                )
            },
    );
    assert(first[n] == second[0]);
    assert forall|i: int| 0 <= i < n implies (#[trigger] turns[i] is Some
        <==> orchestrator::gate_open(config, content, stages[i])) by {
        assert(stages[i] == first[i]);
        if i >= called {
            assert(first[i] == first[called as int]);
        }
    }
    assert forall|i: int| 0 <= i < n && #[trigger] turns[i] is Some implies {
        &&& lossless[i].transform.may_be_named((turns[i]->0).name)
        &&& lossless[i].transform.may_return(
            orchestrator::current(content, stages[i]),
            (turns[i]->0).outcome,
        )
        &&& leads(config, Phase::Lossless, content, stages[i], stages[i + 1], turns[i]->0)
    } by {
        assert(stages[i] == first[i]);
        assert(stages[i + 1] == first[i + 1]);
        lemma_lossless_turn_leads(lossless[i], config, content, stages[i], stages[i + 1]);
    }
    assert forall|i: int| n <= i < n + m && #[trigger] turns[i] is Some implies {
        &&& lossy[i - n].transform.may_be_named((turns[i]->0).name)
        &&& lossy[i - n].transform.may_return(
            orchestrator::current(content, stages[i]),
            context,
            (turns[i]->0).outcome,
        )
        &&& leads(config, Phase::Lossy, content, stages[i], stages[i + 1], turns[i]->0)
    } by {
        let k = i - n;
        assert(stages[i] == second[k]);
        assert(stages[i + 1] == second[k + 1]);
        lemma_lossy_turn_leads(lossy[k], config, context, content, second[k], second[k + 1]);
    }
    assert forall|i: int| 0 <= i < n && #[trigger] turns[i] is None implies stages[i + 1]
        == stages[i] by {
        assert(stages[i] == first[i]);
        assert(stages[i + 1] == first[i + 1]);
        assert(first[i] == first[called as int]);
        assert(first[i + 1] == first[called as int]);
    }
    (stages, turns)
}

/// A run goes turn by turn through the lossless and then the lossy transforms
/// for its content type, from the content to its result.
///
/// A lossless transform is called exactly if the share of the content that is
/// left is above the target; every lossy one is called. Each is called with the
/// text that is left, and a lossy one with the context. A result that is
/// shorter and saves enough becomes the text; its savings are added, its name
/// is the next step, its retrieval key replaces the one before, and the
/// structure is preserved no longer if it is lossy or says so. Any other
/// outcome changes nothing.
pub proof fn law_a_run_goes_turn_by_turn(
    pipeline: CompressionPipeline,
    content: Seq<char>,
    content_type: ContentType,
    context: CompressionContext,
    result: PipelineResult,
)
    requires
        pipeline.may_run_to(content, content_type, context, result),
    ensures
        exists|
            moments: Seq<Moment>,
            turns: Seq<Option<Turn>>,
        |
            #![trigger moments.len(), turns.len()]
            {
                let n = pipeline.lossless_for(content_type).len() as int;
                let m = pipeline.lossy_for(content_type).len() as int;
                let config = pipeline.spec_config();
                &&& moments.len() == n + m + 1
                &&& turns.len() == n + m
                &&& moments[0].text == content
                &&& moments[0].saved == 0
                &&& moments[0].preserved
                &&& moments[0].steps.len() == 0
                &&& moments[0].handle is None
                &&& forall|i: int|
                    0 <= i < n ==> (#[trigger] turns[i] is Some <==> text::byte_len(content) > 0
                        && float::exceeds(
                        float::float_ratio(
                            text::byte_len(moments[i].text),
                            text::byte_len(content),
                        ),
                        config.lossless_target_ratio.value(),
                    ))
                &&& forall|i: int| n <= i < n + m ==> #[trigger] turns[i] is Some
                &&& forall|i: int|
                    0 <= i < n && #[trigger] turns[i] is Some ==> {
                        let transform = pipeline.lossless_for(content_type)[i].transform;
                        &&& transform.may_be_named((turns[i]->0).name)
                        &&& transform.may_return(moments[i].text, (turns[i]->0).outcome)
                    }
                &&& forall|i: int|
                    n <= i < n + m && #[trigger] turns[i] is Some ==> {
                        let transform = pipeline.lossy_for(content_type)[i - n].transform;
                        &&& transform.may_be_named((turns[i]->0).name)
                        &&& transform.may_return(moments[i].text, context, (turns[i]->0).outcome)
                    }
                &&& forall|i: int|
                    0 <= i < n + m ==> moments[i + 1] == match #[trigger] turns[i] {
                        Some(Turn { name, outcome: Ok(step) }) => if text::byte_len(step.output@)
                            < text::byte_len(moments[i].text) && step.bytes_saved > 0
                            && float::at_least(
                            float::float_ratio(
                                step.bytes_saved as nat,
                                text::byte_len(moments[i].text),
                            ),
                            config.min_savings_ratio.value(),
                        ) {
                            Moment {
                                text: step.output@,
                                saved: if moments[i].saved + step.bytes_saved <= usize::MAX {
                                    (moments[i].saved + step.bytes_saved) as nat
                                } else {
                                    usize::MAX as nat
                                },
                                preserved: moments[i].preserved && i < n
                                    && step.structure_preserved,
                                steps: moments[i].steps.push(name),
                                handle: match step.reversible_via {
                                    Some(handle) => Some(handle@),
                                    None => moments[i].handle,
                                },
                            }
                        } else {
                            moments[i]
                        },
                        _ => moments[i],
                    }
                &&& result.output@ == moments[n + m].text
                &&& result.bytes_saved == moments[n + m].saved
                &&& result.structure_preserved == moments[n + m].preserved
                &&& result.steps_applied@.len() == moments[n + m].steps.len()
                &&& forall|i: int|
                    0 <= i < result.steps_applied@.len() ==> (#[trigger] result.steps_applied@[i])@
                        == moments[n + m].steps[i]
                &&& match result.reversible_via {
                    Some(handle) => moments[n + m].handle == Some(handle@),
                    None => moments[n + m].handle is None,
                }
            },
{
    let config = pipeline.spec_config();
    let lossless = pipeline.lossless_for(content_type);
    let lossy = pipeline.lossy_for(content_type);
    let n = lossless.len() as int;
    let m = lossy.len() as int;
    let (stages, turns) = lemma_stages(pipeline, content, content_type, context, result);
    let moments = Seq::new((n + m + 1) as nat, |i: int| moment_of(content, stages[i]));
    assert forall|i: int| 0 <= i <= n + m implies (#[trigger] moments[i]).text
        == orchestrator::current(content, stages[i]) by {
        lemma_moment_of(content, stages[i]);
    }
    lemma_moment_of(content, stages[0]);
    lemma_summary(content, stages[n + m], result);
    assert forall|i: int| 0 <= i < n implies (#[trigger] turns[i] is Some <==> text::byte_len(
        content,
    ) > 0 && float::exceeds(
        float::float_ratio(text::byte_len(moments[i].text), text::byte_len(content)),
        config.lossless_target_ratio.value(),
    )) by {
        law_the_lossless_phase_goes_on_above_the_target(config, content, stages[i]);
    }
    assert forall|i: int| 0 <= i < n + m implies moments[i + 1] == match #[trigger] turns[i] {
        Some(Turn { name, outcome }) => moment_after(config, i < n, moments[i], name, outcome),
        None => moments[i],
    } by {
        if turns[i] is Some {
            let phase = if i < n {
                Phase::Lossless
            } else {
                Phase::Lossy
            };
            lemma_moment_after(config, phase, content, stages[i], stages[i + 1], turns[i]->0);
        }
    }
    assert(moments.len() == n + m + 1 && turns.len() == n + m);
}

proof fn lemma_lossless_traces(
    transforms: Seq<Registered<dyn LosslessTransform>>,
    config: PipelineConfig,
    content: Seq<char>,
    trace: Trace,
) -> (traces: Seq<Trace>)
    requires
        orchestrator::lossless_trace(transforms, config, content, trace),
    ensures
        traces.len() == transforms.len() + 1,
        traces[0].log.len() == 0,
        traces[0].events.len() == 0,
        traces.last() == trace,
        forall|i: int|
            0 <= i < transforms.len() ==> orchestrator::lossless_traced_step(
                #[trigger] transforms[i],
                config,
                content,
                traces[i],
                traces[i + 1],
            ),
    decreases transforms.len(),
{
    if transforms.len() == 0 {
        seq![trace]
    } else {
        let shorter = transforms.drop_last();
        let earlier = choose|earlier: Trace|
            {
                &&& orchestrator::lossless_trace(shorter, config, content, earlier)
                &&& #[trigger] orchestrator::lossless_traced_step(
                    transforms.last(),
                    config,
                    content,
                    earlier,
                    trace,
                )
            };
        let before = lemma_lossless_traces(shorter, config, content, earlier);
        let traces = before.push(trace);
        assert forall|i: int| 0 <= i < transforms.len() implies orchestrator::lossless_traced_step(
            #[trigger] transforms[i],
            config,
            content,
            traces[i],
            traces[i + 1],
        ) by {
            assert(traces[i] == before[i]);
            if i < shorter.len() {
                assert(traces[i + 1] == before[i + 1]);
                assert(transforms[i] == shorter[i]);
            }
        }
        traces
    }
}

proof fn lemma_lossy_traces(
    transforms: Seq<Registered<dyn LossyTransform>>,
    config: PipelineConfig,
    context: CompressionContext,
    content: Seq<char>,
    start: Trace,
    trace: Trace,
) -> (traces: Seq<Trace>)
    requires
        orchestrator::lossy_trace(transforms, config, context, content, start, trace),
    ensures
        traces.len() == transforms.len() + 1,
        traces[0] == start,
        traces.last() == trace,
        forall|i: int|
            0 <= i < transforms.len() ==> orchestrator::lossy_traced_step(
                #[trigger] transforms[i],
                config,
                context,
                content,
                traces[i],
                traces[i + 1],
            ),
    decreases transforms.len(),
{
    if transforms.len() == 0 {
        seq![trace]
    } else {
        let shorter = transforms.drop_last();
        let earlier = choose|earlier: Trace|
            {
                &&& orchestrator::lossy_trace(shorter, config, context, content, start, earlier)
                &&& #[trigger] orchestrator::lossy_traced_step(
                    transforms.last(),
                    config,
                    context,
                    content,
                    earlier,
                    trace,
                )
            };
        let before = lemma_lossy_traces(shorter, config, context, content, start, earlier);
        let traces = before.push(trace);
        assert forall|i: int| 0 <= i < transforms.len() implies orchestrator::lossy_traced_step(
            #[trigger] transforms[i],
            config,
            context,
            content,
            traces[i],
            traces[i + 1],
        ) by {
            assert(traces[i] == before[i]);
            if i < shorter.len() {
                assert(traces[i + 1] == before[i + 1]);
                assert(transforms[i] == shorter[i]);
            }
        }
        traces
    }
}

/// What a lossless transform was called and returned when `next` followed
/// `earlier`.
#[verifier::opaque]
spec fn lossless_traced_turn_of(
    entry: Registered<dyn LosslessTransform>,
    config: PipelineConfig,
    content: Seq<char>,
    earlier: Trace,
    next: Trace,
) -> Turn {
    let (name, outcome) = choose|
        name: Seq<char>,
        outcome: Result<TransformResult, TransformError>,
    |
        {
            &&& #[trigger] entry.transform.may_be_named(name)
            &&& #[trigger] entry.transform.may_return(
                orchestrator::current(content, earlier.log),
                outcome,
            )
            &&& next == orchestrator::after_turn(
                config,
                Phase::Lossless,
                content,
                earlier,
                name,
                outcome,
            )
        };
    Turn { name, outcome }
}

/// What a lossy transform was called and returned when `next` followed
/// `earlier`.
#[verifier::opaque]
spec fn lossy_traced_turn_of(
    entry: Registered<dyn LossyTransform>,
    config: PipelineConfig,
    context: CompressionContext,
    content: Seq<char>,
    earlier: Trace,
    next: Trace,
) -> Turn {
    let (name, outcome) = choose|
        name: Seq<char>,
        outcome: Result<TransformResult, TransformError>,
    |
        {
            &&& #[trigger] entry.transform.may_be_named(name)
            &&& #[trigger] entry.transform.may_return(
                orchestrator::current(content, earlier.log),
                context,
                outcome,
            )
            &&& next == orchestrator::after_turn(
                config,
                Phase::Lossy,
                content,
                earlier,
                name,
                outcome,
            )
        };
    Turn { name, outcome }
}

/// Whether `next` follows `trace` after `turn`.
#[verifier::opaque]
spec fn follows(
    config: PipelineConfig,
    phase: Phase,
    content: Seq<char>,
    trace: Trace,
    next: Trace,
    turn: Turn,
) -> bool {
    next == orchestrator::after_turn(config, phase, content, trace, turn.name, turn.outcome)
}

proof fn lemma_lossless_turn_follows(
    entry: Registered<dyn LosslessTransform>,
    config: PipelineConfig,
    content: Seq<char>,
    trace: Trace,
    next: Trace,
)
    requires
        orchestrator::lossless_traced_step(entry, config, content, trace, next),
        orchestrator::gate_open(config, content, trace.log),
    ensures
        ({
            let turn = lossless_traced_turn_of(entry, config, content, trace, next);
            &&& entry.transform.may_be_named(turn.name)
            &&& entry.transform.may_return(orchestrator::current(content, trace.log), turn.outcome)
            &&& follows(config, Phase::Lossless, content, trace, next, turn)
        }),
{
    reveal(follows);
    reveal(lossless_traced_turn_of);
}

proof fn lemma_lossy_turn_follows(
    entry: Registered<dyn LossyTransform>,
    config: PipelineConfig,
    context: CompressionContext,
    content: Seq<char>,
    trace: Trace,
    next: Trace,
)
    requires
        orchestrator::lossy_traced_step(entry, config, context, content, trace, next),
    ensures
        ({
            let turn = lossy_traced_turn_of(entry, config, context, content, trace, next);
            &&& entry.transform.may_be_named(turn.name)
            &&& entry.transform.may_return(
                orchestrator::current(content, trace.log),
                context,
                turn.outcome,
            )
            &&& follows(config, Phase::Lossy, content, trace, next, turn)
        }),
{
    reveal(follows);
    reveal(lossy_traced_turn_of);
}

proof fn lemma_reported(
    config: PipelineConfig,
    phase: Phase,
    content: Seq<char>,
    trace: Trace,
    next: Trace,
    turn: Turn,
)
    requires
        follows(config, phase, content, trace, next, turn),
    ensures
        ({
            let name = turn.name;
            let before = orchestrator::current(content, trace.log);
            let after = orchestrator::current(content, next.log);
            match turn.outcome {
                Ok(step) => if text::byte_len(step.output@) < text::byte_len(before)
                    && step.bytes_saved > 0 && float::at_least(
                    float::float_ratio(step.bytes_saved as nat, text::byte_len(before)),
                    config.min_savings_ratio.value(),
                ) {
                    after == step.output@ && next.events == trace.events
                } else {
                    after == before && next.events == trace.events.push(
                        Event::Rejected {
                            phase,
                            transform: name,
                            bytes_saved: step.bytes_saved as nat,
                        },
                    )
                },
                Err(error) => {
                    after == before && next.events == trace.events.push(
                        Event::Failed { phase, transform: name, error },
                    )
                },
            }
        }),
{
    reveal(follows);
}

proof fn lemma_target_reported(
    entry: Registered<dyn LosslessTransform>,
    config: PipelineConfig,
    content: Seq<char>,
    trace: Trace,
    next: Trace,
)
    requires
        orchestrator::lossless_traced_step(entry, config, content, trace, next),
        !orchestrator::gate_open(config, content, trace.log),
    ensures
        next.log == trace.log,
        if trace.events.len() > 0 && trace.events.last() is TargetReached {
            next.events == trace.events
        } else {
            &&& next.events.len() == trace.events.len() + 1
            &&& next.events.drop_last() == trace.events
            &&& next.events.last() matches Event::TargetReached {
                transform: name,
                current_len,
                original_len,
            }
            &&& entry.transform.may_be_named(name)
            &&& current_len == text::byte_len(orchestrator::current(content, trace.log))
            &&& original_len == text::byte_len(content)
        },
{
    if !orchestrator::has_stopped(trace) {
        assert(next.events.drop_last() =~= trace.events);
    }
}

/// A run reports turn by turn: a result that is not kept with the savings that
/// it claims, a failure with its error, and once that the target is reached,
/// with the name of the transform that was not called for it and the lengths.
/// Nothing is reported of a result that is kept.
pub proof fn law_a_run_reports_turn_by_turn(
    pipeline: CompressionPipeline,
    content: Seq<char>,
    content_type: ContentType,
    context: CompressionContext,
    result: PipelineResult,
    events: Seq<Event>,
)
    requires
        pipeline.may_report(content, content_type, context, result, events),
    ensures
        exists|texts: Seq<Seq<char>>, reports: Seq<Seq<Event>>, turns: Seq<Option<Turn>>|
            #![trigger texts.len(), reports.len(), turns.len()]
            {
                let n = pipeline.lossless_for(content_type).len() as int;
                let m = pipeline.lossy_for(content_type).len() as int;
                let config = pipeline.spec_config();
                &&& texts.len() == n + m + 1
                &&& reports.len() == n + m + 1
                &&& turns.len() == n + m
                &&& texts[0] == content
                &&& reports[0].len() == 0
                &&& result.output@ == texts[n + m]
                &&& events == reports[n + m]
                &&& forall|i: int|
                    0 <= i < n ==> (#[trigger] turns[i] is Some <==> text::byte_len(content) > 0
                        && float::exceeds(
                        float::float_ratio(text::byte_len(texts[i]), text::byte_len(content)),
                        config.lossless_target_ratio.value(),
                    ))
                &&& forall|i: int| n <= i < n + m ==> #[trigger] turns[i] is Some
                &&& forall|i: int|
                    0 <= i < n && #[trigger] turns[i] is Some ==> {
                        let transform = pipeline.lossless_for(content_type)[i].transform;
                        &&& transform.may_be_named((turns[i]->0).name)
                        &&& transform.may_return(texts[i], (turns[i]->0).outcome)
                    }
                &&& forall|i: int|
                    n <= i < n + m && #[trigger] turns[i] is Some ==> {
                        let transform = pipeline.lossy_for(content_type)[i - n].transform;
                        &&& transform.may_be_named((turns[i]->0).name)
                        &&& transform.may_return(texts[i], context, (turns[i]->0).outcome)
                    }
                &&& forall|i: int|
                    0 <= i < n + m ==> match #[trigger] turns[i] {
                        Some(Turn { name, outcome: Ok(step) }) => if text::byte_len(step.output@) < text::byte_len(texts[i]) && step.bytes_saved > 0
                            && float::at_least(
                            float::float_ratio(step.bytes_saved as nat, text::byte_len(texts[i])),
                            config.min_savings_ratio.value(),
                        ) {
                            texts[i + 1] == step.output@ && reports[i + 1] == reports[i]
                        } else {
                            texts[i + 1] == texts[i] && reports[i + 1] == reports[i].push(
                                Event::Rejected {
                                    phase: if i < n {
                                        Phase::Lossless
                                    } else {
                                        Phase::Lossy
                                    },
                                    transform: name,
                                    bytes_saved: step.bytes_saved as nat,
                                },
                            )
                        },
                        Some(Turn { name, outcome: Err(error) }) => {
                            texts[i + 1] == texts[i] && reports[i + 1] == reports[i].push(
                                Event::Failed {
                                    phase: if i < n {
                                        Phase::Lossless
                                    } else {
                                        Phase::Lossy
                                    },
                                    transform: name,
                                    error,
                                },
                            )
                        },
                        None => {
                            let transform = pipeline.lossless_for(content_type)[i].transform;
                            &&& texts[i + 1] == texts[i]
                            &&& if reports[i].len() > 0 && reports[i].last() is TargetReached {
                                reports[i + 1] == reports[i]
                            } else {
                                &&& reports[i + 1].len() == reports[i].len() + 1
                                &&& reports[i + 1].drop_last() == reports[i]
                                &&& reports[i + 1].last() matches Event::TargetReached {
                                    transform: name,
                                    current_len,
                                    original_len,
                                }
                                &&& transform.may_be_named(name)
                                &&& current_len == text::byte_len(texts[i])
                                &&& original_len == text::byte_len(content)
                            }
                        },
                    }
            },
{
    let config = pipeline.spec_config();
    let lossless = pipeline.lossless_for(content_type);
    let lossy = pipeline.lossy_for(content_type);
    let n = lossless.len() as int;
    let m = lossy.len() as int;
    let (middle, end) = choose|middle: Trace, end: Trace|
        {
            &&& #[trigger] orchestrator::lossless_trace(lossless, config, content, middle)
            &&& #[trigger] orchestrator::lossy_trace(lossy, config, context, content, middle, end)
            &&& result.summarises(content, end.log)
            &&& events == end.events
        };
    let first = lemma_lossless_traces(lossless, config, content, middle);
    let second = lemma_lossy_traces(lossy, config, context, content, middle, end);
    let traces = Seq::new(
        (n + m + 1) as nat,
        |i: int|
            if i < n {
                first[i]
            } else {
                second[i - n]
            },
    );
    let texts = Seq::new(
        (n + m + 1) as nat,
        |i: int| orchestrator::current(content, traces[i].log),
    );
    let reports = Seq::new((n + m + 1) as nat, |i: int| traces[i].events);
    let turns = Seq::new(
        (n + m) as nat,
        |i: int|
            if i < n {
                if orchestrator::gate_open(config, content, traces[i].log) {
                    Some(
                        lossless_traced_turn_of(
                            lossless[i],
                            config,
                            content,
                            traces[i],
                            traces[i + 1],
                        ),
                    )
                } else {
                    None
                }
            } else {
                Some(
                    lossy_traced_turn_of(
                        lossy[i - n],
                        config,
                        context,
                        content,
                        traces[i],
                        traces[i + 1],
                    ),
                )
            },
    );
    assert(first[n] == second[0]);
    assert forall|i: int| 0 <= i < n implies orchestrator::lossless_traced_step(
        #[trigger] lossless[i],
        config,
        content,
        traces[i],
        traces[i + 1],
    ) by {
        assert(traces[i] == first[i]);
        assert(traces[i + 1] == first[i + 1]);
    }
    assert forall|k: int| 0 <= k < m implies orchestrator::lossy_traced_step(
        #[trigger] lossy[k],
        config,
        context,
        content,
        traces[n + k],
        traces[n + k + 1],
    ) by {
        assert(traces[n + k] == second[k]);
        assert(traces[n + k + 1] == second[k + 1]);
    }
    assert forall|i: int| 0 <= i < n implies (#[trigger] turns[i] is Some <==> text::byte_len(
        content,
    ) > 0 && float::exceeds(
        float::float_ratio(text::byte_len(texts[i]), text::byte_len(content)),
        config.lossless_target_ratio.value(),
    )) by {
        law_the_lossless_phase_goes_on_above_the_target(config, content, traces[i].log);
    }
    assert forall|i: int| 0 <= i < n + m && #[trigger] turns[i] is Some implies {
        &&& i < n ==> lossless[i].transform.may_be_named((turns[i]->0).name)
            && lossless[i].transform.may_return(texts[i], (turns[i]->0).outcome)
        &&& i >= n ==> lossy[i - n].transform.may_be_named((turns[i]->0).name)
            && lossy[i - n].transform.may_return(texts[i], context, (turns[i]->0).outcome)
        &&& follows(
            config,
            if i < n {
                Phase::Lossless
            } else {
                Phase::Lossy
            },
            content,
            traces[i],
            traces[i + 1],
            turns[i]->0,
        )
    } by {
        if i < n {
            lemma_lossless_turn_follows(lossless[i], config, content, traces[i], traces[i + 1]);
        } else {
            lemma_lossy_turn_follows(
                lossy[i - n],
                config,
                context,
                content,
                traces[i],
                traces[i + 1],
            );
        }
    }
    assert forall|i: int| 0 <= i < n + m implies match #[trigger] turns[i] {
        Some(Turn { name, outcome: Ok(step) }) => if text::byte_len(step.output@) < text::byte_len(texts[i]) && step.bytes_saved > 0
            && float::at_least(
            float::float_ratio(step.bytes_saved as nat, text::byte_len(texts[i])),
            config.min_savings_ratio.value(),
        ) {
            texts[i + 1] == step.output@ && reports[i + 1] == reports[i]
        } else {
            texts[i + 1] == texts[i] && reports[i + 1] == reports[i].push(
                Event::Rejected {
                    phase: if i < n {
                        Phase::Lossless
                    } else {
                        Phase::Lossy
                    },
                    transform: name,
                    bytes_saved: step.bytes_saved as nat,
                },
            )
        },
        Some(Turn { name, outcome: Err(error) }) => {
            texts[i + 1] == texts[i] && reports[i + 1] == reports[i].push(
                Event::Failed {
                    phase: if i < n {
                        Phase::Lossless
                    } else {
                        Phase::Lossy
                    },
                    transform: name,
                    error,
                },
            )
        },
        None => {
            &&& texts[i + 1] == texts[i]
            &&& if reports[i].len() > 0 && reports[i].last() is TargetReached {
                reports[i + 1] == reports[i]
            } else {
                &&& reports[i + 1].len() == reports[i].len() + 1
                &&& reports[i + 1].drop_last() == reports[i]
                &&& reports[i + 1].last() matches Event::TargetReached {
                    transform: name,
                    current_len,
                    original_len,
                }
                &&& lossless[i].transform.may_be_named(name)
                &&& current_len == text::byte_len(texts[i])
                &&& original_len == text::byte_len(content)
            }
        },
    } by {
        if let Some(Turn { name, outcome }) = turns[i] {
            let phase = if i < n {
                Phase::Lossless
            } else {
                Phase::Lossy
            };
            lemma_reported(config, phase, content, traces[i], traces[i + 1], turns[i]->0);
        } else {
            lemma_target_reported(lossless[i], config, content, traces[i], traces[i + 1]);
        }
    }
    assert(texts.len() == n + m + 1 && reports.len() == n + m + 1 && turns.len() == n + m);
}

/// What events say is what each of them holds, all of them in order.
pub proof fn law_events_say_what_they_hold(
    events: Seq<PipelineEvent>,
    i: int,
    phase: Phase,
    transform: &'static str,
    current_len: usize,
    original_len: usize,
    bytes_saved: usize,
    error: TransformError,
)
    ensures
        orchestrator::said(events).len() == events.len(),
        0 <= i < events.len() ==> orchestrator::said(events)[i] == events[i]@,
        (PipelineEvent::TargetReached { transform, current_len, original_len })@ == (
        Event::TargetReached {
            transform: transform@,
            current_len: current_len as nat,
            original_len: original_len as nat,
        }),
        (PipelineEvent::Rejected { phase, transform, bytes_saved })@ == (Event::Rejected {
            phase,
            transform: transform@,
            bytes_saved: bytes_saved as nat,
        }),
        (PipelineEvent::Failed { phase, transform, error })@ == (Event::Failed {
            phase,
            transform: transform@,
            error,
        }),
{
}

} // verus!
