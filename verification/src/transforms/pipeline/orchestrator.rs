//! `CompressionPipeline` runs the lossless and then the lossy transforms that
//! are registered for a content type.
//!
//! Each transform is offered what the ones before it left. Its result is kept
//! if it is shorter and saves enough, by `PipelineConfig::min_savings_ratio`;
//! otherwise it is discarded. The lossless phase stops once the content has shrunk to
//! `PipelineConfig::lossless_target_ratio` of what it was. A transform that
//! fails is passed over.

use crate::float::Float64;
use crate::text::length;
use crate::transforms::pipeline::traits::{
    CompressionContext, LosslessTransform, LossyTransform, TransformError, TransformResult,
};
use crate::transforms::pipeline::registry::{Registered, Registry};
use crate::transforms::ContentType;
use vstd::prelude::*;
use vstd::slice::slice_to_vec;

verus! {

/// Thresholds of the pipeline.
#[derive(Debug, Clone, Copy)]
pub struct PipelineConfig {
    /// The least share of the current length that a transform must save for
    /// its result to be kept.
    pub min_savings_ratio: Float64,
    /// The lossless phase stops once the current length is at or below this
    /// share of the original length.
    pub lossless_target_ratio: Float64,
}

impl Default for PipelineConfig {
    /// One twentieth, and one half.
    fn default() -> (r: Self)
        ensures
            r.min_savings_ratio.bits == crate::float::ONE_TWENTIETH,
            r.lossless_target_ratio.bits == crate::float::ONE_HALF,
    {
        PipelineConfig {
            min_savings_ratio: Float64 { bits: crate::float::ONE_TWENTIETH },
            lossless_target_ratio: Float64 { bits: crate::float::ONE_HALF },
        }
    }
}

impl PipelineConfig {
    /// Whether savings of `bytes_saved` on a content of `current_len` bytes
    /// are worth keeping.
    pub open spec fn accepts(self, bytes_saved: nat, current_len: nat) -> bool {
        &&& bytes_saved > 0
        &&& current_len > 0
        &&& crate::float::at_least(
            crate::float::float_ratio(bytes_saved, current_len),
            self.min_savings_ratio.value(),
        )
    }

    /// Whether the result of a transform on `input` is kept: it is shorter, and
    /// the savings that it reports are worth keeping.
    pub open spec fn keeps(self, input: Seq<char>, result: TransformResult) -> bool {
        &&& crate::text::byte_len(result.output@) < crate::text::byte_len(input)
        &&& self.accepts(result.bytes_saved as nat, crate::text::byte_len(input))
    }

    /// Whether the lossless phase goes on with `current_len` bytes left of
    /// `original_len`.
    pub open spec fn continues(self, current_len: nat, original_len: nat) -> bool {
        &&& original_len > 0
        &&& crate::float::exceeds(
            crate::float::float_ratio(current_len, original_len),
            self.lossless_target_ratio.value(),
        )
    }
}

/// The phases of a run.
#[derive(Debug, Clone, Copy, PartialEq, Eq, Structural)]
pub enum Phase {
    Lossless,
    Lossy,
}

/// What a run reports besides its result.
#[derive(Debug)]
pub enum PipelineEvent {
    /// The lossless phase came to `transform`, and stopped there because the
    /// target was reached.
    TargetReached { transform: &'static str, current_len: usize, original_len: usize },
    /// The result of a transform was not kept.
    Rejected { phase: Phase, transform: &'static str, bytes_saved: usize },
    /// A transform failed.
    Failed { phase: Phase, transform: &'static str, error: TransformError },
}

/// What an event says.
pub enum Event {
    TargetReached { transform: Seq<char>, current_len: nat, original_len: nat },
    Rejected { phase: Phase, transform: Seq<char>, bytes_saved: nat },
    Failed { phase: Phase, transform: Seq<char>, error: TransformError },
}

impl View for PipelineEvent {
    type V = Event;

    open spec fn view(&self) -> Event {
        match *self {
            PipelineEvent::TargetReached { transform, current_len, original_len } => {
                Event::TargetReached {
                    transform: transform@,
                    current_len: current_len as nat,
                    original_len: original_len as nat,
                }
            },
            PipelineEvent::Rejected { phase, transform, bytes_saved } => Event::Rejected {
                phase,
                transform: transform@,
                bytes_saved: bytes_saved as nat,
            },
            PipelineEvent::Failed { phase, transform, error } => Event::Failed {
                phase,
                transform: transform@,
                error,
            },
        }
    }
}

/// What events say, in order.
pub open spec fn said(events: Seq<PipelineEvent>) -> Seq<Event> {
    Seq::new(events.len(), |i: int| events[i]@)
}

/// A transform whose result was kept.
pub struct Accepted {
    pub name: Seq<char>,
    pub output: Seq<char>,
    pub bytes_saved: nat,
    pub structure_preserved: bool,
    pub reversible_via: Option<Seq<char>>,
}

/// The characters of a retrieval key.
pub open spec fn handle_of(key: Option<String>) -> Option<Seq<char>> {
    match key {
        Some(handle) => Some(handle@),
        None => None,
    }
}

/// What is kept of the result of the transform called `name`. No result of the
/// lossy phase counts as preserving the structure, whatever it reports.
pub open spec fn accepted(phase: Phase, name: Seq<char>, result: TransformResult) -> Accepted {
    Accepted {
        name,
        output: result.output@,
        bytes_saved: result.bytes_saved as nat,
        structure_preserved: phase == Phase::Lossless && result.structure_preserved,
        reversible_via: handle_of(result.reversible_via),
    }
}

/// The content once the transforms of `log` have been kept.
pub open spec fn current(content: Seq<char>, log: Seq<Accepted>) -> Seq<char> {
    if log.len() == 0 {
        content
    } else {
        log.last().output
    }
}

/// The savings of `log`, which stop growing at the largest `usize`.
pub open spec fn total_saved(log: Seq<Accepted>) -> nat
    decreases log.len(),
{
    if log.len() == 0 {
        0
    } else {
        let sum = total_saved(log.drop_last()) + log.last().bytes_saved;
        if sum <= usize::MAX {
            sum
        } else {
            usize::MAX as nat
        }
    }
}

/// Whether every transform of `log` preserved the structure.
pub open spec fn all_preserve_structure(log: Seq<Accepted>) -> bool {
    forall|i: int| 0 <= i < log.len() ==> (#[trigger] log[i]).structure_preserved
}

/// The names in `log`, in order.
pub open spec fn names(log: Seq<Accepted>) -> Seq<Seq<char>> {
    Seq::new(log.len(), |i: int| log[i].name)
}

/// The most recent retrieval key in `log`.
pub open spec fn last_handle(log: Seq<Accepted>) -> Option<Seq<char>>
    decreases log.len(),
{
    if log.len() == 0 {
        None
    } else if log.last().reversible_via is Some {
        log.last().reversible_via
    } else {
        last_handle(log.drop_last())
    }
}

/// Result of a pipeline run.
#[derive(Debug, Clone)]
pub struct PipelineResult {
    /// The compressed content. The input itself if no result was kept.
    pub output: String,
    /// Total bytes removed across all accepted transforms.
    pub bytes_saved: usize,
    /// True if every accepted transform preserved structure. Any accepted
    /// lossy transform makes it false.
    pub structure_preserved: bool,
    /// Names of accepted transforms in execution order.
    pub steps_applied: Vec<String>,
    /// Most recent retrieval key emitted by an accepted transform.
    pub reversible_via: Option<String>,
}

impl Default for PipelineResult {
    fn default() -> (r: Self)
        ensures
            r.output@ == Seq::<char>::empty(),
            r.bytes_saved == 0,
            !r.structure_preserved,
            r.steps_applied@.len() == 0,
            r.reversible_via is None,
    {
        PipelineResult {
            output: String::new(),
            bytes_saved: 0,
            structure_preserved: false,
            steps_applied: Vec::new(),
            reversible_via: None,
        }
    }
}

impl PipelineResult {
    /// Whether this is the result for `content` when the transforms of `log`
    /// have been kept.
    pub open spec fn summarises(self, content: Seq<char>, log: Seq<Accepted>) -> bool {
        &&& self.output@ == current(content, log)
        &&& self.bytes_saved == total_saved(log)
        &&& self.structure_preserved == all_preserve_structure(log)
        &&& crate::text::texts(self.steps_applied@) == names(log)
        &&& handle_of(self.reversible_via) == last_handle(log)
    }

    /// The result for `content` before any transform has run.
    fn start(content: &str) -> (r: Self)
        ensures
            r.summarises(content@, Seq::empty()),
    {
        let r = PipelineResult {
            output: content.to_string(),
            bytes_saved: 0,
            structure_preserved: true,
            steps_applied: Vec::new(),
            reversible_via: None,
        };
        proof {
            assert(crate::text::texts(r.steps_applied@) == names(Seq::empty()));
        }
        r
    }

    /// Keeps the result of the transform called `name`.
    fn accept(&mut self, phase: Phase, name: &'static str, result: TransformResult)
        ensures
            forall|content: Seq<char>, log: Seq<Accepted>|
                old(self).summarises(content, log) ==> #[trigger] final(self).summarises(
                    content,
                    log.push(accepted(phase, name@, result)),
                ),
    {
        let ghost before = *self;
        let ghost entry = accepted(phase, name@, result);
        self.bytes_saved = self.bytes_saved.saturating_add(result.bytes_saved);
        if phase == Phase::Lossy || !result.structure_preserved {
            self.structure_preserved = false;
        }
        if let Some(handle) = result.reversible_via {
            self.reversible_via = Some(handle);
        }
        self.output = result.output;
        self.steps_applied.push(name.to_string());
        proof {
            assert forall|content: Seq<char>, log: Seq<Accepted>|
                before.summarises(content, log) implies #[trigger] self.summarises(
                content,
                log.push(entry),
            ) by {
                let next = log.push(entry);
                assert(next.drop_last() == log);
                assert(next.last() == entry);
                assert(crate::text::texts(self.steps_applied@) == crate::text::texts(
                    before.steps_applied@,
                ).push(name@));
                assert(names(next) == names(log).push(name@));
                assert(all_preserve_structure(next) == (all_preserve_structure(log)
                    && entry.structure_preserved)) by {
                    assert(forall|i: int| 0 <= i < log.len() ==> next[i] == log[i]);
                }
            }
        }
    }
}

/// `log` once the transform called `name` has returned `outcome`.
pub open spec fn decided(
    config: PipelineConfig,
    phase: Phase,
    content: Seq<char>,
    log: Seq<Accepted>,
    name: Seq<char>,
    outcome: Result<TransformResult, TransformError>,
) -> Seq<Accepted> {
    match outcome {
        Ok(result) => if config.keeps(current(content, log), result) {
            log.push(accepted(phase, name, result))
        } else {
            log
        },
        Err(_) => log,
    }
}

/// What is reported of the transform called `name` that has returned `outcome`
/// for `input`; nothing if its result is kept.
pub open spec fn event_of(
    config: PipelineConfig,
    phase: Phase,
    input: Seq<char>,
    name: Seq<char>,
    outcome: Result<TransformResult, TransformError>,
) -> Option<Event> {
    match outcome {
        Ok(result) => if config.keeps(input, result) {
            None
        } else {
            Some(Event::Rejected { phase, transform: name, bytes_saved: result.bytes_saved as nat })
        },
        Err(error) => Some(Event::Failed { phase, transform: name, error }),
    }
}

/// What a run has kept and reported so far.
pub struct Trace {
    pub log: Seq<Accepted>,
    pub events: Seq<Event>,
}

/// `trace` once the transform called `name` has returned `outcome`.
pub open spec fn after_turn(
    config: PipelineConfig,
    phase: Phase,
    content: Seq<char>,
    trace: Trace,
    name: Seq<char>,
    outcome: Result<TransformResult, TransformError>,
) -> Trace {
    Trace {
        log: decided(config, phase, content, trace.log, name, outcome),
        events: match event_of(config, phase, current(content, trace.log), name, outcome) {
            Some(event) => trace.events.push(event),
            None => trace.events,
        },
    }
}

/// Whether the last thing reported is that the lossless phase stopped.
pub open spec fn has_stopped(trace: Trace) -> bool {
    trace.events.len() > 0 && trace.events.last() is TargetReached
}

/// Whether the lossless phase goes on after `log`.
pub open spec fn gate_open(
    config: PipelineConfig,
    content: Seq<char>,
    log: Seq<Accepted>,
) -> bool {
    config.continues(
        crate::text::byte_len(current(content, log)),
        crate::text::byte_len(content),
    )
}

/// Whether `log` may follow `earlier` when the lossless phase calls `transform`
/// with what the results of `earlier` left.
pub open spec fn lossless_turn(
    transform: Registered<dyn LosslessTransform>,
    config: PipelineConfig,
    content: Seq<char>,
    earlier: Seq<Accepted>,
    log: Seq<Accepted>,
) -> bool {
    exists|name: Seq<char>, outcome: Result<TransformResult, TransformError>|
        {
            &&& #[trigger] transform.transform.may_be_named(name)
            &&& #[trigger] transform.transform.may_return(current(content, earlier), outcome)
            &&& log == decided(config, Phase::Lossless, content, earlier, name, outcome)
        }
}

/// Whether `log` may follow `earlier` when the lossless phase comes to
/// `transform`: it is called unless the target is reached.
pub open spec fn lossless_step(
    transform: Registered<dyn LosslessTransform>,
    config: PipelineConfig,
    content: Seq<char>,
    earlier: Seq<Accepted>,
    log: Seq<Accepted>,
) -> bool {
    if gate_open(config, content, earlier) {
        lossless_turn(transform, config, content, earlier, log)
    } else {
        log == earlier
    }
}

/// Whether a lossless phase that offers `content` to `transforms`, one after
/// the other, may keep the results of `log`.
pub open spec fn lossless_log(
    transforms: Seq<Registered<dyn LosslessTransform>>,
    config: PipelineConfig,
    content: Seq<char>,
    log: Seq<Accepted>,
) -> bool
    decreases transforms.len(),
{
    if transforms.len() == 0 {
        log.len() == 0
    } else {
        exists|earlier: Seq<Accepted>|
            {
                &&& lossless_log(transforms.drop_last(), config, content, earlier)
                &&& #[trigger] lossless_step(transforms.last(), config, content, earlier, log)
            }
    }
}

/// Whether `log` may follow `earlier` when the lossy phase calls `transform`
/// with what the results of `earlier` left.
pub open spec fn lossy_step(
    transform: Registered<dyn LossyTransform>,
    config: PipelineConfig,
    context: CompressionContext,
    content: Seq<char>,
    earlier: Seq<Accepted>,
    log: Seq<Accepted>,
) -> bool {
    exists|name: Seq<char>, outcome: Result<TransformResult, TransformError>|
        {
            &&& #[trigger] transform.transform.may_be_named(name)
            &&& #[trigger] transform.transform.may_return(
                current(content, earlier),
                context,
                outcome,
            )
            &&& log == decided(config, Phase::Lossy, content, earlier, name, outcome)
        }
}

/// Whether a lossy phase that starts with the results of `start` and offers
/// what they left to `transforms`, one after the other, may end with those of
/// `log`.
pub open spec fn lossy_log(
    transforms: Seq<Registered<dyn LossyTransform>>,
    config: PipelineConfig,
    context: CompressionContext,
    content: Seq<char>,
    start: Seq<Accepted>,
    log: Seq<Accepted>,
) -> bool
    decreases transforms.len(),
{
    if transforms.len() == 0 {
        log == start
    } else {
        exists|earlier: Seq<Accepted>|
            {
                &&& lossy_log(transforms.drop_last(), config, context, content, start, earlier)
                &&& #[trigger] lossy_step(
                    transforms.last(),
                    config,
                    context,
                    content,
                    earlier,
                    log,
                )
            }
    }
}

/// Whether `next` may follow `earlier` when the lossless phase comes to
/// `transform`: the transform is called unless the target is reached, which is
/// reported once.
pub open spec fn lossless_traced_step(
    transform: Registered<dyn LosslessTransform>,
    config: PipelineConfig,
    content: Seq<char>,
    earlier: Trace,
    next: Trace,
) -> bool {
    if gate_open(config, content, earlier.log) {
        exists|name: Seq<char>, outcome: Result<TransformResult, TransformError>|
            {
                &&& #[trigger] transform.transform.may_be_named(name)
                &&& #[trigger] transform.transform.may_return(
                    current(content, earlier.log),
                    outcome,
                )
                &&& next == after_turn(config, Phase::Lossless, content, earlier, name, outcome)
            }
    } else if has_stopped(earlier) {
        next == earlier
    } else {
        exists|name: Seq<char>|
            {
                &&& #[trigger] transform.transform.may_be_named(name)
                &&& next.log == earlier.log
                &&& next.events == earlier.events.push(
                    Event::TargetReached {
                        transform: name,
                        current_len: crate::text::byte_len(current(content, earlier.log)),
                        original_len: crate::text::byte_len(content),
                    },
                )
            }
    }
}

/// Whether a lossless phase over `transforms` may keep and report what `trace`
/// says.
pub open spec fn lossless_trace(
    transforms: Seq<Registered<dyn LosslessTransform>>,
    config: PipelineConfig,
    content: Seq<char>,
    trace: Trace,
) -> bool
    decreases transforms.len(),
{
    if transforms.len() == 0 {
        trace.log.len() == 0 && trace.events.len() == 0
    } else {
        exists|earlier: Trace|
            {
                &&& lossless_trace(transforms.drop_last(), config, content, earlier)
                &&& #[trigger] lossless_traced_step(
                    transforms.last(),
                    config,
                    content,
                    earlier,
                    trace,
                )
            }
    }
}

/// Whether `next` may follow `earlier` when the lossy phase calls `transform`.
pub open spec fn lossy_traced_step(
    transform: Registered<dyn LossyTransform>,
    config: PipelineConfig,
    context: CompressionContext,
    content: Seq<char>,
    earlier: Trace,
    next: Trace,
) -> bool {
    exists|name: Seq<char>, outcome: Result<TransformResult, TransformError>|
        {
            &&& #[trigger] transform.transform.may_be_named(name)
            &&& #[trigger] transform.transform.may_return(
                current(content, earlier.log),
                context,
                outcome,
            )
            &&& next == after_turn(config, Phase::Lossy, content, earlier, name, outcome)
        }
}

/// Whether a lossy phase over `transforms` that starts with `start` may keep
/// and report what `trace` says.
pub open spec fn lossy_trace(
    transforms: Seq<Registered<dyn LossyTransform>>,
    config: PipelineConfig,
    context: CompressionContext,
    content: Seq<char>,
    start: Trace,
    trace: Trace,
) -> bool
    decreases transforms.len(),
{
    if transforms.len() == 0 {
        trace == start
    } else {
        exists|earlier: Trace|
            {
                &&& lossy_trace(transforms.drop_last(), config, context, content, start, earlier)
                &&& #[trigger] lossy_traced_step(
                    transforms.last(),
                    config,
                    context,
                    content,
                    earlier,
                    trace,
                )
            }
    }
}

/// What a lossless phase keeps is what one that reports keeps.
proof fn lemma_lossless_trace_log(
    transforms: Seq<Registered<dyn LosslessTransform>>,
    config: PipelineConfig,
    content: Seq<char>,
    trace: Trace,
)
    requires
        lossless_trace(transforms, config, content, trace),
    ensures
        lossless_log(transforms, config, content, trace.log),
    decreases transforms.len(),
{
    if transforms.len() > 0 {
        let last = transforms.last();
        let earlier = choose|earlier: Trace|
            {
                &&& lossless_trace(transforms.drop_last(), config, content, earlier)
                &&& #[trigger] lossless_traced_step(last, config, content, earlier, trace)
            };
        lemma_lossless_trace_log(transforms.drop_last(), config, content, earlier);
        if gate_open(config, content, earlier.log) {
            assert(lossless_turn(last, config, content, earlier.log, trace.log));
        }
        assert(lossless_step(last, config, content, earlier.log, trace.log));
    }
}

/// What a lossy phase keeps is what one that reports keeps.
proof fn lemma_lossy_trace_log(
    transforms: Seq<Registered<dyn LossyTransform>>,
    config: PipelineConfig,
    context: CompressionContext,
    content: Seq<char>,
    start: Trace,
    trace: Trace,
)
    requires
        lossy_trace(transforms, config, context, content, start, trace),
    ensures
        lossy_log(transforms, config, context, content, start.log, trace.log),
    decreases transforms.len(),
{
    if transforms.len() > 0 {
        let last = transforms.last();
        let earlier = choose|earlier: Trace|
            {
                &&& lossy_trace(transforms.drop_last(), config, context, content, start, earlier)
                &&& #[trigger] lossy_traced_step(last, config, context, content, earlier, trace)
            };
        lemma_lossy_trace_log(transforms.drop_last(), config, context, content, start, earlier);
        assert(lossy_step(last, config, context, content, earlier.log, trace.log));
    }
}

/// A phase that has stopped keeps and reports what it has, whatever transforms
/// remain.
proof fn lemma_closed_gate(
    transforms: Seq<Registered<dyn LosslessTransform>>,
    config: PipelineConfig,
    content: Seq<char>,
    trace: Trace,
    k: nat,
    n: nat,
)
    requires
        k <= n <= transforms.len(),
        lossless_trace(transforms.take(k as int), config, content, trace),
        !gate_open(config, content, trace.log),
        has_stopped(trace),
    ensures
        lossless_trace(transforms.take(n as int), config, content, trace),
    decreases n,
{
    if k < n {
        lemma_closed_gate(transforms, config, content, trace, k, (n - 1) as nat);
        assert(transforms.take(n as int).drop_last() == transforms.take(n - 1));
        assert(lossless_traced_step(
            transforms.take(n as int).last(),
            config,
            content,
            trace,
            trace,
        ));
    }
}

/// Adds what is to be reported, if anything is.
fn push_event(events: &mut Vec<PipelineEvent>, event: Option<PipelineEvent>)
    ensures
        said(final(events)@) == match event {
            Some(event) => said(old(events)@).push(event@),
            None => said(old(events)@),
        },
{
    if let Some(event) = event {
        events.push(event);
        assert(said(events@) == said(old(events)@).push(event@));
    }
}

/// Sequential lossless-then-lossy pipeline, keyed by `ContentType`.
///
/// Construct it with `builder`, then call `run` on each input.
pub struct CompressionPipeline {
    lossless: Registry<dyn LosslessTransform>,
    lossy: Registry<dyn LossyTransform>,
    config: PipelineConfig,
}

impl CompressionPipeline {
    /// The lossless transforms for a content type, in order.
    pub closed spec fn lossless_for(&self, content_type: ContentType) -> Seq<
        Registered<dyn LosslessTransform>,
    > {
        self.lossless.of_type(content_type)
    }

    /// The lossy transforms for a content type, in order.
    pub closed spec fn lossy_for(&self, content_type: ContentType) -> Seq<
        Registered<dyn LossyTransform>,
    > {
        self.lossy.of_type(content_type)
    }

    /// The thresholds.
    pub closed spec fn spec_config(&self) -> PipelineConfig {
        self.config
    }

    /// Whether a run on `content` may return `result`.
    pub open spec fn may_run_to(
        &self,
        content: Seq<char>,
        content_type: ContentType,
        context: CompressionContext,
        result: PipelineResult,
    ) -> bool {
        exists|middle: Seq<Accepted>, log: Seq<Accepted>|
            {
                &&& #[trigger] lossless_log(
                    self.lossless_for(content_type),
                    self.spec_config(),
                    content,
                    middle,
                )
                &&& #[trigger] lossy_log(
                    self.lossy_for(content_type),
                    self.spec_config(),
                    context,
                    content,
                    middle,
                    log,
                )
                &&& result.summarises(content, log)
            }
    }

    /// Whether a run on `content` may return `result` and report `events`.
    pub open spec fn may_report(
        &self,
        content: Seq<char>,
        content_type: ContentType,
        context: CompressionContext,
        result: PipelineResult,
        events: Seq<Event>,
    ) -> bool {
        exists|middle: Trace, end: Trace|
            {
                &&& #[trigger] lossless_trace(
                    self.lossless_for(content_type),
                    self.spec_config(),
                    content,
                    middle,
                )
                &&& #[trigger] lossy_trace(
                    self.lossy_for(content_type),
                    self.spec_config(),
                    context,
                    content,
                    middle,
                    end,
                )
                &&& result.summarises(content, end.log)
                &&& events == end.events
            }
    }

    /// A builder without transforms.
    pub fn builder() -> (r: CompressionPipelineBuilder)
        ensures
            forall|content_type: ContentType|
                (#[trigger] r.lossless_for(content_type)).len() == 0,
            forall|content_type: ContentType| (#[trigger] r.lossy_for(content_type)).len() == 0,
            r.spec_config() is None,
    {
        CompressionPipelineBuilder::default()
    }

    /// Whether savings of `bytes_saved` on a content of `current_len` bytes are
    /// worth keeping.
    pub fn is_acceptable(&self, bytes_saved: usize, current_len: usize) -> (r: bool)
        ensures
            r == self.spec_config().accepts(bytes_saved as nat, current_len as nat),
    {
        if bytes_saved == 0 || current_len == 0 {
            return false;
        }
        self.config.min_savings_ratio.at_most_ratio(bytes_saved, current_len)
    }

    /// Whether the lossless phase goes on with `current_len` bytes left of
    /// `original_len`.
    pub fn should_keep_running_lossless(&self, current_len: usize, original_len: usize) -> (r: bool)
        ensures
            r == self.spec_config().continues(current_len as nat, original_len as nat),
    {
        if original_len == 0 {
            return false;
        }
        self.config.lossless_target_ratio.below_ratio(current_len, original_len)
    }

    /// The result so far, once the transform called `name` has returned
    /// `outcome` for its output in `phase`, and what is to be reported of it.
    pub fn consider(
        &self,
        result: PipelineResult,
        phase: Phase,
        name: &'static str,
        outcome: Result<TransformResult, TransformError>,
    ) -> (r: (PipelineResult, Option<PipelineEvent>))
        ensures
            forall|content: Seq<char>, log: Seq<Accepted>|
                result.summarises(content, log) ==> #[trigger] r.0.summarises(
                    content,
                    decided(self.spec_config(), phase, content, log, name@, outcome),
                ),
            match r.1 {
                Some(event) => event_of(
                    self.spec_config(),
                    phase,
                    result.output@,
                    name@,
                    outcome,
                ) == Some(event@),
                None => event_of(
                    self.spec_config(),
                    phase,
                    result.output@,
                    name@,
                    outcome,
                ) is None,
            },
    {
        let mut result = result;
        match outcome {
            Ok(step) => {
                let current_len: usize = length(result.output.as_str());
                let shorter: bool = length(step.output.as_str()) < current_len;
                if shorter && self.is_acceptable(step.bytes_saved, current_len) {
                    result.accept(phase, name, step);
                    (result, None)
                } else {
                    let event = PipelineEvent::Rejected {
                        phase,
                        transform: name,
                        bytes_saved: step.bytes_saved,
                    };
                    (result, Some(event))
                }
            },
            Err(error) => (result, Some(PipelineEvent::Failed { phase, transform: name, error })),
        }
    }

    /// Runs the transforms for `content_type` against `content`.
    ///
    /// Lossless transforms run first, in the order of registration, until the
    /// lossless target is reached; then the lossy ones run, in that order. A
    /// transform that fails, or that saves too little, is passed over.
    pub fn run(
        &self,
        content: &str,
        content_type: ContentType,
        ctx: &CompressionContext,
    ) -> (r: PipelineResult)
        ensures
            self.may_run_to(content@, content_type, *ctx, r),
    {
        let (result, _events) = self.run_and_report(content, content_type, ctx);
        result
    }

    /// Runs the transforms for `content_type` against `content`, as `run` does,
    /// and reports each transform that is passed over, and that the lossless
    /// phase stopped at the target.
    pub fn run_and_report(
        &self,
        content: &str,
        content_type: ContentType,
        ctx: &CompressionContext,
    ) -> (r: (PipelineResult, Vec<PipelineEvent>))
        ensures
            self.may_run_to(content@, content_type, *ctx, r.0),
            self.may_report(content@, content_type, *ctx, r.0, said(r.1@)),
    {
        let ghost config = self.spec_config();
        let ghost lossless = self.lossless_for(content_type);
        let ghost lossy = self.lossy_for(content_type);
        let original_len: usize = length(content);
        let mut result = PipelineResult::start(content);
        let mut events: Vec<PipelineEvent> = Vec::new();
        let ghost mut trace = Trace { log: Seq::empty(), events: Seq::empty() };
        let lossless_count: usize = self.lossless.count(content_type);
        let mut k: usize = 0;
        assert(lossless.take(0).len() == 0);
        assert(lossless.take(lossless_count as int) == lossless);
        assert(said(events@) == trace.events);
        while k < lossless_count
            invariant_except_break
                k <= lossless_count,
                lossless_trace(lossless.take(k as int), config, content@, trace),
                !has_stopped(trace),
            invariant
                lossless == self.lossless_for(content_type),
                lossless_count == lossless.len(),
                lossless.take(lossless_count as int) == lossless,
                config == self.spec_config(),
                original_len == crate::text::byte_len(content@),
                result.summarises(content@, trace.log),
                said(events@) == trace.events,
            ensures
                lossless_trace(lossless, config, content@, trace),
            decreases lossless_count - k,
        {
            let entry = self.lossless.get(content_type, k);
            let ghost earlier = trace;
            proof {
                assert(lossless.take(k + 1).drop_last() == lossless.take(k as int));
                assert(lossless.take(k + 1).last() == *entry);
            }
            let current_len: usize = length(result.output.as_str());
            if !self.should_keep_running_lossless(current_len, original_len) {
                let name = entry.transform.name();
                let ghost reported = events@;
                let event = PipelineEvent::TargetReached {
                    transform: name,
                    current_len,
                    original_len,
                };
                events.push(event);
                proof {
                    assert(entry.transform.may_be_named(name@));
                    assert(said(events@) == said(reported).push(event@));
                    trace = Trace { log: earlier.log, events: said(events@) };
                    assert(lossless_traced_step(*entry, config, content@, earlier, trace));
                    lemma_closed_gate(
                        lossless,
                        config,
                        content@,
                        trace,
                        (k + 1) as nat,
                        lossless.len(),
                    );
                }
                break;
            }
            let outcome = entry.transform.apply(result.output.as_str());
            let name = entry.transform.name();
            proof {
                trace = after_turn(config, Phase::Lossless, content@, earlier, name@, outcome);
                assert(entry.transform.may_be_named(name@));
                assert(entry.transform.may_return(current(content@, earlier.log), outcome));
                assert(lossless_traced_step(*entry, config, content@, earlier, trace));
            }
            let (next, event) = self.consider(result, Phase::Lossless, name, outcome);
            result = next;
            push_event(&mut events, event);
            k = k + 1;
        }
        let ghost middle = trace;
        let lossy_count: usize = self.lossy.count(content_type);
        let mut j: usize = 0;
        assert(lossy.take(0).len() == 0);
        while j < lossy_count
            invariant
                j <= lossy_count,
                lossy_trace(lossy.take(j as int), config, *ctx, content@, middle, trace),
                lossy == self.lossy_for(content_type),
                lossy_count == lossy.len(),
                config == self.spec_config(),
                result.summarises(content@, trace.log),
                said(events@) == trace.events,
            decreases lossy_count - j,
        {
            let entry = self.lossy.get(content_type, j);
            let outcome = entry.transform.apply(result.output.as_str(), ctx);
            let ghost earlier = trace;
            let name = entry.transform.name();
            proof {
                trace = after_turn(config, Phase::Lossy, content@, earlier, name@, outcome);
                assert(entry.transform.may_be_named(name@));
                assert(entry.transform.may_return(current(content@, earlier.log), *ctx, outcome));
                assert(lossy.take(j + 1).drop_last() == lossy.take(j as int));
                assert(lossy.take(j + 1).last() == *entry);
                assert(lossy_traced_step(*entry, config, *ctx, content@, earlier, trace));
            }
            let (next, event) = self.consider(result, Phase::Lossy, name, outcome);
            result = next;
            push_event(&mut events, event);
            j = j + 1;
        }
        proof {
            assert(lossy.take(j as int) == lossy);
            lemma_lossless_trace_log(lossless, config, content@, middle);
            lemma_lossy_trace_log(lossy, config, *ctx, content@, middle, trace);
        }
        (result, events)
    }

    /// The names of the lossless transforms for a content type, in order.
    pub fn lossless_names(&self, content_type: ContentType) -> (r: Vec<&'static str>)
        ensures
            r@.len() == self.lossless_for(content_type).len(),
            forall|i: int|
                0 <= i < r@.len() ==> self.lossless_for(content_type)[i].transform.may_be_named(
                    (#[trigger] r@[i])@,
                ),
    {
        let mut out: Vec<&'static str> = Vec::new();
        let count: usize = self.lossless.count(content_type);
        let mut k: usize = 0;
        while k < count
            invariant
                k <= count,
                count == self.lossless_for(content_type).len(),
                out@.len() == k,
                forall|i: int|
                    0 <= i < k ==> self.lossless_for(content_type)[i].transform.may_be_named(
                        (#[trigger] out@[i])@,
                    ),
            decreases count - k,
        {
            out.push(self.lossless.get(content_type, k).transform.name());
            k = k + 1;
        }
        out
    }
}

/// Fluent builder for `CompressionPipeline`.
pub struct CompressionPipelineBuilder {
    lossless: Registry<dyn LosslessTransform>,
    lossy: Registry<dyn LossyTransform>,
    config: Option<PipelineConfig>,
}

impl Default for CompressionPipelineBuilder {
    /// A builder without transforms.
    fn default() -> (r: Self)
        ensures
            forall|content_type: ContentType|
                (#[trigger] r.lossless_for(content_type)).len() == 0,
            forall|content_type: ContentType| (#[trigger] r.lossy_for(content_type)).len() == 0,
            r.spec_config() is None,
    {
        CompressionPipelineBuilder {
            lossless: Registry::new(),
            lossy: Registry::new(),
            config: None,
        }
    }
}

impl CompressionPipelineBuilder {
    /// The lossless transforms for a content type, in order.
    pub closed spec fn lossless_for(&self, content_type: ContentType) -> Seq<
        Registered<dyn LosslessTransform>,
    > {
        self.lossless.of_type(content_type)
    }

    /// The lossy transforms for a content type, in order.
    pub closed spec fn lossy_for(&self, content_type: ContentType) -> Seq<
        Registered<dyn LossyTransform>,
    > {
        self.lossy.of_type(content_type)
    }

    /// The thresholds, if they were given.
    pub closed spec fn spec_config(&self) -> Option<PipelineConfig> {
        self.config
    }

    /// Whether this builder is `before` with the lossless transform `entry`
    /// registered behind the others, once for each of `types`.
    pub open spec fn adds_lossless(
        &self,
        before: Self,
        entry: Registered<dyn LosslessTransform>,
        types: Seq<ContentType>,
    ) -> bool {
        &&& forall|content_type: ContentType| #[trigger]
            self.lossless_for(content_type) == before.lossless_for(content_type)
                + crate::transforms::pipeline::registry::repeated(
                entry,
                crate::transforms::pipeline::registry::occurrences(types, content_type),
            )
        &&& forall|content_type: ContentType| #[trigger]
            self.lossy_for(content_type) == before.lossy_for(content_type)
        &&& self.spec_config() == before.spec_config()
    }

    /// Whether this builder is `before` with the lossy transform `entry`
    /// registered behind the others, once for each of `types`.
    pub open spec fn adds_lossy(
        &self,
        before: Self,
        entry: Registered<dyn LossyTransform>,
        types: Seq<ContentType>,
    ) -> bool {
        &&& forall|content_type: ContentType| #[trigger]
            self.lossy_for(content_type) == before.lossy_for(content_type)
                + crate::transforms::pipeline::registry::repeated(
                entry,
                crate::transforms::pipeline::registry::occurrences(types, content_type),
            )
        &&& forall|content_type: ContentType| #[trigger]
            self.lossless_for(content_type) == before.lossless_for(content_type)
        &&& self.spec_config() == before.spec_config()
    }

    /// Registers a lossless transform for every content type that it accepts.
    /// Order of registration is order of execution.
    pub fn with_lossless(self, transform: Box<dyn LosslessTransform>) -> (r: Self)
        ensures
            exists|entry: Registered<dyn LosslessTransform>, types: Seq<ContentType>|
                {
                    &&& entry.transform == transform
                    &&& transform.may_accept(types)
                    &&& #[trigger] r.adds_lossless(self, entry, types)
                },
    {
        let entry = Registered { transform };
        let ghost added = entry;
        let r = self.with_registered_lossless(entry);
        proof {
            let types = choose|types: Seq<ContentType>|
                {
                    &&& added.transform.may_accept(types)
                    &&& #[trigger] r.adds_lossless(self, added, types)
                };
            assert(r.adds_lossless(self, added, types));
        }
        r
    }

    /// Registers a lossless transform that its owner holds as a trait object
    /// already, as `with_lossless` does.
    pub fn with_registered_lossless(self, entry: Registered<dyn LosslessTransform>) -> (r: Self)
        ensures
            exists|types: Seq<ContentType>|
                {
                    &&& entry.transform.may_accept(types)
                    &&& #[trigger] r.adds_lossless(self, entry, types)
                },
    {
        let types: Vec<ContentType> = slice_to_vec(entry.transform.applies_to());
        assert(entry.transform.may_accept(types@));
        let ghost added = entry;
        let r = CompressionPipelineBuilder {
            lossless: self.lossless.add(entry, types.as_slice()),
            lossy: self.lossy,
            config: self.config,
        };
        assert(r.adds_lossless(self, added, types@));
        r
    }

    /// Registers a lossy transform for every content type that it accepts.
    /// Order of registration is order of execution.
    pub fn with_lossy(self, transform: Box<dyn LossyTransform>) -> (r: Self)
        ensures
            exists|entry: Registered<dyn LossyTransform>, types: Seq<ContentType>|
                {
                    &&& entry.transform == transform
                    &&& transform.may_accept(types)
                    &&& #[trigger] r.adds_lossy(self, entry, types)
                },
    {
        let entry = Registered { transform };
        let ghost added = entry;
        let r = self.with_registered_lossy(entry);
        proof {
            let types = choose|types: Seq<ContentType>|
                {
                    &&& added.transform.may_accept(types)
                    &&& #[trigger] r.adds_lossy(self, added, types)
                };
            assert(r.adds_lossy(self, added, types));
        }
        r
    }

    /// Registers a lossy transform that its owner holds as a trait object
    /// already, as `with_lossy` does.
    pub fn with_registered_lossy(self, entry: Registered<dyn LossyTransform>) -> (r: Self)
        ensures
            exists|types: Seq<ContentType>|
                {
                    &&& entry.transform.may_accept(types)
                    &&& #[trigger] r.adds_lossy(self, entry, types)
                },
    {
        let types: Vec<ContentType> = slice_to_vec(entry.transform.applies_to());
        assert(entry.transform.may_accept(types@));
        let ghost added = entry;
        let r = CompressionPipelineBuilder {
            lossless: self.lossless,
            lossy: self.lossy.add(entry, types.as_slice()),
            config: self.config,
        };
        assert(r.adds_lossy(self, added, types@));
        r
    }

    /// Sets the thresholds.
    pub fn with_config(self, config: PipelineConfig) -> (r: Self)
        ensures
            forall|content_type: ContentType| #[trigger]
                r.lossless_for(content_type) == self.lossless_for(content_type),
            forall|content_type: ContentType| #[trigger]
                r.lossy_for(content_type) == self.lossy_for(content_type),
            r.spec_config() == Some(config),
    {
        CompressionPipelineBuilder {
            lossless: self.lossless,
            lossy: self.lossy,
            config: Some(config),
        }
    }

    /// The pipeline, with the default thresholds if none were given.
    pub fn build(self) -> (r: CompressionPipeline)
        ensures
            forall|content_type: ContentType| #[trigger]
                r.lossless_for(content_type) == self.lossless_for(content_type),
            forall|content_type: ContentType| #[trigger]
                r.lossy_for(content_type) == self.lossy_for(content_type),
            match self.spec_config() {
                Some(config) => r.spec_config() == config,
                None => {
                    &&& r.spec_config().min_savings_ratio.bits == crate::float::ONE_TWENTIETH
                    &&& r.spec_config().lossless_target_ratio.bits == crate::float::ONE_HALF
                },
            },
    {
        let config = match self.config {
            Some(config) => config,
            None => PipelineConfig::default(),
        };
        CompressionPipeline { lossless: self.lossless, lossy: self.lossy, config }
    }
}

} // verus!
