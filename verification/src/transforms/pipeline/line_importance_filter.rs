//! `LineImportanceFilter` drops lines of low priority.
//!
//! Each line is scored by a `LineImportanceDetector`. A line is kept if its
//! priority reaches a threshold; the first and the last lines are kept in any
//! case. Where lines were dropped between two kept lines, or after the last
//! one, a marker tells how many.

use crate::float::Float32;
use crate::signals::{ImportanceContext, ImportanceSignal, LineImportanceDetector};
use crate::text::{join, length, lines, push_decimal};
use crate::transforms::pipeline::traits::{
    CompressionContext, LossyTransform, TransformError, TransformResult,
};
use crate::transforms::ContentType;
use vstd::prelude::*;
use vstd::string::StringExecFns;

verus! {

/// The bit pattern of the binary32 number written `0.4`.
pub const TWO_FIFTHS: u32 = 0x3ECC_CCCD;

/// The bit pattern of the binary32 number written `0.7`.
pub const SEVEN_TENTHS: u32 = 0x3F33_3333;

/// Configuration of a `LineImportanceFilter`.
#[derive(Debug, Clone, Copy)]
pub struct LineImportanceFilterConfig {
    /// The least priority for a line to be kept.
    pub min_priority: Float32,
    /// How many lines at the head are kept in any case.
    pub keep_first: usize,
    /// How many lines at the tail are kept in any case.
    pub keep_last: usize,
    /// The context that is handed to the detector.
    pub context: ImportanceContext,
}

impl Default for LineImportanceFilterConfig {
    /// Priority two fifths, and five lines at each end.
    fn default() -> (r: Self)
        ensures
            r.min_priority.bits == TWO_FIFTHS,
            r.keep_first == 5,
            r.keep_last == 5,
            r.context == ImportanceContext::Text,
    {
        LineImportanceFilterConfig {
            min_priority: Float32 { bits: TWO_FIFTHS },
            keep_first: 5,
            keep_last: 5,
            context: ImportanceContext::Text,
        }
    }
}

impl LineImportanceFilterConfig {
    /// Whether line `i` of `n` lies at one of the two ends that are kept in
    /// any case.
    pub open spec fn anchors(self, i: int, n: nat) -> bool {
        i < self.keep_first || i >= n - self.keep_last
    }

    /// Whether a line with this signal is kept.
    pub open spec fn admits(self, signal: ImportanceSignal) -> bool {
        signal.priority.spec_at_least(self.min_priority)
    }

    /// Whether line `i` of `n` lies at one of the two ends that are kept in
    /// any case.
    pub fn is_anchor(&self, i: usize, n: usize) -> (r: bool)
        ensures
            r == self.anchors(i as int, n as nat),
    {
        i < self.keep_first || i >= n.saturating_sub(self.keep_last)
    }

    /// Whether a line with this signal is kept.
    pub fn is_important(&self, signal: &ImportanceSignal) -> (r: bool)
        ensures
            r == self.admits(*signal),
    {
        signal.priority.at_least(self.min_priority)
    }
}

/// The marker for `count` dropped lines.
pub open spec fn marker(count: nat) -> Seq<char> {
    "[... "@ + crate::text::decimal(count) + " lines omitted ...]"@
}

/// The last line among the first `k` that is kept.
pub open spec fn last_kept(keep: Seq<bool>, k: nat) -> Option<nat>
    decreases k,
{
    if k == 0 {
        None
    } else if keep[k - 1] {
        Some((k - 1) as nat)
    } else {
        last_kept(keep, (k - 1) as nat)
    }
}

/// How many lines were dropped between line `k` and the last one kept before
/// it; none if no line was kept before it.
pub open spec fn gap(keep: Seq<bool>, k: nat) -> nat {
    match last_kept(keep, k) {
        Some(previous) => (k - previous - 1) as nat,
        None => 0,
    }
}

/// What stands for the first `k` lines: the lines that are kept, each after the
/// marker for the gap before it.
pub open spec fn segments(lines: Seq<Seq<char>>, keep: Seq<bool>, k: nat) -> Seq<Seq<char>>
    decreases k,
{
    if k == 0 {
        Seq::empty()
    } else {
        let earlier = segments(lines, keep, (k - 1) as nat);
        let dropped = gap(keep, (k - 1) as nat);
        if !keep[k - 1] {
            earlier
        } else if dropped > 0 {
            earlier.push(marker(dropped)).push(lines[k - 1])
        } else {
            earlier.push(lines[k - 1])
        }
    }
}

/// What stands for the lines: the segments, and at the end the marker for the
/// lines dropped after the last one kept.
pub open spec fn pieces(lines: Seq<Seq<char>>, keep: Seq<bool>) -> Seq<Seq<char>> {
    let body = segments(lines, keep, lines.len());
    let dropped = gap(keep, lines.len());
    if dropped > 0 {
        body.push(marker(dropped))
    } else {
        body
    }
}

/// What the filter makes of `lines` when it keeps those that `keep` says: the
/// pieces with a line feed between each two.
pub open spec fn filtered(lines: Seq<Seq<char>>, keep: Seq<bool>) -> Seq<char> {
    crate::text::joined(pieces(lines, keep), "\n"@)
}

/// Adds the marker for `count` dropped lines.
fn push_marker(out: &mut Vec<String>, count: usize)
    ensures
        crate::text::texts(final(out)@) == crate::text::texts(old(out)@).push(marker(count as nat)),
{
    let mut note = String::new();
    note.append("[... ");
    push_decimal(&mut note, count);
    note.append(" lines omitted ...]");
    assert(note@ == marker(count as nat));
    out.push(note);
}

/// The lines that `keep` keeps, with markers for those that it drops.
pub fn render(lines: &Vec<String>, keep: &Vec<bool>) -> (r: String)
    requires
        keep@.len() == lines@.len(),
    ensures
        r@ == filtered(crate::text::texts(lines@), keep@),
{
    let ghost content = crate::text::texts(lines@);
    let n: usize = lines.len();
    let mut out: Vec<String> = Vec::new();
    let mut previous: Option<usize> = None;
    let mut i: usize = 0;
    while i < n
        invariant
            i <= n,
            n == lines@.len(),
            n == keep@.len(),
            content == crate::text::texts(lines@),
            crate::text::texts(out@) == segments(content, keep@, i as nat),
            match previous {
                Some(p) => p < i && last_kept(keep@, i as nat) == Some(p as nat),
                None => last_kept(keep@, i as nat) is None,
            },
        decreases n - i,
    {
        if keep[i] {
            if let Some(p) = previous {
                let dropped: usize = i - p - 1;
                if dropped > 0 {
                    push_marker(&mut out, dropped);
                }
            }
            let ghost earlier = crate::text::texts(out@);
            out.push(lines[i].as_str().to_string());
            assert(lines[i as int]@ == content[i as int]);
            assert(crate::text::texts(out@) == earlier.push(content[i as int]));
            previous = Some(i);
        }
        i = i + 1;
    }
    if let Some(p) = previous {
        let dropped: usize = n - p - 1;
        if dropped > 0 {
            push_marker(&mut out, dropped);
        }
    }
    join(&out, "\n")
}

/// The detector of a filter.
#[verifier::reject_recursive_types(D)]
pub struct Held<D: ?Sized> {
    pub detector: Box<D>,
}

/// Drops lines of low priority and keeps those at the two ends.
pub struct LineImportanceFilter {
    held: Held<dyn LineImportanceDetector>,
    content_types: Vec<ContentType>,
    config: LineImportanceFilterConfig,
}

impl LineImportanceFilter {
    pub const NAME: &'static str = "line_importance_filter";

    /// The detector that scores the lines.
    pub closed spec fn spec_held(&self) -> Held<dyn LineImportanceDetector> {
        self.held
    }

    /// The configuration.
    pub closed spec fn spec_config(&self) -> LineImportanceFilterConfig {
        self.config
    }

    /// The content types that the filter accepts.
    pub closed spec fn spec_content_types(&self) -> Seq<ContentType> {
        self.content_types@
    }

    /// Whether the filter may keep, of `lines`, those that `keep` says: all at
    /// the two ends, and of the others those whose signal has priority enough.
    pub open spec fn may_keep(&self, lines: Seq<Seq<char>>, keep: Seq<bool>) -> bool {
        &&& keep.len() == lines.len()
        &&& forall|i: int|
            0 <= i < keep.len() ==> self.may_decide(lines[i], i, lines.len(), #[trigger] keep[i])
    }

    /// Whether the filter may decide to keep, or not to keep, line `i` of `n`.
    pub open spec fn may_decide(&self, line: Seq<char>, i: int, n: nat, kept: bool) -> bool {
        if self.spec_config().anchors(i, n) {
            kept
        } else {
            exists|signal: ImportanceSignal|
                {
                    &&& #[trigger] self.spec_held().detector.may_score(
                        line,
                        self.spec_config().context,
                        signal,
                    )
                    &&& kept == self.spec_config().admits(signal)
                }
        }
    }

    /// A filter with the given detector and the default configuration, for
    /// plain text, build output and search results.
    pub fn new(detector: Box<dyn LineImportanceDetector>) -> (r: Self)
        ensures
            r.spec_held().detector == detector,
            r.spec_config().min_priority.bits == TWO_FIFTHS,
            r.spec_config().keep_first == 5,
            r.spec_config().keep_last == 5,
            r.spec_config().context == ImportanceContext::Text,
            r.spec_content_types() == seq![
                ContentType::PlainText,
                ContentType::BuildOutput,
                ContentType::SearchResults,
            ],
    {
        let mut content_types: Vec<ContentType> = Vec::new();
        content_types.push(ContentType::PlainText);
        content_types.push(ContentType::BuildOutput);
        content_types.push(ContentType::SearchResults);
        let held = Held { detector };
        LineImportanceFilter {
            held,
            content_types,
            config: LineImportanceFilterConfig::default(),
        }
    }

    /// Sets the configuration.
    pub fn with_config(self, config: LineImportanceFilterConfig) -> (r: Self)
        ensures
            r.spec_held() == self.spec_held(),
            r.spec_config() == config,
            r.spec_content_types() == self.spec_content_types(),
    {
        LineImportanceFilter { held: self.held, content_types: self.content_types, config }
    }

    /// Sets the content types that the filter accepts.
    pub fn with_applies_to(self, types: Vec<ContentType>) -> (r: Self)
        ensures
            r.spec_held() == self.spec_held(),
            r.spec_config() == self.spec_config(),
            r.spec_content_types() == types@,
    {
        LineImportanceFilter { held: self.held, content_types: types, config: self.config }
    }

    /// Which of `lines` are kept.
    pub fn choose_lines(&self, lines: &Vec<String>) -> (r: Vec<bool>)
        ensures
            self.may_keep(crate::text::texts(lines@), r@),
    {
        let n: usize = lines.len();
        let mut keep: Vec<bool> = Vec::new();
        let mut i: usize = 0;
        while i < n
            invariant
                i <= n,
                n == lines@.len(),
                keep@.len() == i,
                forall|j: int|
                    0 <= j < i ==> self.may_decide(
                        crate::text::texts(lines@)[j],
                        j,
                        n as nat,
                        #[trigger] keep@[j],
                    ),
            decreases n - i,
        {
            let kept: bool = if self.config.is_anchor(i, n) {
                true
            } else {
                let signal = self.held.detector.score(lines[i].as_str(), self.config.context);
                assert(self.spec_held().detector.may_score(
                    crate::text::texts(lines@)[i as int],
                    self.spec_config().context,
                    signal,
                ));
                self.config.is_important(&signal)
            };
            keep.push(kept);
            i = i + 1;
        }
        keep
    }
}

impl LossyTransform for LineImportanceFilter {
    open spec fn may_be_named(&self, name: Seq<char>) -> bool {
        name == "line_importance_filter"@
    }

    open spec fn may_accept(&self, content_types: Seq<ContentType>) -> bool {
        content_types == self.spec_content_types()
    }

    /// An empty content is skipped; any other comes back with the lines that
    /// the filter keeps.
    open spec fn may_return(
        &self,
        content: Seq<char>,
        context: CompressionContext,
        outcome: Result<TransformResult, TransformError>,
    ) -> bool {
        if content.len() == 0 {
            &&& outcome matches Err(TransformError::Skipped { transform, message })
            &&& transform@ == Self::NAME@
            &&& message@ == "empty input"@
        } else {
            &&& outcome matches Ok(result)
            &&& exists|keep: Seq<bool>|
                {
                    &&& #[trigger] self.may_keep(crate::text::lines_of(content), keep)
                    &&& result.output@ == filtered(crate::text::lines_of(content), keep)
                }
            &&& result.is_truthful(crate::text::byte_len(content))
            &&& !result.structure_preserved
            &&& result.reversible_via is None
        }
    }

    fn name(&self) -> (r: &'static str) {
        Self::NAME
    }

    fn applies_to(&self) -> (r: &[ContentType]) {
        self.content_types.as_slice()
    }

    fn apply(&self, content: &str, _ctx: &CompressionContext) -> (r: Result<
        TransformResult,
        TransformError,
    >) {
        if content.is_empty() {
            return Err(TransformError::skipped(Self::NAME, "empty input"));
        }
        let list: Vec<String> = lines(content);
        let keep: Vec<bool> = self.choose_lines(&list);
        let out = render(&list, &keep);
        Ok(TransformResult::from_lengths(length(content), out, false))
    }

    /// Seven tenths.
    fn confidence(&self) -> (r: Float32)
        ensures
            r.bits == SEVEN_TENTHS,
    {
        Float32 { bits: SEVEN_TENTHS }
    }
}

/// The lines at the two ends are kept, whatever the detector says.
pub proof fn law_ends_are_kept(
    filter: LineImportanceFilter,
    lines: Seq<Seq<char>>,
    keep: Seq<bool>,
    i: int,
)
    requires
        filter.may_keep(lines, keep),
        0 <= i < lines.len(),
        i < filter.spec_config().keep_first || i >= lines.len() - filter.spec_config().keep_last,
    ensures
        keep[i],
{
    assert(filter.may_decide(lines[i], i, lines.len(), keep[i]));
}

/// What the filter makes of a content does not depend on the context of the
/// request.
pub proof fn law_the_context_does_not_matter(
    filter: LineImportanceFilter,
    content: Seq<char>,
    context: CompressionContext,
    other: CompressionContext,
    outcome: Result<TransformResult, TransformError>,
)
    ensures
        filter.may_return(content, context, outcome) == filter.may_return(content, other, outcome),
{
}

/// A line at one of the two ends is not scored: what is decided of it is the
/// same with any other detector, and for a content that has no other lines so
/// is all that comes back.
pub proof fn law_lines_at_the_ends_are_not_scored(
    filter: LineImportanceFilter,
    other: LineImportanceFilter,
    content: Seq<char>,
    context: CompressionContext,
)
    requires
        filter.spec_config() == other.spec_config(),
    ensures
        ({
            let lines = crate::text::lines_of(content);
            let config = filter.spec_config();
            &&& forall|i: int, kept: bool|
                config.anchors(i, lines.len()) ==> (#[trigger] filter.may_decide(
                    lines[i],
                    i,
                    lines.len(),
                    kept,
                ) <==> kept) && (filter.may_decide(lines[i], i, lines.len(), kept)
                    <==> other.may_decide(lines[i], i, lines.len(), kept))
            &&& lines.len() <= config.keep_first + config.keep_last ==> forall|
                outcome: Result<TransformResult, TransformError>,
            | #[trigger]
                filter.may_return(content, context, outcome) ==> other.may_return(
                    content,
                    context,
                    outcome,
                )
        }),
{
    let lines = crate::text::lines_of(content);
    let config = filter.spec_config();
    if lines.len() <= config.keep_first + config.keep_last {
        assert forall|outcome: Result<TransformResult, TransformError>| #[trigger]
            filter.may_return(content, context, outcome) implies other.may_return(
            content,
            context,
            outcome,
        ) by {
            if content.len() > 0 {
                let keep = choose|keep: Seq<bool>|
                    {
                        &&& #[trigger] filter.may_keep(lines, keep)
                        &&& outcome->Ok_0.output@ == filtered(lines, keep)
                    };
                assert forall|i: int| 0 <= i < keep.len() implies other.may_decide(
                    lines[i],
                    i,
                    lines.len(),
                    #[trigger] keep[i],
                ) by {
                    assert(filter.may_decide(lines[i], i, lines.len(), keep[i]));
                }
                assert(other.may_keep(lines, keep));
            }
        }
    }
}

/// Whether `part` stands somewhere in `whole`.
pub open spec fn stands_in(part: Seq<char>, whole: Seq<char>) -> bool {
    exists|at: int|
        0 <= at && at + part.len() <= whole.len() && #[trigger] whole.subrange(
            at,
            at + part.len(),
        ) == part
}

proof fn lemma_stands_in_extension(part: Seq<char>, whole: Seq<char>, tail: Seq<char>)
    requires
        stands_in(part, whole),
    ensures
        stands_in(part, whole + tail),
{
    let at = choose|at: int|
        0 <= at && at + part.len() <= whole.len() && #[trigger] whole.subrange(
            at,
            at + part.len(),
        ) == part;
    assert((whole + tail).subrange(at, at + part.len()) == part);
}

proof fn lemma_pieces_stand_in_joined(pieces: Seq<Seq<char>>, i: int)
    requires
        0 <= i < pieces.len(),
    ensures
        stands_in(pieces[i], crate::text::joined(pieces, "\n"@)),
    decreases pieces.len(),
{
    let whole = crate::text::joined(pieces, "\n"@);
    if pieces.len() == 1 {
        assert(whole.subrange(0, 0int + pieces[i].len()) == pieces[i]);
    } else {
        let earlier = pieces.drop_last();
        let head = crate::text::joined(earlier, "\n"@);
        if i == pieces.len() - 1 {
            let at = (head + "\n"@).len() as int;
            assert(whole.subrange(at, at + pieces[i].len()) == pieces[i]);
        } else {
            lemma_pieces_stand_in_joined(earlier, i);
            assert(earlier[i] == pieces[i]);
            lemma_stands_in_extension(pieces[i], head, "\n"@ + pieces.last());
            assert(whole == head + ("\n"@ + pieces.last()));
        }
    }
}

proof fn lemma_kept_line_is_segment(lines: Seq<Seq<char>>, keep: Seq<bool>, i: nat, k: nat) -> (j:
    int)
    requires
        i < k <= lines.len(),
        keep.len() == lines.len(),
        keep[i as int],
    ensures
        0 <= j < segments(lines, keep, k).len(),
        segments(lines, keep, k)[j] == lines[i as int],
    decreases k,
{
    if i == k - 1 {
        segments(lines, keep, k).len() - 1
    } else {
        lemma_kept_line_is_segment(lines, keep, i, (k - 1) as nat)
    }
}

/// Every line that is kept stands in the output.
pub proof fn law_kept_lines_stand_in_the_output(
    lines: Seq<Seq<char>>,
    keep: Seq<bool>,
    i: int,
)
    requires
        keep.len() == lines.len(),
        0 <= i < lines.len(),
        keep[i],
    ensures
        stands_in(lines[i], filtered(lines, keep)),
{
    let j = lemma_kept_line_is_segment(lines, keep, i as nat, lines.len());
    assert(pieces(lines, keep)[j] == lines[i]);
    lemma_pieces_stand_in_joined(pieces(lines, keep), j);
}

proof fn lemma_nothing_dropped(lines: Seq<Seq<char>>, keep: Seq<bool>, k: nat)
    requires
        k <= lines.len(),
        keep.len() == lines.len(),
        forall|i: int| 0 <= i < keep.len() ==> keep[i],
    ensures
        gap(keep, k) == 0,
        segments(lines, keep, k) == lines.take(k as int),
    decreases k,
{
    if k > 0 {
        lemma_nothing_dropped(lines, keep, (k - 1) as nat);
        assert(segments(lines, keep, k) == lines.take(k as int));
    }
}

/// Where every line is kept, the output is the lines joined by line feeds.
pub proof fn law_nothing_dropped_joins_the_lines(lines: Seq<Seq<char>>, keep: Seq<bool>)
    requires
        keep.len() == lines.len(),
        forall|i: int| 0 <= i < keep.len() ==> keep[i],
    ensures
        filtered(lines, keep) == crate::text::joined(lines, "\n"@),
{
    lemma_nothing_dropped(lines, keep, lines.len());
    assert(lines.take(lines.len() as int) == lines);
}

/// How many of the first `k` lines are kept.
pub open spec fn kept_count(keep: Seq<bool>, k: nat) -> nat
    decreases k,
{
    if k == 0 {
        0
    } else {
        kept_count(keep, (k - 1) as nat) + if keep[k - 1] {
            1nat
        } else {
            0nat
        }
    }
}

/// The sum of the counts in the markers that stand before kept lines among the
/// first `k`.
pub open spec fn marked_count(keep: Seq<bool>, k: nat) -> nat
    decreases k,
{
    if k == 0 {
        0
    } else {
        marked_count(keep, (k - 1) as nat) + if keep[k - 1] {
            gap(keep, (k - 1) as nat)
        } else {
            0
        }
    }
}

proof fn lemma_all_lines_counted(keep: Seq<bool>, k: nat)
    requires
        k <= keep.len(),
        keep.len() > 0 ==> keep[0],
    ensures
        kept_count(keep, k) + marked_count(keep, k) + gap(keep, k) == k,
        k > 0 ==> (last_kept(keep, k) matches Some(p) && p < k),
    decreases k,
{
    if k > 0 {
        lemma_all_lines_counted(keep, (k - 1) as nat);
    }
}

/// Where the first line is kept, every line is kept or counted in a marker:
/// those between kept lines in the markers there, those after the last one in
/// the marker at the end. The law leaves out contents whose first line is
/// dropped: no marker stands for lines before the first kept one.
pub proof fn law_every_line_is_kept_or_counted(keep: Seq<bool>)
    requires
        keep.len() > 0 ==> keep[0],
    ensures
        kept_count(keep, keep.len()) + marked_count(keep, keep.len()) + gap(keep, keep.len())
            == keep.len(),
{
    lemma_all_lines_counted(keep, keep.len());
}

proof fn lemma_last_kept(keep: Seq<bool>, k: nat, p: int)
    requires
        0 <= p < k <= keep.len(),
        keep[p],
        forall|j: int| p < j < k ==> !keep[j],
    ensures
        last_kept(keep, k) == Some(p as nat),
        gap(keep, k) == k - p - 1,
    decreases k,
{
    if p < k - 1 {
        lemma_last_kept(keep, (k - 1) as nat, p);
    }
}

proof fn lemma_none_kept(lines: Seq<Seq<char>>, keep: Seq<bool>, k: nat)
    requires
        k <= keep.len(),
        forall|j: int| 0 <= j < k ==> !keep[j],
    ensures
        last_kept(keep, k) is None,
        gap(keep, k) == 0,
        segments(lines, keep, k).len() == 0,
    decreases k,
{
    if k > 0 {
        lemma_none_kept(lines, keep, (k - 1) as nat);
    }
}

proof fn lemma_dropped_lines_add_nothing(
    lines: Seq<Seq<char>>,
    keep: Seq<bool>,
    from: nat,
    k: nat,
)
    requires
        from <= k <= keep.len(),
        keep.len() == lines.len(),
        forall|j: int| from <= j < k ==> !keep[j],
    ensures
        segments(lines, keep, k) == segments(lines, keep, from),
    decreases k,
{
    if from < k {
        lemma_dropped_lines_add_nothing(lines, keep, from, (k - 1) as nat);
    }
}

proof fn lemma_later_lines_do_not_matter(
    lines: Seq<Seq<char>>,
    keep: Seq<bool>,
    n: nat,
    k: nat,
)
    requires
        k <= n <= keep.len(),
        keep.len() == lines.len(),
    ensures
        last_kept(keep.take(n as int), k) == last_kept(keep, k),
        segments(lines.take(n as int), keep.take(n as int), k) == segments(lines, keep, k),
    decreases k,
{
    if k > 0 {
        lemma_later_lines_do_not_matter(lines, keep, n, (k - 1) as nat);
    }
}

proof fn lemma_joined_push(pieces: Seq<Seq<char>>, piece: Seq<char>)
    ensures
        crate::text::joined(pieces.push(piece), "\n"@) == if pieces.len() == 0 {
            piece
        } else {
            crate::text::joined(pieces, "\n"@) + "\n"@ + piece
        },
{
    assert(pieces.push(piece).drop_last() =~= pieces);
}

/// What the output is up to a kept line, and what follows behind it.
///
/// Where no line is kept, there is no output; where only the last one is kept,
/// it is the output. Behind a kept line, lines that are dropped leave a line
/// feed and a marker with their number, and the next kept line stands behind a
/// line feed.
pub proof fn law_the_output_is_kept_lines_and_markers(
    lines: Seq<Seq<char>>,
    keep: Seq<bool>,
    p: int,
)
    requires
        keep.len() == lines.len(),
    ensures
        ({
            let n = lines.len() as int;
            let so_far = filtered(lines.take(p + 1), keep.take(p + 1));
            let mark = |count: nat|
                "\n"@ + ("[... "@ + crate::text::decimal(count) + " lines omitted ...]"@);
            &&& (forall|j: int| 0 <= j < n ==> !keep[j]) ==> filtered(lines, keep) == Seq::<
                char,
            >::empty()
            &&& n > 0 && keep[n - 1] && (forall|j: int| 0 <= j < n - 1 ==> !keep[j]) ==> filtered(
                lines,
                keep,
            ) == lines[n - 1]
            &&& 0 <= p < n - 1 && keep[p] && (forall|j: int| p < j < n ==> !keep[j]) ==> filtered(
                lines,
                keep,
            ) == so_far + mark((n - p - 1) as nat)
            &&& 0 <= p < n - 1 && keep[p] && keep[n - 1] && (forall|j: int|
                p < j < n - 1 ==> !keep[j]) ==> filtered(lines, keep) == so_far + (if p < n - 2 {
                mark((n - p - 2) as nat)
            } else {
                Seq::empty()
            }) + "\n"@ + lines[n - 1]
        }),
{
    let n = lines.len();
    let head_lines = lines.take(p + 1);
    let head_keep = keep.take(p + 1);
    if forall|j: int| 0 <= j < n ==> !keep[j] {
        lemma_none_kept(lines, keep, n);
    }
    if n > 0 && keep[n - 1] && (forall|j: int| 0 <= j < n - 1 ==> !keep[j]) {
        lemma_none_kept(lines, keep, (n - 1) as nat);
        lemma_last_kept(keep, n, n - 1);
        assert(segments(lines, keep, n) =~= seq![lines[n - 1]]);
    }
    if 0 <= p < n - 1 && keep[p] {
        let m = (p + 1) as nat;
        lemma_last_kept(keep, m, p);
        lemma_last_kept(head_keep, m, p);
        lemma_later_lines_do_not_matter(lines, keep, m, m);
        let body = segments(lines, keep, m);
        let _ = lemma_kept_line_is_segment(lines, keep, p as nat, m);
        assert(pieces(head_lines, head_keep) == body);
        if forall|j: int| p < j < n ==> !keep[j] {
            lemma_last_kept(keep, n, p);
            lemma_dropped_lines_add_nothing(lines, keep, m, n);
            lemma_joined_push(body, marker((n - p - 1) as nat));
        }
        if keep[n - 1] && (forall|j: int| p < j < n - 1 ==> !keep[j]) {
            let before = (n - 1) as nat;
            lemma_last_kept(keep, before, p);
            lemma_last_kept(keep, n, n - 1);
            lemma_dropped_lines_add_nothing(lines, keep, m, before);
            lemma_joined_push(body, lines[n - 1]);
            if p < n - 2 {
                let count = (n - p - 2) as nat;
                lemma_joined_push(body, marker(count));
                lemma_joined_push(body.push(marker(count)), lines[n - 1]);
            }
        }
    }
}

/// An empty content is skipped. For any other, the lines at the two ends are
/// kept, and of the lines between them those for which the detector gives a
/// signal with priority enough, wherever they stand; the output is made of the
/// kept lines, and the savings are told truthfully.
pub proof fn law_the_filter_keeps_the_important_lines(
    filter: LineImportanceFilter,
    content: Seq<char>,
    context: CompressionContext,
    outcome: Result<TransformResult, TransformError>,
)
    requires
        filter.may_return(content, context, outcome),
    ensures
        content.len() == 0 ==> (outcome matches Err(TransformError::Skipped { transform, message })
            && transform@ == "line_importance_filter"@ && message@ == "empty input"@),
        content.len() > 0 ==> (outcome matches Ok(result) && {
            let lines = crate::text::lines_of(content);
            let config = filter.spec_config();
            let before = crate::text::byte_len(content);
            let after = crate::text::byte_len(result.output@);
            &&& exists|keep: Seq<bool>|
                {
                    &&& keep.len() == lines.len()
                    &&& result.output@ == #[trigger] filtered(lines, keep)
                    &&& forall|i: int|
                        0 <= i < lines.len() && (i < config.keep_first || i + config.keep_last
                            >= lines.len()) ==> #[trigger] keep[i]
                    &&& forall|i: int|
                        #![trigger keep[i]]
                        config.keep_first <= i && i + config.keep_last < lines.len() ==> if keep[i] {
                            exists|signal: ImportanceSignal|
                                {
                                    &&& #[trigger] filter.spec_held().detector.may_score(
                                        lines[i],
                                        config.context,
                                        signal,
                                    )
                                    &&& signal.priority.spec_at_least(config.min_priority)
                                }
                        } else {
                            exists|signal: ImportanceSignal|
                                {
                                    &&& #[trigger] filter.spec_held().detector.may_score(
                                        lines[i],
                                        config.context,
                                        signal,
                                    )
                                    &&& !signal.priority.spec_at_least(config.min_priority)
                                }
                        }
                }
            &&& result.bytes_saved == if after <= before {
                before - after
            } else {
                0
            }
            &&& !result.structure_preserved
            &&& result.reversible_via is None
        }),
{
    if content.len() > 0 {
        let result = outcome->Ok_0;
        let lines = crate::text::lines_of(content);
        let config = filter.spec_config();
        let keep = choose|keep: Seq<bool>|
            {
                &&& #[trigger] filter.may_keep(lines, keep)
                &&& result.output@ == filtered(lines, keep)
            };
        assert forall|i: int|
            #![trigger keep[i]]
            config.keep_first <= i && i + config.keep_last < lines.len() implies exists|
            signal: ImportanceSignal,
        |
            {
                &&& #[trigger] filter.spec_held().detector.may_score(
                    lines[i],
                    config.context,
                    signal,
                )
                &&& keep[i] == signal.priority.spec_at_least(config.min_priority)
            } by {
            assert(filter.may_decide(lines[i], i, lines.len(), keep[i]));
        }
        assert forall|i: int|
            0 <= i < lines.len() && (i < config.keep_first || i + config.keep_last
                >= lines.len()) implies #[trigger] keep[i] by {
            assert(filter.may_decide(lines[i], i, lines.len(), keep[i]));
        }
        assert(result.output@ == filtered(lines, keep));
    }
}

/// A line for which every signal of the detector has priority enough is kept,
/// wherever it stands, and stands in the output. A line between the two ends
/// for which no signal has is dropped.
pub proof fn law_the_detector_decides_between_the_ends(
    filter: LineImportanceFilter,
    lines: Seq<Seq<char>>,
    keep: Seq<bool>,
    i: int,
)
    requires
        filter.may_keep(lines, keep),
        0 <= i < lines.len(),
    ensures
        keep.len() == lines.len(),
        (forall|signal: ImportanceSignal| #[trigger]
            filter.spec_held().detector.may_score(lines[i], filter.spec_config().context, signal)
                ==> signal.priority.spec_at_least(filter.spec_config().min_priority)) ==> keep[i]
            && exists|at: int|
            0 <= at && at + lines[i].len() <= filtered(lines, keep).len() && #[trigger] filtered(
                lines,
                keep,
            ).subrange(at, at + lines[i].len()) == lines[i],
        i >= filter.spec_config().keep_first && i + filter.spec_config().keep_last < lines.len()
            && (forall|signal: ImportanceSignal| #[trigger]
            filter.spec_held().detector.may_score(lines[i], filter.spec_config().context, signal)
                ==> !signal.priority.spec_at_least(filter.spec_config().min_priority))
            ==> !keep[i],
{
    assert(filter.may_decide(lines[i], i, lines.len(), keep[i]));
    if keep[i] {
        law_kept_lines_stand_in_the_output(lines, keep, i);
        assert(stands_in(lines[i], filtered(lines, keep)));
    }
}

/// What may be decided of a line between the two ends depends on the line and
/// on the filter alone, not on where it stands or on how many lines there are.
pub proof fn law_the_place_of_a_line_does_not_matter(
    filter: LineImportanceFilter,
    line: Seq<char>,
    i: int,
    n: nat,
    j: int,
    m: nat,
    kept: bool,
)
    requires
        filter.spec_config().keep_first <= i,
        i + filter.spec_config().keep_last < n,
        filter.spec_config().keep_first <= j,
        j + filter.spec_config().keep_last < m,
    ensures
        filter.may_decide(line, i, n, kept) == filter.may_decide(line, j, m, kept),
{
}

/// The thresholds of the filter are the binary32 numbers nearest to two fifths
/// and to seven tenths.
pub proof fn law_thresholds_are_two_fifths_and_seven_tenths()
    ensures
        ({
            let priority = TWO_FIFTHS as int;
            let confidence = SEVEN_TENTHS as int;
            &&& priority / 0x80_0000 == 125
            &&& -5 <= 2 * (5 * (priority % 0x80_0000 + 0x80_0000) - 2 * 0x200_0000) <= 5
            &&& confidence / 0x80_0000 == 126
            &&& -10 <= 2 * (10 * (confidence % 0x80_0000 + 0x80_0000) - 7 * 0x100_0000) <= 10
        }),
{
}

} // verus!
