use headroom::float::Float32;
use headroom::signals::{
    ImportanceCategory, ImportanceContext, ImportanceSignal, LineImportanceDetector,
};
use headroom::transforms::pipeline::line_importance_filter::render;
use headroom::transforms::pipeline::{
    CompressionContext, LineImportanceFilter, LineImportanceFilterConfig, LossyTransform,
    TransformError, TransformResult,
};
use headroom::transforms::ContentType;

fn f32_of(x: f32) -> Float32 {
    Float32 { bits: x.to_bits() }
}

struct StubDetector {
    priority_keyword: &'static str,
    priority: f32,
}
impl LineImportanceDetector for StubDetector {
    fn score(&self, line: &str, _ctx: ImportanceContext) -> ImportanceSignal {
        if line.contains(self.priority_keyword) {
            ImportanceSignal::matched(
                ImportanceCategory::Importance,
                f32_of(self.priority),
                f32_of(0.9),
            )
        } else {
            ImportanceSignal::neutral()
        }
    }
}

struct ContextDetector;
impl LineImportanceDetector for ContextDetector {
    fn score(&self, _line: &str, ctx: ImportanceContext) -> ImportanceSignal {
        if ctx == ImportanceContext::Diff {
            ImportanceSignal::matched(ImportanceCategory::Warning, f32_of(1.0), f32_of(1.0))
        } else {
            ImportanceSignal::neutral()
        }
    }
}

struct NeverAsked;
impl LineImportanceDetector for NeverAsked {
    fn score(&self, line: &str, _ctx: ImportanceContext) -> ImportanceSignal {
        panic!("asked for {line}")
    }
}

fn run(filter: &LineImportanceFilter, content: &str) -> TransformResult {
    filter
        .apply(content, &CompressionContext::default())
        .expect("test inputs are well-formed")
}

fn config(min_priority: f32, keep_first: usize, keep_last: usize) -> LineImportanceFilterConfig {
    LineImportanceFilterConfig {
        min_priority: f32_of(min_priority),
        keep_first,
        keep_last,
        context: ImportanceContext::Text,
    }
}

fn filter_keep_keyword() -> LineImportanceFilter {
    LineImportanceFilter::new(Box::new(StubDetector {
        priority_keyword: "KEEP",
        priority: 0.9,
    }))
    .with_config(config(0.5, 1, 1))
}

fn strings(list: &[&str]) -> Vec<String> {
    list.iter().map(|s| s.to_string()).collect()
}

#[test]
fn line_importance_filter_name_matches_telemetry_convention() {
    let f = filter_keep_keyword();
    assert_eq!(f.name(), "line_importance_filter");
}

#[test]
fn applies_to_default_set_includes_plain_text_logs_and_search() {
    let f = filter_keep_keyword();
    let types = f.applies_to();
    assert!(types.contains(&ContentType::PlainText));
    assert!(types.contains(&ContentType::BuildOutput));
    assert!(types.contains(&ContentType::SearchResults));
}

#[test]
fn drops_low_priority_lines_keeps_high_priority() {
    let f = filter_keep_keyword();
    let input = (0..20)
        .map(|i| {
            if i == 10 {
                "KEEP this line".into()
            } else {
                format!("noise {i}")
            }
        })
        .collect::<Vec<_>>()
        .join("\n");
    let result = run(&f, &input);
    assert!(result.output.contains("KEEP this line"));
    assert!(result.output.contains("[... ") && result.output.contains("lines omitted ...]"));
    assert!(result.bytes_saved > 0);
    assert!(!result.structure_preserved);
}

#[test]
fn always_keeps_first_and_last_anchor_windows() {
    let f = filter_keep_keyword();
    let lines: Vec<String> = (0..20).map(|i| format!("plain line {i}")).collect();
    let input = lines.join("\n");
    let result = run(&f, &input);
    assert!(result.output.contains("plain line 0"));
    assert!(result.output.contains("plain line 19"));
}

#[test]
fn empty_input_returns_skipped_error() {
    let f = filter_keep_keyword();
    let err = f
        .apply("", &CompressionContext::default())
        .expect_err("empty input is a skip");
    assert!(matches!(err, TransformError::Skipped { .. }));
}

#[test]
fn single_line_input_passes_through() {
    let f = filter_keep_keyword();
    let result = run(&f, "only one line");
    assert_eq!(result.output, "only one line");
    assert_eq!(result.bytes_saved, 0);
}

#[test]
fn omission_markers_count_dropped_lines_correctly() {
    let f = filter_keep_keyword();
    let input = ["first", "drop a", "drop b", "drop c", "last"].join("\n");
    let result = run(&f, &input);
    assert!(result.output.starts_with("first"));
    assert!(result.output.ends_with("last"));
    assert!(result.output.contains("[... 3 lines omitted ...]"));
}

#[test]
fn confidence_is_calibrated_constant_in_pr1() {
    let f = filter_keep_keyword();
    assert!((f32::from_bits(f.confidence().bits) - 0.7).abs() < f32::EPSILON);
}

#[test]
fn confidence_lies_between_zero_and_one() {
    let confidence = filter_keep_keyword().confidence();
    assert!(confidence.at_least(f32_of(0.0)));
    assert!(f32_of(1.0).at_least(confidence));
}

#[test]
fn structure_preserved_flag_is_always_false() {
    let f = filter_keep_keyword();
    let result = run(&f, "first\nKEEP me\nlast");
    assert!(!result.structure_preserved);
}

#[test]
fn anchor_windows_overlap_safely_on_short_input() {
    let f = LineImportanceFilter::new(Box::new(StubDetector {
        priority_keyword: "_",
        priority: 0.9,
    }))
    .with_config(config(0.5, 5, 5));
    let result = run(&f, "a\nb\nc");
    assert_eq!(result.output, "a\nb\nc");
}

#[test]
fn applies_to_can_be_narrowed() {
    let f = filter_keep_keyword().with_applies_to(vec![ContentType::SearchResults]);
    assert_eq!(f.applies_to(), &[ContentType::SearchResults]);
}

#[test]
fn unicode_lines_handled_safely() {
    let f = filter_keep_keyword();
    let result = run(&f, "first\nKEEP héllo wörld 🌍\nlast");
    assert!(result.output.contains("héllo wörld 🌍"));
}

#[test]
fn output_is_exact() {
    let f = filter_keep_keyword();
    let result = run(&f, "one\ntwo\nKEEP\nfour\nfive\nsix\n");
    assert_eq!(
        result.output,
        "one\n[... 1 lines omitted ...]\nKEEP\n[... 2 lines omitted ...]\nsix"
    );
    assert_eq!(result.reversible_via, None);
}

#[test]
fn savings_are_counted_against_the_input() {
    let f = filter_keep_keyword();
    let middle = "x".repeat(100);
    let input = format!("a\n{middle}\n{middle}\nb\n");
    let result = run(&f, &input);
    assert_eq!(result.output, "a\n[... 2 lines omitted ...]\nb");
    assert_eq!(result.bytes_saved, 206 - 29);
    let short = run(&f, "a\nx\nb");
    assert_eq!(short.output, "a\n[... 1 lines omitted ...]\nb");
    assert_eq!(short.bytes_saved, 0);
}

#[test]
fn default_configuration() {
    let c = LineImportanceFilterConfig::default();
    assert_eq!(f32::from_bits(c.min_priority.bits), 0.4);
    assert_eq!(c.keep_first, 5);
    assert_eq!(c.keep_last, 5);
    assert_eq!(c.context, ImportanceContext::Text);
}

#[test]
fn priority_at_the_threshold_is_kept() {
    let c = config(0.4, 0, 0);
    let at = |p: f32| {
        ImportanceSignal::matched(ImportanceCategory::Importance, f32_of(p), f32_of(1.0))
    };
    assert!(c.is_important(&at(0.4)));
    assert!(c.is_important(&at(0.5)));
    assert!(!c.is_important(&at(0.39)));
    assert!(!c.is_important(&at(f32::NAN)));
    assert!(!c.is_important(&ImportanceSignal::neutral()));
    assert!(config(0.0, 0, 0).is_important(&at(-0.0)));
}

#[test]
fn anchors_lie_at_the_two_ends() {
    let c = config(0.5, 2, 1);
    assert!(c.is_anchor(0, 5));
    assert!(c.is_anchor(1, 5));
    assert!(!c.is_anchor(2, 5));
    assert!(!c.is_anchor(3, 5));
    assert!(c.is_anchor(4, 5));
    assert!(config(0.5, 0, 9).is_anchor(0, 5));
    assert!(c.is_anchor(7, 5));
    assert!(c.is_anchor(0, 0));
}

#[test]
fn the_context_reaches_the_detector() {
    let in_context = |context| {
        let f = LineImportanceFilter::new(Box::new(ContextDetector)).with_config(
            LineImportanceFilterConfig {
                context,
                ..config(0.5, 0, 0)
            },
        );
        run(&f, "a\nb").output
    };
    assert_eq!(in_context(ImportanceContext::Diff), "a\nb");
    assert_eq!(in_context(ImportanceContext::Text), "");
}

#[test]
fn lines_dropped_at_the_head_leave_no_marker() {
    let out = render(&strings(&["a", "b", "c", "d"]), &vec![false, true, false, false]);
    assert_eq!(out, "b\n[... 2 lines omitted ...]");
    assert_eq!(render(&strings(&["a", "b"]), &vec![false, false]), "");
}

#[test]
fn empty_lines_at_the_head_keep_their_line_feeds() {
    assert_eq!(render(&strings(&["", "", "a", ""]), &vec![true; 4]), "\n\na\n");
    assert_eq!(
        render(&strings(&["", "x", "y"]), &vec![true, false, false]),
        "\n[... 2 lines omitted ...]"
    );
    assert_eq!(
        render(&strings(&["", "x", "y"]), &vec![true, false, true]),
        "\n[... 1 lines omitted ...]\ny"
    );
}

#[test]
fn a_content_that_starts_with_an_empty_line_comes_back_whole() {
    let f = LineImportanceFilter::new(Box::new(ContextDetector));
    let result = run(&f, "\na\nb");
    assert_eq!(result.output, "\na\nb");
    assert_eq!(result.bytes_saved, 0);
}

#[test]
fn the_context_of_the_request_does_not_matter() {
    let f = filter_keep_keyword();
    let content = "a\nb\nKEEP\nc\nd";
    let plain = f.apply(content, &CompressionContext::default()).unwrap();
    let asked = f.apply(content, &CompressionContext::with_query("KEEP")).unwrap();
    assert_eq!(plain.output, "a\n[... 1 lines omitted ...]\nKEEP\n[... 1 lines omitted ...]\nd");
    assert_eq!(asked.output, plain.output);
    assert_eq!(asked.bytes_saved, plain.bytes_saved);
}

#[test]
fn lines_at_the_ends_are_not_scored() {
    let f = LineImportanceFilter::new(Box::new(NeverAsked)).with_config(config(0.5, 2, 1));
    assert_eq!(run(&f, "a\nb\nc").output, "a\nb\nc");
}

#[test]
fn every_line_is_kept_or_counted() {
    let list = strings(&["a", "b", "c", "d", "e", "f", "g"]);
    let keep = vec![true, false, false, true, true, false, false];
    assert_eq!(
        render(&list, &keep),
        "a\n[... 2 lines omitted ...]\nd\ne\n[... 2 lines omitted ...]"
    );
}

#[test]
fn line_endings_are_normalised() {
    let f = filter_keep_keyword().with_config(config(0.5, 9, 9));
    assert_eq!(run(&f, "a\r\nb\r\nc").output, "a\nb\nc");
    assert_eq!(run(&f, "a\nb\r").output, "a\nb\r");
    assert_eq!(run(&f, "\n").output, "");
}

#[test]
fn the_lines_that_are_kept_are_told() {
    let f = filter_keep_keyword();
    let keep = f.choose_lines(&strings(&["a", "KEEP", "c", "d"]));
    assert_eq!(keep, vec![true, true, false, true]);
}
