use headroom::float::{Float32, Float64};
use headroom::signals::{
    ImportanceCategory, ImportanceContext, ImportanceSignal, LineImportanceDetector,
};
use headroom::transforms::pipeline::registry::Registered;
use headroom::transforms::pipeline::{
    CompressionContext, CompressionPipeline, JsonMinifier, LineImportanceFilter,
    LineImportanceFilterConfig, LosslessTransform, LossyTransform, Phase, PipelineConfig,
    PipelineEvent, PipelineResult, TransformError, TransformResult,
};
use headroom::transforms::ContentType;
use std::sync::{Arc, Mutex};

fn f64_of(x: f64) -> Float64 {
    Float64 { bits: x.to_bits() }
}

fn f32_of(x: f32) -> Float32 {
    Float32 { bits: x.to_bits() }
}

struct TrivialLossless;
impl LosslessTransform for TrivialLossless {
    fn name(&self) -> &'static str {
        "trivial_lossless"
    }
    fn applies_to(&self) -> &[ContentType] {
        &[ContentType::PlainText]
    }
    fn apply(&self, content: &str) -> Result<TransformResult, TransformError> {
        let trimmed = content.trim_end_matches('\n').to_string();
        Ok(TransformResult::from_lengths(content.len(), trimmed, true))
    }
}

struct AlwaysErrors;
impl LosslessTransform for AlwaysErrors {
    fn name(&self) -> &'static str {
        "always_errors"
    }
    fn applies_to(&self) -> &[ContentType] {
        &[ContentType::PlainText]
    }
    fn apply(&self, _content: &str) -> Result<TransformResult, TransformError> {
        Err(TransformError::invalid_input("always_errors", "by design"))
    }
}

struct StubDetector;
impl LineImportanceDetector for StubDetector {
    fn score(&self, line: &str, _ctx: ImportanceContext) -> ImportanceSignal {
        if line.contains("KEEP") {
            ImportanceSignal::matched(ImportanceCategory::Importance, f32_of(0.9), f32_of(0.9))
        } else {
            ImportanceSignal::neutral()
        }
    }
}

struct HalvesContent;
impl LosslessTransform for HalvesContent {
    fn name(&self) -> &'static str {
        "halver"
    }
    fn applies_to(&self) -> &[ContentType] {
        &[ContentType::PlainText]
    }
    fn apply(&self, content: &str) -> Result<TransformResult, TransformError> {
        let half = &content[..content.len() / 2];
        Ok(TransformResult::from_lengths(
            content.len(),
            half.to_string(),
            true,
        ))
    }
}

struct JsonAsTextLossy;
impl LossyTransform for JsonAsTextLossy {
    fn name(&self) -> &'static str {
        "json_truncator"
    }
    fn applies_to(&self) -> &[ContentType] {
        &[ContentType::JsonArray]
    }
    fn apply(
        &self,
        content: &str,
        _ctx: &CompressionContext,
    ) -> Result<TransformResult, TransformError> {
        let cut = content.len() / 2;
        Ok(TransformResult {
            output: format!("{}…", &content[..cut]),
            bytes_saved: content.len().saturating_sub(cut + 3),
            structure_preserved: false,
            reversible_via: None,
        })
    }
    fn confidence(&self) -> Float32 {
        f32_of(0.4)
    }
}

struct Passes {
    name: &'static str,
}
impl LosslessTransform for Passes {
    fn name(&self) -> &'static str {
        self.name
    }
    fn applies_to(&self) -> &[ContentType] {
        &[ContentType::PlainText]
    }
    fn apply(&self, content: &str) -> Result<TransformResult, TransformError> {
        Ok(TransformResult::from_lengths(
            content.len(),
            content.into(),
            true,
        ))
    }
}

struct DropsOne {
    name: &'static str,
    handle: Option<&'static str>,
    types: Vec<ContentType>,
}
impl LossyTransform for DropsOne {
    fn name(&self) -> &'static str {
        self.name
    }
    fn applies_to(&self) -> &[ContentType] {
        &self.types
    }
    fn apply(
        &self,
        content: &str,
        ctx: &CompressionContext,
    ) -> Result<TransformResult, TransformError> {
        if ctx.query == "fail" {
            return Err(TransformError::internal(self.name, "asked to fail"));
        }
        let mut output = content.to_string();
        output.pop();
        let mut result = TransformResult::from_lengths(content.len(), output, false);
        result.reversible_via = self.handle.map(|h| h.to_string());
        Ok(result)
    }
    fn confidence(&self) -> Float32 {
        f32_of(1.0)
    }
}

fn drops_one(name: &'static str, handle: Option<&'static str>) -> Box<DropsOne> {
    Box::new(DropsOne {
        name,
        handle,
        types: vec![ContentType::PlainText],
    })
}

fn accept_all() -> PipelineConfig {
    PipelineConfig {
        min_savings_ratio: f64_of(0.0),
        lossless_target_ratio: f64_of(0.0),
    }
}

fn ctx() -> CompressionContext {
    CompressionContext::default()
}

#[test]
fn empty_pipeline_passes_input_through_unchanged() {
    let p = CompressionPipeline::builder().build();
    let input = "hello world";
    let r = p.run(input, ContentType::PlainText, &ctx());
    assert_eq!(r.output, input);
    assert_eq!(r.bytes_saved, 0);
    assert!(r.steps_applied.is_empty());
    assert!(r.structure_preserved);
    assert!(r.reversible_via.is_none());
}

#[test]
fn pipeline_with_no_applicable_transforms_passes_through() {
    let p = CompressionPipeline::builder()
        .with_lossless(Box::new(JsonMinifier))
        .build();
    let r = p.run("not json", ContentType::PlainText, &ctx());
    assert_eq!(r.output, "not json");
    assert!(r.steps_applied.is_empty());
}

#[test]
fn lossless_runs_when_applicable() {
    let p = CompressionPipeline::builder()
        .with_lossless(Box::new(JsonMinifier))
        .build();
    let pretty = r#"{
  "a": 1,
  "b": [1, 2, 3]
}"#;
    let r = p.run(pretty, ContentType::JsonArray, &ctx());
    assert!(r.bytes_saved > 0);
    assert_eq!(r.steps_applied, vec!["json_minifier".to_string()]);
    assert!(r.structure_preserved);
    assert!(r.output.len() < pretty.len());
}

#[test]
fn lossless_rejects_below_min_savings_ratio() {
    let p = CompressionPipeline::builder()
        .with_lossless(Box::new(JsonMinifier))
        .build();
    let r = p.run(r#"{"a":1}"#, ContentType::JsonArray, &ctx());
    assert_eq!(r.bytes_saved, 0);
    assert!(r.steps_applied.is_empty());
}

#[test]
fn lossless_continues_past_error() {
    let p = CompressionPipeline::builder()
        .with_lossless(Box::new(AlwaysErrors))
        .with_lossless(Box::new(TrivialLossless))
        .with_config(accept_all())
        .build();
    let r = p.run("hello\n", ContentType::PlainText, &ctx());
    assert_eq!(r.steps_applied, vec!["trivial_lossless".to_string()]);
    assert_eq!(r.bytes_saved, 1);
}

#[test]
fn lossless_stops_once_target_ratio_reached() {
    let p = CompressionPipeline::builder()
        .with_lossless(Box::new(HalvesContent))
        .with_lossless(Box::new(HalvesContent))
        .build();
    let input = "x".repeat(100);
    let r = p.run(&input, ContentType::PlainText, &ctx());
    assert_eq!(r.steps_applied.len(), 1);
    assert_eq!(r.output.len(), 50);
}

#[test]
fn lossy_runs_after_lossless() {
    let lif = LineImportanceFilter::new(Box::new(StubDetector)).with_config(
        LineImportanceFilterConfig {
            min_priority: f32_of(0.5),
            keep_first: 1,
            keep_last: 1,
            context: ImportanceContext::Text,
        },
    );
    let p = CompressionPipeline::builder()
        .with_lossless(Box::new(JsonMinifier))
        .with_lossy(Box::new(lif))
        .build();
    let input = (0..20)
        .map(|i| {
            if i == 10 {
                "KEEP me".into()
            } else {
                format!("noise {i}")
            }
        })
        .collect::<Vec<_>>()
        .join("\n");
    let r = p.run(&input, ContentType::PlainText, &ctx());
    assert!(r.bytes_saved > 0);
    assert_eq!(r.steps_applied, vec!["line_importance_filter".to_string()]);
    assert!(!r.structure_preserved);
    assert!(r.output.contains("KEEP me"));
}

#[test]
fn lossy_after_lossless_compounds_savings() {
    let p = CompressionPipeline::builder()
        .with_lossless(Box::new(JsonMinifier))
        .with_lossy(Box::new(JsonAsTextLossy))
        .build();
    let pretty = r#"{
  "users": [{"id": 1}, {"id": 2}, {"id": 3}, {"id": 4}]
}"#;
    let r = p.run(pretty, ContentType::JsonArray, &ctx());
    assert_eq!(
        r.steps_applied,
        vec!["json_minifier".to_string(), "json_truncator".to_string()]
    );
    assert!(!r.structure_preserved);
    assert!(r.bytes_saved > 0);
}

#[test]
fn structure_preserved_stays_true_when_only_lossless_runs() {
    let p = CompressionPipeline::builder()
        .with_lossless(Box::new(JsonMinifier))
        .build();
    let r = p.run(r#"{ "a": 1, "b": 2 }"#, ContentType::JsonArray, &ctx());
    assert!(r.structure_preserved);
}

#[test]
fn structure_preserved_flips_when_lossy_runs() {
    let lif = LineImportanceFilter::new(Box::new(StubDetector));
    let p = CompressionPipeline::builder()
        .with_lossy(Box::new(lif))
        .with_config(PipelineConfig {
            min_savings_ratio: f64_of(0.0),
            lossless_target_ratio: f64_of(0.5),
        })
        .build();
    let many = (0..30)
        .map(|i| format!("plain line {i}"))
        .collect::<Vec<_>>()
        .join("\n");
    let r = p.run(&many, ContentType::PlainText, &ctx());
    if !r.steps_applied.is_empty() {
        assert!(!r.structure_preserved);
    }
}

#[test]
fn is_acceptable_handles_zero_lengths() {
    let p = CompressionPipeline::builder().build();
    assert!(!p.is_acceptable(0, 100), "no savings → reject");
    assert!(!p.is_acceptable(50, 0), "current_len 0 → reject");
}

#[test]
fn is_acceptable_uses_min_savings_ratio() {
    let p = CompressionPipeline::builder()
        .with_config(PipelineConfig {
            min_savings_ratio: f64_of(0.10),
            lossless_target_ratio: f64_of(0.5),
        })
        .build();
    assert!(!p.is_acceptable(5, 100), "5% < 10% threshold → reject");
    assert!(p.is_acceptable(15, 100), "15% > 10% threshold → accept");
}

#[test]
fn should_keep_running_lossless_handles_zero_original() {
    let p = CompressionPipeline::builder().build();
    assert!(!p.should_keep_running_lossless(0, 0));
}

#[test]
fn builder_dispatches_by_applies_to() {
    let p = CompressionPipeline::builder()
        .with_lossless(Box::new(JsonMinifier))
        .with_lossless(Box::new(TrivialLossless))
        .build();
    assert_eq!(p.lossless_names(ContentType::JsonArray).len(), 1);
    assert_eq!(p.lossless_names(ContentType::PlainText).len(), 1);
}

#[test]
fn builder_preserves_registration_order() {
    let p = CompressionPipeline::builder()
        .with_lossless(Box::new(Passes { name: "a" }))
        .with_lossless(Box::new(Passes { name: "b" }))
        .build();
    let order: Vec<&str> = p.lossless_names(ContentType::PlainText);
    assert_eq!(order, vec!["a", "b"]);
}

#[test]
fn default_gates_are_exact() {
    let p = CompressionPipeline::builder().build();
    assert!(p.is_acceptable(5, 100));
    assert!(!p.is_acceptable(4, 100));
    assert!(p.is_acceptable(1, 20));
    assert!(!p.is_acceptable(1, 21));
    assert!(p.should_keep_running_lossless(51, 100));
    assert!(!p.should_keep_running_lossless(50, 100));
    assert!(p.should_keep_running_lossless(2, 3));
    assert!(!p.should_keep_running_lossless(1, 3));
    assert!(!p.should_keep_running_lossless(0, 3));
}

#[test]
fn gates_decide_as_floating_point_does() {
    let lengths = [
        1usize,
        2,
        3,
        7,
        19,
        20,
        21,
        99,
        100,
        1 << 20,
        (1 << 53) - 1,
        1 << 53,
        (1 << 53) + 1,
        (1 << 60) + 12345,
        usize::MAX - 1,
        usize::MAX,
    ];
    let thresholds = [
        0.0,
        -0.0,
        -1.0,
        0.05,
        0.1,
        1.0 / 3.0,
        0.5,
        0.9999999999999999,
        1.0,
        2.0,
        1e-320,
        f64::MIN_POSITIVE,
        f64::MAX,
        f64::INFINITY,
        f64::NEG_INFINITY,
        f64::NAN,
    ];
    for threshold in thresholds {
        let p = CompressionPipeline::builder()
            .with_config(PipelineConfig {
                min_savings_ratio: f64_of(threshold),
                lossless_target_ratio: f64_of(threshold),
            })
            .build();
        for part in lengths {
            for whole in lengths {
                let ratio = part as f64 / whole as f64;
                assert_eq!(
                    p.is_acceptable(part, whole),
                    ratio >= threshold,
                    "{part} of {whole} against {threshold}"
                );
                assert_eq!(
                    p.should_keep_running_lossless(part, whole),
                    ratio > threshold,
                    "{part} of {whole} against {threshold}"
                );
            }
            assert_eq!(p.should_keep_running_lossless(0, part), 0.0 > threshold);
        }
    }
}

#[test]
fn savings_are_the_difference_in_length() {
    let p = CompressionPipeline::builder()
        .with_lossless(Box::new(TrivialLossless))
        .with_lossless(Box::new(HalvesContent))
        .with_lossy(drops_one("one", None))
        .with_config(accept_all())
        .build();
    let input = "abcdefgh\n\n";
    let r = p.run(input, ContentType::PlainText, &ctx());
    assert_eq!(r.output, "abc");
    assert_eq!(r.bytes_saved, input.len() - r.output.len());
    assert_eq!(r.steps_applied, vec!["trivial_lossless", "halver", "one"]);
    assert!(!r.structure_preserved);
}

#[test]
fn the_most_recent_handle_wins() {
    let p = CompressionPipeline::builder()
        .with_lossy(drops_one("one", Some("first")))
        .with_lossy(drops_one("two", Some("second")))
        .with_lossy(drops_one("three", None))
        .with_config(accept_all())
        .build();
    let r = p.run("abcdef", ContentType::PlainText, &ctx());
    assert_eq!(r.reversible_via, Some("second".to_string()));
    assert_eq!(r.output, "abc");
}

#[test]
fn the_context_reaches_lossy_transforms() {
    let p = CompressionPipeline::builder()
        .with_lossy(drops_one("one", None))
        .with_config(accept_all())
        .build();
    let r = p.run(
        "abc",
        ContentType::PlainText,
        &CompressionContext::with_query("fail"),
    );
    assert_eq!(r.output, "abc");
    assert!(r.steps_applied.is_empty());
}

#[test]
fn a_type_listed_twice_runs_twice() {
    let p = CompressionPipeline::builder()
        .with_lossy(Box::new(DropsOne {
            name: "one",
            handle: None,
            types: vec![
                ContentType::PlainText,
                ContentType::BuildOutput,
                ContentType::PlainText,
            ],
        }))
        .with_config(accept_all())
        .build();
    assert_eq!(p.run("abc", ContentType::PlainText, &ctx()).output, "a");
    assert_eq!(p.run("abc", ContentType::BuildOutput, &ctx()).output, "ab");
    assert_eq!(p.run("abc", ContentType::JsonArray, &ctx()).output, "abc");
}

#[test]
fn the_lossy_phase_runs_after_the_target_is_reached() {
    let p = CompressionPipeline::builder()
        .with_lossless(Box::new(HalvesContent))
        .with_lossless(Box::new(HalvesContent))
        .with_lossy(drops_one("one", None))
        .build();
    let r = p.run("abcdefgh", ContentType::PlainText, &ctx());
    assert_eq!(r.steps_applied, vec!["halver", "one"]);
    assert_eq!(r.output, "abc");
}

#[test]
fn empty_content_passes_through() {
    let p = CompressionPipeline::builder()
        .with_lossless(Box::new(HalvesContent))
        .with_lossy(drops_one("one", None))
        .with_config(accept_all())
        .build();
    let r = p.run("", ContentType::PlainText, &ctx());
    assert_eq!(r.output, "");
    assert!(r.steps_applied.is_empty());
}

#[test]
fn an_outcome_is_kept_or_passed_over() {
    let p = CompressionPipeline::builder().build();
    let start = || PipelineResult {
        output: "x".repeat(100),
        bytes_saved: 7,
        structure_preserved: true,
        steps_applied: vec!["earlier".to_string()],
        reversible_via: Some("old".to_string()),
    };
    let step = |saved: usize, preserved: bool, handle: Option<&str>| TransformResult {
        output: "y".to_string(),
        bytes_saved: saved,
        structure_preserved: preserved,
        reversible_via: handle.map(|h| h.to_string()),
    };
    let (kept, event) = p.consider(start(), Phase::Lossless, "now", Ok(step(5, true, None)));
    assert!(event.is_none());
    assert_eq!(kept.output, "y");
    assert_eq!(kept.bytes_saved, 12);
    assert!(kept.structure_preserved);
    assert_eq!(kept.steps_applied, vec!["earlier", "now"]);
    assert_eq!(kept.reversible_via, Some("old".to_string()));
    let (full, event) = p.consider(start(), Phase::Lossless, "now", Ok(step(usize::MAX, false, Some("new"))));
    assert!(event.is_none());
    assert_eq!(full.bytes_saved, usize::MAX);
    assert!(!full.structure_preserved);
    assert_eq!(full.reversible_via, Some("new".to_string()));
    let (small, event) = p.consider(start(), Phase::Lossless, "now", Ok(step(4, false, Some("new"))));
    assert!(matches!(
        event,
        Some(PipelineEvent::Rejected { phase: Phase::Lossless, transform: "now", bytes_saved: 4 })
    ));
    assert_eq!(small.output, "x".repeat(100));
    assert_eq!(small.bytes_saved, 7);
    assert!(small.structure_preserved);
    assert_eq!(small.steps_applied, vec!["earlier"]);
    let grown = TransformResult {
        output: "z".repeat(100),
        bytes_saved: 50,
        structure_preserved: true,
        reversible_via: None,
    };
    let (grown, event) = p.consider(start(), Phase::Lossless, "now", Ok(grown));
    assert!(matches!(
        event,
        Some(PipelineEvent::Rejected { phase: Phase::Lossless, transform: "now", bytes_saved: 50 })
    ));
    assert_eq!(grown.output, "x".repeat(100));
    assert_eq!(grown.steps_applied, vec!["earlier"]);
    let (lossy, event) = p.consider(start(), Phase::Lossy, "now", Ok(step(5, true, None)));
    assert!(event.is_none());
    assert_eq!(lossy.output, "y");
    assert_eq!(lossy.steps_applied, vec!["earlier", "now"]);
    assert!(!lossy.structure_preserved);
    let (spared, event) = p.consider(start(), Phase::Lossy, "now", Ok(step(4, true, None)));
    assert!(matches!(
        event,
        Some(PipelineEvent::Rejected { phase: Phase::Lossy, transform: "now", bytes_saved: 4 })
    ));
    assert!(spared.structure_preserved);
    let (failed, event) = p.consider(start(), Phase::Lossless, "now", Err(TransformError::skipped("now", "no")));
    assert!(matches!(
        event,
        Some(PipelineEvent::Failed {
            phase: Phase::Lossless,
            transform: "now",
            error: TransformError::Skipped { .. },
        })
    ));
    assert_eq!(failed.bytes_saved, 7);
    assert_eq!(failed.reversible_via, Some("old".to_string()));
}

#[test]
fn default_result_is_empty() {
    let r = PipelineResult::default();
    assert_eq!(r.output, "");
    assert_eq!(r.bytes_saved, 0);
    assert!(!r.structure_preserved);
    assert!(r.steps_applied.is_empty());
    assert_eq!(r.reversible_via, None);
}

#[test]
fn default_thresholds_are_a_twentieth_and_a_half() {
    let c = PipelineConfig::default();
    assert_eq!(f64::from_bits(c.min_savings_ratio.bits), 0.05);
    assert_eq!(f64::from_bits(c.lossless_target_ratio.bits), 0.5);
}

#[test]
fn a_run_keeps_what_its_transforms_keep() {
    let p = CompressionPipeline::builder()
        .with_lossless(Box::new(JsonMinifier))
        .with_lossless(Box::new(JsonMinifier))
        .with_config(accept_all())
        .build();
    let pretty = "{ \"b\" : [ 1, 2 ],\n  \"a\" : \"x\" }";
    let r = p.run(pretty, ContentType::JsonArray, &ctx());
    assert_eq!(r.steps_applied, vec!["json_minifier"]);
    let before: serde_json::Value = serde_json::from_str(pretty).unwrap();
    let after: serde_json::Value = serde_json::from_str(&r.output).unwrap();
    assert_eq!(before, after);
}

struct ClaimsStructure;
impl LossyTransform for ClaimsStructure {
    fn name(&self) -> &'static str {
        "l"
    }
    fn applies_to(&self) -> &[ContentType] {
        &[ContentType::PlainText]
    }
    fn apply(
        &self,
        _content: &str,
        _ctx: &CompressionContext,
    ) -> Result<TransformResult, TransformError> {
        Ok(TransformResult {
            output: "hello".to_string(),
            bytes_saved: 6,
            structure_preserved: true,
            reversible_via: None,
        })
    }
    fn confidence(&self) -> Float32 {
        f32_of(1.0)
    }
}

#[test]
fn a_lossy_step_clears_the_structure_flag_whatever_it_reports() {
    let p = CompressionPipeline::builder()
        .with_lossy(Box::new(ClaimsStructure))
        .build();
    let r = p.run("hello world", ContentType::PlainText, &ctx());
    assert_eq!(r.output, "hello");
    assert_eq!(r.steps_applied, vec!["l"]);
    assert!(!r.structure_preserved);
    let r = p.run("hello", ContentType::PlainText, &ctx());
    assert!(r.steps_applied.is_empty());
    assert!(r.structure_preserved);
}

/// Writes down each call, and cuts the content to `keep` bytes.
struct Recorder {
    name: &'static str,
    keep: usize,
    content_type: [ContentType; 1],
    calls: Arc<Mutex<Vec<String>>>,
}
impl Recorder {
    fn cut(&self, content: &str, query: &str) -> Result<TransformResult, TransformError> {
        let call = format!("{}({}{query})", self.name, content.len());
        self.calls.lock().unwrap().push(call);
        let output = content[..self.keep.min(content.len())].to_string();
        Ok(TransformResult::from_lengths(content.len(), output, true))
    }
}
impl LosslessTransform for Recorder {
    fn name(&self) -> &'static str {
        self.name
    }
    fn applies_to(&self) -> &[ContentType] {
        &self.content_type
    }
    fn apply(&self, content: &str) -> Result<TransformResult, TransformError> {
        self.cut(content, "")
    }
}
impl LossyTransform for Recorder {
    fn name(&self) -> &'static str {
        self.name
    }
    fn applies_to(&self) -> &[ContentType] {
        &self.content_type
    }
    fn apply(
        &self,
        content: &str,
        ctx: &CompressionContext,
    ) -> Result<TransformResult, TransformError> {
        self.cut(content, &format!(" {}", ctx.query))
    }
    fn confidence(&self) -> Float32 {
        f32_of(1.0)
    }
}

#[test]
fn transforms_are_called_in_order_until_the_target_is_reached() {
    let calls = Arc::new(Mutex::new(Vec::new()));
    let cuts = |name, keep, content_type| {
        Box::new(Recorder {
            name,
            keep,
            content_type: [content_type],
            calls: calls.clone(),
        })
    };
    let p = CompressionPipeline::builder()
        .with_lossy(cuts("d", 30, ContentType::PlainText))
        .with_lossless(cuts("a", 80, ContentType::PlainText))
        .with_lossless(cuts("other", 1, ContentType::SearchResults))
        .with_lossless(cuts("same", 90, ContentType::PlainText))
        .with_lossless(cuts("b", 50, ContentType::PlainText))
        .with_lossless(cuts("never", 10, ContentType::PlainText))
        .with_lossy(cuts("other", 1, ContentType::SearchResults))
        .with_lossy(cuts("e", 20, ContentType::PlainText))
        .build();
    let r = p.run(
        &"x".repeat(100),
        ContentType::PlainText,
        &CompressionContext::with_query("q"),
    );
    assert_eq!(
        *calls.lock().unwrap(),
        vec!["a(100)", "same(80)", "b(80)", "d(50 q)", "e(30 q)"]
    );
    assert_eq!(r.steps_applied, vec!["a", "b", "d", "e"]);
    assert_eq!(r.output.len(), 20);
}

#[test]
fn transforms_that_save_nothing_change_no_run() {
    let input = "x".repeat(99) + "\n";
    let result = |at: usize| {
        let mut b = CompressionPipeline::builder().with_config(accept_all());
        for i in 0..3 {
            if i == at {
                b = b
                    .with_lossless(Box::new(AlwaysErrors))
                    .with_lossless(Box::new(Passes { name: "passes" }));
            }
            if i == 0 {
                b = b.with_lossless(Box::new(TrivialLossless));
            } else if i == 1 {
                b = b.with_lossless(Box::new(HalvesContent));
            }
        }
        b.with_lossy(drops_one("drop", Some("key")))
            .build()
            .run(&input, ContentType::PlainText, &ctx())
    };
    let plain = result(9);
    assert_eq!(plain.steps_applied, vec!["trivial_lossless", "halver", "drop"]);
    assert_eq!(plain.output, "x".repeat(48));
    for at in 0..3 {
        let r = result(at);
        assert_eq!(r.output, plain.output);
        assert_eq!(r.bytes_saved, plain.bytes_saved);
        assert_eq!(r.structure_preserved, plain.structure_preserved);
        assert_eq!(r.steps_applied, plain.steps_applied);
        assert_eq!(r.reversible_via, plain.reversible_via);
    }
}

#[test]
fn a_lossy_transform_that_fails_changes_no_run() {
    let p = |failing: bool| {
        let mut b = CompressionPipeline::builder().with_config(accept_all());
        if failing {
            let lif = LineImportanceFilter::new(Box::new(StubDetector));
            b = b.with_lossy(Box::new(lif));
        }
        b.with_lossy(drops_one("drop", None)).build()
    };
    let with = p(true).run("abc", ContentType::PlainText, &ctx());
    let without = p(false).run("abc", ContentType::PlainText, &ctx());
    assert_eq!(with.output, "ab");
    assert_eq!(without.output, "ab");
    assert_eq!(with.steps_applied, without.steps_applied);
}

#[test]
fn registered_transforms_are_listed_last() {
    let passes = |name| Registered::<dyn LosslessTransform> {
        transform: Box::new(Passes { name }),
    };
    let p = CompressionPipeline::builder()
        .with_lossless(Box::new(Passes { name: "a" }))
        .with_registered_lossless(passes("b"))
        .with_registered_lossy(Registered {
            transform: drops_one("c", None),
        })
        .with_config(accept_all())
        .build();
    assert_eq!(p.lossless_names(ContentType::PlainText), vec!["a", "b"]);
    assert!(p.lossless_names(ContentType::SearchResults).is_empty());
    let r = p.run("xyz", ContentType::PlainText, &ctx());
    assert_eq!(r.steps_applied, vec!["c"]);
}

fn told(event: &PipelineEvent) -> String {
    match event {
        PipelineEvent::TargetReached {
            transform,
            current_len,
            original_len,
        } => format!("{transform} {current_len} of {original_len}"),
        PipelineEvent::Rejected {
            phase,
            transform,
            bytes_saved,
        } => format!("{phase:?} {transform} saved {bytes_saved}"),
        PipelineEvent::Failed {
            phase,
            transform,
            error,
        } => format!("{phase:?} {transform}: {}", error.to_string()),
    }
}

#[test]
fn a_run_reports_what_it_passes_over() {
    let p = CompressionPipeline::builder()
        .with_lossless(Box::new(AlwaysErrors))
        .with_lossless(Box::new(Passes { name: "passes" }))
        .with_lossless(Box::new(HalvesContent))
        .with_lossless(Box::new(Passes { name: "late" }))
        .with_lossless(Box::new(Passes { name: "later" }))
        .with_lossy(drops_one("drop", None))
        .build();
    let input = "x".repeat(100);
    let fail = CompressionContext::with_query("fail");
    let (r, events) = p.run_and_report(&input, ContentType::PlainText, &fail);
    assert_eq!(r.steps_applied, vec!["halver"]);
    assert_eq!(
        events.iter().map(told).collect::<Vec<_>>(),
        vec![
            "Lossless always_errors: invalid input for always_errors: by design",
            "Lossless passes saved 0",
            "late 50 of 100",
            "Lossy drop: drop internal error: asked to fail",
        ]
    );
    let (r, events) = p.run_and_report(&input, ContentType::PlainText, &ctx());
    assert_eq!(r.output, p.run(&input, ContentType::PlainText, &ctx()).output);
    assert_eq!(told(&events[3]), "Lossy drop saved 1");
    assert_eq!(events.len(), 4);
}

#[test]
fn every_transform_is_recorded_or_reported() {
    let p = CompressionPipeline::builder()
        .with_lossless(Box::new(AlwaysErrors))
        .with_lossless(Box::new(TrivialLossless))
        .with_lossless(Box::new(Passes { name: "passes" }))
        .with_lossy(drops_one("drop", None))
        .with_config(accept_all())
        .build();
    let (r, events) = p.run_and_report("hello\n", ContentType::PlainText, &ctx());
    assert_eq!(r.steps_applied, vec!["trivial_lossless", "drop"]);
    assert_eq!(events.len(), 2);
    let (r, events) = p.run_and_report("", ContentType::PlainText, &ctx());
    assert!(r.steps_applied.is_empty());
    assert_eq!(
        events.iter().map(told).collect::<Vec<_>>(),
        vec!["always_errors 0 of 0", "Lossy drop saved 0"]
    );
}
