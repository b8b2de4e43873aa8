use headroom::transforms::pipeline::{
    CompressionContext, LosslessTransform, TransformError, TransformResult,
};
use headroom::transforms::ContentType;

struct AlwaysSavesNothing;
impl LosslessTransform for AlwaysSavesNothing {
    fn name(&self) -> &'static str {
        "test_no_op"
    }
    fn applies_to(&self) -> &[ContentType] {
        &[ContentType::PlainText]
    }
    fn apply(&self, content: &str) -> Result<TransformResult, TransformError> {
        Ok(TransformResult {
            output: content.to_string(),
            bytes_saved: 0,
            structure_preserved: true,
            reversible_via: None,
        })
    }
}

#[test]
fn from_lengths_clamps_negative_savings_to_zero() {
    let r = TransformResult::from_lengths(10, "this is longer than 10 bytes".into(), true);
    assert_eq!(r.bytes_saved, 0);
}

#[test]
fn transform_error_messages_round_trip() {
    let e = TransformError::invalid_input("json_minifier", "bad token at line 3");
    let msg = e.to_string();
    assert!(msg.contains("json_minifier"));
    assert!(msg.contains("bad token at line 3"));
}

#[test]
fn compression_context_constructors_are_clean() {
    let q = CompressionContext::with_query("find errors");
    assert_eq!(q.query, "find errors");
    assert_eq!(q.token_budget, None);

    let b = CompressionContext::with_budget(2048);
    assert_eq!(b.query, "");
    assert_eq!(b.token_budget, Some(2048));
}

#[test]
fn no_op_lossless_transform_is_a_real_impl() {
    let t = AlwaysSavesNothing;
    let r = t.apply("hello").expect("no-op never errors");
    assert_eq!(r.bytes_saved, 0);
    assert_eq!(t.applies_to(), &[ContentType::PlainText]);
    assert_eq!(t.name(), "test_no_op");
}

#[test]
fn from_lengths_counts_bytes() {
    let r = TransformResult::from_lengths(10, "é🌍".to_string(), false);
    assert_eq!(r.bytes_saved, 4);
    assert_eq!(r.output, "é🌍");
    assert!(!r.structure_preserved);
    assert_eq!(r.reversible_via, None);
}

#[test]
fn each_error_has_its_sentence() {
    assert_eq!(
        TransformError::invalid_input("t", "m").to_string(),
        "invalid input for t: m"
    );
    assert_eq!(
        TransformError::skipped("t", "m".to_string()).to_string(),
        "t skipped: m"
    );
    assert_eq!(
        TransformError::internal("t", "m").to_string(),
        "t internal error: m"
    );
}

#[test]
fn default_context_is_empty() {
    let c = CompressionContext::default();
    assert_eq!(c.query, "");
    assert_eq!(c.token_budget, None);
    assert_eq!(CompressionContext::with_query("q".to_string()).query, "q");
}
