use headroom::float::Float32;
use headroom::scoring::messages::{
    compute_density_counts, count_words, estimate_tokens, is_from, is_output, parse_tool_content,
    read_text,
};
use headroom::scoring::references::compute_forward_references;
use headroom::scoring::score::ToinImportance;
use headroom::scoring::scorer::{
    is_drop_safe, position_from_end, read_recent_context, weigh_pattern,
};
use headroom::scoring::traits::{count_error_fields, EmbeddingError, FieldSemantics};
use headroom::scoring::{
    EmbeddingProvider, MessageScorer, ToinFieldSemantic, ToinPattern, ToinProvider,
};
use serde_json::Value;
use std::collections::{HashMap, HashSet};
use std::sync::atomic::{AtomicUsize, Ordering};
use std::sync::Arc;

fn f32_of(x: f32) -> Float32 {
    Float32 { bits: x.to_bits() }
}

fn msg(role: &str, content: &str) -> Value {
    let mut m = serde_json::Map::new();
    m.insert("role".to_string(), Value::String(role.to_string()));
    m.insert("content".to_string(), Value::String(content.to_string()));
    Value::Object(m)
}

fn with_content(role: &str, content: Value) -> Value {
    let mut m = serde_json::Map::new();
    m.insert("role".to_string(), Value::String(role.to_string()));
    m.insert("content".to_string(), content);
    Value::Object(m)
}

fn calling(ids: &[&str]) -> Value {
    let calls = ids
        .iter()
        .map(|id| {
            let mut tc = serde_json::Map::new();
            tc.insert("id".to_string(), Value::String(id.to_string()));
            Value::Object(tc)
        })
        .collect();
    let mut m = serde_json::Map::new();
    m.insert("role".to_string(), Value::String("assistant".to_string()));
    m.insert("tool_calls".to_string(), Value::Array(calls));
    Value::Object(m)
}

fn answering(id: &str) -> Value {
    let mut m = serde_json::Map::new();
    m.insert("role".to_string(), Value::String("tool".to_string()));
    m.insert("tool_call_id".to_string(), Value::String(id.to_string()));
    m.insert("content".to_string(), Value::String("result".to_string()));
    Value::Object(m)
}

fn parse(text: &str) -> Value {
    serde_json::from_str(text).unwrap()
}

fn empty_set() -> HashSet<usize> {
    HashSet::new()
}

/// The density factor that the counts stand for.
fn density(counts: Option<(usize, usize)>) -> f32 {
    match counts {
        Some((unique, total)) => {
            let density = unique as f32 / total as f32;
            ((density - 0.2) / 0.6).clamp(0.0, 1.0)
        }
        None => 0.5,
    }
}

/// The recency factor that the place stands for.
fn recency(position: Option<usize>) -> f32 {
    match position {
        Some(position) => (-0.1f32 * position as f32).exp(),
        None => 1.0,
    }
}

/// The reference factor that the count stands for.
fn reference(count: usize) -> f32 {
    if count == 0 {
        0.0
    } else {
        (0.3 + 0.2 * ((count + 1) as f32).ln()).min(1.0)
    }
}

/// Counts its calls and returns the length of the text.
struct LengthEmbedder {
    calls: Arc<AtomicUsize>,
}
impl EmbeddingProvider for LengthEmbedder {
    fn embed(&self, text: &str) -> Result<Vec<Float32>, EmbeddingError> {
        self.calls.fetch_add(1, Ordering::SeqCst);
        if text == "fail" {
            return Err(EmbeddingError("asked to fail".to_string()));
        }
        Ok(vec![f32_of(text.len() as f32), f32_of(1.0)])
    }
}

fn embedder() -> (Arc<AtomicUsize>, Option<Box<dyn EmbeddingProvider>>) {
    let calls = Arc::new(AtomicUsize::new(0));
    (calls.clone(), Some(Box::new(LengthEmbedder { calls })))
}

/// Knows arrays; the confidence is the first number in the array.
struct ArrayToin;
impl ToinProvider for ArrayToin {
    fn pattern_for_tool_content(&self, content: &Value) -> Option<ToinPattern> {
        let items = content.as_array()?;
        let mut field_semantics = FieldSemantics::new();
        field_semantics.insert("e1".to_string(), semantic("error_indicator", 0.85));
        field_semantics.insert("e2".to_string(), semantic("error_indicator", 0.5));
        field_semantics.insert("id".to_string(), semantic("identifier", 0.9));
        Some(ToinPattern {
            confidence: f32_of(items[0].as_f64()? as f32),
            retrieval_rate: f32_of(0.6),
            commonly_retrieved_fields: vec!["e1".to_string(), "id".to_string()],
            field_semantics,
        })
    }
}

fn semantic(inferred_type: &str, confidence: f32) -> ToinFieldSemantic {
    ToinFieldSemantic {
        inferred_type: inferred_type.to_string(),
        confidence: f32_of(confidence),
    }
}

fn pattern(confidence: f32, field_semantics: FieldSemantics) -> ToinPattern {
    ToinPattern {
        confidence: f32_of(confidence),
        retrieval_rate: f32_of(0.25),
        commonly_retrieved_fields: vec!["x".to_string(); 3],
        field_semantics,
    }
}

#[test]
fn recency_single_message_returns_one() {
    assert_eq!(recency(position_from_end(0, 1)), 1.0);
    assert_eq!(recency(position_from_end(0, 0)), 1.0);
}

#[test]
fn recency_last_message_full_score() {
    assert!((recency(position_from_end(4, 5)) - 1.0).abs() < 1e-6);
}

#[test]
fn recency_decays_exponentially() {
    let expected = (-0.9f32).exp();
    let got = recency(position_from_end(0, 10));
    assert!(
        (got - expected).abs() < 1e-6,
        "expected {expected}, got {got}"
    );
}

#[test]
fn density_short_content_is_neutral() {
    let m = msg("user", "hi");
    assert_eq!(density(compute_density_counts(&m)), 0.5);
    assert_eq!(compute_density_counts(&m), None);
}

#[test]
fn density_few_tokens_is_neutral() {
    let m = msg("user", "abcdefghij");
    assert_eq!(density(compute_density_counts(&m)), 0.5);
    assert_eq!(compute_density_counts(&m), None);
}

#[test]
fn density_all_unique_clamps_to_one() {
    let m = msg(
        "user",
        "alpha bravo charlie delta echo foxtrot golf hotel india juliet",
    );
    assert!((density(compute_density_counts(&m)) - 1.0).abs() < 1e-6);
    assert_eq!(compute_density_counts(&m), Some((10, 10)));
}

#[test]
fn density_repeated_tokens_lowers_score() {
    let m = msg(
        "user",
        "alpha bravo charlie delta alpha bravo charlie delta",
    );
    let got = density(compute_density_counts(&m));
    assert!((got - 0.5).abs() < 1e-6, "got {got}");
    assert_eq!(compute_density_counts(&m), Some((4, 8)));
}

#[test]
fn density_non_string_content_is_neutral() {
    let mut m = serde_json::Map::new();
    m.insert("role".to_string(), Value::String("assistant".to_string()));
    m.insert(
        "tool_calls".to_string(),
        Value::Array(vec![Value::Object(serde_json::Map::new())]),
    );
    let v = Value::Object(m);
    assert_eq!(density(compute_density_counts(&v)), 0.5);
    assert_eq!(compute_density_counts(&v), None);
}

#[test]
fn forward_refs_links_tool_response_to_assistant() {
    let messages = vec![
        msg("user", "do thing"),
        calling(&["call_1"]),
        answering("call_1"),
    ];
    let refs = compute_forward_references(&messages);
    assert_eq!(refs.get(&1), Some(&1));
    assert_eq!(refs.get(&0), None);
}

#[test]
fn forward_refs_unmatched_tool_call_id_ignored() {
    let messages = vec![answering("nope")];
    let refs = compute_forward_references(&messages);
    assert!(refs.is_empty());
}

#[test]
fn reference_score_zero_refs_returns_zero() {
    let mut s = MessageScorer::with_defaults();
    let refs = HashMap::new();
    let score = s.score_message(&msg("user", "hi"), 0, 1, false, false, &refs, None);
    assert_eq!(score.reference_count, 0);
    assert_eq!(reference(score.reference_count), 0.0);
}

#[test]
fn reference_score_one_ref_uses_log_formula() {
    let mut s = MessageScorer::with_defaults();
    let mut refs = HashMap::new();
    refs.insert(0, 1);
    let score = s.score_message(&msg("user", "hi"), 0, 1, false, false, &refs, None);
    let expected = 0.3 + 0.2 * 2f32.ln();
    let got = reference(score.reference_count);
    assert!((got - expected).abs() < 1e-6, "got {got}");
}

#[test]
fn reference_score_clamps_to_one() {
    let mut s = MessageScorer::with_defaults();
    let mut refs = HashMap::new();
    refs.insert(0, 1_000_000);
    let score = s.score_message(&msg("user", "hi"), 0, 1, false, false, &refs, None);
    assert_eq!(score.reference_count, 1_000_000);
    assert!(reference(score.reference_count) <= 1.0);
}

#[test]
fn semantic_score_no_provider_returns_neutral() {
    let mut s = MessageScorer::with_defaults();
    let m = msg("user", "hello world");
    assert!(s.compute_semantic(&m, 0, None).is_none());
}

#[test]
fn toin_score_no_provider_returns_neutral() {
    let s = MessageScorer::with_defaults();
    let m = msg("tool", "{}");
    assert!(s.compute_toin(&m).is_none());
}

#[test]
fn error_score_no_provider_returns_zero() {
    let s = MessageScorer::with_defaults();
    let m = msg("tool", "{}");
    assert_eq!(s.compute_errors(&m), (0, 0));
}

#[test]
fn estimate_tokens_string_uses_char_count() {
    let m = msg("user", "abcdefghijklmnop");
    assert_eq!(estimate_tokens(&m), 4);
}

#[test]
fn estimate_tokens_unicode_is_char_aware() {
    let m = msg("user", "🎉🎉🎉🎉");
    assert_eq!(estimate_tokens(&m), 1);
}

#[test]
fn estimate_tokens_non_string_returns_default() {
    let mut m = serde_json::Map::new();
    m.insert("role".to_string(), Value::String("assistant".to_string()));
    m.insert("tool_calls".to_string(), Value::Array(vec![]));
    let v = Value::Object(m);
    assert_eq!(estimate_tokens(&v), 100);
}

#[test]
fn drop_safe_mirrors_python_or_logic() {
    let mut s = MessageScorer::with_defaults();
    let m = msg("user", "hi");
    let refs = HashMap::new();
    let cases = [
        (false, false, true),
        (false, true, true),
        (true, false, true),
        (true, true, false),
    ];
    for (in_tu, prot, expected) in cases {
        let score = s.score_message(&m, 0, 1, prot, in_tu, &refs, None);
        assert_eq!(
            score.drop_safe, expected,
            "in_tool_unit={in_tu} protected={prot}"
        );
        assert_eq!(is_drop_safe(in_tu, prot), expected);
    }
}

#[test]
fn score_messages_returns_one_score_per_message() {
    let mut s = MessageScorer::with_defaults();
    let messages = vec![
        msg("user", "hello"),
        msg("assistant", "hi there"),
        msg("user", "thanks"),
    ];
    let scores = s.score_messages(&messages, &empty_set(), &empty_set());
    assert_eq!(scores.len(), 3);
    assert_eq!(scores[0].message_index, 0);
    assert_eq!(scores[2].message_index, 2);
}

#[test]
fn score_messages_protected_indices_are_marked() {
    let mut s = MessageScorer::with_defaults();
    let messages = vec![msg("user", "hi"), msg("user", "bye")];
    let mut protected = HashSet::new();
    protected.insert(0);
    let scores = s.score_messages(&messages, &protected, &empty_set());
    assert!(scores[0].is_protected);
    assert!(!scores[1].is_protected);
}

#[test]
fn embedding_error_is_displayable() {
    let e = EmbeddingError("model not loaded".to_string());
    assert_eq!(e.to_string(), "embedding error: model not loaded");
}

#[test]
fn places_count_from_the_end() {
    assert_eq!(position_from_end(0, 1), None);
    assert_eq!(position_from_end(7, 1), None);
    assert_eq!(position_from_end(0, 2), Some(1));
    assert_eq!(position_from_end(1, 2), Some(0));
    assert_eq!(position_from_end(2, 10), Some(7));
}

#[test]
fn words_are_counted_in_lower_case() {
    let m = msg("user", "Alpha ALPHA alpha Éa éa");
    assert_eq!(compute_density_counts(&m), Some((2, 5)));
    assert_eq!(count_words("a b"), None);
    assert_eq!(count_words("a b a"), Some((2, 3)));
    assert_eq!(count_words("A a a"), Some((2, 3)));
}

#[test]
fn density_starts_at_ten_characters() {
    assert_eq!(compute_density_counts(&msg("user", "a b c d e")), None);
    assert_eq!(
        compute_density_counts(&msg("user", "a b c d ef")),
        Some((5, 5))
    );
}

#[test]
fn references_go_to_the_latest_caller() {
    let messages = vec![
        calling(&["x", "y"]),
        answering("x"),
        calling(&["x"]),
        answering("x"),
        answering("y"),
        answering("x"),
        answering("z"),
        msg("tool", "no id"),
    ];
    let refs = compute_forward_references(&messages);
    assert_eq!(refs.get(&0), Some(&2));
    assert_eq!(refs.get(&2), Some(&2));
    assert_eq!(refs.len(), 2);
}

#[test]
fn references_need_the_right_roles() {
    let mut caller = calling(&["x"]);
    caller["role"] = Value::String("user".to_string());
    let refs = compute_forward_references(&[caller, answering("x")]);
    assert!(refs.is_empty());
    let mut answer = answering("x");
    answer["role"] = Value::String("user".to_string());
    let refs = compute_forward_references(&[calling(&["x"]), answer]);
    assert!(refs.is_empty());
    let refs = compute_forward_references(&[answering("x"), calling(&["x"])]);
    assert!(refs.is_empty());
    let mut odd = calling(&["x"]);
    odd["tool_calls"] = Value::String("x".to_string());
    let refs = compute_forward_references(&[odd, answering("x")]);
    assert!(refs.is_empty());
}

#[test]
fn tool_content_is_parsed() {
    let read = |content: &str| parse_tool_content(&msg("tool", content));
    assert_eq!(read("[1]"), Some(parse("[1]")));
    assert_eq!(read("{\"a\": [2]}"), Some(parse("{\"a\":[2]}")));
    assert_eq!(read("{}"), Some(parse("{}")));
    assert_eq!(read("[]"), None);
    assert_eq!(read(""), None);
    assert_eq!(read("3"), None);
    assert_eq!(read("\"text\""), None);
    assert_eq!(read("not json"), None);
}

#[test]
fn tool_content_may_be_a_document() {
    let read = |content: Value| parse_tool_content(&with_content("tool", content));
    assert_eq!(read(parse("[1]")), Some(parse("[1]")));
    assert_eq!(read(parse("{}")), Some(parse("{}")));
    assert_eq!(read(parse("[]")), None);
    assert_eq!(read(Value::Null), None);
    assert_eq!(read(Value::Bool(true)), None);
    assert_eq!(parse_tool_content(&parse("{\"role\":\"tool\"}")), None);
    assert_eq!(parse_tool_content(&parse("[1]")), None);
}

#[test]
fn outputs_are_objects_or_arrays_with_items() {
    assert!(is_output(&parse("{}")));
    assert!(is_output(&parse("[null]")));
    assert!(!is_output(&parse("[]")));
    assert!(!is_output(&parse("\"x\"")));
    assert!(!is_output(&parse("0.5")));
}

#[test]
fn members_are_read() {
    let m = parse("{\"role\":\"tool\",\"n\":1}");
    assert_eq!(read_text(&m, "role"), Some("tool"));
    assert_eq!(read_text(&m, "n"), None);
    assert_eq!(read_text(&m, "x"), None);
    assert_eq!(read_text(&parse("[]"), "role"), None);
    assert!(is_from(&m, "tool"));
    assert!(!is_from(&m, "user"));
    assert!(!is_from(&parse("{\"role\":7}"), "user"));
}

#[test]
fn recent_context_joins_the_last_messages() {
    let messages = vec![
        msg("user", "one"),
        msg("user", "two"),
        msg("user", "  "),
        calling(&["x"]),
        msg("user", "three"),
    ];
    assert_eq!(
        read_recent_context(&messages, 4),
        Some("two three".to_string())
    );
    assert_eq!(read_recent_context(&messages, 1), Some("three".to_string()));
    assert_eq!(
        read_recent_context(&messages, 9),
        Some("one two three".to_string())
    );
    assert_eq!(read_recent_context(&messages[2..4], 2), None);
    assert_eq!(read_recent_context(&messages, 0), None);
    assert_eq!(read_recent_context(&[], 3), None);
}

#[test]
fn embeddings_are_compared_with_the_recent_context() {
    let (calls, provider) = embedder();
    let mut s = MessageScorer::new(None, provider);
    let messages = vec![
        msg("user", "a"),
        msg("user", "bb"),
        msg("user", " "),
        msg("user", "fail"),
    ];
    let scores = s.score_messages(&messages, &empty_set(), &empty_set());
    let pair = scores[0].semantic.as_ref().unwrap();
    assert_eq!(f32::from_bits(pair.message[0].bits), 1.0);
    assert_eq!(f32::from_bits(pair.recent[0].bits), "bb fail".len() as f32);
    let pair = scores[1].semantic.as_ref().unwrap();
    assert_eq!(f32::from_bits(pair.message[0].bits), 2.0);
    assert!(scores[2].semantic.is_none());
    assert!(scores[3].semantic.is_none());
    assert_eq!(calls.load(Ordering::SeqCst), 4);
}

#[test]
fn the_embedding_of_a_message_is_computed_once() {
    let (calls, provider) = embedder();
    let mut s = MessageScorer::new(None, provider);
    s.score_messages(&[msg("user", "a")], &empty_set(), &empty_set());
    assert_eq!(calls.load(Ordering::SeqCst), 2);
    let scores = s.score_messages(
        &[msg("user", "a"), msg("user", "bcd")],
        &empty_set(),
        &empty_set(),
    );
    assert_eq!(calls.load(Ordering::SeqCst), 4);
    let pair = scores[0].semantic.as_ref().unwrap();
    assert_eq!(f32::from_bits(pair.message[0].bits), 1.0);
    assert_eq!(f32::from_bits(pair.recent[0].bits), 5.0);
}

#[test]
fn messages_are_compared_by_their_own_content() {
    let (calls, provider) = embedder();
    let mut s = MessageScorer::new(None, provider);
    s.score_messages(&[msg("user", "a")], &empty_set(), &empty_set());
    let scores = s.score_messages(&[msg("user", "longer")], &empty_set(), &empty_set());
    assert_eq!(calls.load(Ordering::SeqCst), 4);
    let pair = scores[0].semantic.as_ref().unwrap();
    assert_eq!(f32::from_bits(pair.message[0].bits), 6.0);
    assert_eq!(f32::from_bits(pair.recent[0].bits), 6.0);
    let scores = s.score_messages(&[msg("user", "longer")], &empty_set(), &empty_set());
    assert_eq!(calls.load(Ordering::SeqCst), 5);
    let pair = scores[0].semantic.as_ref().unwrap();
    assert_eq!(f32::from_bits(pair.message[0].bits), 6.0);
}

#[test]
fn a_failed_context_leaves_messages_neutral() {
    let (calls, provider) = embedder();
    let mut s = MessageScorer::new(None, provider);
    let scores = s.score_messages(&[msg("user", "fail")], &empty_set(), &empty_set());
    assert!(scores[0].semantic.is_none());
    assert_eq!(calls.load(Ordering::SeqCst), 1);
}

#[test]
fn learned_patterns_count_for_tools_only() {
    let s = MessageScorer::new(Some(Box::new(ArrayToin)), None);
    let found: ToinImportance = s.compute_toin(&msg("tool", "[0.75]")).unwrap();
    assert_eq!(f32::from_bits(found.retrieval_rate.bits), 0.6);
    assert_eq!(found.retrieved_fields, 2);
    assert!(s.compute_toin(&msg("user", "[0.75]")).is_none());
    assert!(s.compute_toin(&msg("tool", "{}")).is_none());
    assert!(s.compute_toin(&msg("tool", "[0.2]")).is_none());
    assert_eq!(s.compute_errors(&msg("tool", "[0.75]")), (2, 1));
    assert_eq!(s.compute_errors(&msg("tool", "[0.1]")), (0, 0));
    assert_eq!(s.compute_errors(&msg("tool", "[0.2]")), (0, 0));
    assert_eq!(s.compute_errors(&msg("tool", "[0.3]")), (2, 1));
    assert_eq!(s.compute_errors(&msg("user", "[0.75]")), (0, 0));
    assert_eq!(s.compute_errors(&msg("tool", "{}")), (0, 0));
}

#[test]
fn patterns_count_from_a_confidence_of_three_tenths() {
    let weigh = |confidence: f32| weigh_pattern(&pattern(confidence, FieldSemantics::new()));
    let found = weigh(0.3).unwrap();
    assert_eq!(f32::from_bits(found.retrieval_rate.bits), 0.25);
    assert_eq!(found.retrieved_fields, 3);
    assert!(weigh(0.29).is_none());
    assert!(weigh(f32::NAN).is_some());
    assert!(weigh(1.0).is_some());
}

#[test]
fn error_fields_are_counted() {
    let mut fields = FieldSemantics::new();
    assert_eq!(count_error_fields(&pattern(1.0, FieldSemantics::new())), (0, 0));
    fields.insert("a".to_string(), semantic("error_indicator", 0.7));
    fields.insert("b".to_string(), semantic("error_indicator", 0.69));
    fields.insert("c".to_string(), semantic("status", 1.0));
    fields.insert("d".to_string(), semantic("error_indicator", f32::NAN));
    fields.insert("c".to_string(), semantic("error_indicator", 1.0));
    fields.insert("a".to_string(), semantic("identifier", 1.0));
    assert_eq!(count_error_fields(&pattern(1.0, fields)), (3, 1));
}

#[test]
fn fields_are_listed_once() {
    let mut fields = FieldSemantics::new();
    fields.insert("a".to_string(), semantic("status", 0.1));
    fields.insert("b".to_string(), semantic("identifier", 0.2));
    fields.insert("a".to_string(), semantic("error_indicator", 0.3));
    let mut entries: Vec<(String, String)> = fields
        .into_entries()
        .into_iter()
        .map(|(name, semantic)| (name, semantic.inferred_type))
        .collect();
    entries.sort();
    assert_eq!(
        entries,
        vec![
            ("a".to_string(), "error_indicator".to_string()),
            ("b".to_string(), "identifier".to_string())
        ]
    );
}

#[test]
fn scores_are_exact() {
    let mut s = MessageScorer::new(Some(Box::new(ArrayToin)), None);
    let mut tool = answering("x");
    tool["content"] = Value::String("[0.9, 1]".to_string());
    let messages = vec![calling(&["x"]), tool, msg("user", "one two three one")];
    let protected: HashSet<usize> = [0, 1].into_iter().collect();
    let units: HashSet<usize> = [1, 2].into_iter().collect();
    let scores = s.score_messages(&messages, &protected, &units);
    assert_eq!(scores[0].position_from_end, Some(2));
    assert_eq!(scores[0].reference_count, 1);
    assert_eq!(scores[0].tokens, 100);
    assert_eq!(scores[0].density, None);
    assert!(scores[0].is_protected && scores[0].drop_safe);
    assert_eq!(scores[1].position_from_end, Some(1));
    assert_eq!(scores[1].reference_count, 0);
    assert_eq!(scores[1].error_fields, 2);
    assert_eq!(scores[1].sure_error_fields, 1);
    assert_eq!(scores[1].toin.unwrap().retrieved_fields, 2);
    assert_eq!(scores[1].tokens, 2);
    assert!(scores[1].is_protected && !scores[1].drop_safe);
    assert_eq!(scores[2].position_from_end, Some(0));
    assert_eq!(scores[2].density, Some((3, 4)));
    assert_eq!(scores[2].tokens, 4);
    assert!(!scores[2].is_protected && scores[2].drop_safe);
    assert!(scores.iter().all(|score| score.semantic.is_none()));
}

#[test]
fn two_runs_agree_without_providers() {
    let messages = vec![calling(&["x"]), answering("x"), msg("user", "to be or not to be")];
    let mut first = MessageScorer::with_defaults();
    let mut second = MessageScorer::new(Some(Box::new(ArrayToin)), embedder().1);
    let a = first.score_messages(&messages, &empty_set(), &empty_set());
    let b = second.score_messages(&messages, &empty_set(), &empty_set());
    for (x, y) in a.iter().zip(&b) {
        assert_eq!(x.position_from_end, y.position_from_end);
        assert_eq!(x.reference_count, y.reference_count);
        assert_eq!(x.density, y.density);
        assert_eq!(x.tokens, y.tokens);
    }
}
