use headroom::transforms::pipeline::json_minifier::RewriteFailure;
use headroom::transforms::pipeline::{
    JsonMinifier, LosslessTransform, TransformError, TransformResult,
};
use headroom::transforms::ContentType;

fn run(input: &str) -> Result<TransformResult, TransformError> {
    JsonMinifier.apply(input)
}

#[test]
fn json_minifier_name_matches_telemetry_convention() {
    assert_eq!(JsonMinifier.name(), "json_minifier");
}

#[test]
fn applies_to_json_array() {
    assert_eq!(JsonMinifier.applies_to(), &[ContentType::JsonArray]);
}

#[test]
fn pretty_printed_json_shrinks() {
    let pretty = r#"{
  "name": "Alice",
  "age":   30,
  "tags": [
    "engineer",
    "manager"
  ]
}"#;
    let result = run(pretty).expect("valid json should compress");
    assert!(result.bytes_saved > 0);
    assert!(result.structure_preserved);
    assert!(!result.output.contains('\n'));
    assert!(!result.output.contains("  "));
    let v_in: serde_json::Value = serde_json::from_str(pretty).unwrap();
    let v_out: serde_json::Value = serde_json::from_str(&result.output).unwrap();
    assert_eq!(v_in, v_out);
}

#[test]
fn already_compact_json_returns_zero_savings() {
    let compact = r#"{"a":1,"b":[1,2,3]}"#;
    let result = run(compact).expect("compact json is still valid");
    assert_eq!(result.bytes_saved, 0);
}

#[test]
fn empty_string_is_skipped_not_invalid() {
    let err = run("").expect_err("empty input is a skip, not an error");
    assert!(matches!(err, TransformError::Skipped { .. }));
}

#[test]
fn malformed_json_is_invalid_input() {
    let err = run("{not json").expect_err("garbage is invalid input");
    assert!(matches!(err, TransformError::InvalidInput { .. }));
}

#[test]
fn nested_arrays_round_trip() {
    let nested = r#"{
  "users": [
    {"id": 1, "name": "a"},
    {"id": 2, "name": "b"}
  ]
}"#;
    let result = run(nested).unwrap();
    let parsed: serde_json::Value = serde_json::from_str(&result.output).unwrap();
    assert_eq!(parsed["users"][0]["id"], 1);
    assert_eq!(parsed["users"][1]["name"], "b");
    assert!(result.bytes_saved > 0);
}

#[test]
fn unicode_strings_preserved() {
    let input = r#"{ "greeting": "héllo wörld 🌍" }"#;
    let result = run(input).unwrap();
    let parsed: serde_json::Value = serde_json::from_str(&result.output).unwrap();
    assert_eq!(parsed["greeting"], "héllo wörld 🌍");
}

#[test]
fn structure_preserved_flag_is_always_true() {
    let result = run(r#"{"a": 1}"#).unwrap();
    assert!(result.structure_preserved);
    assert!(result.reversible_via.is_none());
}

#[test]
fn deeply_nested_does_not_blow_up() {
    let mut s = String::new();
    for _ in 0..50 {
        s.push('[');
    }
    s.push('1');
    for _ in 0..50 {
        s.push(']');
    }
    let result = run(&s).unwrap();
    let parsed: serde_json::Value = serde_json::from_str(&result.output).unwrap();
    assert!(parsed.is_array());
}

#[test]
fn minified_document_is_written_without_white_space() {
    let result = run("{ \"b\" : [ 1 , true , null ] ,\n \"a\" : \"x y\" }").unwrap();
    assert_eq!(result.output, r#"{"a":"x y","b":[1,true,null]}"#);
    assert_eq!(result.bytes_saved, 44 - 29);
}

#[test]
fn control_characters_stay_escaped() {
    let result = run("[ \"a\\nb\\u0001\" ]").unwrap();
    assert_eq!(result.output, "[\"a\\nb\\u0001\"]");
    assert!(result.output.chars().all(|c| c >= ' '));
}

#[test]
fn minifying_twice_changes_nothing() {
    let once = run("[1, -2, {\"a\" : \"\\u00e9\"}]").unwrap();
    let twice = run(&once.output).unwrap();
    assert_eq!(once.output, twice.output);
    assert_eq!(twice.bytes_saved, 0);
}

#[test]
fn large_integers_survive() {
    let result = run("[ 18446744073709551615, -9223372036854775808, 0 ]").unwrap();
    assert_eq!(result.output, "[18446744073709551615,-9223372036854775808,0]");
}

#[test]
fn nesting_limit_is_a_hundred_and_twenty_seven() {
    let deep = "[".repeat(127) + &"]".repeat(127);
    assert_eq!(run(&deep).unwrap().output, deep);
    let deeper = "[".repeat(128) + &"]".repeat(128);
    assert!(matches!(
        run(&deeper),
        Err(TransformError::InvalidInput { .. })
    ));
}

#[test]
fn errors_carry_the_parser_sentence() {
    let err = run("[1,").unwrap_err();
    assert_eq!(
        err.to_string(),
        "invalid input for json_minifier: not valid json: EOF while parsing a value at line 1 column 3"
    );
    let skipped = run("").unwrap_err();
    assert_eq!(skipped.to_string(), "json_minifier skipped: empty input");
}

#[test]
fn conclusions_for_each_rewrite() {
    let good = JsonMinifier::conclude(10, Ok("[1]".to_string())).unwrap();
    assert_eq!(good.output, "[1]");
    assert_eq!(good.bytes_saved, 7);
    let parse = JsonMinifier::conclude(10, Err(RewriteFailure::Parse("why".to_string())));
    assert_eq!(
        parse.unwrap_err().to_string(),
        "invalid input for json_minifier: not valid json: why"
    );
    let write = JsonMinifier::conclude(10, Err(RewriteFailure::Write("why".to_string())));
    assert_eq!(
        write.unwrap_err().to_string(),
        "json_minifier internal error: serialize failed: why"
    );
}

#[test]
fn fractions_survive() {
    let once = run("[ 0.5, -1.25e10, 1e-7 ]").unwrap();
    assert_eq!(once.output, "[0.5,-12500000000.0,1e-7]");
    let before: serde_json::Value = serde_json::from_str("[0.5, -1.25e10, 1e-7]").unwrap();
    let after: serde_json::Value = serde_json::from_str(&once.output).unwrap();
    assert_eq!(before, after);
}

#[test]
fn the_reserved_key_survives_unless_it_comes_first() {
    let second = r#"{"!":1,"$serde_json::private::RawValue":"2"}"#;
    assert_eq!(run(second).unwrap().output, second);
}

#[test]
fn a_fraction_may_be_rounded() {
    let once = run("[6.934698245112694e+276]").unwrap();
    let before: serde_json::Value = serde_json::from_str("[6.934698245112694e+276]").unwrap();
    let after: serde_json::Value = serde_json::from_str(&once.output).unwrap();
    assert_ne!(before, after);
}

#[test]
fn no_white_space_is_left_outside_strings() {
    let input = "{ \"a b\" :\t[ 1 , \"c \\\" d\" ,\r\n null , \"\\\\\" , \"e\\n\\tf\u{2003}g\" ] }";
    let output = run(input).unwrap().output;
    assert_eq!(
        output,
        "{\"a b\":[1,\"c \\\" d\",null,\"\\\\\",\"e\\n\\tf\u{2003}g\"]}"
    );
    let mut inside = false;
    let mut escaped = false;
    for c in output.chars() {
        assert!(inside || !c.is_whitespace());
        if escaped {
            escaped = false;
        } else if inside && c == '\\' {
            escaped = true;
        } else if c == '"' {
            inside = !inside;
        }
    }
}
