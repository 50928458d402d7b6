use nanoclaw_core::container_output::parse_streamed_outputs;

#[test]
fn parses_single_marker_pair() {
    let input = r#"
noise
---NANOCLAW_OUTPUT_START---
{"status":"success","result":"hello","newSessionId":"s1"}
---NANOCLAW_OUTPUT_END---
"#;

    let outputs = parse_streamed_outputs(input);
    assert_eq!(outputs.len(), 1);
    assert_eq!(outputs[0].status, "success");
    assert_eq!(outputs[0].result.as_deref(), Some("hello"));
    assert_eq!(outputs[0].new_session_id.as_deref(), Some("s1"));
}

#[test]
fn parses_multiple_marker_pairs() {
    let input = r#"
---NANOCLAW_OUTPUT_START---
{"status":"success","result":"first"}
---NANOCLAW_OUTPUT_END---
---NANOCLAW_OUTPUT_START---
{"status":"error","result":null,"error":"boom"}
---NANOCLAW_OUTPUT_END---
"#;

    let outputs = parse_streamed_outputs(input);
    assert_eq!(outputs.len(), 2);
    assert_eq!(outputs[0].result.as_deref(), Some("first"));
    assert_eq!(outputs[1].status, "error");
    assert_eq!(outputs[1].error.as_deref(), Some("boom"));
}

#[test]
fn ignores_invalid_json_blobs() {
    let input = r#"
---NANOCLAW_OUTPUT_START---
not json
---NANOCLAW_OUTPUT_END---
---NANOCLAW_OUTPUT_START---
{"status":"success","result":"ok"}
---NANOCLAW_OUTPUT_END---
"#;

    let outputs = parse_streamed_outputs(input);
    assert_eq!(outputs.len(), 1);
    assert_eq!(outputs[0].result.as_deref(), Some("ok"));
}

#[test]
fn decodes_escapes_and_skips_whitespace_before_values() {
    let input = "---NANOCLAW_OUTPUT_START---{\"status\": \"ok\", \"result\": \"a\\nb\\t\\\"c\\\\\"}---NANOCLAW_OUTPUT_END---";
    let outputs = parse_streamed_outputs(input);
    assert_eq!(outputs.len(), 1);
    assert_eq!(outputs[0].status, "ok");
    assert_eq!(outputs[0].result.as_deref(), Some("a\nb\t\"c\\"));
    assert_eq!(outputs[0].new_session_id, None);
    assert_eq!(outputs[0].error, None);
}

#[test]
fn stops_at_start_marker_without_end_marker() {
    let input = "---NANOCLAW_OUTPUT_START---{\"status\":\"a\"}---NANOCLAW_OUTPUT_END------NANOCLAW_OUTPUT_START---{\"status\":\"b\"}";
    let outputs = parse_streamed_outputs(input);
    assert_eq!(outputs.len(), 1);
    assert_eq!(outputs[0].status, "a");
}

#[test]
fn unterminated_or_non_string_values_are_absent() {
    let input = "---NANOCLAW_OUTPUT_START---{\"status\":\"s\",\"result\":12,\"error\":\"open}---NANOCLAW_OUTPUT_END---";
    let outputs = parse_streamed_outputs(input);
    assert_eq!(outputs.len(), 1);
    assert_eq!(outputs[0].result, None);
    assert_eq!(outputs[0].error, None);
}

#[test]
fn no_markers_no_outputs() {
    assert!(parse_streamed_outputs("plain log output\n").is_empty());
    assert!(parse_streamed_outputs("").is_empty());
}
