use nanoclaw_core::ipc_loop::{collect_outputs, format_reply, ingest_content, parse_line, render_lines};
use nanoclaw_core::runtime::Runtime;

#[test]
fn ingests_batches_and_replies_per_touched_group() {
    let mut runtime = Runtime::new("Andy", 4);
    let mut touched = Vec::new();
    ingest_content(
        &mut runtime,
        "2026-01-01T00:00:01Z\tg1\tAlice\tHello A\n2026-01-01T00:00:02Z\tg2\tBob\tHello B\n",
        "batch-1.tsv",
        &mut touched,
    );
    assert_eq!(touched, vec!["g1".to_string(), "g2".to_string()]);
    let outputs = collect_outputs(&mut runtime, &touched, "", "Andy");
    assert_eq!(outputs.len(), 2);
    let out = render_lines(&outputs);
    assert!(out.contains("g1\tAndy: processed"));
    assert!(out.contains("g2\tAndy: processed"));
}

#[test]
fn ids_carry_file_tag_and_line_number() {
    let m = parse_line("t\tc\ts\tx", 3, "batch-9.tsv").expect("parses");
    assert_eq!(m.id, "batch-9.tsv-3");
}

#[test]
fn since_timestamp_limits_prompts() {
    let mut runtime = Runtime::new("Andy", 2);
    let mut touched = Vec::new();
    ingest_content(&mut runtime, "1\tg\tA\told\n5\tg\tA\tnew\n1\th\tB\tstale\n", "f", &mut touched);
    let outputs = collect_outputs(&mut runtime, &touched, "3", "Bot");
    assert_eq!(outputs, vec!["g\tBot: processed\t[5] A: new".to_string()]);
}

#[test]
fn reply_line_escapes_newlines() {
    assert_eq!(format_reply("g", "Andy", "a\nb"), "g\tAndy: processed\ta\\nb");
}

#[test]
fn zero_concurrency_runtime_produces_nothing() {
    let mut runtime = Runtime::new("Andy", 0);
    let mut touched = Vec::new();
    ingest_content(&mut runtime, "1\tg\tA\thi\n", "f", &mut touched);
    assert!(collect_outputs(&mut runtime, &touched, "", "Andy").is_empty());
}
