use nanoclaw_core::e2e::{parse_line, run_e2e};
use nanoclaw_core::ipc_loop::render_lines;

#[test]
fn processes_input_content_into_group_outputs() {
    let content = "2026-01-01T00:00:01Z\tg1\tAlice\tHello there\n2026-01-01T00:00:02Z\tg2\tBob\tSecond group\n";
    let outputs = run_e2e("Andy", content);
    assert_eq!(outputs.len(), 2);
    let out = render_lines(&outputs);
    assert!(out.contains("g1\tAndy: processed"));
    assert!(out.contains("g2\tAndy: processed"));
    assert_eq!(
        out,
        "g1\tAndy: processed\t[2026-01-01T00:00:01Z] Alice: Hello there\n\
         g2\tAndy: processed\t[2026-01-01T00:00:02Z] Bob: Second group\n"
    );
}

#[test]
fn groups_answered_in_sorted_order_with_joined_prompts() {
    let content = "3\tzeta\tZ\tlast\r\n\nbad line without tabs\n1\talpha\tA\tfirst\n2\talpha\tB\tsecond\ttabbed  \n4\tbeta\tAndy\tAndy: own reply";
    let outputs = run_e2e("Andy", content);
    assert_eq!(
        outputs,
        vec![
            "alpha\tAndy: processed\t[1] A: first\\n[2] B: second\ttabbed".to_string(),
            "zeta\tAndy: processed\t[3] Z: last".to_string(),
        ]
    );
}

#[test]
fn empty_input_gives_no_outputs() {
    assert!(run_e2e("Andy", "").is_empty());
    assert_eq!(render_lines(&Vec::new()), "");
}

#[test]
fn parses_tab_separated_line() {
    let m = parse_line(" 2026 \t g1 \t Alice \t hi\tthere ", 7).expect("four fields");
    assert_eq!(m.id, "line-7");
    assert_eq!(m.timestamp, "2026");
    assert_eq!(m.chat_jid, "g1");
    assert_eq!(m.sender, "Alice@local");
    assert_eq!(m.sender_name, "Alice");
    assert_eq!(m.content, " hi\tthere ");
    assert!(!m.is_from_me);
    assert!(!m.is_bot_message);
    assert!(parse_line("a\tb\tc", 1).is_none());
}
