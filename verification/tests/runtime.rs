use nanoclaw_core::runtime::Runtime;
use nanoclaw_core::types::Message;

fn message(chat: &str, ts: &str, content: &str) -> Message {
    Message {
        id: ts.into(),
        chat_jid: chat.into(),
        sender: "u".into(),
        sender_name: "User".into(),
        content: content.into(),
        timestamp: ts.into(),
        is_from_me: false,
        is_bot_message: false,
    }
}

#[test]
fn builds_prompt_from_queued_group_messages() {
    let mut rt = Runtime::new("Andy", 1);
    rt.db.store_message(Message {
        id: "1".into(),
        chat_jid: "g1".into(),
        sender: "u".into(),
        sender_name: "User".into(),
        content: "hello".into(),
        timestamp: "2026-01-01T00:00:01Z".into(),
        is_from_me: false,
        is_bot_message: false,
    });

    rt.enqueue_group("g1");
    let (jid, prompt) = rt
        .process_next_group_prompt("2026-01-01T00:00:00Z")
        .expect("prompt expected");

    assert_eq!(jid, "g1");
    assert!(prompt.expect("non-empty prompt").contains("User: hello"));
}

#[test]
fn group_without_messages_has_no_prompt() {
    let mut rt = Runtime::new("Andy", 1);
    rt.db.store_message(message("g1", "5", "hi"));
    rt.enqueue_group("g2");
    rt.enqueue_group("g1");
    assert_eq!(rt.process_next_group_prompt(""), Some(("g2".to_string(), None)));
    assert_eq!(
        rt.process_next_group_prompt(""),
        Some(("g1".to_string(), Some("[5] User: hi".to_string())))
    );
    assert_eq!(rt.process_next_group_prompt(""), None);
}

#[test]
fn zero_concurrency_processes_nothing() {
    let mut rt = Runtime::new("Andy", 0);
    rt.enqueue_group("g1");
    assert_eq!(rt.process_next_group_prompt(""), None);
}

#[test]
fn processed_group_can_be_enqueued_again() {
    let mut rt = Runtime::new("Andy", 1);
    rt.enqueue_group("g1");
    rt.enqueue_group("g1");
    assert!(rt.process_next_group_prompt("").is_some());
    assert_eq!(rt.process_next_group_prompt(""), None);
    rt.enqueue_group("g1");
    assert!(rt.process_next_group_prompt("").is_some());
}
