use nanoclaw_core::router::{escape_xml, format_messages, format_outbound};
use nanoclaw_core::types::Message;

fn m(content: &str) -> Message {
    Message {
        id: "1".into(),
        chat_jid: "chat".into(),
        sender: "user@wa".into(),
        sender_name: "User".into(),
        content: content.into(),
        timestamp: "2026-01-01T00:00:00.000Z".into(),
        is_from_me: false,
        is_bot_message: false,
    }
}

#[test]
fn escapes_xml() {
    assert_eq!(escape_xml("<a&b>\"'"), "&lt;a&amp;b&gt;&quot;&apos;");
}

#[test]
fn formats_message_batch() {
    let out = format_messages(&[m("hello"), m("<b>")]);
    assert!(out.contains("User: hello"));
    assert!(out.contains("&lt;b&gt;"));
}

#[test]
fn formats_outbound_prefix() {
    assert_eq!(format_outbound("Andy", " hi "), "Andy: hi");
}

#[test]
fn escape_leaves_plain_text_and_entities_are_not_reescaped_twice() {
    assert_eq!(escape_xml("plain text"), "plain text");
    assert_eq!(escape_xml(""), "");
    assert_eq!(escape_xml("&amp;"), "&amp;amp;");
}

#[test]
fn formats_exact_prompt_lines() {
    assert_eq!(format_messages(&[]), "");
    assert_eq!(
        format_messages(&[m("  hi  "), m("a & b\n")]),
        "[2026-01-01T00:00:00.000Z] User: hi\n[2026-01-01T00:00:00.000Z] User: a &amp; b"
    );
}

#[test]
fn outbound_trims_unicode_whitespace() {
    assert_eq!(format_outbound("Bot", "\u{3000}\tok\u{a0}\n"), "Bot: ok");
    assert_eq!(format_outbound("Bot", "   "), "Bot: ");
}
