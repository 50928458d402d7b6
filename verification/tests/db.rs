use nanoclaw_core::db::Database;
use nanoclaw_core::types::{ChatMetadata, Message, RegisteredGroup};

fn msg(ts: &str, bot: bool, content: &str) -> Message {
    Message {
        id: ts.into(),
        chat_jid: "group@g.us".into(),
        sender: "alice@wa".into(),
        sender_name: "Alice".into(),
        content: content.into(),
        timestamp: ts.into(),
        is_from_me: false,
        is_bot_message: bot,
    }
}

fn chat(jid: &str, time: &str) -> ChatMetadata {
    ChatMetadata {
        jid: jid.into(),
        name: jid.to_uppercase(),
        last_message_time: time.into(),
        is_group: true,
        channel: "whatsapp".into(),
    }
}

#[test]
fn router_state_roundtrip() {
    let mut db = Database::new();
    db.set_router_state("k", "v");
    assert_eq!(db.get_router_state("k").as_deref(), Some("v"));
}

#[test]
fn session_and_group_storage() {
    let mut db = Database::new();
    db.set_session("group@g.us", "s1");
    db.set_registered_group(
        "group@g.us",
        RegisteredGroup {
            name: "Team".into(),
            folder: "team".into(),
            trigger: "@Andy".into(),
            added_at: "2026".into(),
            requires_trigger: true,
        },
    );
    assert_eq!(db.get_all_sessions().get("group@g.us").map(|s| s.as_str()), Some("s1"));
    assert_eq!(db.get_all_registered_groups().len(), 1);
}

#[test]
fn message_filters_match_runtime_rules() {
    let mut db = Database::new();
    db.store_message(msg("2026-01-01T00:00:01Z", false, "hello"));
    db.store_message(msg("2026-01-01T00:00:02Z", true, "bot says"));
    db.store_message(msg("2026-01-01T00:00:03Z", false, "Andy: prefixed"));

    let new_msgs = db.get_new_messages("2026-01-01T00:00:00Z");
    assert_eq!(new_msgs.len(), 3);

    let user_msgs = db.get_messages_since("group@g.us", "2026-01-01T00:00:00Z", "Andy");
    assert_eq!(user_msgs.len(), 1);
    assert_eq!(user_msgs[0].content, "hello");
}

#[test]
fn chat_metadata_sorted_desc_by_activity() {
    let mut db = Database::new();
    db.store_chat_metadata(ChatMetadata {
        jid: "a".into(),
        name: "A".into(),
        last_message_time: "2026-01-01T00:00:00Z".into(),
        is_group: true,
        channel: "whatsapp".into(),
    });
    db.store_chat_metadata(ChatMetadata {
        jid: "b".into(),
        name: "B".into(),
        last_message_time: "2026-01-01T00:00:10Z".into(),
        is_group: true,
        channel: "whatsapp".into(),
    });

    let chats = db.get_all_chats();
    assert_eq!(chats[0].jid, "b");
}

#[test]
fn missing_keys_read_as_absent() {
    let db = Database::new();
    assert_eq!(db.get_router_state("nope"), None);
    assert_eq!(db.get_all_sessions().len(), 0);
    assert!(db.get_all_sessions().get("x").is_none());
    assert!(db.get_all_chats().is_empty());
    assert!(db.get_new_messages("").is_empty());
}

#[test]
fn later_writes_replace_earlier_ones() {
    let mut db = Database::new();
    db.set_router_state("k", "v1");
    db.set_router_state("other", "x");
    db.set_router_state("k", "v2");
    assert_eq!(db.get_router_state("k").as_deref(), Some("v2"));
    assert_eq!(db.get_router_state("other").as_deref(), Some("x"));

    db.set_session("g", "s1");
    db.set_session("g", "s2");
    let sessions = db.get_all_sessions();
    assert_eq!(sessions.len(), 1);
    assert_eq!(sessions.get("g").map(|s| s.as_str()), Some("s2"));

    db.store_chat_metadata(chat("a", "1"));
    db.store_chat_metadata(chat("a", "3"));
    let chats = db.get_all_chats();
    assert_eq!(chats.len(), 1);
    assert_eq!(chats[0].last_message_time, "3");
}

#[test]
fn new_messages_sorted_by_time_and_stable() {
    let mut db = Database::new();
    let mut m3 = msg("3", false, "c");
    m3.id = "m3".into();
    let mut m1 = msg("1", false, "a");
    m1.id = "m1".into();
    let mut m2a = msg("2", false, "b1");
    m2a.id = "m2a".into();
    let mut m2b = msg("2", false, "b2");
    m2b.id = "m2b".into();
    db.store_message(m3);
    db.store_message(m2a);
    db.store_message(m1);
    db.store_message(m2b);

    let ids: Vec<String> = db.get_new_messages("").into_iter().map(|m| m.id).collect();
    assert_eq!(ids, vec!["m1", "m2a", "m2b", "m3"]);

    let later: Vec<String> = db.get_new_messages("2").into_iter().map(|m| m.id).collect();
    assert_eq!(later, vec!["m3"]);
}

#[test]
fn messages_since_filters_chat_and_time() {
    let mut db = Database::new();
    let mut other = msg("5", false, "elsewhere");
    other.chat_jid = "other@g.us".into();
    db.store_message(other);
    db.store_message(msg("1", false, "old"));
    db.store_message(msg("4", false, "Andy:x"));
    db.store_message(msg("3", false, "Andy x"));
    db.store_message(msg("2", false, "new"));

    let got: Vec<String> = db
        .get_messages_since("group@g.us", "1", "Andy")
        .into_iter()
        .map(|m| m.content)
        .collect();
    assert_eq!(got, vec!["new", "Andy x"]);
}

#[test]
fn chats_sorted_most_recent_first() {
    let mut db = Database::new();
    db.store_chat_metadata(chat("x", "2026-01-02"));
    db.store_chat_metadata(chat("y", "2026-01-03"));
    db.store_chat_metadata(chat("z", "2026-01-01"));
    let jids: Vec<String> = db.get_all_chats().into_iter().map(|c| c.jid).collect();
    assert_eq!(jids, vec!["y", "x", "z"]);
}
