//! The records the runtime stores: chat messages, registered groups and chat metadata.
use vstd::prelude::*;
use crate::sort::{TimeKey, Timestamped};
use crate::text::chars_of;

verus! {

/// One chat message.
#[derive(Debug, PartialEq, Eq)]
pub struct Message {
    pub id: String,
    pub chat_jid: String,
    pub sender: String,
    pub sender_name: String,
    pub content: String,
    pub timestamp: String,
    pub is_from_me: bool,
    pub is_bot_message: bool,
}

impl Clone for Message {
    fn clone(&self) -> (r: Self)
        ensures
            r == *self,
    {
        Message {
            id: self.id.clone(),
            chat_jid: self.chat_jid.clone(),
            sender: self.sender.clone(),
            sender_name: self.sender_name.clone(),
            content: self.content.clone(),
            timestamp: self.timestamp.clone(),
            is_from_me: self.is_from_me,
            is_bot_message: self.is_bot_message,
        }
    }
}

/// The content of a [`Message`].
pub struct MessageView {
    pub id: Seq<char>,
    pub chat_jid: Seq<char>,
    pub sender: Seq<char>,
    pub sender_name: Seq<char>,
    pub content: Seq<char>,
    pub timestamp: Seq<char>,
    pub is_from_me: bool,
    pub is_bot_message: bool,
}

impl View for Message {
    type V = MessageView;

    open spec fn view(&self) -> MessageView {
        MessageView {
            id: self.id@,
            chat_jid: self.chat_jid@,
            sender: self.sender@,
            sender_name: self.sender_name@,
            content: self.content@,
            timestamp: self.timestamp@,
            is_from_me: self.is_from_me,
            is_bot_message: self.is_bot_message,
        }
    }
}

/// The content of each message of `s`.
pub open spec fn message_views(s: Seq<Message>) -> Seq<MessageView> {
    s.map_values(|m: Message| m@)
}

impl TimeKey for MessageView {
    open spec fn time_key(&self) -> Seq<char> {
        self.timestamp
    }
}

impl TimeKey for Message {
    open spec fn time_key(&self) -> Seq<char> {
        self.timestamp@
    }
}

impl Timestamped for Message {
    fn time_chars(&self) -> (r: Vec<char>) {
        chars_of(self.timestamp.as_str())
    }
}

/// A group the assistant has been registered in.
#[derive(Debug, PartialEq, Eq)]
pub struct RegisteredGroup {
    pub name: String,
    pub folder: String,
    pub trigger: String,
    pub added_at: String,
    pub requires_trigger: bool,
}

impl Clone for RegisteredGroup {
    fn clone(&self) -> (r: Self)
        ensures
            r == *self,
    {
        RegisteredGroup {
            name: self.name.clone(),
            folder: self.folder.clone(),
            trigger: self.trigger.clone(),
            added_at: self.added_at.clone(),
            requires_trigger: self.requires_trigger,
        }
    }
}

/// What is known of a chat.
#[derive(Debug, PartialEq, Eq)]
pub struct ChatMetadata {
    pub jid: String,
    pub name: String,
    pub last_message_time: String,
    pub is_group: bool,
    pub channel: String,
}

impl Clone for ChatMetadata {
    fn clone(&self) -> (r: Self)
        ensures
            r == *self,
    {
        ChatMetadata {
            jid: self.jid.clone(),
            name: self.name.clone(),
            last_message_time: self.last_message_time.clone(),
            is_group: self.is_group,
            channel: self.channel.clone(),
        }
    }
}

impl TimeKey for ChatMetadata {
    open spec fn time_key(&self) -> Seq<char> {
        self.last_message_time@
    }
}

impl Timestamped for ChatMetadata {
    fn time_chars(&self) -> (r: Vec<char>) {
        chars_of(self.last_message_time.as_str())
    }
}

} // verus!
