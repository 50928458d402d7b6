//! The runtime: the store, the queue of groups waiting for the assistant,
//! and the assembly of each group's prompt.
use vstd::prelude::*;
use crate::db::{user_message_in, user_message_of, Database};
use crate::group_queue::GroupQueue;
use crate::router::{format_messages, prompt_text};
use crate::sort::{
    lemma_filter_contains_iff, lemma_filter_map_values, lemma_time_sorted_contains,
    lemma_time_sorted_map, time_sorted,
};
use crate::text::opt_chars;
use crate::types::{message_views, Message, MessageView, RegisteredGroup, ChatMetadata};

verus! {

/// The prompt for chat `chat` from `messages`: its user messages after
/// `since`, oldest first, rendered as a prompt; `None` when there are none.
pub open spec fn group_prompt(
    messages: Seq<MessageView>,
    chat: Seq<char>,
    since: Seq<char>,
    assistant_name: Seq<char>,
) -> Option<Seq<char>> {
    let selected = time_sorted(messages.filter(user_message_in(chat, since, assistant_name)), false);
    if selected.len() == 0 {
        None
    } else {
        Some(prompt_text(selected))
    }
}

/// Group isolation: a group's prompt is built only from messages of that
/// group, newer than the cursor, written by neither a bot nor the assistant.
pub proof fn law_prompt_uses_only_own_messages(
    messages: Seq<MessageView>,
    chat: Seq<char>,
    since: Seq<char>,
    assistant_name: Seq<char>,
    m: MessageView,
)
    requires
        time_sorted(messages.filter(user_message_in(chat, since, assistant_name)), false).contains(m),
    ensures
        messages.contains(m),
        m.chat_jid == chat,
        crate::text::seq_lt(since, m.timestamp),
        !m.is_bot_message,
        !crate::text::starts_with_seq(m.content, assistant_name.push(':')),
{
    lemma_time_sorted_contains(messages.filter(user_message_in(chat, since, assistant_name)), false, m);
    lemma_filter_contains_iff(messages, user_message_in(chat, since, assistant_name), m);
}

/// A group's prompt covers every stored message of the group newer than the
/// cursor that is neither a bot's nor prefixed with the assistant's name and
/// a colon, whoever sent it: there is a prompt, and the message is among
/// those it is built from.
pub proof fn law_prompt_covers_user_messages(
    messages: Seq<MessageView>,
    chat: Seq<char>,
    since: Seq<char>,
    assistant_name: Seq<char>,
    m: MessageView,
)
    requires
        messages.contains(m),
        m.chat_jid == chat,
        crate::text::seq_lt(since, m.timestamp),
        !m.is_bot_message,
        !crate::text::starts_with_seq(m.content, assistant_name.push(':')),
    ensures
        time_sorted(messages.filter(user_message_in(chat, since, assistant_name)), false).contains(m),
        group_prompt(messages, chat, since, assistant_name) is Some,
{
    let sel = messages.filter(user_message_in(chat, since, assistant_name));
    lemma_filter_contains_iff(messages, user_message_in(chat, since, assistant_name), m);
    lemma_time_sorted_contains(sel, false, m);
}

/// The store, the queue of groups waiting for the assistant, and the
/// assistant's name.
pub struct Runtime {
    pub db: Database,
    queue: GroupQueue,
    assistant_name: String,
}

impl Runtime {
    /// No group is left marked as being processed between calls.
    pub closed spec fn wf(&self) -> bool {
        &&& self.queue.consistent()
        &&& self.queue.active() == Set::<Seq<char>>::empty()
    }

    /// The groups waiting for a prompt, first in line first.
    pub closed spec fn queued(&self) -> Seq<Seq<char>> {
        self.queue.queued()
    }

    /// The store.
    pub closed spec fn database(&self) -> Database {
        self.db
    }

    /// The assistant's name.
    pub closed spec fn assistant_name(&self) -> Seq<char> {
        self.assistant_name@
    }

    /// How many groups may be processed at once.
    pub closed spec fn max_concurrency(&self) -> nat {
        self.queue.max_concurrency()
    }

    /// No group waits twice.
    pub proof fn lemma_queued_distinct(&self)
        requires
            self.wf(),
        ensures
            self.queued().no_duplicates(),
    {
    }

    /// A runtime with an empty store and no waiting group.
    pub fn new(assistant_name: &str, max_concurrency: usize) -> (rt: Self)
        ensures
            rt.wf(),
            rt.queued() == Seq::<Seq<char>>::empty(),
            rt.assistant_name() == assistant_name@,
            rt.max_concurrency() == max_concurrency,
            rt.database().messages() == Seq::<Message>::empty(),
            rt.database().router_state() == Map::<Seq<char>, Seq<char>>::empty(),
            rt.database().sessions() == Map::<Seq<char>, Seq<char>>::empty(),
            rt.database().registered_groups() == Map::<Seq<char>, RegisteredGroup>::empty(),
            rt.database().chats() == Map::<Seq<char>, ChatMetadata>::empty(),
    {
        Runtime {
            db: Database::new(),
            queue: GroupQueue::new(max_concurrency),
            assistant_name: assistant_name.to_owned(),
        }
    }

    /// Appends `msg` to the store's message log.
    pub fn store_message(&mut self, msg: Message)
        requires
            old(self).wf(),
        ensures
            final(self).wf(),
            final(self).database().messages() == old(self).database().messages().push(msg),
            final(self).database().router_state() == old(self).database().router_state(),
            final(self).database().sessions() == old(self).database().sessions(),
            final(self).database().registered_groups() == old(self).database().registered_groups(),
            final(self).database().chats() == old(self).database().chats(),
            final(self).queued() == old(self).queued(),
            final(self).assistant_name() == old(self).assistant_name(),
            final(self).max_concurrency() == old(self).max_concurrency(),
    {
        self.db.store_message(msg);
    }

    /// Puts `chat_jid` in line for a prompt unless it already waits.
    pub fn enqueue_group(&mut self, chat_jid: &str)
        requires
            old(self).wf(),
        ensures
            final(self).wf(),
            final(self).database() == old(self).database(),
            final(self).assistant_name() == old(self).assistant_name(),
            final(self).max_concurrency() == old(self).max_concurrency(),
            old(self).queued().contains(chat_jid@) ==> final(self).queued() == old(self).queued(),
            !old(self).queued().contains(chat_jid@) ==> final(self).queued() == old(
                self,
            ).queued().push(chat_jid@),
    {
        self.queue.enqueue(chat_jid);
    }

    /// Takes the group first in line and returns it with its prompt: its
    /// user messages after `since_timestamp`, oldest first (`None` when there
    /// are none). Returns `None` when no group waits or no group may be
    /// processed at all.
    pub fn process_next_group_prompt(&mut self, since_timestamp: &str) -> (r: Option<
        (String, Option<String>),
    >)
        requires
            old(self).wf(),
        ensures
            final(self).wf(),
            final(self).database() == old(self).database(),
            final(self).assistant_name() == old(self).assistant_name(),
            final(self).max_concurrency() == old(self).max_concurrency(),
            match r {
                Some((jid, prompt)) => {
                    &&& old(self).max_concurrency() > 0
                    &&& old(self).queued().len() > 0
                    &&& jid@ == old(self).queued()[0]
                    &&& final(self).queued() == old(self).queued().drop_first()
                    &&& opt_chars(prompt) == group_prompt(
                        message_views(old(self).database().messages()),
                        jid@,
                        since_timestamp@,
                        old(self).assistant_name(),
                    )
                },
                None => {
                    &&& (old(self).max_concurrency() == 0 || old(self).queued().len() == 0)
                    &&& final(self).queued() == old(self).queued()
                },
            },
    {
        let jid = match self.queue.next() {
            Some(j) => j,
            None => {
                return None;
            },
        };
        let messages = self.db.get_messages_since(
            jid.as_str(),
            since_timestamp,
            self.assistant_name.as_str(),
        );
        proof {
            let all = self.db.messages();
            let p = user_message_of(jid@, since_timestamp@, self.assistant_name@);
            let q = user_message_in(jid@, since_timestamp@, self.assistant_name@);
            let f = |m: Message| m@;
            lemma_filter_map_values(all, f, p, q);
            lemma_time_sorted_map(all.filter(p), f, false);
            assert(message_views(messages@) == time_sorted(all.filter(p), false).map_values(f));
            assert(message_views(all) == all.map_values(f));
        }
        let prompt = if messages.len() == 0 {
            None
        } else {
            Some(format_messages(messages.as_slice()))
        };
        self.queue.complete(jid.as_str());
        proof {
            assert(self.queue.active() =~= Set::<Seq<char>>::empty());
        }
        Some((jid, prompt))
    }
}

} // verus!
