//! The runtime's in-memory store: router state, sessions, registered
//! groups, chat metadata and the message log.
use vstd::prelude::*;
use vstd::seq_lib::*;
use crate::sort::{
    lemma_filter_contains_iff, lemma_time_sorted_contains, sorted_by_time, stable_sort_by_time,
    stably_sorted, time_sorted,
};
use crate::str_map::StrMap;
use crate::text::{
    chars_of, concat_vec, seq_lt, starts_with_exec, starts_with_seq, str_equal, str_less,
};
use crate::types::{ChatMetadata, Message, MessageView, RegisteredGroup};

verus! {

/// The characters of each string value of `m`.
pub open spec fn string_values(m: Map<Seq<char>, String>) -> Map<Seq<char>, Seq<char>> {
    m.map_values(|s: String| s@)
}

/// Messages whose timestamp sorts after `since`.
pub open spec fn newer_than(since: Seq<char>) -> spec_fn(Message) -> bool {
    |m: Message| seq_lt(since, m.timestamp@)
}

/// Messages of chat `chat` after `since` that neither a bot nor the assistant
/// (a content starting with `assistant_name` and a colon) wrote.
pub open spec fn user_message_in(
    chat: Seq<char>,
    since: Seq<char>,
    assistant_name: Seq<char>,
) -> spec_fn(MessageView) -> bool {
    |m: MessageView|
        m.chat_jid == chat && seq_lt(since, m.timestamp) && !m.is_bot_message
            && !starts_with_seq(m.content, assistant_name.push(':'))
}

/// [`user_message_in`], for stored messages.
pub open spec fn user_message_of(
    chat: Seq<char>,
    since: Seq<char>,
    assistant_name: Seq<char>,
) -> spec_fn(Message) -> bool {
    |m: Message| user_message_in(chat, since, assistant_name)(m@)
}

proof fn lemma_string_values_insert(m: Map<Seq<char>, String>, k: Seq<char>, v: String)
    ensures
        string_values(m.insert(k, v)) == string_values(m).insert(k, v@),
{
    assert(string_values(m.insert(k, v)) =~= string_values(m).insert(k, v@));
}

/// Router state reads back what was written: after `set_router_state(key,
/// value)`, `get_router_state(key)` gives `value` and every other key reads
/// as before.
pub proof fn law_router_state_read_after_write(
    before: Database,
    after: Database,
    key: Seq<char>,
    value: Seq<char>,
    other: Seq<char>,
)
    requires
        after.router_state() == before.router_state().insert(key, value),
    ensures
        after.router_state().dom().contains(key),
        after.router_state()[key] == value,
        other != key ==> after.router_state().dom().contains(other) == before.router_state().dom().contains(other),
        other != key && before.router_state().dom().contains(other) ==> after.router_state()[other]
            == before.router_state()[other],
{
}

/// Sessions read back what was written: after `set_session(chat, id)`,
/// `get_all_sessions()` maps `chat` to `id` and every other chat as before.
pub proof fn law_session_read_after_write(
    before: Database,
    after: Database,
    chat: Seq<char>,
    id: Seq<char>,
    other: Seq<char>,
)
    requires
        after.sessions() == before.sessions().insert(chat, id),
    ensures
        after.sessions().dom().contains(chat),
        after.sessions()[chat] == id,
        other != chat ==> after.sessions().dom().contains(other) == before.sessions().dom().contains(other),
        other != chat && before.sessions().dom().contains(other) ==> after.sessions()[other]
            == before.sessions()[other],
{
}

/// Every message that `get_messages_since` returns for a chat is one that
/// `get_new_messages` returns for the same timestamp, and it is neither a
/// bot's nor the assistant's.
pub proof fn law_user_messages_are_new_messages(
    messages: Seq<Message>,
    chat: Seq<char>,
    since: Seq<char>,
    assistant_name: Seq<char>,
    m: Message,
)
    requires
        time_sorted(messages.filter(user_message_of(chat, since, assistant_name)), false).contains(m),
    ensures
        time_sorted(messages.filter(newer_than(since)), false).contains(m),
        m.chat_jid@ == chat,
        !m.is_bot_message,
        !starts_with_seq(m.content@, assistant_name.push(':')),
{
    lemma_time_sorted_contains(messages.filter(user_message_of(chat, since, assistant_name)), false, m);
    lemma_filter_contains_iff(messages, user_message_of(chat, since, assistant_name), m);
    lemma_filter_contains_iff(messages, newer_than(since), m);
    lemma_time_sorted_contains(messages.filter(newer_than(since)), false, m);
}

/// Selection is complete: every stored message of the chat newer than the
/// cursor that is neither a bot's nor prefixed with the assistant's name and
/// a colon is returned by `get_messages_since`, whoever sent it and whatever
/// else it holds.
pub proof fn law_user_selection_complete(
    messages: Seq<Message>,
    chat: Seq<char>,
    since: Seq<char>,
    assistant_name: Seq<char>,
    m: Message,
)
    requires
        messages.contains(m),
        m.chat_jid@ == chat,
        seq_lt(since, m.timestamp@),
        !m.is_bot_message,
        !starts_with_seq(m.content@, assistant_name.push(':')),
    ensures
        time_sorted(messages.filter(user_message_of(chat, since, assistant_name)), false).contains(m),
{
    lemma_filter_contains_iff(messages, user_message_of(chat, since, assistant_name), m);
    lemma_time_sorted_contains(messages.filter(user_message_of(chat, since, assistant_name)), false, m);
}

/// `get_new_messages` returns exactly the stored messages newer than the
/// cursor: each such message, and no other.
pub proof fn law_new_messages_exact(messages: Seq<Message>, since: Seq<char>, m: Message)
    ensures
        time_sorted(messages.filter(newer_than(since)), false).contains(m) <==> (messages.contains(m)
            && seq_lt(since, m.timestamp@)),
{
    lemma_filter_contains_iff(messages, newer_than(since), m);
    lemma_time_sorted_contains(messages.filter(newer_than(since)), false, m);
}

/// The runtime's store.
pub struct Database {
    router_state: StrMap<String>,
    sessions: StrMap<String>,
    registered_groups: StrMap<RegisteredGroup>,
    chats: StrMap<ChatMetadata>,
    messages: Vec<Message>,
}

impl Database {
    #[verifier::type_invariant]
    closed spec fn inv(&self) -> bool {
        forall|k: Seq<char>| #[trigger] self.chats@.dom().contains(k) ==> self.chats@[k].jid@ == k
    }

    /// Router state: key to value.
    pub closed spec fn router_state(&self) -> Map<Seq<char>, Seq<char>> {
        string_values(self.router_state@)
    }

    /// Sessions: chat to session id.
    pub closed spec fn sessions(&self) -> Map<Seq<char>, Seq<char>> {
        string_values(self.sessions@)
    }

    /// Registered groups by chat.
    pub closed spec fn registered_groups(&self) -> Map<Seq<char>, RegisteredGroup> {
        self.registered_groups@
    }

    /// Chat metadata by chat.
    pub closed spec fn chats(&self) -> Map<Seq<char>, ChatMetadata> {
        self.chats@
    }

    /// Every stored message, in the order stored.
    pub closed spec fn messages(&self) -> Seq<Message> {
        self.messages@
    }

    /// An empty store.
    pub fn new() -> (db: Self)
        ensures
            db.router_state() == Map::<Seq<char>, Seq<char>>::empty(),
            db.sessions() == Map::<Seq<char>, Seq<char>>::empty(),
            db.registered_groups() == Map::<Seq<char>, RegisteredGroup>::empty(),
            db.chats() == Map::<Seq<char>, ChatMetadata>::empty(),
            db.messages() == Seq::<Message>::empty(),
    {
        let db = Database {
            router_state: StrMap::new(),
            sessions: StrMap::new(),
            registered_groups: StrMap::new(),
            chats: StrMap::new(),
            messages: Vec::new(),
        };
        assert(db.router_state() =~= Map::<Seq<char>, Seq<char>>::empty());
        assert(db.sessions() =~= Map::<Seq<char>, Seq<char>>::empty());
        db
    }

    /// Sets router state `key` to `value`.
    pub fn set_router_state(&mut self, key: &str, value: &str)
        ensures
            final(self).router_state() == old(self).router_state().insert(key@, value@),
            final(self).sessions() == old(self).sessions(),
            final(self).registered_groups() == old(self).registered_groups(),
            final(self).chats() == old(self).chats(),
            final(self).messages() == old(self).messages(),
    {
        let k = key.to_owned();
        let v = value.to_owned();
        proof {
            use_type_invariant(&*self);
            lemma_string_values_insert(self.router_state@, k@, v);
        }
        let mut m = StrMap::new();
        std::mem::swap(&mut m, &mut self.router_state);
        m.insert(k, v);
        self.router_state = m;
    }

    /// The router state stored under `key`.
    pub fn get_router_state(&self, key: &str) -> (r: Option<String>)
        ensures
            match r {
                Some(v) => self.router_state().dom().contains(key@) && v@ == self.router_state()[key@],
                None => !self.router_state().dom().contains(key@),
            },
    {
        proof {
            use_type_invariant(self);
        }
        match self.router_state.get(key) {
            Some(v) => Some(v.clone()),
            None => None,
        }
    }

    /// Records `session_id` as the session of `chat_jid`.
    pub fn set_session(&mut self, chat_jid: &str, session_id: &str)
        ensures
            final(self).sessions() == old(self).sessions().insert(chat_jid@, session_id@),
            final(self).router_state() == old(self).router_state(),
            final(self).registered_groups() == old(self).registered_groups(),
            final(self).chats() == old(self).chats(),
            final(self).messages() == old(self).messages(),
    {
        let k = chat_jid.to_owned();
        let v = session_id.to_owned();
        proof {
            use_type_invariant(&*self);
            lemma_string_values_insert(self.sessions@, k@, v);
        }
        let mut m = StrMap::new();
        std::mem::swap(&mut m, &mut self.sessions);
        m.insert(k, v);
        self.sessions = m;
    }

    /// A copy of every session.
    pub fn get_all_sessions(&self) -> (r: StrMap<String>)
        ensures
            string_values(r@) == self.sessions(),
    {
        proof {
            use_type_invariant(self);
        }
        let r = self.sessions.clone();
        assert(string_values(r@) =~= self.sessions());
        r
    }

    /// Registers `group` under `jid`.
    pub fn set_registered_group(&mut self, jid: &str, group: RegisteredGroup)
        ensures
            final(self).registered_groups() == old(self).registered_groups().insert(jid@, group),
            final(self).router_state() == old(self).router_state(),
            final(self).sessions() == old(self).sessions(),
            final(self).chats() == old(self).chats(),
            final(self).messages() == old(self).messages(),
    {
        proof {
            use_type_invariant(&*self);
        }
        let mut m = StrMap::new();
        std::mem::swap(&mut m, &mut self.registered_groups);
        m.insert(jid.to_owned(), group);
        self.registered_groups = m;
    }

    /// A copy of every registered group.
    pub fn get_all_registered_groups(&self) -> (r: StrMap<RegisteredGroup>)
        ensures
            r@ == self.registered_groups(),
    {
        proof {
            use_type_invariant(self);
        }
        let r = self.registered_groups.clone();
        assert(r@ =~= self.registered_groups());
        r
    }

    /// Stores `meta` as the metadata of chat `meta.jid`.
    pub fn store_chat_metadata(&mut self, meta: ChatMetadata)
        ensures
            final(self).chats() == old(self).chats().insert(meta.jid@, meta),
            final(self).router_state() == old(self).router_state(),
            final(self).sessions() == old(self).sessions(),
            final(self).registered_groups() == old(self).registered_groups(),
            final(self).messages() == old(self).messages(),
    {
        proof {
            use_type_invariant(&*self);
        }
        let jid = meta.jid.clone();
        let mut m = StrMap::new();
        std::mem::swap(&mut m, &mut self.chats);
        m.insert(jid, meta);
        self.chats = m;
    }

    /// Every chat's metadata, most recently active first.
    pub fn get_all_chats(&self) -> (r: Vec<ChatMetadata>)
        ensures
            sorted_by_time(r@, true),
            r@.len() == self.chats().len(),
            r@.no_duplicates(),
            forall|i: int|
                0 <= i < r@.len() ==> self.chats().dom().contains(#[trigger] r@[i].jid@)
                    && self.chats()[r@[i].jid@] == r@[i],
            forall|k: Seq<char>| #[trigger] self.chats().dom().contains(k) ==> r@.contains(self.chats()[k]),
    {
        proof {
            use_type_invariant(self);
            use_type_invariant(&self.chats);
            self.chats.lemma_keys();
        }
        let n: usize = self.chats.len();
        let mut all: Vec<ChatMetadata> = Vec::new();
        let mut i: usize = 0;
        while i < n
            invariant
                n == self.chats.keys().len(),
                i <= n,
                all@.len() == i,
                forall|j: int| 0 <= j < i ==> #[trigger] all@[j] == self.chats@[self.chats.keys()[j]],
            decreases n - i,
        {
            all.push(self.chats.value_at(i).clone());
            i = i + 1;
        }
        let ghost keys = self.chats.keys();
        proof {
            assert forall|j: int| 0 <= j < all@.len() implies all@[j].jid@ == keys[j] by {
                assert(self.chats@.dom().contains(keys[j]));
            }
            assert(all@.no_duplicates()) by {
                assert forall|a: int, b: int| 0 <= a < all@.len() && 0 <= b < all@.len() && a != b
                    implies all@[a] != all@[b] by {
                    assert(all@[a].jid@ == keys[a]);
                    assert(all@[b].jid@ == keys[b]);
                }
            }
            all@.lemma_multiset_has_no_duplicates();
        }
        let r = stable_sort_by_time(all, true);
        proof {
            broadcast use group_to_multiset_ensures;
            let a = all@;
            assert forall|x: ChatMetadata| r@.to_multiset().contains(x) implies r@.to_multiset().count(
                x,
            ) == 1 by {
                assert(a.to_multiset().contains(x));
            }
            r@.lemma_multiset_has_no_duplicates_conv();
            assert(r@.len() == r@.to_multiset().len());
            assert(a.len() == a.to_multiset().len());
            assert forall|i: int| 0 <= i < r@.len() implies self.chats().dom().contains(
                #[trigger] r@[i].jid@,
            ) && self.chats()[r@[i].jid@] == r@[i] by {
                assert(r@.to_multiset().count(r@[i]) > 0);
                assert(a.contains(r@[i]));
                let j = choose|j: int| 0 <= j < a.len() && a[j] == r@[i];
                assert(a[j].jid@ == keys[j]);
            }
            assert forall|k: Seq<char>| #[trigger] self.chats().dom().contains(k) implies r@.contains(
                self.chats()[k],
            ) by {
                assert(keys.contains(k));
                let j = choose|j: int| 0 <= j < keys.len() && keys[j] == k;
                assert(a[j] == self.chats()[k]);
                assert(a.to_multiset().count(a[j]) > 0);
            }
        }
        r
    }

    /// Appends `msg` to the message log.
    pub fn store_message(&mut self, msg: Message)
        ensures
            final(self).messages() == old(self).messages().push(msg),
            final(self).router_state() == old(self).router_state(),
            final(self).sessions() == old(self).sessions(),
            final(self).registered_groups() == old(self).registered_groups(),
            final(self).chats() == old(self).chats(),
    {
        proof {
            use_type_invariant(&*self);
        }
        let mut v: Vec<Message> = Vec::new();
        std::mem::swap(&mut v, &mut self.messages);
        v.push(msg);
        self.messages = v;
    }

    /// Every message newer than `last_timestamp`, oldest first; messages of
    /// equal time keep the order they were stored in.
    pub fn get_new_messages(&self, last_timestamp: &str) -> (r: Vec<Message>)
        ensures
            r@ == time_sorted(self.messages().filter(newer_than(last_timestamp@)), false),
            stably_sorted(r@, self.messages().filter(newer_than(last_timestamp@)), false),
    {
        let ghost pred = newer_than(last_timestamp@);
        let n: usize = self.messages.len();
        let mut out: Vec<Message> = Vec::new();
        let mut i: usize = 0;
        proof {
            reveal_with_fuel(Seq::filter, 1);
            assert(self.messages@.take(0) =~= Seq::<Message>::empty());
        }
        while i < n
            invariant
                n == self.messages@.len(),
                i <= n,
                pred == newer_than(last_timestamp@),
                out@ == self.messages@.take(i as int).filter(pred),
            decreases n - i,
        {
            let m = &self.messages[i];
            let keep = str_less(last_timestamp, m.timestamp.as_str());
            proof {
                self.messages@.take(i as int).lemma_filter_push(*m, pred);
                assert(self.messages@.take(i + 1) =~= self.messages@.take(i as int).push(*m));
            }
            if keep {
                out.push(m.clone());
            }
            i = i + 1;
        }
        assert(self.messages@.take(n as int) =~= self.messages@);
        stable_sort_by_time(out, false)
    }

    /// The messages of `chat_jid` newer than `since_timestamp` that neither a
    /// bot nor the assistant wrote, oldest first; messages of equal time keep
    /// the order they were stored in.
    pub fn get_messages_since(&self, chat_jid: &str, since_timestamp: &str, assistant_name: &str)
        -> (r: Vec<Message>)
        ensures
            r@ == time_sorted(
                self.messages().filter(user_message_of(chat_jid@, since_timestamp@, assistant_name@)),
                false,
            ),
            stably_sorted(
                r@,
                self.messages().filter(user_message_of(chat_jid@, since_timestamp@, assistant_name@)),
                false,
            ),
    {
        let ghost pred = user_message_of(chat_jid@, since_timestamp@, assistant_name@);
        let mut colon: Vec<char> = Vec::new();
        colon.push(':');
        let prefix = concat_vec(&chars_of(assistant_name), &colon);
        assert(prefix@ == assistant_name@.push(':')) by {
            assert(assistant_name@ + seq![':'] =~= assistant_name@.push(':'));
        }
        let n: usize = self.messages.len();
        let mut out: Vec<Message> = Vec::new();
        let mut i: usize = 0;
        proof {
            reveal_with_fuel(Seq::filter, 1);
            assert(self.messages@.take(0) =~= Seq::<Message>::empty());
        }
        while i < n
            invariant
                n == self.messages@.len(),
                i <= n,
                pred == user_message_of(chat_jid@, since_timestamp@, assistant_name@),
                prefix@ == assistant_name@.push(':'),
                out@ == self.messages@.take(i as int).filter(pred),
            decreases n - i,
        {
            let m = &self.messages[i];
            let keep = str_equal(m.chat_jid.as_str(), chat_jid) && str_less(
                since_timestamp,
                m.timestamp.as_str(),
            ) && !m.is_bot_message && !starts_with_exec(&chars_of(m.content.as_str()), &prefix);
            proof {
                self.messages@.take(i as int).lemma_filter_push(*m, pred);
                assert(self.messages@.take(i + 1) =~= self.messages@.take(i as int).push(*m));
            }
            if keep {
                out.push(m.clone());
            }
            i = i + 1;
        }
        assert(self.messages@.take(n as int) =~= self.messages@);
        stable_sort_by_time(out, false)
    }
}

impl Default for Database {
    fn default() -> (db: Self)
        ensures
            db.router_state() == Map::<Seq<char>, Seq<char>>::empty(),
            db.sessions() == Map::<Seq<char>, Seq<char>>::empty(),
            db.registered_groups() == Map::<Seq<char>, RegisteredGroup>::empty(),
            db.chats() == Map::<Seq<char>, ChatMetadata>::empty(),
            db.messages() == Seq::<Message>::empty(),
    {
        Database::new()
    }
}

} // verus!
