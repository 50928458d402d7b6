//! Processing a whole message file at once: every line stored, every chat
//! that received a message answered once.
use vstd::prelude::*;
use crate::ipc_loop::{
    chats_of, collect_outputs, content_messages, ingest_content, line_message,
    reply_lines,
};
use crate::queue::{enqueue_all, string_views};
use crate::runtime::Runtime;
use crate::sorted_set::{lemma_sorted_insert_all, sorted_insert_all, strictly_sorted};
use crate::text::lemma_lt_irreflexive;
use crate::types::Message;

verus! {

/// The tag of the ids of messages read from a single file.
pub open spec fn line_tag() -> Seq<char> {
    seq!['l', 'i', 'n', 'e']
}

/// The reply lines for a message file: the chats that received messages,
/// in increasing order, each with the prompt of all its user messages.
pub open spec fn file_replies(assistant_name: Seq<char>, content: Seq<char>) -> Seq<Seq<char>> {
    let ms = content_messages(content, line_tag());
    reply_lines(
        sorted_insert_all(Seq::empty(), chats_of(ms)),
        ms,
        Seq::empty(),
        assistant_name,
        assistant_name,
    )
}

/// Putting distinct groups in an empty line keeps their order.
pub proof fn lemma_enqueue_all_distinct(groups: Seq<Seq<char>>)
    requires
        groups.no_duplicates(),
    ensures
        enqueue_all(Seq::empty(), groups) == groups,
    decreases groups.len(),
{
    if groups.len() > 0 {
        let t = groups.drop_last();
        assert(t.no_duplicates());
        lemma_enqueue_all_distinct(t);
        assert(!t.contains(groups.last())) by {
            if t.contains(groups.last()) {
                let k = choose|k: int| 0 <= k < t.len() && t[k] == groups.last();
                assert(groups[k] == groups[groups.len() - 1]);
            }
        }
        assert(t.push(groups.last()) =~= groups);
    }
}

/// A strictly sorted list has no duplicates.
pub proof fn lemma_strictly_sorted_distinct(s: Seq<Seq<char>>)
    requires
        strictly_sorted(s),
    ensures
        s.no_duplicates(),
{
    assert forall|i: int, j: int| 0 <= i < s.len() && 0 <= j < s.len() && i != j implies s[i]
        != s[j] by {
        lemma_lt_irreflexive(s[i]);
        if i < j {
            assert(crate::text::seq_lt(s[i], s[j]));
        } else {
            assert(crate::text::seq_lt(s[j], s[i]));
        }
    }
}

/// The message that line `idx` of a message file holds, its id `line-idx`.
pub fn parse_line(line: &str, idx: usize) -> (r: Option<Message>)
    ensures
        match r {
            Some(m) => line_message(line@, idx as nat, line_tag()) == Some(m@),
            None => line_message(line@, idx as nat, line_tag()) is None,
        },
{
    proof {
        reveal_strlit("line");
        assert("line"@ =~= line_tag());
    }
    crate::ipc_loop::parse_line(line, idx, "line")
}

/// The reply lines for a message file's `content`.
pub fn run_e2e(assistant_name: &str, content: &str) -> (r: Vec<String>)
    ensures
        string_views(r@) == file_replies(assistant_name@, content@),
{
    let mut runtime = Runtime::new(assistant_name, 4);
    let mut groups: Vec<String> = Vec::new();
    proof {
        reveal_strlit("line");
        assert("line"@ =~= line_tag());
        assert(string_views(groups@) =~= Seq::<Seq<char>>::empty());
    }
    ingest_content(&mut runtime, content, "line", &mut groups);
    let ghost ms = content_messages(content@, line_tag());
    proof {
        assert(crate::types::message_views(Seq::<Message>::empty()) =~= Seq::empty());
        assert(Seq::<crate::types::MessageView>::empty() + ms =~= ms);
        lemma_sorted_insert_all(Seq::empty(), chats_of(ms));
        lemma_strictly_sorted_distinct(string_views(groups@));
        lemma_enqueue_all_distinct(string_views(groups@));
        reveal_strlit("");
        assert(""@ =~= Seq::<char>::empty());
    }
    collect_outputs(&mut runtime, &groups, "", assistant_name)
}

} // verus!
