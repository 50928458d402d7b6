//! Turning batches of tab-separated message lines into stored messages and
//! the queued groups' prompts into reply lines.
use vstd::prelude::*;
use crate::text::{
    chars_of, decimal, lemma_find_from_bounds, decimal_chars, find_from_exec, find_seq, push_char, push_chars,
    string_of, sub_vec, trim_end_seq, trim_end_vec, trim_seq, trim_vec,
};
use crate::queue::{enqueue_all, string_views};
use crate::router::join_lines;
use crate::runtime::{group_prompt, Runtime};
use crate::sorted_set::{insert_sorted, sorted_insert_all};
use crate::types::{message_views, Message, MessageView};

verus! {

/// The pieces of `s` between newlines, `cur` being the piece read so far.
pub open spec fn lines_from(s: Seq<char>, cur: Seq<char>) -> Seq<Seq<char>>
    decreases s.len(),
{
    if s.len() == 0 {
        if cur.len() == 0 {
            Seq::empty()
        } else {
            seq![cur]
        }
    } else if s[0] == '\n' {
        seq![cur] + lines_from(s.drop_first(), Seq::empty())
    } else {
        lines_from(s.drop_first(), cur.push(s[0]))
    }
}

/// The lines of `s` as `str::lines` yields them, up to a carriage return
/// that ends a line (which the processing trims away in any case).
pub open spec fn text_lines(s: Seq<char>) -> Seq<Seq<char>> {
    lines_from(s, Seq::empty())
}

/// Joining a line in front of nonempty lines puts a newline after it.
proof fn lemma_join_lines_front(a: Seq<char>, ls: Seq<Seq<char>>)
    ensures
        ls.len() == 0 ==> join_lines(seq![a] + ls) == a,
        ls.len() > 0 ==> join_lines(seq![a] + ls) == a + seq!['\n'] + join_lines(ls),
    decreases ls.len(),
{
    let all = seq![a] + ls;
    if ls.len() == 0 {
        assert(all =~= seq![a]);
    } else if ls.len() == 1 {
        assert(all.drop_last() =~= seq![a]);
        assert(join_lines(seq![a]) == a);
        assert(join_lines(ls) == ls[0]);
    } else {
        lemma_join_lines_front(a, ls.drop_last());
        assert(all.drop_last() =~= seq![a] + ls.drop_last());
        assert(all.last() == ls.last());
        assert(a + seq!['\n'] + join_lines(ls.drop_last()) + seq!['\n'] + ls.last() =~= a
            + seq!['\n'] + (join_lines(ls.drop_last()) + seq!['\n'] + ls.last()));
    }
}

proof fn lemma_lines_from(s: Seq<char>, cur: Seq<char>)
    requires
        forall|i: int| 0 <= i < cur.len() ==> cur[i] != '\n',
    ensures
        lines_from(s, cur).len() == 0 <==> (s.len() == 0 && cur.len() == 0),
        cur + s == join_lines(lines_from(s, cur)) || cur + s == join_lines(lines_from(s, cur))
            + seq!['\n'],
        forall|k: int, i: int|
            0 <= k < lines_from(s, cur).len() && 0 <= i < lines_from(s, cur)[k].len()
                ==> lines_from(s, cur)[k][i] != '\n',
    decreases s.len(),
{
    let ls = lines_from(s, cur);
    if s.len() == 0 {
        if cur.len() == 0 {
            assert(cur + s =~= Seq::<char>::empty());
        } else {
            assert(cur + s =~= cur);
        }
    } else if s[0] == '\n' {
        let t = s.drop_first();
        lemma_lines_from(t, Seq::empty());
        let rest = lines_from(t, Seq::empty());
        lemma_join_lines_front(cur, rest);
        assert(Seq::<char>::empty() + t =~= t);
        assert(cur + s =~= cur + seq!['\n'] + t);
        if rest.len() == 0 {
            assert(t.len() == 0);
            assert(ls =~= seq![cur]);
            assert(cur + s =~= cur + seq!['\n']);
        } else {
            if t == join_lines(rest) {
                assert(cur + s =~= cur + seq!['\n'] + join_lines(rest));
            } else {
                assert(cur + s =~= cur + seq!['\n'] + join_lines(rest) + seq!['\n']);
            }
        }
        assert forall|k: int, i: int| 0 <= k < ls.len() && 0 <= i < ls[k].len() implies ls[k][i]
            != '\n' by {
            if k > 0 {
                assert(ls[k] == rest[k - 1]);
            } else {
                assert(ls[0] == cur);
            }
        }
    } else {
        let t = s.drop_first();
        lemma_lines_from(t, cur.push(s[0]));
        assert(cur + s =~= cur.push(s[0]) + t);
    }
}

/// The lines are exactly the newline-separated pieces of the text: none holds
/// a newline, there are none only for an empty text, and joining them with
/// newlines gives the text back, but for at most one final newline. So a last
/// piece that no newline ends is a line too.
pub proof fn law_text_lines_rejoin(s: Seq<char>)
    ensures
        text_lines(s).len() == 0 <==> s.len() == 0,
        s == join_lines(text_lines(s)) || s == join_lines(text_lines(s)) + seq!['\n'],
        forall|k: int, i: int|
            0 <= k < text_lines(s).len() && 0 <= i < text_lines(s)[k].len() ==> text_lines(s)[k][i]
                != '\n',
{
    lemma_lines_from(s, Seq::empty());
    assert(Seq::<char>::empty() + s =~= s);
}

/// The four fields of a line split at its first three tabs; `None` with
/// fewer than three tabs.
pub open spec fn tab_fields(line: Seq<char>) -> Option<(Seq<char>, Seq<char>, Seq<char>, Seq<char>)> {
    match find_seq(line, seq!['\t']) {
        None => None,
        Some(a) => {
            let r1 = line.skip(a + 1);
            match find_seq(r1, seq!['\t']) {
                None => None,
                Some(b) => {
                    let r2 = r1.skip(b + 1);
                    match find_seq(r2, seq!['\t']) {
                        None => None,
                        Some(c) => Some((line.take(a), r1.take(b), r2.take(c), r2.skip(c + 1))),
                    }
                },
            }
        },
    }
}

/// The suffix that makes a sender name a sender address.
pub open spec fn local_suffix() -> Seq<char> {
    seq!['@', 'l', 'o', 'c', 'a', 'l']
}

/// The message that line `idx` of a file tagged `tag` holds: fields
/// timestamp, chat, sender and content, separated by tabs; the first three
/// trimmed, the content kept as it is.
pub open spec fn line_message(line: Seq<char>, idx: nat, tag: Seq<char>) -> Option<MessageView> {
    match tab_fields(line) {
        None => None,
        Some((ts, chat, sender, content)) => Some(
            MessageView {
                id: tag + seq!['-'] + decimal(idx),
                chat_jid: trim_seq(chat),
                sender: trim_seq(sender) + local_suffix(),
                sender_name: trim_seq(sender),
                content,
                timestamp: trim_seq(ts),
                is_from_me: false,
                is_bot_message: false,
            },
        ),
    }
}

/// Reads one line: the message it holds, if it is not blank and parses.
pub open spec fn entry_message(line: Seq<char>, idx: nat, tag: Seq<char>) -> Seq<MessageView> {
    let l = trim_end_seq(line);
    if l.len() == 0 {
        Seq::empty()
    } else {
        match line_message(l, idx, tag) {
            Some(m) => seq![m],
            None => Seq::empty(),
        }
    }
}

/// The messages that `lines` hold, in order; line numbers count from 1.
pub open spec fn lines_messages(lines: Seq<Seq<char>>, tag: Seq<char>) -> Seq<MessageView>
    decreases lines.len(),
{
    if lines.len() == 0 {
        Seq::empty()
    } else {
        lines_messages(lines.drop_last(), tag) + entry_message(lines.last(), lines.len(), tag)
    }
}

/// The messages that a batch file's `content` holds.
pub open spec fn content_messages(content: Seq<char>, tag: Seq<char>) -> Seq<MessageView> {
    lines_messages(text_lines(content), tag)
}

fn tab() -> (v: Vec<char>)
    ensures
        v@ == seq!['\t'],
{
    let mut v: Vec<char> = Vec::new();
    v.push('\t');
    assert(v@ =~= seq!['\t']);
    v
}

/// The four tab-separated fields of `line`, if it has three tabs.
fn split_fields(line: &Vec<char>) -> (r: Option<(Vec<char>, Vec<char>, Vec<char>, Vec<char>)>)
    ensures
        match r {
            Some((a, b, c, d)) => tab_fields(line@) == Some((a@, b@, c@, d@)),
            None => tab_fields(line@) is None,
        },
{
    let t = tab();
    let n: usize = line.len();
    let a = match find_from_exec(line, &t, 0) {
        Some(a) => a,
        None => return None,
    };
    proof {
        lemma_find_from_bounds(line@, t@, 0);
    }
    let r1 = sub_vec(line, a + 1, n);
    assert(r1@ =~= line@.skip(a + 1));
    let n1: usize = r1.len();
    let b = match find_from_exec(&r1, &t, 0) {
        Some(b) => b,
        None => return None,
    };
    proof {
        lemma_find_from_bounds(r1@, t@, 0);
    }
    let r2 = sub_vec(&r1, b + 1, n1);
    assert(r2@ =~= r1@.skip(b + 1));
    let n2: usize = r2.len();
    let c = match find_from_exec(&r2, &t, 0) {
        Some(c) => c,
        None => return None,
    };
    proof {
        lemma_find_from_bounds(r2@, t@, 0);
    }
    let f0 = sub_vec(line, 0, a);
    let f1 = sub_vec(&r1, 0, b);
    let f2 = sub_vec(&r2, 0, c);
    let f3 = sub_vec(&r2, c + 1, n2);
    assert(f0@ =~= line@.take(a as int));
    assert(f1@ =~= r1@.take(b as int));
    assert(f2@ =~= r2@.take(c as int));
    assert(f3@ =~= r2@.skip(c + 1));
    Some((f0, f1, f2, f3))
}

/// The characters of each vector of `v`.
pub open spec fn char_views(v: Seq<Vec<char>>) -> Seq<Seq<char>> {
    v.map_values(|l: Vec<char>| l@)
}

/// The lines of `s`.
pub fn split_lines(s: &Vec<char>) -> (r: Vec<Vec<char>>)
    ensures
        char_views(r@) == text_lines(s@),
{
    let n: usize = s.len();
    let mut out: Vec<Vec<char>> = Vec::new();
    let mut cur: Vec<char> = Vec::new();
    let mut i: usize = 0;
    assert(s@.skip(0) =~= s@);
    assert(char_views(out@) =~= Seq::<Seq<char>>::empty());
    while i < n
        invariant
            n == s@.len(),
            i <= n,
            text_lines(s@) == char_views(out@) + lines_from(s@.skip(i as int), cur@),
        decreases n - i,
    {
        let c = s[i];
        assert(s@.skip(i as int).drop_first() =~= s@.skip(i + 1));
        assert(s@.skip(i as int)[0] == c);
        let ghost before = char_views(out@);
        if c == '\n' {
            let mut line: Vec<char> = Vec::new();
            std::mem::swap(&mut line, &mut cur);
            out.push(line);
            assert(char_views(out@) =~= before + seq![line@]);
            assert(cur@ =~= Seq::<char>::empty());
        } else {
            cur.push(c);
        }
        i = i + 1;
    }
    assert(s@.skip(n as int).len() == 0);
    if cur.len() > 0 {
        let ghost before = char_views(out@);
        out.push(cur);
        assert(char_views(out@) =~= before + seq![cur@]);
    } else {
        assert(char_views(out@) + Seq::<Seq<char>>::empty() =~= char_views(out@));
    }
    out
}

/// The message that line `idx` of a file tagged `file_tag` holds: fields
/// timestamp, chat, sender and content separated by tabs (the content may
/// hold more tabs); `None` with fewer than three tabs.
pub fn parse_line(line: &str, idx: usize, file_tag: &str) -> (r: Option<Message>)
    ensures
        match r {
            Some(m) => line_message(line@, idx as nat, file_tag@) == Some(m@),
            None => line_message(line@, idx as nat, file_tag@) is None,
        },
{
    parse_line_chars(&chars_of(line), idx, file_tag)
}

fn parse_line_chars(v: &Vec<char>, idx: usize, file_tag: &str) -> (r: Option<Message>)
    ensures
        match r {
            Some(m) => line_message(v@, idx as nat, file_tag@) == Some(m@),
            None => line_message(v@, idx as nat, file_tag@) is None,
        },
{
    let (ts, chat, sender, content) = match split_fields(v) {
        Some(f) => f,
        None => return None,
    };
    let mut id = String::new();
    push_chars(&mut id, &chars_of(file_tag));
    push_char(&mut id, '-');
    push_chars(&mut id, &decimal_chars(idx));
    let sender_name = trim_vec(&sender);
    let mut address = string_of(&sender_name);
    push_char(&mut address, '@');
    push_char(&mut address, 'l');
    push_char(&mut address, 'o');
    push_char(&mut address, 'c');
    push_char(&mut address, 'a');
    push_char(&mut address, 'l');
    let m = Message {
        id,
        chat_jid: string_of(&trim_vec(&chat)),
        sender: address,
        sender_name: string_of(&sender_name),
        content: string_of(&content),
        timestamp: string_of(&trim_vec(&ts)),
        is_from_me: false,
        is_bot_message: false,
    };
    assert(m@.id =~= file_tag@ + seq!['-'] + decimal(idx as nat));
    assert(m@.sender =~= trim_seq(sender@) + local_suffix());
    Some(m)
}

/// The chat of each message of `ms`.
pub open spec fn chats_of(ms: Seq<MessageView>) -> Seq<Seq<char>> {
    ms.map_values(|m: MessageView| m.chat_jid)
}

/// Stores the messages that a batch file's `content` holds (its lines
/// tagged `file_tag` and numbered from 1), in order, and adds their chats to
/// the strictly sorted list `touched`.
pub fn ingest_content(runtime: &mut Runtime, content: &str, file_tag: &str, touched: &mut Vec<String>)
    requires
        old(runtime).wf(),
    ensures
        final(runtime).wf(),
        message_views(final(runtime).database().messages()) == message_views(
            old(runtime).database().messages(),
        ) + content_messages(content@, file_tag@),
        final(runtime).database().router_state() == old(runtime).database().router_state(),
        final(runtime).database().sessions() == old(runtime).database().sessions(),
        final(runtime).database().registered_groups() == old(
            runtime,
        ).database().registered_groups(),
        final(runtime).database().chats() == old(runtime).database().chats(),
        final(runtime).queued() == old(runtime).queued(),
        final(runtime).assistant_name() == old(runtime).assistant_name(),
        final(runtime).max_concurrency() == old(runtime).max_concurrency(),
        string_views(final(touched)@) == sorted_insert_all(
            string_views(old(touched)@),
            chats_of(content_messages(content@, file_tag@)),
        ),
{
    let lines = split_lines(&chars_of(content));
    let ghost ls = char_views(lines@);
    let ghost m0 = message_views(runtime.database().messages());
    let ghost t0 = string_views(touched@);
    let n: usize = lines.len();
    let mut k: usize = 0;
    assert(ls.take(0) =~= Seq::<Seq<char>>::empty());
    assert(m0 + Seq::<MessageView>::empty() =~= m0);
    assert(chats_of(Seq::<MessageView>::empty()) =~= Seq::<Seq<char>>::empty());
    while k < n
        invariant
            n == lines@.len(),
            ls == char_views(lines@),
            ls == text_lines(content@),
            k <= n,
            runtime.wf(),
            message_views(runtime.database().messages()) == m0 + lines_messages(ls.take(k as int), file_tag@),
            string_views(touched@) == sorted_insert_all(
                t0,
                chats_of(lines_messages(ls.take(k as int), file_tag@)),
            ),
            runtime.database().router_state() == old(runtime).database().router_state(),
            runtime.database().sessions() == old(runtime).database().sessions(),
            runtime.database().registered_groups() == old(runtime).database().registered_groups(),
            runtime.database().chats() == old(runtime).database().chats(),
            runtime.queued() == old(runtime).queued(),
            runtime.assistant_name() == old(runtime).assistant_name(),
            runtime.max_concurrency() == old(runtime).max_concurrency(),
        decreases n - k,
    {
        let ghost prev = lines_messages(ls.take(k as int), file_tag@);
        let ghost msgs_before = runtime.database().messages();
        proof {
            assert(ls.take(k + 1).drop_last() =~= ls.take(k as int));
            assert(ls.take(k + 1).last() == lines@[k as int]@);
        }
        let line = trim_end_vec(&lines[k]);
        if line.len() > 0 {
            match parse_line_chars(&line, k + 1, file_tag) {
                Some(m) => {
                    let jid = m.chat_jid.clone();
                    let ghost mv = m@;
                    runtime.store_message(m);
                    insert_sorted(touched, jid);
                    proof {
                        assert(message_views(msgs_before.push(m)) =~= message_views(msgs_before).push(mv));
                        assert(prev + seq![mv] =~= prev.push(mv));
                        assert(chats_of(prev.push(mv)) =~= chats_of(prev).push(mv.chat_jid));
                        assert(chats_of(prev.push(mv)).drop_last() =~= chats_of(prev));
                    }
                },
                None => {
                    assert(prev + Seq::<MessageView>::empty() =~= prev);
                },
            }
        } else {
            assert(prev + Seq::<MessageView>::empty() =~= prev);
        }
        k = k + 1;
    }
    assert(ls.take(n as int) =~= ls);
}

/// The text that follows a group's chat in its reply line.
pub open spec fn processed_word() -> Seq<char> {
    seq![':', ' ', 'p', 'r', 'o', 'c', 'e', 's', 's', 'e', 'd']
}

/// `p` with each newline written as a backslash and `n`.
pub open spec fn escape_newlines(p: Seq<char>) -> Seq<char>
    decreases p.len(),
{
    if p.len() == 0 {
        Seq::empty()
    } else {
        escape_newlines(p.drop_last()) + if p.last() == '\n' {
            seq!['\\', 'n']
        } else {
            seq![p.last()]
        }
    }
}

/// The reply line for chat `jid`: the chat, a tab, `assistant_name: processed`,
/// a tab, and the prompt on one line.
pub open spec fn reply_line(jid: Seq<char>, assistant_name: Seq<char>, prompt: Seq<char>) -> Seq<char> {
    jid + seq!['\t'] + assistant_name + processed_word() + seq!['\t'] + escape_newlines(prompt)
}

/// The reply lines for the chats of `order`, in order: one per chat with a prompt.
pub open spec fn reply_lines(
    order: Seq<Seq<char>>,
    messages: Seq<MessageView>,
    since: Seq<char>,
    runtime_name: Seq<char>,
    assistant_name: Seq<char>,
) -> Seq<Seq<char>>
    decreases order.len(),
{
    if order.len() == 0 {
        Seq::empty()
    } else {
        reply_lines(order.drop_last(), messages, since, runtime_name, assistant_name) + match group_prompt(
            messages,
            order.last(),
            since,
            runtime_name,
        ) {
            Some(p) => seq![reply_line(order.last(), assistant_name, p)],
            None => Seq::empty(),
        }
    }
}

fn push_escaped_newlines(out: &mut String, p: &Vec<char>)
    ensures
        final(out)@ == old(out)@ + escape_newlines(p@),
{
    let ghost start = out@;
    let n: usize = p.len();
    let mut i: usize = 0;
    assert(p@.take(0) =~= Seq::<char>::empty());
    while i < n
        invariant
            n == p@.len(),
            i <= n,
            out@ == start + escape_newlines(p@.take(i as int)),
        decreases n - i,
    {
        let ghost before = out@;
        if p[i] == '\n' {
            push_char(out, '\\');
            push_char(out, 'n');
            assert(out@ =~= before + seq!['\\', 'n']);
        } else {
            push_char(out, p[i]);
            assert(out@ =~= before + seq![p@[i as int]]);
        }
        assert(p@.take(i + 1).drop_last() =~= p@.take(i as int));
        i = i + 1;
    }
    assert(p@.take(n as int) =~= p@);
}

/// The reply line for chat `jid`.
pub fn format_reply(jid: &str, assistant_name: &str, prompt: &str) -> (r: String)
    ensures
        r@ == reply_line(jid@, assistant_name@, prompt@),
{
    let mut out = String::new();
    push_chars(&mut out, &chars_of(jid));
    push_char(&mut out, '\t');
    push_chars(&mut out, &chars_of(assistant_name));
    let word = chars_of(": processed");
    proof {
        reveal_strlit(": processed");
        assert(word@ =~= processed_word());
    }
    push_chars(&mut out, &word);
    push_char(&mut out, '\t');
    push_escaped_newlines(&mut out, &chars_of(prompt));
    assert(out@ =~= reply_line(jid@, assistant_name@, prompt@));
    out
}

/// Puts each of `groups` in line, then takes every waiting group in turn and
/// returns a reply line (signed `assistant_name`) for each whose user
/// messages after `since_timestamp` make a prompt. When no group may be
/// processed at all, nothing is taken.
pub fn collect_outputs(
    runtime: &mut Runtime,
    groups: &Vec<String>,
    since_timestamp: &str,
    assistant_name: &str,
) -> (r: Vec<String>)
    requires
        old(runtime).wf(),
    ensures
        final(runtime).wf(),
        final(runtime).database() == old(runtime).database(),
        final(runtime).assistant_name() == old(runtime).assistant_name(),
        final(runtime).max_concurrency() == old(runtime).max_concurrency(),
        old(runtime).max_concurrency() == 0 ==> r@.len() == 0 && final(runtime).queued()
            == enqueue_all(old(runtime).queued(), string_views(groups@)),
        old(runtime).max_concurrency() > 0 ==> final(runtime).queued().len() == 0 && string_views(r@)
            == reply_lines(
            enqueue_all(old(runtime).queued(), string_views(groups@)),
            message_views(old(runtime).database().messages()),
            since_timestamp@,
            old(runtime).assistant_name(),
            assistant_name@,
        ),
{
    let ghost gs = string_views(groups@);
    let ghost q0 = runtime.queued();
    let n: usize = groups.len();
    let mut i: usize = 0;
    assert(gs.take(0) =~= Seq::<Seq<char>>::empty());
    while i < n
        invariant
            n == groups@.len(),
            gs == string_views(groups@),
            i <= n,
            runtime.wf(),
            runtime.database() == old(runtime).database(),
            runtime.assistant_name() == old(runtime).assistant_name(),
            runtime.max_concurrency() == old(runtime).max_concurrency(),
            runtime.queued() == enqueue_all(q0, gs.take(i as int)),
        decreases n - i,
    {
        runtime.enqueue_group(groups[i].as_str());
        assert(gs.take(i + 1).drop_last() =~= gs.take(i as int));
        i = i + 1;
    }
    assert(gs.take(n as int) =~= gs);
    let ghost order = runtime.queued();
    let ghost msgs = message_views(runtime.database().messages());
    let ghost name = runtime.assistant_name();
    let mut outputs: Vec<String> = Vec::new();
    let ghost mut k: int = 0;
    assert(order.take(0) =~= Seq::<Seq<char>>::empty());
    assert(order.skip(0) =~= order);
    assert(string_views(outputs@) =~= Seq::<Seq<char>>::empty());
    loop
        invariant
            runtime.wf(),
            runtime.database() == old(runtime).database(),
            runtime.assistant_name() == name,
            runtime.max_concurrency() == old(runtime).max_concurrency(),
            msgs == message_views(runtime.database().messages()),
            0 <= k <= order.len(),
            runtime.queued() == order.skip(k),
            runtime.max_concurrency() == 0 ==> k == 0 && outputs@.len() == 0,
            string_views(outputs@) == reply_lines(
                order.take(k),
                msgs,
                since_timestamp@,
                name,
                assistant_name@,
            ),
        ensures
            runtime.wf(),
            runtime.database() == old(runtime).database(),
            runtime.assistant_name() == name,
            runtime.max_concurrency() == old(runtime).max_concurrency(),
            runtime.max_concurrency() == 0 ==> outputs@.len() == 0 && runtime.queued() == order,
            runtime.max_concurrency() > 0 ==> runtime.queued().len() == 0 && string_views(outputs@)
                == reply_lines(order, msgs, since_timestamp@, name, assistant_name@),
        decreases runtime.queued().len(),
    {
        match runtime.process_next_group_prompt(since_timestamp) {
            None => {
                proof {
                    if runtime.max_concurrency() > 0 {
                        assert(order.skip(k).len() == 0);
                        assert(order.take(k) =~= order);
                    }
                }
                break;
            },
            Some((jid, prompt)) => {
                proof {
                    assert(order.take(k + 1).drop_last() =~= order.take(k));
                    assert(order.take(k + 1).last() == order[k]);
                    assert(order.skip(k).drop_first() =~= order.skip(k + 1));
                }
                let ghost before = string_views(outputs@);
                match prompt {
                    Some(p) => {
                        let line = format_reply(jid.as_str(), assistant_name, p.as_str());
                        outputs.push(line);
                        assert(string_views(outputs@) =~= before + seq![line@]);
                    },
                    None => {
                        assert(before + Seq::<Seq<char>>::empty() =~= before);
                    },
                }
                proof {
                    k = k + 1;
                }
            },
        }
    }
    outputs
}

/// The text of an output file holding `lines`: each line followed by a newline.
pub open spec fn rendered_lines(lines: Seq<Seq<char>>) -> Seq<char> {
    if lines.len() == 0 {
        Seq::empty()
    } else {
        join_lines(lines) + seq!['\n']
    }
}

/// `outputs` joined with newlines and ended with one; empty when there are none.
pub fn render_lines(outputs: &Vec<String>) -> (r: String)
    ensures
        r@ == rendered_lines(string_views(outputs@)),
{
    let ghost ls = string_views(outputs@);
    let mut out = String::new();
    let n: usize = outputs.len();
    let mut i: usize = 0;
    assert(ls.take(0) =~= Seq::<Seq<char>>::empty());
    while i < n
        invariant
            n == outputs@.len(),
            ls == string_views(outputs@),
            i <= n,
            out@ == join_lines(ls.take(i as int)),
        decreases n - i,
    {
        if i > 0 {
            push_char(&mut out, '\n');
        }
        push_chars(&mut out, &chars_of(outputs[i].as_str()));
        proof {
            assert(ls.take(i + 1).drop_last() =~= ls.take(i as int));
            assert(ls[i as int] == outputs@[i as int]@);
        }
        i = i + 1;
    }
    assert(ls.take(n as int) =~= ls);
    if n > 0 {
        push_char(&mut out, '\n');
    }
    out
}

} // verus!
