//! Rendering of inbound messages into a prompt and of outbound replies.
use vstd::prelude::*;
use crate::text::{chars_of, push_char, push_chars, starts_with_seq, trim_seq, trim_vec};
use crate::types::{Message, MessageView, message_views};

verus! {

/// What `escape_xml` turns one character into.
pub open spec fn escape_char(c: char) -> Seq<char> {
    if c == '&' {
        seq!['&', 'a', 'm', 'p', ';']
    } else if c == '<' {
        seq!['&', 'l', 't', ';']
    } else if c == '>' {
        seq!['&', 'g', 't', ';']
    } else if c == '"' {
        seq!['&', 'q', 'u', 'o', 't', ';']
    } else if c == '\'' {
        seq!['&', 'a', 'p', 'o', 's', ';']
    } else {
        seq![c]
    }
}

/// `s` with each of `& < > " '` replaced by its XML entity.
pub open spec fn escape_seq(s: Seq<char>) -> Seq<char>
    decreases s.len(),
{
    if s.len() == 0 {
        Seq::empty()
    } else {
        escape_seq(s.drop_last()) + escape_char(s.last())
    }
}

/// Escaped text holds none of `< > " '`, so it can stand inside XML
/// element content and attribute values.
pub proof fn law_escaped_has_no_markup(s: Seq<char>)
    ensures
        forall|i: int|
            0 <= i < escape_seq(s).len() ==> {
                let c = #[trigger] escape_seq(s)[i];
                c != '<' && c != '>' && c != '"' && c != '\''
            },
    decreases s.len(),
{
    if s.len() > 0 {
        law_escaped_has_no_markup(s.drop_last());
        let a = escape_seq(s.drop_last());
        let b = escape_char(s.last());
        assert forall|i: int| 0 <= i < escape_seq(s).len() implies {
            let c = #[trigger] escape_seq(s)[i];
            c != '<' && c != '>' && c != '"' && c != '\''
        } by {
            if i < a.len() {
                assert(escape_seq(s)[i] == a[i]);
            } else {
                assert(escape_seq(s)[i] == b[i - a.len()]);
            }
        }
    }
}

/// The text an XML reader sees in `t`: each of the five entities
/// `&amp; &lt; &gt; &quot; &apos;` read as its character.
pub open spec fn unescape_xml(t: Seq<char>) -> Seq<char>
    decreases t.len(),
{
    if t.len() == 0 {
        Seq::empty()
    } else if starts_with_seq(t, seq!['&', 'a', 'm', 'p', ';']) {
        seq!['&'] + unescape_xml(t.skip(5))
    } else if starts_with_seq(t, seq!['&', 'l', 't', ';']) {
        seq!['<'] + unescape_xml(t.skip(4))
    } else if starts_with_seq(t, seq!['&', 'g', 't', ';']) {
        seq!['>'] + unescape_xml(t.skip(4))
    } else if starts_with_seq(t, seq!['&', 'q', 'u', 'o', 't', ';']) {
        seq!['"'] + unescape_xml(t.skip(6))
    } else if starts_with_seq(t, seq!['&', 'a', 'p', 'o', 's', ';']) {
        seq!['\''] + unescape_xml(t.skip(6))
    } else {
        seq![t[0]] + unescape_xml(t.drop_first())
    }
}

/// Escaping touches only the five markup characters: any other character
/// stands for itself.
pub proof fn law_escape_keeps_other_chars(c: char)
    requires
        c != '&' && c != '<' && c != '>' && c != '"' && c != '\'',
    ensures
        escape_char(c) == seq![c],
{
}

/// Escaping works character by character: escaping a concatenation
/// concatenates the escapes.
pub proof fn law_escape_concat(a: Seq<char>, b: Seq<char>)
    ensures
        escape_seq(a + b) == escape_seq(a) + escape_seq(b),
    decreases b.len(),
{
    if b.len() == 0 {
        assert(a + b =~= a);
        assert(escape_seq(a) + escape_seq(b) =~= escape_seq(a));
    } else {
        law_escape_concat(a, b.drop_last());
        assert((a + b).drop_last() =~= a + b.drop_last());
        assert((a + b).last() == b.last());
        assert(escape_seq(a) + escape_seq(b.drop_last()) + escape_char(b.last()) =~= escape_seq(a)
            + (escape_seq(b.drop_last()) + escape_char(b.last())));
    }
}

/// Text with none of the five markup characters is left as it is.
pub proof fn law_escape_plain_text(s: Seq<char>)
    requires
        forall|i: int|
            0 <= i < s.len() ==> s[i] != '&' && s[i] != '<' && s[i] != '>' && s[i] != '"' && s[i]
                != '\'',
    ensures
        escape_seq(s) == s,
    decreases s.len(),
{
    if s.len() > 0 {
        law_escape_plain_text(s.drop_last());
        assert(s.drop_last() + seq![s.last()] =~= s);
    }
}

proof fn lemma_starts_with_first(t: Seq<char>, e: Seq<char>)
    requires
        e.len() > 0,
        starts_with_seq(t, e),
    ensures
        t[0] == e[0],
{
    assert(t.take(e.len() as int)[0] == t[0]);
}

proof fn lemma_unescape_step(c: char, r: Seq<char>)
    ensures
        unescape_xml(escape_char(c) + r) == seq![c] + unescape_xml(r),
{
    let e = escape_char(c);
    let t = e + r;
    let amp = seq!['&', 'a', 'm', 'p', ';'];
    let lt = seq!['&', 'l', 't', ';'];
    let gt = seq!['&', 'g', 't', ';'];
    let quot = seq!['&', 'q', 'u', 'o', 't', ';'];
    let apos = seq!['&', 'a', 'p', 'o', 's', ';'];
    assert(t.len() > 0);
    assert(t.take(e.len() as int) =~= e);
    assert(t.skip(e.len() as int) =~= r);
    if c == '&' {
        assert(starts_with_seq(t, amp));
    } else if c == '<' {
        assert(!starts_with_seq(t, amp)) by {
            if starts_with_seq(t, amp) {
                assert(t.take(5)[1] == t[1]);
            }
        }
        assert(starts_with_seq(t, lt));
    } else if c == '>' {
        assert(!starts_with_seq(t, amp)) by {
            if starts_with_seq(t, amp) {
                assert(t.take(5)[1] == t[1]);
            }
        }
        assert(!starts_with_seq(t, lt)) by {
            if starts_with_seq(t, lt) {
                assert(t.take(4)[1] == t[1]);
            }
        }
        assert(starts_with_seq(t, gt));
    } else if c == '"' {
        assert(!starts_with_seq(t, amp)) by {
            if starts_with_seq(t, amp) {
                assert(t.take(5)[1] == t[1]);
            }
        }
        assert(!starts_with_seq(t, lt)) by {
            if starts_with_seq(t, lt) {
                assert(t.take(4)[1] == t[1]);
            }
        }
        assert(!starts_with_seq(t, gt)) by {
            if starts_with_seq(t, gt) {
                assert(t.take(4)[1] == t[1]);
            }
        }
        assert(starts_with_seq(t, quot));
    } else if c == '\'' {
        assert(!starts_with_seq(t, amp)) by {
            if starts_with_seq(t, amp) {
                assert(t.take(5)[2] == t[2]);
            }
        }
        assert(!starts_with_seq(t, lt)) by {
            if starts_with_seq(t, lt) {
                assert(t.take(4)[1] == t[1]);
            }
        }
        assert(!starts_with_seq(t, gt)) by {
            if starts_with_seq(t, gt) {
                assert(t.take(4)[1] == t[1]);
            }
        }
        assert(!starts_with_seq(t, quot)) by {
            if starts_with_seq(t, quot) {
                assert(t.take(6)[1] == t[1]);
            }
        }
        assert(starts_with_seq(t, apos));
    } else {
        assert(t[0] == c);
        if starts_with_seq(t, amp) {
            lemma_starts_with_first(t, amp);
        }
        if starts_with_seq(t, lt) {
            lemma_starts_with_first(t, lt);
        }
        if starts_with_seq(t, gt) {
            lemma_starts_with_first(t, gt);
        }
        if starts_with_seq(t, quot) {
            lemma_starts_with_first(t, quot);
        }
        if starts_with_seq(t, apos) {
            lemma_starts_with_first(t, apos);
        }
        assert(t.drop_first() =~= r);
    }
}

/// Escaping loses nothing: reading the entities of the escaped text back
/// gives the original text.
pub proof fn law_unescape_escape(s: Seq<char>)
    ensures
        unescape_xml(escape_seq(s)) == s,
    decreases s.len(),
{
    if s.len() > 0 {
        let rest = s.drop_first();
        assert(seq![s[0]] + rest =~= s);
        law_escape_concat(seq![s[0]], rest);
        assert(seq![s[0]].drop_last() =~= Seq::<char>::empty());
        assert(seq![s[0]].last() == s[0]);
        assert(escape_seq(Seq::<char>::empty()) == Seq::<char>::empty());
        assert(Seq::<char>::empty() + escape_char(s[0]) =~= escape_char(s[0]));
        assert(escape_seq(seq![s[0]]) =~= escape_char(s[0]));
        lemma_unescape_step(s[0], escape_seq(rest));
        law_unescape_escape(rest);
    }
}

/// `lines` joined with newlines.
pub open spec fn join_lines(lines: Seq<Seq<char>>) -> Seq<char>
    decreases lines.len(),
{
    if lines.len() == 0 {
        Seq::empty()
    } else if lines.len() == 1 {
        lines[0]
    } else {
        join_lines(lines.drop_last()) + seq!['\n'] + lines.last()
    }
}

/// `[timestamp] sender_name: content`, the content trimmed and escaped.
pub open spec fn message_line(m: MessageView) -> Seq<char> {
    seq!['['] + m.timestamp + seq![']', ' '] + m.sender_name + seq![':', ' '] + escape_seq(
        trim_seq(m.content),
    )
}

/// The prompt for `messages`: one line per message.
pub open spec fn prompt_text(messages: Seq<MessageView>) -> Seq<char> {
    join_lines(messages.map_values(|m: MessageView| message_line(m)))
}

/// A reply as sent: the assistant's name, a colon, a space, the trimmed text.
pub open spec fn outbound_text(assistant_name: Seq<char>, text: Seq<char>) -> Seq<char> {
    assistant_name + seq![':', ' '] + trim_seq(text)
}

fn push_escaped(out: &mut String, c: char)
    ensures
        final(out)@ == old(out)@ + escape_char(c),
{
    let ghost start = out@;
    if c == '&' {
        push_char(out, '&');
        push_char(out, 'a');
        push_char(out, 'm');
        push_char(out, 'p');
        push_char(out, ';');
    } else if c == '<' {
        push_char(out, '&');
        push_char(out, 'l');
        push_char(out, 't');
        push_char(out, ';');
    } else if c == '>' {
        push_char(out, '&');
        push_char(out, 'g');
        push_char(out, 't');
        push_char(out, ';');
    } else if c == '"' {
        push_char(out, '&');
        push_char(out, 'q');
        push_char(out, 'u');
        push_char(out, 'o');
        push_char(out, 't');
        push_char(out, ';');
    } else if c == '\'' {
        push_char(out, '&');
        push_char(out, 'a');
        push_char(out, 'p');
        push_char(out, 'o');
        push_char(out, 's');
        push_char(out, ';');
    } else {
        push_char(out, c);
    }
    assert(out@ =~= start + escape_char(c));
}

/// Appends the escaped characters of `v` to `out`.
fn push_escaped_chars(out: &mut String, v: &Vec<char>)
    ensures
        final(out)@ == old(out)@ + escape_seq(v@),
{
    let ghost start = out@;
    let n: usize = v.len();
    let mut i: usize = 0;
    assert(v@.take(0) =~= Seq::<char>::empty());
    while i < n
        invariant
            n == v@.len(),
            i <= n,
            out@ == start + escape_seq(v@.take(i as int)),
        decreases n - i,
    {
        push_escaped(out, v[i]);
        assert(v@.take(i + 1).drop_last() =~= v@.take(i as int));
        i = i + 1;
    }
    assert(v@.take(n as int) =~= v@);
}

/// `input` with `& < > " '` replaced by their XML entities.
pub fn escape_xml(input: &str) -> (r: String)
    ensures
        r@ == escape_seq(input@),
{
    let v = chars_of(input);
    let mut out = String::new();
    push_escaped_chars(&mut out, &v);
    out
}

/// Appends the prompt line of `m` to `out`.
fn push_message_line(out: &mut String, m: &Message)
    ensures
        final(out)@ == old(out)@ + message_line(m@),
{
    let ghost start = out@;
    push_char(out, '[');
    push_chars(out, &chars_of(m.timestamp.as_str()));
    push_char(out, ']');
    push_char(out, ' ');
    push_chars(out, &chars_of(m.sender_name.as_str()));
    push_char(out, ':');
    push_char(out, ' ');
    let content = trim_vec(&chars_of(m.content.as_str()));
    push_escaped_chars(out, &content);
    assert(out@ =~= start + message_line(m@));
}

/// The prompt for `messages`: `[timestamp] sender_name: content` per message,
/// the content trimmed and XML-escaped, lines joined with newlines.
pub fn format_messages(messages: &[Message]) -> (r: String)
    ensures
        r@ == prompt_text(message_views(messages@)),
{
    let ghost lines = message_views(messages@).map_values(|m: MessageView| message_line(m));
    let mut out = String::new();
    let n: usize = messages.len();
    let mut i: usize = 0;
    while i < n
        invariant
            n == messages@.len(),
            i <= n,
            lines == message_views(messages@).map_values(|m: MessageView| message_line(m)),
            out@ == join_lines(lines.take(i as int)),
        decreases n - i,
    {
        if i > 0 {
            push_char(&mut out, '\n');
        }
        push_message_line(&mut out, &messages[i]);
        proof {
            let t = lines.take(i + 1);
            assert(t.drop_last() =~= lines.take(i as int));
            if i == 0 {
                assert(lines.take(0) =~= Seq::<Seq<char>>::empty());
            }
        }
        i = i + 1;
    }
    assert(lines.take(n as int) =~= lines);
    out
}

/// A reply as sent: `assistant_name: text`, the text trimmed.
pub fn format_outbound(assistant_name: &str, text: &str) -> (r: String)
    ensures
        r@ == outbound_text(assistant_name@, text@),
{
    let mut out = String::new();
    push_chars(&mut out, &chars_of(assistant_name));
    push_char(&mut out, ':');
    push_char(&mut out, ' ');
    push_chars(&mut out, &trim_vec(&chars_of(text)));
    assert(out@ =~= outbound_text(assistant_name@, text@));
    out
}

} // verus!
