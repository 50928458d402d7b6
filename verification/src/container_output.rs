//! Extraction of the results that an agent container prints between
//! output markers on its standard output.
use vstd::prelude::*;
use crate::text::{
    chars_of, clone_opt, find_from, find_from_exec, find_seq, lemma_find_from_bounds, occurs_at,
    opt_chars, starts_with_exec, starts_with_seq, string_of, sub_vec, trim_seq, trim_start_seq,
    trim_start_vec, trim_vec,
};

verus! {

/// One result reported by a container.
#[derive(Debug, PartialEq, Eq)]
pub struct ContainerOutput {
    pub status: String,
    pub result: Option<String>,
    pub new_session_id: Option<String>,
    pub error: Option<String>,
}

impl Clone for ContainerOutput {
    fn clone(&self) -> (r: Self)
        ensures
            r == *self,
    {
        ContainerOutput {
            status: self.status.clone(),
            result: clone_opt(&self.result),
            new_session_id: clone_opt(&self.new_session_id),
            error: clone_opt(&self.error),
        }
    }
}

/// The content of a [`ContainerOutput`].
pub struct ParsedOutput {
    pub status: Seq<char>,
    pub result: Option<Seq<char>>,
    pub new_session_id: Option<Seq<char>>,
    pub error: Option<Seq<char>>,
}

impl View for ContainerOutput {
    type V = ParsedOutput;

    open spec fn view(&self) -> ParsedOutput {
        ParsedOutput {
            status: self.status@,
            result: opt_chars(self.result),
            new_session_id: opt_chars(self.new_session_id),
            error: opt_chars(self.error),
        }
    }
}

/// The marker printed before each result.
pub open spec fn start_marker() -> Seq<char> {
    seq![
        '-', '-', '-', 'N', 'A', 'N', 'O', 'C', 'L', 'A', 'W', '_', 'O', 'U', 'T', 'P', 'U', 'T',
        '_', 'S', 'T', 'A', 'R', 'T', '-', '-', '-',
    ]
}

/// The marker printed after each result.
pub open spec fn end_marker() -> Seq<char> {
    seq![
        '-', '-', '-', 'N', 'A', 'N', 'O', 'C', 'L', 'A', 'W', '_', 'O', 'U', 'T', 'P', 'U', 'T',
        '_', 'E', 'N', 'D', '-', '-', '-',
    ]
}

/// What a backslash followed by `c` stands for in a JSON string.
pub open spec fn unescape(c: char) -> char {
    if c == 'n' {
        '\n'
    } else if c == 't' {
        '\t'
    } else if c == 'r' {
        '\r'
    } else {
        c
    }
}

/// Decodes the rest `s` of a JSON string whose decoded prefix is `out`
/// (`escaped`: the previous character was an unused backslash); `None` when
/// no closing quote comes.
pub open spec fn decode_string_from(s: Seq<char>, out: Seq<char>, escaped: bool) -> Option<Seq<char>>
    decreases s.len(),
{
    if s.len() == 0 {
        None
    } else if escaped {
        decode_string_from(s.drop_first(), out.push(unescape(s[0])), false)
    } else if s[0] == '\\' {
        decode_string_from(s.drop_first(), out, true)
    } else if s[0] == '"' {
        Some(out)
    } else {
        decode_string_from(s.drop_first(), out.push(s[0]), false)
    }
}

/// `"key":`, the text that introduces `key`'s value.
pub open spec fn key_needle(key: Seq<char>) -> Seq<char> {
    seq!['"'] + key + seq!['"', ':']
}

/// The string value of the first `"key":` in `json`: `None` when the key is
/// absent, the value is `null` or not a string, or the string does not end.
pub open spec fn json_string_field(json: Seq<char>, key: Seq<char>) -> Option<Seq<char>> {
    match find_seq(json, key_needle(key)) {
        None => None,
        Some(i) => {
            let rest = trim_start_seq(json.skip(i + key_needle(key).len()));
            if starts_with_seq(rest, seq!['n', 'u', 'l', 'l']) {
                None
            } else if rest.len() == 0 || rest[0] != '"' {
                None
            } else {
                decode_string_from(rest.drop_first(), Seq::empty(), false)
            }
        },
    }
}

/// The contents of a JSON string with neither quote nor backslash inside
/// decode to exactly themselves; decoding stops at the closing quote and
/// reads nothing after it.
pub proof fn law_plain_string_decodes(x: Seq<char>, rest: Seq<char>, out: Seq<char>)
    requires
        forall|i: int| 0 <= i < x.len() ==> x[i] != '"' && x[i] != '\\',
    ensures
        decode_string_from(x + seq!['"'] + rest, out, false) == Some(out + x),
    decreases x.len(),
{
    let s = x + seq!['"'] + rest;
    if x.len() == 0 {
        assert(s[0] == '"');
        assert(out + x =~= out);
    } else {
        assert(s[0] == x[0]);
        assert(s.drop_first() =~= x.drop_first() + seq!['"'] + rest);
        law_plain_string_decodes(x.drop_first(), rest, out.push(x[0]));
        assert(out.push(x[0]) + x.drop_first() =~= out + x);
    }
}

/// A backslash and a character decode to that character (a newline, tab or
/// carriage return for `n`, `t`, `r`); decoding then goes on.
pub proof fn law_escape_decodes(c: char, rest: Seq<char>, out: Seq<char>)
    ensures
        decode_string_from(seq!['\\', c] + rest, out, false) == decode_string_from(
            rest,
            out.push(unescape(c)),
            false,
        ),
{
    let s = seq!['\\', c] + rest;
    assert(s[0] == '\\');
    assert(s.drop_first()[0] == c);
    assert(s.drop_first().drop_first() =~= rest);
    assert(decode_string_from(s, out, false) == decode_string_from(s.drop_first(), out, true));
    assert(decode_string_from(s.drop_first(), out, true) == decode_string_from(
        s.drop_first().drop_first(),
        out.push(unescape(c)),
        false,
    ));
}

/// A JSON text that opens with `"key":` and a string with neither quote nor
/// backslash inside has that string as the value of `key`, whatever follows.
pub proof fn law_leading_field_reads_back(key: Seq<char>, x: Seq<char>, rest: Seq<char>)
    requires
        forall|i: int| 0 <= i < x.len() ==> x[i] != '"' && x[i] != '\\',
    ensures
        json_string_field(key_needle(key) + seq!['"'] + x + seq!['"'] + rest, key) == Some(x),
{
    let needle = key_needle(key);
    let json = needle + seq!['"'] + x + seq!['"'] + rest;
    assert(json.subrange(0, needle.len() as int) =~= needle);
    assert(occurs_at(json, needle, 0));
    assert(find_seq(json, needle) == Some(0int));
    let after = json.skip(needle.len() as int);
    assert(after =~= seq!['"'] + (x + seq!['"'] + rest));
    assert(after[0] == '"');
    assert(!crate::text::is_ws(after[0]));
    assert(trim_start_seq(after) == after);
    assert(!starts_with_seq(after, seq!['n', 'u', 'l', 'l'])) by {
        if starts_with_seq(after, seq!['n', 'u', 'l', 'l']) {
            assert(after.take(4)[0] == after[0]);
        }
    }
    assert(after.drop_first() =~= x + seq!['"'] + rest);
    law_plain_string_decodes(x, rest, Seq::empty());
    assert(Seq::<char>::empty() + x =~= x);
}

/// The result that `json` reports; `None` without a string `status`.
pub open spec fn parse_output(json: Seq<char>) -> Option<ParsedOutput> {
    match json_string_field(json, seq!['s', 't', 'a', 't', 'u', 's']) {
        None => None,
        Some(status) => Some(
            ParsedOutput {
                status,
                result: json_string_field(json, seq!['r', 'e', 's', 'u', 'l', 't']),
                new_session_id: json_string_field(
                    json,
                    seq!['n', 'e', 'w', 'S', 'e', 's', 's', 'i', 'o', 'n', 'I', 'd'],
                ),
                error: json_string_field(json, seq!['e', 'r', 'r', 'o', 'r']),
            },
        ),
    }
}

/// The results in `s` from position `c` on: each complete start/end marker
/// pair, in order, contributes the parse of its trimmed contents, if any;
/// scanning stops at the first start marker without an end marker.
pub open spec fn outputs_from(s: Seq<char>, c: int) -> Seq<ParsedOutput>
    decreases s.len() - c,
{
    if c < 0 || c > s.len() {
        Seq::empty()
    } else {
        match find_from(s, start_marker(), c) {
            None => Seq::empty(),
            Some(p) => {
                let body = p + start_marker().len();
                match find_from(s, end_marker(), body) {
                    None => Seq::empty(),
                    Some(q) => {
                        proof {
                            lemma_find_from_bounds(s, start_marker(), c);
                            lemma_find_from_bounds(s, end_marker(), body);
                        }
                        let blob = trim_seq(s.subrange(body, q));
                        let next = q + end_marker().len();
                        let head = match parse_output(blob) {
                            Some(o) => seq![o],
                            None => Seq::empty(),
                        };
                        head + outputs_from(s, next)
                    },
                }
            },
        }
    }
}

/// The results printed in `stdout`.
pub open spec fn streamed_outputs(stdout: Seq<char>) -> Seq<ParsedOutput> {
    outputs_from(stdout, 0)
}

fn unescape_exec(c: char) -> (r: char)
    ensures
        r == unescape(c),
{
    if c == 'n' {
        '\n'
    } else if c == 't' {
        '\t'
    } else if c == 'r' {
        '\r'
    } else {
        c
    }
}

/// Decodes the JSON string whose contents begin at `s[start]` (just after
/// its opening quote).
fn decode_string(s: &Vec<char>, start: usize) -> (r: Option<String>)
    requires
        start <= s@.len(),
    ensures
        opt_chars(r) == decode_string_from(s@.skip(start as int), Seq::empty(), false),
{
    let n: usize = s.len();
    let mut out: Vec<char> = Vec::new();
    let mut escaped: bool = false;
    let mut i: usize = start;
    while i < n
        invariant
            n == s@.len(),
            start <= i <= n,
            decode_string_from(s@.skip(start as int), Seq::empty(), false) == decode_string_from(
                s@.skip(i as int),
                out@,
                escaped,
            ),
        decreases n - i,
    {
        let c = s[i];
        assert(s@.skip(i as int).drop_first() =~= s@.skip(i + 1));
        assert(s@.skip(i as int)[0] == c);
        if escaped {
            out.push(unescape_exec(c));
            escaped = false;
        } else if c == '\\' {
            escaped = true;
        } else if c == '"' {
            return Some(string_of(&out));
        } else {
            out.push(c);
        }
        i = i + 1;
    }
    assert(s@.skip(n as int).len() == 0);
    None
}

/// The string value of the first `"key":` in `json`, if it has one.
pub fn json_string_value(json: &Vec<char>, key: &Vec<char>) -> (r: Option<String>)
    ensures
        opt_chars(r) == json_string_field(json@, key@),
{
    let mut needle: Vec<char> = Vec::new();
    needle.push('"');
    let mut j: usize = 0;
    let kn: usize = key.len();
    while j < kn
        invariant
            kn == key@.len(),
            j <= kn,
            needle@ == seq!['"'] + key@.take(j as int),
        decreases kn - j,
    {
        needle.push(key[j]);
        j = j + 1;
        assert(needle@ =~= seq!['"'] + key@.take(j as int));
    }
    needle.push('"');
    needle.push(':');
    assert(key@.take(kn as int) =~= key@);
    assert(needle@ =~= key_needle(key@));
    match find_from_exec(json, &needle, 0) {
        None => None,
        Some(i) => {
            proof {
                lemma_find_from_bounds(json@, needle@, 0);
                assert(occurs_at(json@, needle@, i as int));
            }
            let jn: usize = json.len();
            let after = sub_vec(json, i + needle.len(), jn);
            assert(after@ =~= json@.skip(i + needle@.len()));
            let rest = trim_start_vec(&after);
            let mut null_word: Vec<char> = Vec::new();
            null_word.push('n');
            null_word.push('u');
            null_word.push('l');
            null_word.push('l');
            assert(null_word@ =~= seq!['n', 'u', 'l', 'l']);
            if starts_with_exec(&rest, &null_word) {
                None
            } else if rest.len() == 0 || rest[0] != '"' {
                None
            } else {
                assert(rest@.skip(1) =~= rest@.drop_first());
                decode_string(&rest, 1)
            }
        },
    }
}

/// The result that `json` reports, if it has a string `status`.
pub fn parse_single_output(json: &Vec<char>) -> (r: Option<ContainerOutput>)
    ensures
        match r {
            Some(o) => parse_output(json@) == Some(o@),
            None => parse_output(json@) is None,
        },
{
    let status_key = chars_of("status");
    let result_key = chars_of("result");
    let session_key = chars_of("newSessionId");
    let error_key = chars_of("error");
    proof {
        reveal_strlit("status");
        reveal_strlit("result");
        reveal_strlit("newSessionId");
        reveal_strlit("error");
        assert(status_key@ =~= seq!['s', 't', 'a', 't', 'u', 's']);
        assert(result_key@ =~= seq!['r', 'e', 's', 'u', 'l', 't']);
        assert(session_key@ =~= seq!['n', 'e', 'w', 'S', 'e', 's', 's', 'i', 'o', 'n', 'I', 'd']);
        assert(error_key@ =~= seq!['e', 'r', 'r', 'o', 'r']);
    }
    match json_string_value(json, &status_key) {
        None => None,
        Some(status) => Some(
            ContainerOutput {
                status,
                result: json_string_value(json, &result_key),
                new_session_id: json_string_value(json, &session_key),
                error: json_string_value(json, &error_key),
            },
        ),
    }
}

/// The views of a list of results.
pub open spec fn outputs_view(v: Seq<ContainerOutput>) -> Seq<ParsedOutput> {
    v.map_values(|o: ContainerOutput| o@)
}

/// Every result printed in `stdout` between a start and an end marker, in
/// order; blocks without a string `status` are skipped, and scanning stops at
/// a start marker that no end marker follows.
pub fn parse_streamed_outputs(stdout: &str) -> (r: Vec<ContainerOutput>)
    ensures
        outputs_view(r@) == streamed_outputs(stdout@),
{
    let s = chars_of(stdout);
    let start = chars_of("---NANOCLAW_OUTPUT_START---");
    let end = chars_of("---NANOCLAW_OUTPUT_END---");
    proof {
        reveal_strlit("---NANOCLAW_OUTPUT_START---");
        reveal_strlit("---NANOCLAW_OUTPUT_END---");
        assert(start@ =~= start_marker());
        assert(end@ =~= end_marker());
    }
    let n: usize = s.len();
    let mut out: Vec<ContainerOutput> = Vec::new();
    let mut cursor: usize = 0;
    assert(outputs_view(out@) =~= Seq::<ParsedOutput>::empty());
    loop
        invariant
            n == s@.len(),
            start@ == start_marker(),
            end@ == end_marker(),
            cursor <= n,
            streamed_outputs(s@) == outputs_view(out@) + outputs_from(s@, cursor as int),
        ensures
            streamed_outputs(s@) == outputs_view(out@),
        decreases n - cursor,
    {
        let p = match find_from_exec(&s, &start, cursor) {
            None => {
                assert(outputs_view(out@) + Seq::<ParsedOutput>::empty() =~= outputs_view(out@));
                break;
            },
            Some(p) => p,
        };
        proof {
            lemma_find_from_bounds(s@, start@, cursor as int);
        }
        let body: usize = p + start.len();
        let q = match find_from_exec(&s, &end, body) {
            None => {
                assert(outputs_view(out@) + Seq::<ParsedOutput>::empty() =~= outputs_view(out@));
                break;
            },
            Some(q) => q,
        };
        proof {
            lemma_find_from_bounds(s@, end@, body as int);
        }
        let blob = trim_vec(&sub_vec(&s, body, q));
        let ghost before = outputs_view(out@);
        match parse_single_output(&blob) {
            Some(o) => {
                out.push(o);
                assert(outputs_view(out@) =~= before + seq![o@]);
            },
            None => {
                assert(outputs_view(out@) =~= before + Seq::<ParsedOutput>::empty());
            },
        }
        cursor = q + end.len();
    }
    out
}

} // verus!
