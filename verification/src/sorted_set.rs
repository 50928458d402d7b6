//! A set of strings kept as a strictly increasing list, iterated in order.
use vstd::prelude::*;
use crate::queue::string_views;
use crate::text::{chars_equal, chars_of, lemma_le_facts, lex_less, seq_lt};

verus! {

/// `s` is strictly increasing, hence without duplicates.
pub open spec fn strictly_sorted(s: Seq<Seq<char>>) -> bool {
    forall|i: int, j: int| 0 <= i < j < s.len() ==> seq_lt(#[trigger] s[i], #[trigger] s[j])
}

/// The first index at or after `j` whose element does not sort before `x`.
pub open spec fn sorted_position(s: Seq<Seq<char>>, x: Seq<char>, j: int) -> int
    decreases s.len() - j,
{
    if j < 0 || j >= s.len() {
        s.len() as int
    } else if !seq_lt(s[j], x) {
        j
    } else {
        sorted_position(s, x, j + 1)
    }
}

/// `s` with `x` added in order, unless present.
pub open spec fn sorted_insert(s: Seq<Seq<char>>, x: Seq<char>) -> Seq<Seq<char>> {
    let p = sorted_position(s, x, 0);
    if p < s.len() && s[p] == x {
        s
    } else {
        s.insert(p, x)
    }
}

/// `s` with each of `xs` added in order.
pub open spec fn sorted_insert_all(s: Seq<Seq<char>>, xs: Seq<Seq<char>>) -> Seq<Seq<char>>
    decreases xs.len(),
{
    if xs.len() == 0 {
        s
    } else {
        sorted_insert(sorted_insert_all(s, xs.drop_last()), xs.last())
    }
}

proof fn lemma_sorted_position(s: Seq<Seq<char>>, x: Seq<char>, j: int)
    requires
        strictly_sorted(s),
        0 <= j <= s.len(),
        forall|i: int| 0 <= i < j ==> seq_lt(#[trigger] s[i], x),
    ensures
        j <= sorted_position(s, x, j) <= s.len(),
        forall|i: int| 0 <= i < sorted_position(s, x, j) ==> seq_lt(#[trigger] s[i], x),
        forall|i: int| sorted_position(s, x, j) <= i < s.len() ==> !seq_lt(#[trigger] s[i], x),
    decreases s.len() - j,
{
    lemma_le_facts();
    if j < s.len() {
        if !seq_lt(s[j], x) {
            assert forall|i: int| j <= i < s.len() implies !seq_lt(#[trigger] s[i], x) by {
                if i > j {
                    assert(seq_lt(s[j], s[i]));
                    if seq_lt(s[i], x) {
                        crate::text::lemma_lt_transitive(s[j], s[i], x);
                    }
                }
            }
        } else {
            lemma_sorted_position(s, x, j + 1);
        }
    }
}

/// Adding an element keeps a list strictly sorted and adds it to the set.
pub proof fn lemma_sorted_insert(s: Seq<Seq<char>>, x: Seq<char>)
    requires
        strictly_sorted(s),
    ensures
        strictly_sorted(sorted_insert(s, x)),
        sorted_insert(s, x).to_set() == s.to_set().insert(x),
{
    lemma_le_facts();
    lemma_sorted_position(s, x, 0);
    let p = sorted_position(s, x, 0);
    let r = sorted_insert(s, x);
    if p < s.len() && s[p] == x {
        assert(s.to_set() =~= s.to_set().insert(x)) by {
            assert(s.contains(x));
        }
    } else {
        assert(p < s.len() ==> seq_lt(x, s[p])) by {
            if p < s.len() {
                crate::text::lemma_lt_total(x, s[p]);
            }
        }
        assert forall|i: int, j: int| 0 <= i < j < r.len() implies seq_lt(
            #[trigger] r[i],
            #[trigger] r[j],
        ) by {
            if j < p {
            } else if j == p {
            } else if i == p {
                assert(r[j] == s[j - 1]);
                if j - 1 > p {
                    crate::text::lemma_lt_transitive(x, s[p], s[j - 1]);
                }
            } else if i < p {
                assert(r[j] == s[j - 1]);
            } else {
                assert(r[i] == s[i - 1] && r[j] == s[j - 1]);
            }
        }
        assert forall|y: Seq<char>| r.contains(y) <==> s.contains(y) || y == x by {
            if r.contains(y) {
                let k = choose|k: int| 0 <= k < r.len() && r[k] == y;
                if k < p {
                    assert(s[k] == y);
                } else if k > p {
                    assert(s[k - 1] == y);
                }
            }
            if s.contains(y) {
                let k = choose|k: int| 0 <= k < s.len() && s[k] == y;
                if k < p {
                    assert(r[k] == y);
                } else {
                    assert(r[k + 1] == y);
                }
            }
            if y == x {
                assert(r[p] == x);
            }
        }
        assert(r.to_set() =~= s.to_set().insert(x));
    }
}

/// Adding elements one by one keeps a list strictly sorted and adds them to
/// the set.
pub proof fn lemma_sorted_insert_all(s: Seq<Seq<char>>, xs: Seq<Seq<char>>)
    requires
        strictly_sorted(s),
    ensures
        strictly_sorted(sorted_insert_all(s, xs)),
        sorted_insert_all(s, xs).to_set() == s.to_set() + xs.to_set(),
    decreases xs.len(),
{
    if xs.len() == 0 {
        assert(xs.to_set() =~= Set::<Seq<char>>::empty());
        assert(s.to_set() + xs.to_set() =~= s.to_set());
    } else {
        lemma_sorted_insert_all(s, xs.drop_last());
        lemma_sorted_insert(sorted_insert_all(s, xs.drop_last()), xs.last());
        assert(xs.to_set() =~= xs.drop_last().to_set().insert(xs.last())) by {
            assert(xs =~= xs.drop_last().push(xs.last()));
            xs.drop_last().lemma_push_to_set_commute(xs.last());
        }
        assert(s.to_set() + xs.to_set() =~= (s.to_set() + xs.drop_last().to_set()).insert(xs.last()));
    }
}

/// Adds `x` to the strictly sorted list `set`, unless present.
pub fn insert_sorted(set: &mut Vec<String>, x: String)
    ensures
        string_views(final(set)@) == sorted_insert(string_views(old(set)@), x@),
{
    let ghost s = string_views(set@);
    let key = chars_of(x.as_str());
    let n: usize = set.len();
    let mut p: usize = 0;
    while p < n
        invariant
            n == set@.len(),
            s == string_views(set@),
            p <= n,
            sorted_position(s, key@, 0) == sorted_position(s, key@, p as int),
        ensures
            sorted_position(s, key@, 0) == p,
        decreases n - p,
    {
        let kp = chars_of(set[p].as_str());
        assert(kp@ == s[p as int]);
        if !lex_less(&kp, &key) {
            break;
        }
        p = p + 1;
    }
    if p < n && chars_equal(&chars_of(set[p].as_str()), &key) {
        return;
    }
    set.insert(p, x);
    assert(string_views(set@) =~= s.insert(p as int, key@));
}

} // verus!
