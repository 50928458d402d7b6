//! Stable ordering of records by a textual timestamp.
use vstd::prelude::*;
use vstd::seq_lib::*;
use crate::text::{lemma_le_facts, lex_less, seq_le};

verus! {

/// A record that carries a timestamp compared lexicographically.
pub trait TimeKey: Sized {
    /// The record's timestamp.
    spec fn time_key(&self) -> Seq<char>;
}

/// A record whose timestamp can be read.
pub trait Timestamped: TimeKey {
    /// The characters of the record's timestamp.
    fn time_chars(&self) -> (r: Vec<char>)
        ensures
            r@ == self.time_key(),
    ;
}

/// Time `a` may precede time `b` in ascending (or, with `desc`, descending) order.
pub open spec fn ranks_before(a: Seq<char>, b: Seq<char>, desc: bool) -> bool {
    if desc {
        seq_le(b, a)
    } else {
        seq_le(a, b)
    }
}

/// `s` is ordered by time, ascending or (with `desc`) descending.
pub open spec fn sorted_by_time<T: TimeKey>(s: Seq<T>, desc: bool) -> bool {
    forall|i: int, j: int|
        0 <= i < j < s.len() ==> ranks_before(
            #[trigger] s[i].time_key(),
            #[trigger] s[j].time_key(),
            desc,
        )
}

/// The records whose time is `k`.
pub open spec fn with_time<T: TimeKey>(k: Seq<char>) -> spec_fn(T) -> bool {
    |x: T| x.time_key() == k
}

/// `out` is `inp` stably sorted by time: ordered by time, and the records of
/// each time appear in `out` exactly as, and in the order, they appear in `inp`.
pub open spec fn stably_sorted<T: TimeKey>(out: Seq<T>, inp: Seq<T>, desc: bool) -> bool {
    &&& sorted_by_time(out, desc)
    &&& forall|k: Seq<char>| #[trigger] out.filter(with_time::<T>(k)) == inp.filter(with_time::<T>(k))
    &&& out.to_multiset() == inp.to_multiset()
}

proof fn lemma_ranks_facts(desc: bool)
    ensures
        forall|a: Seq<char>| #[trigger] ranks_before(a, a, desc),
        forall|a: Seq<char>, b: Seq<char>|
            ranks_before(a, b, desc) || #[trigger] ranks_before(b, a, desc),
        forall|a: Seq<char>, b: Seq<char>, c: Seq<char>|
            #[trigger] ranks_before(a, b, desc) && #[trigger] ranks_before(b, c, desc)
                ==> ranks_before(a, c, desc),
{
    lemma_le_facts();
}

/// Inserting `x` at `p`, after every record it may follow and before every
/// record that must follow it, keeps `r` a stable sort of `inp` extended by `x`.
proof fn lemma_insert_stable<T: TimeKey>(r: Seq<T>, inp: Seq<T>, x: T, p: int, desc: bool)
    requires
        stably_sorted(r, inp, desc),
        0 <= p <= r.len(),
        forall|i: int| 0 <= i < p ==> ranks_before(#[trigger] r[i].time_key(), x.time_key(), desc),
        forall|i: int|
            p <= i < r.len() ==> !ranks_before(#[trigger] r[i].time_key(), x.time_key(), desc),
    ensures
        stably_sorted(r.insert(p, x), inp.push(x), desc),
{
    lemma_ranks_facts(desc);
    let r2 = r.insert(p, x);
    let front = r.subrange(0, p);
    let back = r.subrange(p, r.len() as int);
    assert(r2 =~= front + seq![x] + back);
    assert(r =~= front + back);
    assert forall|i: int, j: int| 0 <= i < j < r2.len() implies ranks_before(
        #[trigger] r2[i].time_key(),
        #[trigger] r2[j].time_key(),
        desc,
    ) by {
        if j < p {
            assert(r2[i] == r[i] && r2[j] == r[j]);
        } else if j == p {
            assert(r2[i] == r[i]);
        } else if i == p {
            assert(r2[j] == r[j - 1]);
            assert(!ranks_before(r[p].time_key(), x.time_key(), desc));
            assert(ranks_before(x.time_key(), r[p].time_key(), desc));
            if j - 1 > p {
                assert(ranks_before(r[p].time_key(), r[j - 1].time_key(), desc));
            }
        } else if i < p {
            assert(r2[i] == r[i] && r2[j] == r[j - 1]);
        } else {
            assert(r2[i] == r[i - 1] && r2[j] == r[j - 1]);
        }
    }
    assert forall|k: Seq<char>| #[trigger] r2.filter(with_time::<T>(k)) == inp.push(x).filter(
        with_time::<T>(k),
    ) by {
        let f = with_time::<T>(k);
        Seq::filter_distributes_over_add(front + seq![x], back, f);
        Seq::filter_distributes_over_add(front, seq![x], f);
        Seq::filter_distributes_over_add(front, back, f);
        Seq::filter_distributes_over_add(inp, seq![x], f);
        assert(inp.push(x) =~= inp + seq![x]);
        reveal_with_fuel(Seq::filter, 2);
        assert(seq![x].drop_last() =~= Seq::<T>::empty());
        if x.time_key() == k {
            assert forall|i: int| 0 <= i < back.len() implies !f(back[i]) by {
                assert(back[i] == r[p + i]);
                if p + i > p {
                    assert(ranks_before(r[p].time_key(), r[p + i].time_key(), desc));
                }
            }
            back.lemma_all_neg_filter_empty(f);
        }
    }
    assert(r2.to_multiset() =~= inp.push(x).to_multiset()) by {
        broadcast use group_to_multiset_ensures;
        lemma_multiset_commutative(front + seq![x], back);
        lemma_multiset_commutative(front, seq![x]);
        lemma_multiset_commutative(front, back);
        assert(seq![x] =~= Seq::<T>::empty().push(x));
    }
}

/// The position at which insertion sort places a record of time `k` in `r`:
/// before the first record at or after `j` that must follow it.
pub open spec fn insertion_point_from<T: TimeKey>(r: Seq<T>, k: Seq<char>, desc: bool, j: int) -> int
    decreases r.len() - j,
{
    if j < 0 || j >= r.len() {
        r.len() as int
    } else if !ranks_before(r[j].time_key(), k, desc) {
        j
    } else {
        insertion_point_from(r, k, desc, j + 1)
    }
}

/// `s` sorted by time by insertion: each record in turn goes after every
/// record it may follow.
pub open spec fn time_sorted<T: TimeKey>(s: Seq<T>, desc: bool) -> Seq<T>
    decreases s.len(),
{
    if s.len() == 0 {
        Seq::empty()
    } else {
        let r = time_sorted(s.drop_last(), desc);
        r.insert(insertion_point_from(r, s.last().time_key(), desc, 0), s.last())
    }
}

proof fn lemma_insertion_point<T: TimeKey>(r: Seq<T>, k: Seq<char>, desc: bool, j: int)
    requires
        0 <= j <= r.len(),
        sorted_by_time(r, desc),
        forall|i: int| 0 <= i < j ==> ranks_before(#[trigger] r[i].time_key(), k, desc),
    ensures
        j <= insertion_point_from(r, k, desc, j) <= r.len(),
        forall|i: int|
            0 <= i < insertion_point_from(r, k, desc, j) ==> ranks_before(
                #[trigger] r[i].time_key(),
                k,
                desc,
            ),
        forall|i: int|
            insertion_point_from(r, k, desc, j) <= i < r.len() ==> !ranks_before(
                #[trigger] r[i].time_key(),
                k,
                desc,
            ),
    decreases r.len() - j,
{
    lemma_ranks_facts(desc);
    if j < r.len() {
        if !ranks_before(r[j].time_key(), k, desc) {
            assert forall|i: int| j <= i < r.len() implies !ranks_before(
                #[trigger] r[i].time_key(),
                k,
                desc,
            ) by {
                if i > j {
                    assert(ranks_before(r[j].time_key(), r[i].time_key(), desc));
                }
            }
        } else {
            lemma_insertion_point(r, k, desc, j + 1);
        }
    }
}

/// Sorting by insertion is a stable sort.
pub proof fn lemma_time_sorted_stable<T: TimeKey>(s: Seq<T>, desc: bool)
    ensures
        stably_sorted(time_sorted(s, desc), s, desc),
    decreases s.len(),
{
    if s.len() == 0 {
        reveal_with_fuel(Seq::filter, 1);
        assert(time_sorted(s, desc) =~= s);
    } else {
        let t = s.drop_last();
        lemma_time_sorted_stable(t, desc);
        let r = time_sorted(t, desc);
        let x = s.last();
        lemma_insertion_point(r, x.time_key(), desc, 0);
        lemma_insert_stable(r, t, x, insertion_point_from(r, x.time_key(), desc, 0), desc);
        assert(t.push(x) =~= s);
    }
}

proof fn lemma_insertion_point_map<T: TimeKey, U: TimeKey>(
    r: Seq<T>,
    f: spec_fn(T) -> U,
    k: Seq<char>,
    desc: bool,
    j: int,
)
    requires
        forall|x: T| #[trigger] f(x).time_key() == x.time_key(),
    ensures
        insertion_point_from(r, k, desc, j) == insertion_point_from(r.map_values(f), k, desc, j),
    decreases r.len() - j,
{
    if 0 <= j < r.len() {
        assert(r.map_values(f)[j].time_key() == r[j].time_key());
        lemma_insertion_point_map(r, f, k, desc, j + 1);
    }
}

/// Sorting by time commutes with a map that keeps timestamps.
pub proof fn lemma_time_sorted_map<T: TimeKey, U: TimeKey>(s: Seq<T>, f: spec_fn(T) -> U, desc: bool)
    requires
        forall|x: T| #[trigger] f(x).time_key() == x.time_key(),
    ensures
        time_sorted(s, desc).map_values(f) == time_sorted(s.map_values(f), desc),
    decreases s.len(),
{
    if s.len() == 0 {
        assert(time_sorted(s, desc).map_values(f) =~= time_sorted(s.map_values(f), desc));
    } else {
        let t = s.drop_last();
        lemma_time_sorted_map(t, f, desc);
        assert(s.map_values(f).drop_last() =~= t.map_values(f));
        let r = time_sorted(t, desc);
        let x = s.last();
        lemma_insertion_point_map(r, f, x.time_key(), desc, 0);
        let p = insertion_point_from(r, x.time_key(), desc, 0);
        lemma_time_sorted_stable(t, desc);
        lemma_insertion_point(r, x.time_key(), desc, 0);
        assert(r.insert(p, x).map_values(f) =~= r.map_values(f).insert(p, f(x)));
    }
}

/// Filtering commutes with a map when the filter looks only at the image.
pub proof fn lemma_filter_map_values<T, U>(
    s: Seq<T>,
    f: spec_fn(T) -> U,
    p: spec_fn(T) -> bool,
    q: spec_fn(U) -> bool,
)
    requires
        forall|x: T| #[trigger] p(x) == q(f(x)),
    ensures
        s.filter(p).map_values(f) == s.map_values(f).filter(q),
    decreases s.len(),
{
    reveal_with_fuel(Seq::filter, 1);
    if s.len() == 0 {
        assert(s.filter(p).map_values(f) =~= s.map_values(f).filter(q));
    } else {
        let t = s.drop_last();
        lemma_filter_map_values(t, f, p, q);
        assert(s.map_values(f).drop_last() =~= t.map_values(f));
        assert(s.filter(p).map_values(f) =~= s.map_values(f).filter(q));
    }
}

/// Sorting by time neither adds nor drops records.
pub proof fn lemma_time_sorted_contains<T: TimeKey>(s: Seq<T>, desc: bool, x: T)
    ensures
        time_sorted(s, desc).contains(x) <==> s.contains(x),
{
    broadcast use group_to_multiset_ensures;
    lemma_time_sorted_stable(s, desc);
    assert(time_sorted(s, desc).to_multiset().count(x) == s.to_multiset().count(x));
}

/// A record kept by a filter is in the sequence and passes the filter, and
/// conversely.
pub proof fn lemma_filter_contains_iff<T>(s: Seq<T>, p: spec_fn(T) -> bool, x: T)
    ensures
        s.filter(p).contains(x) <==> s.contains(x) && p(x),
{
    if s.filter(p).contains(x) {
        s.lemma_filter_contains_rev(p, x);
        let i = choose|i: int| 0 <= i < s.filter(p).len() && s.filter(p)[i] == x;
        s.lemma_filter_pred(p, i);
    }
    if s.contains(x) && p(x) {
        let i = choose|i: int| 0 <= i < s.len() && s[i] == x;
        s.lemma_filter_contains(p, i);
    }
}

/// `v` sorted by time by insertion: a stable sort, ascending or (with `desc`)
/// descending.
pub fn stable_sort_by_time<T: Timestamped>(v: Vec<T>, desc: bool) -> (r: Vec<T>)
    ensures
        r@ == time_sorted(v@, desc),
        stably_sorted(r@, v@, desc),
{
    let ghost v0 = v@;
    let mut rest = v;
    let mut r: Vec<T> = Vec::new();
    let ghost mut i: int = 0;
    proof {
        assert(v0.take(0) =~= Seq::<T>::empty());
        assert(rest@ =~= v0.skip(0));
    }
    while rest.len() > 0
        invariant
            0 <= i <= v0.len(),
            rest@ == v0.skip(i),
            r@ == time_sorted(v0.take(i), desc),
        decreases rest.len(),
    {
        let x = rest.remove(0);
        let key = x.time_chars();
        proof {
            lemma_time_sorted_stable(v0.take(i), desc);
        }
        let n: usize = r.len();
        let mut p: usize = 0;
        while p < n
            invariant
                n == r@.len(),
                p <= n,
                sorted_by_time(r@, desc),
                insertion_point_from(r@, key@, desc, 0) == insertion_point_from(
                    r@,
                    key@,
                    desc,
                    p as int,
                ),
            ensures
                p <= n,
                insertion_point_from(r@, key@, desc, 0) == p,
            decreases n - p,
        {
            let kp = r[p].time_chars();
            let after = if desc {
                lex_less(&kp, &key)
            } else {
                lex_less(&key, &kp)
            };
            proof {
                lemma_le_facts();
            }
            if after {
                break;
            }
            p = p + 1;
        }
        proof {
            assert(v0.take(i + 1).drop_last() =~= v0.take(i));
            assert(v0.take(i + 1).last() == x);
        }
        r.insert(p, x);
        proof {
            i = i + 1;
            assert(rest@ =~= v0.skip(i));
        }
    }
    proof {
        assert(v0.take(i) =~= v0);
        lemma_time_sorted_stable(v0, desc);
    }
    r
}

} // verus!
