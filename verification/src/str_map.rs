//! A map keyed by strings, kept as a list of entries with distinct keys.
use vstd::prelude::*;
use crate::text::{chars_equal, chars_of};

verus! {

/// The map that a list of entries denotes: later entries win.
pub open spec fn entries_map<V>(s: Seq<(String, V)>) -> Map<Seq<char>, V>
    decreases s.len(),
{
    if s.len() == 0 {
        Map::empty()
    } else {
        entries_map(s.drop_last()).insert(s.last().0@, s.last().1)
    }
}

/// The keys of a list of entries, in order.
pub open spec fn entry_keys<V>(s: Seq<(String, V)>) -> Seq<Seq<char>> {
    s.map_values(|e: (String, V)| e.0@)
}

proof fn lemma_entries_map<V>(s: Seq<(String, V)>)
    requires
        entry_keys(s).no_duplicates(),
    ensures
        entries_map(s).dom().finite(),
        entries_map(s).len() == s.len(),
        forall|i: int| 0 <= i < s.len() ==> #[trigger] entries_map(s).dom().contains(s[i].0@),
        forall|i: int| 0 <= i < s.len() ==> entries_map(s)[#[trigger] s[i].0@] == s[i].1,
        forall|k: Seq<char>| #[trigger] entries_map(s).dom().contains(k) ==> entry_keys(s).contains(k),
    decreases s.len(),
{
    if s.len() > 0 {
        let t = s.drop_last();
        assert(entry_keys(t) =~= entry_keys(s).drop_last());
        assert forall|i: int, j: int| 0 <= i < t.len() && 0 <= j < t.len() && i != j implies
            entry_keys(t)[i] != entry_keys(t)[j] by {
            assert(entry_keys(s)[i] != entry_keys(s)[j]);
        }
        lemma_entries_map(t);
        let k = s.last().0@;
        assert forall|i: int| 0 <= i < t.len() implies t[i].0@ != k by {
            assert(entry_keys(s)[i] != entry_keys(s)[s.len() - 1]);
        }
        assert(!entries_map(t).dom().contains(k)) by {
            if entries_map(t).dom().contains(k) {
                let j = choose|j: int| 0 <= j < entry_keys(t).len() && entry_keys(t)[j] == k;
                assert(t[j].0@ == k);
            }
        }
        assert forall|i: int| 0 <= i < s.len() implies entries_map(s)[#[trigger] s[i].0@]
            == s[i].1 by {
            if i < t.len() {
                assert(s[i] == t[i]);
            }
        }
        assert forall|k2: Seq<char>| #[trigger] entries_map(s).dom().contains(k2) implies entry_keys(
            s,
        ).contains(k2) by {
            if k2 == k {
                assert(entry_keys(s)[s.len() - 1] == k);
            } else {
                let j = choose|j: int| 0 <= j < entry_keys(t).len() && entry_keys(t)[j] == k2;
                assert(entry_keys(s)[j] == k2);
            }
        }
        assert forall|i: int| 0 <= i < s.len() implies #[trigger] entries_map(s).dom().contains(
            s[i].0@,
        ) by {
            if i < t.len() {
                assert(s[i] == t[i]);
            }
        }
    }
}

/// A map from strings to values.
pub struct StrMap<V> {
    entries: Vec<(String, V)>,
}

impl<V> View for StrMap<V> {
    type V = Map<Seq<char>, V>;

    closed spec fn view(&self) -> Map<Seq<char>, V> {
        entries_map(self.entries@)
    }
}

impl<V> StrMap<V> {
    /// No key occurs in two entries.
    #[verifier::type_invariant]
    pub closed spec fn wf(&self) -> bool {
        entry_keys(self.entries@).no_duplicates()
    }

    /// The keys in the order they were first inserted.
    pub closed spec fn keys(&self) -> Seq<Seq<char>> {
        entry_keys(self.entries@)
    }

    /// How the keys relate to the map.
    pub proof fn lemma_keys(&self)
        requires
            self.wf(),
        ensures
            self@.dom().finite(),
            self.keys().no_duplicates(),
            self.keys().len() == self@.len(),
            forall|i: int| 0 <= i < self.keys().len() ==> #[trigger] self@.dom().contains(self.keys()[i]),
            forall|k: Seq<char>| #[trigger] self@.dom().contains(k) ==> self.keys().contains(k),
    {
        lemma_entries_map(self.entries@);
        assert forall|i: int| 0 <= i < self.keys().len() implies #[trigger] self@.dom().contains(
            self.keys()[i],
        ) by {
            assert(self.keys()[i] == self.entries@[i].0@);
        }
    }

    /// An empty map.
    pub fn new() -> (m: Self)
        ensures
            m.wf(),
            m@ == Map::<Seq<char>, V>::empty(),
            m.keys() == Seq::<Seq<char>>::empty(),
    {
        let m = StrMap { entries: Vec::new() };
        assert(m.keys() =~= Seq::<Seq<char>>::empty());
        m
    }

    /// The position of `key` among the entries.
    fn position(&self, key: &Vec<char>) -> (r: Option<usize>)
        requires
            self.wf(),
        ensures
            match r {
                Some(i) => i < self.entries@.len() && self.entries@[i as int].0@ == key@,
                None => !self@.dom().contains(key@),
            },
    {
        proof {
            lemma_entries_map(self.entries@);
        }
        let n: usize = self.entries.len();
        let mut i: usize = 0;
        while i < n
            invariant
                n == self.entries@.len(),
                i <= n,
                forall|j: int| 0 <= j < i ==> self.entries@[j].0@ != key@,
            decreases n - i,
        {
            let k = chars_of(self.entries[i].0.as_str());
            if chars_equal(&k, key) {
                return Some(i);
            }
            i = i + 1;
        }
        proof {
            if self@.dom().contains(key@) {
                let j = choose|j: int|
                    0 <= j < entry_keys(self.entries@).len() && entry_keys(self.entries@)[j]
                        == key@;
                assert(self.entries@[j].0@ == key@);
            }
        }
        None
    }

    /// Maps `key` to `value`, replacing any earlier value; a new key goes last.
    pub fn insert(&mut self, key: String, value: V)
        ensures
            final(self)@ == old(self)@.insert(key@, value),
            old(self)@.dom().contains(key@) ==> final(self).keys() == old(self).keys(),
            !old(self)@.dom().contains(key@) ==> final(self).keys() == old(self).keys().push(key@),
    {
        proof {
            use_type_invariant(&*self);
        }
        let kv = chars_of(key.as_str());
        let ghost s0 = self.entries@;
        proof {
            lemma_entries_map(s0);
        }
        match self.position(&kv) {
            Some(i) => {
                let ghost old_entry = self.entries@[i as int];
                let mut entries = Vec::new();
                std::mem::swap(&mut entries, &mut self.entries);
                entries.set(i, (key, value));
                proof {
                    let s1 = entries@;
                    assert(entry_keys(s1) =~= entry_keys(s0));
                    lemma_entries_map(s1);
                    assert(entries_map(s1) =~= entries_map(s0).insert(kv@, value)) by {
                        assert forall|k: Seq<char>| #[trigger] entries_map(s1).dom().contains(k)
                            <==> entries_map(s0).insert(kv@, value).dom().contains(k) by {
                            if entries_map(s1).dom().contains(k) {
                                let j = choose|j: int|
                                    0 <= j < entry_keys(s1).len() && entry_keys(s1)[j] == k;
                                assert(s0[j].0@ == k);
                            }
                            if entries_map(s0).dom().contains(k) {
                                let j = choose|j: int|
                                    0 <= j < entry_keys(s0).len() && entry_keys(s0)[j] == k;
                                assert(s1[j].0@ == k);
                            }
                        }
                        assert forall|k: Seq<char>| #[trigger] entries_map(s1).dom().contains(k)
                            implies entries_map(s1)[k] == entries_map(s0).insert(kv@, value)[k] by {
                            let j = choose|j: int|
                                0 <= j < entry_keys(s1).len() && entry_keys(s1)[j] == k;
                            assert(s1[j].0@ == k);
                            if j != i {
                                assert(s0[j] == s1[j]);
                                assert(entry_keys(s0)[j] != entry_keys(s0)[i as int]);
                            }
                        }
                    }
                }
                self.entries = entries;
            },
            None => {
                let mut entries = Vec::new();
                std::mem::swap(&mut entries, &mut self.entries);
                entries.push((key, value));
                proof {
                    let s1 = entries@;
                    assert(s1.drop_last() =~= s0);
                    assert(entry_keys(s1) =~= entry_keys(s0).push(kv@));
                    assert forall|i: int, j: int|
                        0 <= i < entry_keys(s1).len() && 0 <= j < entry_keys(s1).len() && i != j
                        implies entry_keys(s1)[i] != entry_keys(s1)[j] by {
                        if i < s0.len() && j < s0.len() {
                            assert(entry_keys(s0)[i] != entry_keys(s0)[j]);
                        } else if i < s0.len() {
                            assert(s0[i].0@ == entry_keys(s1)[i]);
                        } else {
                            assert(s0[j].0@ == entry_keys(s1)[j]);
                        }
                    }
                }
                self.entries = entries;
            },
        }
    }

    /// The value stored under `key`, if any.
    pub fn get(&self, key: &str) -> (r: Option<&V>)
        ensures
            match r {
                Some(v) => self@.dom().contains(key@) && *v == self@[key@],
                None => !self@.dom().contains(key@),
            },
    {
        proof {
            use_type_invariant(self);
            lemma_entries_map(self.entries@);
        }
        let kv = chars_of(key);
        match self.position(&kv) {
            Some(i) => Some(&self.entries[i].1),
            None => None,
        }
    }

    /// The number of keys.
    pub fn len(&self) -> (n: usize)
        ensures
            n == self@.len(),
    {
        proof {
            use_type_invariant(self);
            lemma_entries_map(self.entries@);
        }
        self.entries.len()
    }

    /// The value under the `i`-th key in insertion order.
    pub fn value_at(&self, i: usize) -> (r: &V)
        requires
            i < self.keys().len(),
        ensures
            *r == self@[self.keys()[i as int]],
    {
        proof {
            use_type_invariant(self);
            lemma_entries_map(self.entries@);
        }
        &self.entries[i].1
    }

    /// The `i`-th key in insertion order.
    pub fn key_at(&self, i: usize) -> (r: &String)
        requires
            i < self.keys().len(),
        ensures
            r@ == self.keys()[i as int],
    {
        &self.entries[i].0
    }
}

impl<V: Clone> Clone for StrMap<V> {
    fn clone(&self) -> (r: Self)
        ensures
            r.keys() == self.keys(),
            r@.dom() == self@.dom(),
            forall|k: Seq<char>| #[trigger] self@.dom().contains(k) ==> cloned::<V>(self@[k], r@[k]),
    {
        proof {
            use_type_invariant(self);
        }
        let mut entries: Vec<(String, V)> = Vec::new();
        let n: usize = self.entries.len();
        let mut i: usize = 0;
        while i < n
            invariant
                n == self.entries@.len(),
                i <= n,
                entries@.len() == i,
                forall|j: int| 0 <= j < i ==> entries@[j].0 == self.entries@[j].0,
                forall|j: int|
                    0 <= j < i ==> cloned::<V>(self.entries@[j].1, #[trigger] entries@[j].1),
            decreases n - i,
        {
            let e = &self.entries[i];
            entries.push((e.0.clone(), e.1.clone()));
            i = i + 1;
        }
        let ghost s0 = self.entries@;
        let ghost s1 = entries@;
        proof {
            assert(entry_keys(s1) =~= entry_keys(s0));
            lemma_entries_map(s0);
            lemma_entries_map(s1);
            assert forall|k: Seq<char>| #[trigger] entries_map(s1).dom().contains(k)
                <==> entries_map(s0).dom().contains(k) by {
                if entries_map(s1).dom().contains(k) {
                    let j = choose|j: int| 0 <= j < entry_keys(s1).len() && entry_keys(s1)[j] == k;
                    assert(s0[j].0@ == k);
                }
                if entries_map(s0).dom().contains(k) {
                    let j = choose|j: int| 0 <= j < entry_keys(s0).len() && entry_keys(s0)[j] == k;
                    assert(s1[j].0@ == k);
                }
            }
            assert(entries_map(s1).dom() =~= entries_map(s0).dom());
            assert forall|k: Seq<char>| #[trigger] entries_map(s0).dom().contains(k) implies cloned::<
                V,
            >(entries_map(s0)[k], entries_map(s1)[k]) by {
                let j = choose|j: int| 0 <= j < entry_keys(s0).len() && entry_keys(s0)[j] == k;
                assert(s0[j].0@ == k);
                assert(s1[j].0@ == k);
            }
        }
        StrMap { entries }
    }
}

} // verus!
