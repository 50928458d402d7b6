//! A queue of groups waiting for the assistant, with a bound on how many
//! groups are processed at once.
use vstd::prelude::*;
use std::collections::VecDeque;
use crate::queue::{
    deque_contains, lemma_drop_front_no_duplicates, lemma_push_new_no_duplicates, string_views,
};
use crate::text::{chars_equal, chars_of};

verus! {

/// Where some string of `v` holds the characters `key`.
fn vec_position(v: &Vec<String>, key: &Vec<char>) -> (r: Option<usize>)
    ensures
        match r {
            Some(i) => i < v@.len() && v@[i as int]@ == key@,
            None => !string_views(v@).contains(key@),
        },
{
    let n: usize = v.len();
    let mut i: usize = 0;
    while i < n
        invariant
            n == v@.len(),
            i <= n,
            forall|j: int| 0 <= j < i ==> v@[j]@ != key@,
        decreases n - i,
    {
        if chars_equal(&chars_of(v[i].as_str()), key) {
            return Some(i);
        }
        i = i + 1;
    }
    proof {
        if string_views(v@).contains(key@) {
            let j = choose|j: int| 0 <= j < string_views(v@).len() && string_views(v@)[j] == key@;
            assert(v@[j]@ == key@);
        }
    }
    None
}

proof fn lemma_remove_at(v: Seq<String>, i: int)
    requires
        0 <= i < v.len(),
        string_views(v).no_duplicates(),
    ensures
        string_views(v.remove(i)).no_duplicates(),
        string_views(v.remove(i)).to_set() == string_views(v).to_set().remove(v[i]@),
{
    let w = string_views(v.remove(i));
    let u = string_views(v);
    assert forall|j: int| 0 <= j < w.len() implies #[trigger] w[j] == u[if j < i { j } else { j + 1 }] by {}
    assert forall|a: int, b: int| 0 <= a < w.len() && 0 <= b < w.len() && a != b implies w[a] != w[b] by {
        assert(w[a] == u[if a < i { a } else { a + 1 }]);
        assert(w[b] == u[if b < i { b } else { b + 1 }]);
    }
    assert forall|x: Seq<char>| #[trigger] w.contains(x) <==> u.contains(x) && x != v[i]@ by {
        if w.contains(x) {
            let j = choose|j: int| 0 <= j < w.len() && w[j] == x;
            let k = if j < i { j } else { j + 1 };
            assert(u[k] == x);
            assert(k != i);
            assert(u[i] == v[i]@);
        }
        if u.contains(x) && x != v[i]@ {
            let k = choose|k: int| 0 <= k < u.len() && u[k] == x;
            assert(k != i);
            let j = if k < i { k } else { k - 1 };
            assert(w[j] == x);
        }
    }
    assert(w.to_set() =~= u.to_set().remove(v[i]@));
}

/// Groups waiting for the assistant, and the groups being processed.
#[derive(Debug)]
pub struct GroupQueue {
    queued: VecDeque<String>,
    active: Vec<String>,
    max_concurrency: usize,
}

impl GroupQueue {
    #[verifier::type_invariant]
    closed spec fn inv(&self) -> bool {
        &&& string_views(self.queued@).no_duplicates()
        &&& string_views(self.active@).no_duplicates()
        &&& forall|x: Seq<char>|
            #[trigger] string_views(self.queued@).contains(x) ==> !string_views(
                self.active@,
            ).contains(x)
        &&& self.active@.len() <= self.max_concurrency
    }

    /// The waiting groups, first in line first.
    pub closed spec fn queued(&self) -> Seq<Seq<char>> {
        string_views(self.queued@)
    }

    /// The groups being processed.
    pub closed spec fn active(&self) -> Set<Seq<char>> {
        string_views(self.active@).to_set()
    }

    /// How many groups may be processed at once.
    pub closed spec fn max_concurrency(&self) -> nat {
        self.max_concurrency as nat
    }

    /// The facts every queue satisfies: no group waits twice, no group both
    /// waits and is being processed, and at most `max_concurrency` groups are
    /// being processed.
    pub open spec fn consistent(&self) -> bool {
        &&& self.queued().no_duplicates()
        &&& self.active().finite()
        &&& forall|x: Seq<char>| #[trigger] self.queued().contains(x) ==> !self.active().contains(x)
        &&& self.active().len() <= self.max_concurrency()
    }

    proof fn lemma_consistent(&self)
        requires
            self.inv(),
        ensures
            self.consistent(),
            self.active().len() == self.active@.len(),
    {
        string_views(self.active@).unique_seq_to_set();
        assert(string_views(self.active@).len() == self.active@.len());
    }

    /// An empty queue processing at most `max_concurrency` groups at once.
    pub fn new(max_concurrency: usize) -> (q: Self)
        ensures
            q.queued() == Seq::<Seq<char>>::empty(),
            q.active() == Set::<Seq<char>>::empty(),
            q.max_concurrency() == max_concurrency,
            q.consistent(),
    {
        let q = GroupQueue { queued: VecDeque::new(), active: Vec::new(), max_concurrency };
        proof {
            assert(q.queued() =~= Seq::<Seq<char>>::empty());
            assert(string_views(q.active@) =~= Seq::<Seq<char>>::empty());
            assert(q.active() =~= Set::<Seq<char>>::empty());
            q.lemma_consistent();
        }
        q
    }

    /// Puts `group_id` at the back of the line unless it is being processed or
    /// already waits.
    pub fn enqueue(&mut self, group_id: &str)
        ensures
            final(self).consistent(),
            final(self).active() == old(self).active(),
            final(self).max_concurrency() == old(self).max_concurrency(),
            old(self).active().contains(group_id@) || old(self).queued().contains(group_id@)
                ==> final(self).queued() == old(self).queued(),
            !old(self).active().contains(group_id@) && !old(self).queued().contains(group_id@)
                ==> final(self).queued() == old(self).queued().push(group_id@),
    {
        proof {
            use_type_invariant(&*self);
        }
        let key = chars_of(group_id);
        let pos = vec_position(&self.active, &key);
        proof {
            if let Some(i) = pos {
                assert(string_views(self.active@)[i as int] == key@);
                assert(string_views(self.active@).contains(key@));
                assert(self.active().contains(group_id@));
            }
        }
        let is_active = pos.is_some();
        if !is_active && !deque_contains(&self.queued, &key) {
            let id = group_id.to_owned();
            let mut q: VecDeque<String> = VecDeque::new();
            std::mem::swap(&mut q, &mut self.queued);
            let ghost a = string_views(self.active@);
            proof {
                lemma_push_new_no_duplicates(q@, id);
                assert(!a.contains(id@));
                let pushed = string_views(q@.push(id));
                assert forall|x: Seq<char>| #[trigger] pushed.contains(x) implies !a.contains(x) by {
                    let j = choose|j: int| 0 <= j < pushed.len() && pushed[j] == x;
                    if j < q@.len() {
                        assert(string_views(q@)[j] == x);
                        assert(string_views(q@).contains(x));
                    }
                }
            }
            q.push_back(id);
            self.queued = q;
        }
        proof {
            use_type_invariant(&*self);
            self.lemma_consistent();
        }
    }

    /// Takes the group at the front of the line and marks it as being
    /// processed, unless `max_concurrency` groups are being processed or none
    /// waits.
    pub fn next(&mut self) -> (r: Option<String>)
        ensures
            final(self).consistent(),
            final(self).max_concurrency() == old(self).max_concurrency(),
            match r {
                Some(id) => {
                    &&& old(self).active().len() < old(self).max_concurrency()
                    &&& old(self).queued().len() > 0
                    &&& id@ == old(self).queued()[0]
                    &&& final(self).queued() == old(self).queued().drop_first()
                    &&& final(self).active() == old(self).active().insert(id@)
                },
                None => {
                    &&& (old(self).active().len() >= old(self).max_concurrency()
                        || old(self).queued().len() == 0)
                    &&& final(self).queued() == old(self).queued()
                    &&& final(self).active() == old(self).active()
                },
            },
    {
        proof {
            use_type_invariant(&*self);
            self.lemma_consistent();
        }
        if self.active.len() >= self.max_concurrency {
            return None;
        }
        if self.queued.len() == 0 {
            return None;
        }
        let mut q: VecDeque<String> = VecDeque::new();
        std::mem::swap(&mut q, &mut self.queued);
        let ghost q0 = q@;
        let ghost a0 = self.active@;
        let id = match q.pop_front() {
            Some(id) => id,
            None => {
                self.queued = q;
                return None;
            },
        };
        proof {
            lemma_drop_front_no_duplicates(q0);
            assert(string_views(q0)[0] == id@);
            assert(string_views(q0).contains(id@));
            assert(!string_views(a0).contains(id@));
        }
        let id2 = id.clone();
        proof {
            lemma_push_new_no_duplicates(a0, id2);
        }
        let mut a: Vec<String> = Vec::new();
        std::mem::swap(&mut a, &mut self.active);
        a.push(id2);
        self.active = a;
        proof {
            assert(string_views(self.active@) =~= string_views(a0).push(id@));
            let act = string_views(self.active@);
            assert forall|x: Seq<char>| #[trigger] string_views(q@).contains(x) implies !act.contains(
                x,
            ) by {
                let j = choose|j: int| 0 <= j < string_views(q@).len() && string_views(q@)[j] == x;
                assert(string_views(q0)[j + 1] == x);
                assert(string_views(q0).contains(x));
                assert(x != id@);
                if act.contains(x) {
                    let k = choose|k: int| 0 <= k < act.len() && act[k] == x;
                    assert(string_views(a0)[k] == x);
                }
            }
        }
        self.queued = q;
        proof {
            assert(string_views(self.active@) =~= string_views(a0).push(id@));
            string_views(a0).lemma_push_to_set_commute(id@);
            assert(self.active() =~= string_views(a0).to_set().insert(id@));
            use_type_invariant(&*self);
            self.lemma_consistent();
        }
        Some(id)
    }

    /// Marks `group_id` as no longer being processed.
    pub fn complete(&mut self, group_id: &str)
        ensures
            final(self).consistent(),
            final(self).queued() == old(self).queued(),
            final(self).active() == old(self).active().remove(group_id@),
            final(self).max_concurrency() == old(self).max_concurrency(),
    {
        proof {
            use_type_invariant(&*self);
        }
        let key = chars_of(group_id);
        match vec_position(&self.active, &key) {
            Some(i) => {
                let mut a: Vec<String> = Vec::new();
                std::mem::swap(&mut a, &mut self.active);
                let ghost a0 = a@;
                proof {
                    lemma_remove_at(a@, i as int);
                }
                a.remove(i);
                proof {
                    assert forall|x: Seq<char>| string_views(a@).contains(x) implies #[trigger] string_views(
                        a0,
                    ).contains(x) by {
                        assert(string_views(a@).to_set().contains(x));
                    }
                }
                self.active = a;
            },
            None => {
                assert(!self.active().contains(group_id@));
                assert(self.active() =~= self.active().remove(group_id@));
            },
        }
        proof {
            use_type_invariant(&*self);
            self.lemma_consistent();
        }
    }

    /// Whether `group_id` is being processed.
    pub fn is_active(&self, group_id: &str) -> (r: bool)
        ensures
            r == self.active().contains(group_id@),
    {
        let r = vec_position(&self.active, &chars_of(group_id));
        proof {
            if let Some(i) = r {
                assert(string_views(self.active@)[i as int] == group_id@);
                assert(string_views(self.active@).contains(group_id@));
            }
        }
        r.is_some()
    }
}

impl Default for GroupQueue {
    fn default() -> (q: Self)
        ensures
            q.queued() == Seq::<Seq<char>>::empty(),
            q.active() == Set::<Seq<char>>::empty(),
            q.max_concurrency() == 0,
            q.consistent(),
    {
        GroupQueue::new(0)
    }
}

} // verus!
