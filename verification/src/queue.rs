//! A first-in first-out queue of group ids in which a group waits at most once.
use vstd::prelude::*;
use std::collections::VecDeque;
use crate::text::{chars_equal, chars_of};

verus! {

/// The characters of each string of `v`.
pub open spec fn string_views(v: Seq<String>) -> Seq<Seq<char>> {
    v.map_values(|s: String| s@)
}

/// Whether some string of `v` holds the characters `key`.
pub fn deque_contains(v: &VecDeque<String>, key: &Vec<char>) -> (r: bool)
    ensures
        r == string_views(v@).contains(key@),
{
    let n: usize = v.len();
    let mut i: usize = 0;
    while i < n
        invariant
            n == v@.len(),
            i <= n,
            forall|j: int| 0 <= j < i ==> v@[j]@ != key@,
        decreases n - i,
    {
        if chars_equal(&chars_of(v[i].as_str()), key) {
            assert(string_views(v@)[i as int] == key@);
            return true;
        }
        i = i + 1;
    }
    proof {
        if string_views(v@).contains(key@) {
            let j = choose|j: int| 0 <= j < string_views(v@).len() && string_views(v@)[j] == key@;
            assert(v@[j]@ == key@);
        }
    }
    false
}

/// Removing the front of a sequence without duplicates leaves none.
pub proof fn lemma_drop_front_no_duplicates(v: Seq<String>)
    requires
        v.len() > 0,
        string_views(v).no_duplicates(),
    ensures
        string_views(v.subrange(1, v.len() as int)) == string_views(v).drop_first(),
        string_views(v).drop_first().no_duplicates(),
{
    assert(string_views(v.subrange(1, v.len() as int)) =~= string_views(v).drop_first());
    assert forall|i: int, j: int|
        0 <= i < string_views(v).drop_first().len() && 0 <= j < string_views(v).drop_first().len()
            && i != j implies string_views(v).drop_first()[i] != string_views(v).drop_first()[j] by {
        assert(string_views(v)[i + 1] != string_views(v)[j + 1]);
    }
}

/// Appending a new string to a sequence without duplicates leaves none.
pub proof fn lemma_push_new_no_duplicates(v: Seq<String>, s: String)
    requires
        string_views(v).no_duplicates(),
        !string_views(v).contains(s@),
    ensures
        string_views(v.push(s)) == string_views(v).push(s@),
        string_views(v).push(s@).no_duplicates(),
{
    assert(string_views(v.push(s)) =~= string_views(v).push(s@));
    let w = string_views(v).push(s@);
    assert forall|i: int, j: int| 0 <= i < w.len() && 0 <= j < w.len() && i != j implies w[i]
        != w[j] by {
        if i < v.len() && j < v.len() {
            assert(string_views(v)[i] != string_views(v)[j]);
        } else if i < v.len() {
            assert(string_views(v)[i] == w[i]);
        } else {
            assert(string_views(v)[j] == w[j]);
        }
    }
}

/// The line after `queue` when each of `groups` in turn is put in line.
pub open spec fn enqueue_all(queue: Seq<Seq<char>>, groups: Seq<Seq<char>>) -> Seq<Seq<char>>
    decreases groups.len(),
{
    if groups.len() == 0 {
        queue
    } else {
        let q = enqueue_all(queue, groups.drop_last());
        if q.contains(groups.last()) {
            q
        } else {
            q.push(groups.last())
        }
    }
}

/// Putting groups in line keeps those already waiting first and in order,
/// adds every new group, and lets none wait twice.
pub proof fn law_enqueue_all(queue: Seq<Seq<char>>, groups: Seq<Seq<char>>)
    requires
        queue.no_duplicates(),
    ensures
        enqueue_all(queue, groups).no_duplicates(),
        enqueue_all(queue, groups).to_set() == queue.to_set() + groups.to_set(),
        enqueue_all(queue, groups).len() >= queue.len(),
        enqueue_all(queue, groups).take(queue.len() as int) == queue,
    decreases groups.len(),
{
    if groups.len() == 0 {
        assert(groups.to_set() =~= Set::<Seq<char>>::empty());
        assert(queue.to_set() + groups.to_set() =~= queue.to_set());
        assert(queue.take(queue.len() as int) =~= queue);
    } else {
        let t = groups.drop_last();
        let x = groups.last();
        law_enqueue_all(queue, t);
        let q = enqueue_all(queue, t);
        assert(groups.to_set() =~= t.to_set().insert(x)) by {
            assert(groups =~= t.push(x));
            t.lemma_push_to_set_commute(x);
        }
        if q.contains(x) {
            assert(q.to_set().contains(x));
            assert(queue.to_set() + groups.to_set() =~= q.to_set());
        } else {
            q.lemma_push_to_set_commute(x);
            assert(queue.to_set() + groups.to_set() =~= q.to_set().insert(x));
            assert forall|i: int, j: int| 0 <= i < q.push(x).len() && 0 <= j < q.push(x).len() && i != j
                implies q.push(x)[i] != q.push(x)[j] by {
                if i < q.len() && j < q.len() {
                } else if i < q.len() {
                    assert(q.contains(q[i]));
                } else {
                    assert(q.contains(q[j]));
                }
            }
            assert(q.push(x).take(queue.len() as int) =~= q.take(queue.len() as int));
        }
    }
}

/// Groups waiting their turn, first come first served, none waiting twice.
#[derive(Debug)]
pub struct GroupQueue {
    queued: VecDeque<String>,
}

impl GroupQueue {
    #[verifier::type_invariant]
    closed spec fn inv(&self) -> bool {
        string_views(self.queued@).no_duplicates()
    }

    /// The waiting groups, first in line first.
    pub closed spec fn queued(&self) -> Seq<Seq<char>> {
        string_views(self.queued@)
    }

    /// Puts `group_id` at the back of the line unless it already waits.
    pub fn enqueue(&mut self, group_id: &str)
        ensures
            final(self).queued().no_duplicates(),
            old(self).queued().contains(group_id@) ==> final(self).queued() == old(self).queued(),
            !old(self).queued().contains(group_id@) ==> final(self).queued() == old(
                self,
            ).queued().push(group_id@),
    {
        proof {
            use_type_invariant(&*self);
        }
        let id = group_id.to_owned();
        if !deque_contains(&self.queued, &chars_of(group_id)) {
            let mut q: VecDeque<String> = VecDeque::new();
            std::mem::swap(&mut q, &mut self.queued);
            proof {
                lemma_push_new_no_duplicates(q@, id);
            }
            q.push_back(id);
            self.queued = q;
        }
    }

    /// Takes the group at the front of the line, if any.
    pub fn dequeue(&mut self) -> (r: Option<String>)
        ensures
            final(self).queued().no_duplicates(),
            match r {
                Some(id) => {
                    &&& old(self).queued().len() > 0
                    &&& id@ == old(self).queued()[0]
                    &&& final(self).queued() == old(self).queued().drop_first()
                },
                None => old(self).queued().len() == 0 && final(self).queued() == old(self).queued(),
            },
    {
        proof {
            use_type_invariant(&*self);
        }
        let mut q: VecDeque<String> = VecDeque::new();
        std::mem::swap(&mut q, &mut self.queued);
        let ghost q0 = q@;
        let r = q.pop_front();
        proof {
            if q0.len() > 0 {
                lemma_drop_front_no_duplicates(q0);
            }
        }
        self.queued = q;
        r
    }

    /// The number of waiting groups.
    pub fn len(&self) -> (n: usize)
        ensures
            n == self.queued().len(),
    {
        self.queued.len()
    }

    /// Whether no group waits.
    pub fn is_empty(&self) -> (r: bool)
        ensures
            r == (self.queued().len() == 0),
    {
        self.queued.len() == 0
    }
}

impl Default for GroupQueue {
    fn default() -> (q: Self)
        ensures
            q.queued() == Seq::<Seq<char>>::empty(),
            q.queued().no_duplicates(),
    {
        let q = GroupQueue { queued: VecDeque::new() };
        assert(q.queued() =~= Seq::<Seq<char>>::empty());
        q
    }
}

} // verus!
