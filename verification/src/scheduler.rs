//! Selection of the scheduled tasks that are due.
use vstd::prelude::*;
use crate::text::{clone_opt, lemma_le_facts, seq_le, seq_lt, str_equal, str_less};

verus! {

/// How a task's schedule value is read.
#[derive(Debug, Clone, Copy, PartialEq, Eq, Structural)]
pub enum ScheduleType {
    IntervalMs,
    OnceIso,
}

/// A scheduled task.
#[derive(Debug, PartialEq, Eq)]
pub struct Task {
    pub id: String,
    pub schedule_type: ScheduleType,
    pub schedule_value: String,
    pub next_run: Option<String>,
    pub status: String,
}

impl Clone for Task {
    fn clone(&self) -> (r: Self)
        ensures
            r == *self,
    {
        Task {
            id: self.id.clone(),
            schedule_type: self.schedule_type,
            schedule_value: self.schedule_value.clone(),
            next_run: clone_opt(&self.next_run),
            status: self.status.clone(),
        }
    }
}

/// The status of a task that runs.
pub open spec fn active_status() -> Seq<char> {
    seq!['a', 'c', 't', 'i', 'v', 'e']
}

/// `t` is active and its next run is at or before `now`.
pub open spec fn is_due(t: Task, now: Seq<char>) -> bool {
    &&& t.status@ == active_status()
    &&& match t.next_run {
        Some(n) => seq_le(n@, now),
        None => false,
    }
}

/// The tasks due at `now`.
pub open spec fn due_at(now: Seq<char>) -> spec_fn(Task) -> bool {
    |t: Task| is_due(t, now)
}

/// `due_tasks` returns exactly the tasks whose status is the word `active`
/// and whose next run is set and at or before `now`: a task with any other
/// status, or with no next run, is never due.
pub proof fn law_due_exactly_active_and_reached(tasks: Seq<Task>, now: Seq<char>, t: Task)
    ensures
        tasks.filter(due_at(now)).contains(t) <==> {
            &&& tasks.contains(t)
            &&& t.status@ == seq!['a', 'c', 't', 'i', 'v', 'e']
            &&& t.next_run is Some
            &&& seq_le(t.next_run->0@, now)
        },
{
    crate::sort::lemma_filter_contains_iff(tasks, due_at(now), t);
}

/// The active tasks whose next run is at or before `now_iso`, in order.
pub fn due_tasks<'a>(tasks: &'a [Task], now_iso: &str) -> (r: Vec<&'a Task>)
    ensures
        r@.map_values(|t: &Task| *t) == tasks@.filter(due_at(now_iso@)),
{
    let ghost pred = due_at(now_iso@);
    proof {
        reveal_with_fuel(Seq::filter, 1);
        assert(tasks@.take(0) =~= Seq::<Task>::empty());
    }
    let mut out: Vec<&'a Task> = Vec::new();
    let n: usize = tasks.len();
    let mut i: usize = 0;
    while i < n
        invariant
            n == tasks@.len(),
            i <= n,
            pred == due_at(now_iso@),
            out@.map_values(|t: &Task| *t) == tasks@.take(i as int).filter(pred),
        decreases n - i,
    {
        let t = &tasks[i];
        let is_active = str_equal(t.status.as_str(), "active");
        let due = is_active && match &t.next_run {
            Some(next) => !str_less(now_iso, next.as_str()),
            None => false,
        };
        proof {
            lemma_le_facts();
            reveal_strlit("active");
            assert("active"@ =~= active_status());
            if t.next_run is Some {
                let nx = t.next_run->0;
                assert(seq_lt(now_iso@, nx@) <==> !seq_le(nx@, now_iso@));
            }
            assert(due == is_due(*t, now_iso@));
            assert(due == pred(*t));
            tasks@.take(i as int).lemma_filter_push(*t, pred);
            assert(tasks@.take(i + 1) =~= tasks@.take(i as int).push(*t));
        }
        let ghost before = out@;
        if due {
            out.push(t);
            assert(out@.map_values(|t: &Task| *t) =~= before.map_values(|t: &Task| *t).push(*t));
        }
        i = i + 1;
    }
    assert(tasks@.take(n as int) =~= tasks@);
    out
}

} // verus!
