//! Priority queue whose pending tasks can be re-prioritised while queued.
//!
//! The queue is kept in run order: higher priority first and, among equal
//! priorities, the task that was pushed first.  Every push draws a fresh
//! sequence number; re-prioritising a task keeps its sequence number, so
//! its age among tasks of its new priority is preserved.

use std::collections::HashMap;
use std::sync::Arc;
use vstd::rwlock::{RwLock, RwLockPredicate};
use vstd::prelude::*;

use crate::advanced::Priority;

verus! {

broadcast use vstd::std_specs::hash::group_hash_axioms;

/// One queued task: its id, its current priority and its sequence number.
#[derive(Debug, Clone, Copy, PartialEq, Eq, Structural)]
pub struct QueueEntry {
    pub task_id: usize,
    pub priority: Priority,
    pub seq: u64,
}

/// `a` runs before `b`: a higher priority, or the same priority and an
/// older sequence number.
pub open spec fn runs_before(a: QueueEntry, b: QueueEntry) -> bool {
    a.priority.level() > b.priority.level() || (a.priority.level() == b.priority.level()
        && a.seq < b.seq)
}

/// The entries are listed in run order.
pub open spec fn is_run_order(s: Seq<QueueEntry>) -> bool {
    forall|i: int, j: int| 0 <= i < j < s.len() ==> #[trigger] runs_before(s[i], s[j])
}

/// `new` holds the entries of `old` with `gone` taken out and `added` put in.
pub open spec fn replaced_entry(
    old: Seq<QueueEntry>,
    new: Seq<QueueEntry>,
    gone: QueueEntry,
    added: QueueEntry,
) -> bool {
    &&& new.len() == old.len()
    &&& forall|x: QueueEntry|
        #![trigger new.contains(x)]
        new.contains(x) <==> ((old.contains(x) && x != gone) || x == added)
}

/// `new` holds the entries of `old` and `added`.
pub open spec fn added_entry(old: Seq<QueueEntry>, new: Seq<QueueEntry>, added: QueueEntry) -> bool {
    &&& new.len() == old.len() + 1
    &&& forall|x: QueueEntry| #![trigger new.contains(x)] new.contains(x) <==> (old.contains(x) || x == added)
}

/// `new` holds the entries of `old` without `gone`, which `old` held.
pub open spec fn removed_entry(old: Seq<QueueEntry>, new: Seq<QueueEntry>, gone: QueueEntry) -> bool {
    &&& new.len() + 1 == old.len()
    &&& old.contains(gone)
    &&& forall|x: QueueEntry| #![trigger new.contains(x)] new.contains(x) <==> (old.contains(x) && x != gone)
}

fn entry_runs_before(a: &QueueEntry, b: &QueueEntry) -> (r: bool)
    ensures
        r == runs_before(*a, *b),
{
    let la = a.priority.value();
    let lb = b.priority.value();
    la > lb || (la == lb && a.seq < b.seq)
}

proof fn lemma_runs_before_transitive(a: QueueEntry, b: QueueEntry, c: QueueEntry)
    requires
        runs_before(a, b),
        runs_before(b, c),
    ensures
        runs_before(a, c),
{
}

/// Inserts `e` at its place in run order and returns that place.
fn insert_in_run_order(v: &mut Vec<QueueEntry>, e: QueueEntry) -> (pos: usize)
    requires
        is_run_order(old(v)@),
        forall|i: int| 0 <= i < old(v)@.len() ==> (#[trigger] old(v)@[i]).seq != e.seq,
    ensures
        pos <= old(v)@.len(),
        final(v)@ == old(v)@.insert(pos as int, e),
        is_run_order(final(v)@),
{
    let ghost old_v = v@;
    let mut i: usize = 0;
    while i < v.len() && !entry_runs_before(&e, &v[i])
        invariant
            0 <= i <= v@.len(),
            v@ == old_v,
            is_run_order(old_v),
            forall|j: int| 0 <= j < old_v.len() ==> (#[trigger] old_v[j]).seq != e.seq,
            forall|j: int| 0 <= j < i ==> #[trigger] runs_before(old_v[j], e),
        decreases v@.len() - i,
    {
        assert(v@[i as int].seq != e.seq ==> runs_before(v@[i as int], e) || runs_before(e, v@[i as int]));
        i = i + 1;
    }
    proof {
        if i < old_v.len() {
            assert(runs_before(e, old_v[i as int]));
            assert forall|j: int| i <= j < old_v.len() implies #[trigger] runs_before(e, old_v[j]) by {
                if j > i {
                    assert(runs_before(old_v[i as int], old_v[j]));
                    lemma_runs_before_transitive(e, old_v[i as int], old_v[j]);
                }
            }
        }
    }
    v.insert(i, e);
    proof {
        let nv = v@;
        assert forall|a: int, b: int| 0 <= a < b < nv.len() implies #[trigger] runs_before(nv[a], nv[b]) by {
            if a < i && b < i {
                assert(runs_before(old_v[a], old_v[b]));
            } else if a < i && b == i {
            } else if a < i && b > i {
                assert(runs_before(old_v[a], old_v[b - 1]));
            } else if a == i {
                assert(runs_before(e, old_v[b - 1]));
            } else {
                assert(runs_before(old_v[a - 1], old_v[b - 1]));
            }
        }
    }
    i
}

/// Position of `e` in `v`, if it occurs.
fn position_of(v: &Vec<QueueEntry>, e: QueueEntry) -> (r: Option<usize>)
    ensures
        match r {
            Some(k) => k < v@.len() && v@[k as int] == e,
            None => !v@.contains(e),
        },
{
    let mut i: usize = 0;
    while i < v.len()
        invariant
            0 <= i <= v@.len(),
            forall|j: int| 0 <= j < i ==> v@[j] != e,
        decreases v@.len() - i,
    {
        if v[i] == e {
            return Some(i);
        }
        i = i + 1;
    }
    None
}

proof fn lemma_remove_keeps_order(s: Seq<QueueEntry>, k: int)
    requires
        is_run_order(s),
        0 <= k < s.len(),
    ensures
        is_run_order(s.remove(k)),
        forall|x: QueueEntry| #![trigger s.remove(k).contains(x)] s.remove(k).contains(x) <==> (s.contains(x) && x != s[k]),
{
    let r = s.remove(k);
    assert forall|a: int, b: int| 0 <= a < b < r.len() implies #[trigger] runs_before(r[a], r[b]) by {
        let a2 = if a < k { a } else { a + 1 };
        let b2 = if b < k { b } else { b + 1 };
        assert(runs_before(s[a2], s[b2]));
    }
    assert forall|x: QueueEntry| #![trigger r.contains(x)] r.contains(x) <==> (s.contains(x) && x != s[k]) by {
        if r.contains(x) {
            let a = choose|a: int| 0 <= a < r.len() && r[a] == x;
            let a2 = if a < k { a } else { a + 1 };
            assert(s[a2] == x);
            assert(a2 != k);
            if x == s[k] {
                assert(runs_before(s[a2], s[k]) || runs_before(s[k], s[a2]));
            }
        }
        if s.contains(x) && x != s[k] {
            let a = choose|a: int| 0 <= a < s.len() && s[a] == x;
            assert(a != k);
            let a2 = if a < k { a } else { a - 1 };
            assert(r[a2] == x);
        }
    }
}

proof fn lemma_insert_contains(s: Seq<QueueEntry>, k: int, e: QueueEntry)
    requires
        0 <= k <= s.len(),
    ensures
        forall|x: QueueEntry| #![trigger s.insert(k, e).contains(x)] s.insert(k, e).contains(x) <==> (s.contains(x) || x == e),
{
    let r = s.insert(k, e);
    assert forall|x: QueueEntry| #![trigger r.contains(x)] r.contains(x) <==> (s.contains(x) || x == e) by {
        if r.contains(x) {
            let a = choose|a: int| 0 <= a < r.len() && r[a] == x;
            if a < k {
                assert(s[a] == x);
            } else if a > k {
                assert(s[a - 1] == x);
            }
        }
        if s.contains(x) {
            let a = choose|a: int| 0 <= a < s.len() && s[a] == x;
            if a < k {
                assert(r[a] == x);
            } else {
                assert(r[a + 1] == x);
            }
        }
        if x == e {
            assert(r[k] == e);
        }
    }
}

/// Priority queue of task ids with priorities that can change while queued.
pub struct DynamicPriorityScheduler {
    index: Vec<QueueEntry>,
    reverse: HashMap<usize, QueueEntry>,
    seq: u64,
}

impl View for DynamicPriorityScheduler {
    type V = Seq<QueueEntry>;

    /// The queued entries in run order.
    closed spec fn view(&self) -> Seq<QueueEntry> {
        self.index@
    }
}

impl DynamicPriorityScheduler {
    /// The entry through which each task id is currently reachable for
    /// look-up, re-prioritisation and removal.
    pub closed spec fn pending(&self) -> Map<usize, QueueEntry> {
        self.reverse@
    }

    /// The sequence number that the next push draws.
    pub closed spec fn next_seq(&self) -> u64 {
        self.seq
    }

    /// Internal consistency of the queue.
    pub closed spec fn wf(&self) -> bool {
        &&& is_run_order(self.index@)
        &&& forall|i: int| 0 <= i < self.index@.len() ==> (#[trigger] self.index@[i]).seq < self.seq
        &&& forall|i: int, j: int|
            0 <= i < self.index@.len() && 0 <= j < self.index@.len() && i != j
                ==> #[trigger] self.index@[i].seq != #[trigger] self.index@[j].seq
        &&& forall|t: usize| #[trigger]
            self.reverse@.contains_key(t) ==> self.reverse@[t].task_id == t
                && self.index@.contains(self.reverse@[t])
    }

    /// A consistent queue lists its entries in run order, and every
    /// pending entry is queued.
    pub proof fn lemma_wf(&self)
        requires
            self.wf(),
        ensures
            is_run_order(self@),
            forall|i: int| 0 <= i < self@.len() ==> (#[trigger] self@[i]).seq < self.next_seq(),
            forall|t: usize| #[trigger]
                self.pending().contains_key(t) ==> self.pending()[t].task_id == t
                    && self@.contains(self.pending()[t]),
    {
    }

    /// An empty queue.
    pub fn new() -> (s: Self)
        ensures
            s.wf(),
            s@ == Seq::<QueueEntry>::empty(),
            s.pending() == Map::<usize, QueueEntry>::empty(),
            s.next_seq() == 0,
    {
        DynamicPriorityScheduler { index: Vec::new(), reverse: HashMap::new(), seq: 0 }
    }

    /// Queues `task_id` with `priority` under the next sequence number.
    pub fn push(&mut self, task_id: usize, priority: Priority)
        requires
            old(self).wf(),
            old(self).next_seq() < u64::MAX,
        ensures
            final(self).wf(),
            ({
                let e = QueueEntry { task_id, priority, seq: old(self).next_seq() };
                &&& added_entry(old(self)@, final(self)@, e)
                &&& final(self).pending() == old(self).pending().insert(task_id, e)
            }),
            final(self).next_seq() == old(self).next_seq() + 1,
    {
        self.push_inner(task_id, priority);
    }

    /// Whether another push can draw a sequence number.
    pub fn has_room(&self) -> (b: bool)
        ensures
            b == (self.next_seq() < u64::MAX),
    {
        self.seq < u64::MAX
    }

    /// Queues `task_id` with `priority` and returns the sequence number it drew.
    pub fn push_inner(&mut self, task_id: usize, priority: Priority) -> (seq: u64)
        requires
            old(self).wf(),
            old(self).next_seq() < u64::MAX,
        ensures
            final(self).wf(),
            seq == old(self).next_seq(),
            ({
                let e = QueueEntry { task_id, priority, seq };
                &&& added_entry(old(self)@, final(self)@, e)
                &&& final(self).pending() == old(self).pending().insert(task_id, e)
            }),
            final(self).next_seq() == old(self).next_seq() + 1,
    {
        let seq = self.seq;
        let e = QueueEntry { task_id, priority, seq };
        let ghost old_index = self.index@;
        let pos = insert_in_run_order(&mut self.index, e);
        proof {
            lemma_insert_contains(old_index, pos as int, e);
        }
        self.reverse.insert(task_id, e);
        self.seq = self.seq + 1;
        proof {
            let nv = self.index@;
            assert forall|i: int, j: int|
                0 <= i < nv.len() && 0 <= j < nv.len() && i != j implies #[trigger] nv[i].seq
                != #[trigger] nv[j].seq by {
                let i2 = if i < pos { i } else { i - 1 };
                let j2 = if j < pos { j } else { j - 1 };
                if i != pos as int && j != pos as int {
                    assert(nv[i] == old_index[i2] && nv[j] == old_index[j2]);
                } else if i == pos as int {
                    assert(nv[j] == old_index[j2]);
                } else {
                    assert(nv[i] == old_index[i2]);
                }
            }
            assert forall|i: int| 0 <= i < nv.len() implies (#[trigger] nv[i]).seq < self.seq by {
                if i < pos {
                    assert(nv[i] == old_index[i]);
                } else if i > pos {
                    assert(nv[i] == old_index[i - 1]);
                }
            }
            assert forall|t: usize| #[trigger] self.reverse@.contains_key(t) implies self.reverse@[t].task_id == t
                && self.index@.contains(self.reverse@[t]) by {
                if t != task_id {
                    assert(old_index.contains(self.reverse@[t]));
                }
            }
        }
        seq
    }

    /// Removes and returns the task that runs first; `None` on an empty queue.
    pub fn pop(&mut self) -> (r: Option<usize>)
        requires
            old(self).wf(),
        ensures
            final(self).wf(),
            final(self).next_seq() == old(self).next_seq(),
            old(self)@.len() == 0 ==> r is None && final(self)@ == old(self)@ && final(self).pending()
                == old(self).pending(),
            old(self)@.len() > 0 ==> r == Some(old(self)@[0].task_id) && final(self)@ == old(
                self,
            )@.drop_first() && final(self).pending() == old(self).pending().remove(
                old(self)@[0].task_id,
            ),
    {
        if self.index.len() == 0 {
            return None;
        }
        let ghost old_index = self.index@;
        proof {
            lemma_remove_keeps_order(old_index, 0);
        }
        let e = self.index.remove(0);
        self.reverse.remove(&e.task_id);
        proof {
            assert(self.index@ =~= old_index.drop_first());
            let nv = self.index@;
            assert forall|i: int, j: int|
                0 <= i < nv.len() && 0 <= j < nv.len() && i != j implies #[trigger] nv[i].seq
                != #[trigger] nv[j].seq by {
                assert(nv[i] == old_index[i + 1] && nv[j] == old_index[j + 1]);
            }
            assert forall|i: int| 0 <= i < nv.len() implies (#[trigger] nv[i]).seq < self.seq by {
                assert(nv[i] == old_index[i + 1]);
            }
            assert forall|t: usize| #[trigger] self.reverse@.contains_key(t) implies self.reverse@[t].task_id == t
                && self.index@.contains(self.reverse@[t]) by {
                assert(old_index.remove(0).contains(self.reverse@[t]));
            }
        }
        Some(e.task_id)
    }

    /// The task that runs first and its priority, without removing it.
    pub fn peek(&self) -> (r: Option<(usize, Priority)>)
        requires
            self.wf(),
        ensures
            self@.len() == 0 ==> r is None,
            self@.len() > 0 ==> r == Some((self@[0].task_id, self@[0].priority)),
    {
        if self.index.len() == 0 {
            None
        } else {
            let e = self.index[0];
            Some((e.task_id, e.priority))
        }
    }

    /// Changes the priority of a pending task, keeping its sequence number.
    /// Returns `false`, changing nothing, when the task is not pending.
    pub fn reprioritize(&mut self, task_id: usize, new_priority: Priority) -> (r: bool)
        requires
            old(self).wf(),
        ensures
            final(self).wf(),
            final(self).next_seq() == old(self).next_seq(),
            r == old(self).pending().contains_key(task_id),
            !r ==> final(self)@ == old(self)@ && final(self).pending() == old(self).pending(),
            r ==> ({
                let gone = old(self).pending()[task_id];
                let e = QueueEntry { task_id, priority: new_priority, seq: gone.seq };
                &&& replaced_entry(old(self)@, final(self)@, gone, e)
                &&& final(self).pending() == old(self).pending().insert(task_id, e)
            }),
    {
        let gone = match self.reverse.remove(&task_id) {
            Some(v) => v,
            None => return false,
        };
        let ghost old_index = self.index@;
        let ghost mid_reverse = self.reverse@;
        let k = match position_of(&self.index, gone) {
            Some(k) => k,
            None => {
                assert(false);
                return false;
            },
        };
        proof {
            lemma_remove_keeps_order(old_index, k as int);
        }
        self.index.remove(k);
        let ghost mid_index = self.index@;
        let e = QueueEntry { task_id, priority: new_priority, seq: gone.seq };
        proof {
            assert forall|i: int| 0 <= i < mid_index.len() implies (#[trigger] mid_index[i]).seq != e.seq by {
                let i2 = if i < k { i } else { i + 1 };
                assert(mid_index[i] == old_index[i2]);
                assert(i2 != k);
            }
        }
        let pos = insert_in_run_order(&mut self.index, e);
        proof {
            lemma_insert_contains(mid_index, pos as int, e);
        }
        self.reverse.insert(task_id, e);
        proof {
            let nv = self.index@;
            assert forall|i: int, j: int|
                0 <= i < nv.len() && 0 <= j < nv.len() && i != j implies #[trigger] nv[i].seq
                != #[trigger] nv[j].seq by {
                let i1 = if i < pos { i } else { i - 1 };
                let j1 = if j < pos { j } else { j - 1 };
                let i2 = if i1 < k { i1 } else { i1 + 1 };
                let j2 = if j1 < k { j1 } else { j1 + 1 };
                if i != pos as int && j != pos as int {
                    assert(nv[i] == mid_index[i1] && mid_index[i1] == old_index[i2]);
                    assert(nv[j] == mid_index[j1] && mid_index[j1] == old_index[j2]);
                } else if i == pos as int {
                    assert(nv[j] == mid_index[j1]);
                } else {
                    assert(nv[i] == mid_index[i1]);
                }
            }
            assert forall|i: int| 0 <= i < nv.len() implies (#[trigger] nv[i]).seq < self.seq by {
                if i != pos as int {
                    let i1 = if i < pos { i } else { i - 1 };
                    let i2 = if i1 < k { i1 } else { i1 + 1 };
                    assert(nv[i] == mid_index[i1] && mid_index[i1] == old_index[i2]);
                } else {
                    assert(old_index[k as int].seq < self.seq);
                }
            }
            assert forall|t: usize| #[trigger] self.reverse@.contains_key(t) implies self.reverse@[t].task_id == t
                && self.index@.contains(self.reverse@[t]) by {
                if t != task_id {
                    assert(mid_reverse.contains_key(t));
                    assert(old_index.contains(self.reverse@[t]));
                    assert(self.reverse@[t] != gone);
                    assert(mid_index.contains(self.reverse@[t]));
                }
            }
        }
        true
    }

    /// The current priority of a pending task.
    pub fn peek_priority(&self, task_id: usize) -> (r: Option<Priority>)
        requires
            self.wf(),
        ensures
            r == (if self.pending().contains_key(task_id) {
                Some(self.pending()[task_id].priority)
            } else {
                None::<Priority>
            }),
    {
        match self.reverse.get(&task_id) {
            Some(e) => Some(e.priority),
            None => None,
        }
    }

    /// Removes a pending task without running it.  Returns `false`,
    /// changing nothing, when the task is not pending.
    pub fn remove(&mut self, task_id: usize) -> (r: bool)
        requires
            old(self).wf(),
        ensures
            final(self).wf(),
            final(self).next_seq() == old(self).next_seq(),
            r == old(self).pending().contains_key(task_id),
            !r ==> final(self)@ == old(self)@ && final(self).pending() == old(self).pending(),
            r ==> removed_entry(old(self)@, final(self)@, old(self).pending()[task_id])
                && final(self).pending() == old(self).pending().remove(task_id),
    {
        let gone = match self.reverse.remove(&task_id) {
            Some(v) => v,
            None => return false,
        };
        let ghost old_index = self.index@;
        let ghost mid_reverse = self.reverse@;
        let k = match position_of(&self.index, gone) {
            Some(k) => k,
            None => {
                assert(false);
                return false;
            },
        };
        proof {
            lemma_remove_keeps_order(old_index, k as int);
        }
        self.index.remove(k);
        proof {
            let nv = self.index@;
            assert forall|i: int, j: int|
                0 <= i < nv.len() && 0 <= j < nv.len() && i != j implies #[trigger] nv[i].seq
                != #[trigger] nv[j].seq by {
                let i2 = if i < k { i } else { i + 1 };
                let j2 = if j < k { j } else { j + 1 };
                assert(nv[i] == old_index[i2] && nv[j] == old_index[j2]);
            }
            assert forall|i: int| 0 <= i < nv.len() implies (#[trigger] nv[i]).seq < self.seq by {
                let i2 = if i < k { i } else { i + 1 };
                assert(nv[i] == old_index[i2]);
            }
            assert forall|t: usize| #[trigger] self.reverse@.contains_key(t) implies self.reverse@[t].task_id == t
                && self.index@.contains(self.reverse@[t]) by {
                assert(mid_reverse.contains_key(t));
                assert(old_index.contains(self.reverse@[t]));
                assert(self.reverse@[t] != gone);
            }
        }
        true
    }

    /// Number of queued entries.
    pub fn len(&self) -> (n: usize)
        requires
            self.wf(),
        ensures
            n == self@.len(),
    {
        self.index.len()
    }

    /// `true` when nothing is queued.
    pub fn is_empty(&self) -> (b: bool)
        requires
            self.wf(),
        ensures
            b == (self@.len() == 0),
    {
        self.index.len() == 0
    }

    /// Pops every queued task in run order, highest priority first, each
    /// with the priority it was queued at; the queue is left empty.
    pub fn drain_ordered(&mut self) -> (r: Vec<(usize, Priority)>)
        requires
            old(self).wf(),
        ensures
            final(self).wf(),
            final(self)@.len() == 0,
            r@.len() == old(self)@.len(),
            forall|i: int|
                0 <= i < r@.len() ==> #[trigger] r@[i] == (old(self)@[i].task_id, old(self)@[i].priority),
    {
        let mut result: Vec<(usize, Priority)> = Vec::new();
        let ghost old_q = self@;
        while self.index.len() > 0
            invariant
                self.wf(),
                result@.len() + self@.len() == old_q.len(),
                self@ == old_q.subrange(result@.len() as int, old_q.len() as int),
                forall|i: int|
                    0 <= i < result@.len() ==> #[trigger] result@[i] == (
                        old_q[i].task_id,
                        old_q[i].priority,
                    ),
            decreases self@.len(),
        {
            let ghost before = self@;
            let ghost done = result@.len();
            let priority = self.index[0].priority;
            let t = self.pop();
            match t {
                Some(task_id) => {
                    result.push((task_id, priority));
                    assert(before[0] == old_q[done as int]);
                    assert(self@ =~= old_q.subrange(result@.len() as int, old_q.len() as int));
                },
                None => {
                    assert(false);
                },
            }
        }
        result
    }

    /// The queued tasks and their priorities, in run order; the queue is
    /// left as it is.
    pub fn snapshot(&self) -> (r: Vec<(usize, Priority)>)
        requires
            self.wf(),
        ensures
            r@.len() == self@.len(),
            forall|i: int|
                0 <= i < r@.len() ==> #[trigger] r@[i] == (self@[i].task_id, self@[i].priority),
    {
        let mut result: Vec<(usize, Priority)> = Vec::new();
        let mut i: usize = 0;
        while i < self.index.len()
            invariant
                0 <= i <= self.index@.len(),
                result@.len() == i,
                forall|j: int|
                    0 <= j < i ==> #[trigger] result@[j] == (
                        self.index@[j].task_id,
                        self.index@[j].priority,
                    ),
            decreases self.index@.len() - i,
        {
            let e = self.index[i];
            result.push((e.task_id, e.priority));
            i = i + 1;
        }
        result
    }
}

impl Default for DynamicPriorityScheduler {
    fn default() -> (s: Self)
        ensures
            s.wf(),
            s@ == Seq::<QueueEntry>::empty(),
            s.pending() == Map::<usize, QueueEntry>::empty(),
            s.next_seq() == 0,
    {
        DynamicPriorityScheduler::new()
    }
}

/// The lock invariant of a shared scheduler: the scheduler is consistent.
pub struct SchedulerInvariant;

impl RwLockPredicate<DynamicPriorityScheduler> for SchedulerInvariant {
    open spec fn inv(self, s: DynamicPriorityScheduler) -> bool {
        s.wf()
    }
}

/// The lock a shared scheduler lives in.
pub type SchedulerLock = RwLock<DynamicPriorityScheduler, SchedulerInvariant>;

/// A scheduler shared between threads; clones share one queue.  What a
/// call observes depends on the calls other threads make meanwhile, so the
/// contracts state what holds whatever they do.
pub struct SharedDynamicScheduler(Arc<SchedulerLock>);

impl Clone for SharedDynamicScheduler {
    fn clone(&self) -> (c: Self) {
        SharedDynamicScheduler(Arc::clone(&self.0))
    }
}

/// The priority a task waiting in an escalation pass moves to: `Low`
/// becomes `Normal`, `Normal` becomes `High`; the others stay.
pub open spec fn escalated_spec(p: Priority) -> Option<Priority> {
    match p {
        Priority::Low => Some(Priority::Normal),
        Priority::Normal => Some(Priority::High),
        _ => None,
    }
}

/// An escalation step leaves a priority of level `High` or above as it
/// is, and raises a lower one to the next level up, never beyond `High`.
pub proof fn lemma_escalation_raises_one_level_below_high(p: Priority)
    ensures
        escalated_spec(p) is None <==> p.level() >= Priority::High.level(),
        escalated_spec(p) matches Some(q) ==> p.level() < q.level() && q.level() <= Priority::High.level()
            && forall|m: Priority| !(p.level() < #[trigger] m.level() < q.level()),
{
}

/// The priority a waiting task moves to in an escalation pass, if any:
/// none for `High` and `Critical`, else the next level up.
pub fn escalated(p: Priority) -> (r: Option<Priority>)
    ensures
        r == escalated_spec(p),
        r is None <==> p.level() >= Priority::High.level(),
        r matches Some(q) ==> p.level() < q.level() && q.level() <= Priority::High.level()
            && forall|m: Priority| !(p.level() < #[trigger] m.level() < q.level()),
{
    match p {
        Priority::Low => Some(Priority::Normal),
        Priority::Normal => Some(Priority::High),
        _ => None,
    }
}

/// The task a pop takes from a queue holding `q`: its first entry's.
pub open spec fn head_task(q: Seq<QueueEntry>) -> Option<usize> {
    if q.len() == 0 {
        None
    } else {
        Some(q[0].task_id)
    }
}

/// The first entry of a queue holding `q`, as a task and its priority.
pub open spec fn head_entry(q: Seq<QueueEntry>) -> Option<(usize, Priority)> {
    if q.len() == 0 {
        None
    } else {
        Some((q[0].task_id, q[0].priority))
    }
}

/// The entries of `q` as tasks and their priorities, in order.
pub open spec fn listed(q: Seq<QueueEntry>) -> Seq<(usize, Priority)> {
    q.map_values(|e: QueueEntry| (e.task_id, e.priority))
}

/// The priority of `task_id` in queue `s`, if it is pending there.
pub open spec fn pending_priority(s: DynamicPriorityScheduler, task_id: usize) -> Option<Priority> {
    if s.pending().contains_key(task_id) {
        Some(s.pending()[task_id].priority)
    } else {
        None
    }
}

impl SharedDynamicScheduler {
    /// A new, empty shared scheduler.
    pub fn new() -> (s: Self) {
        SharedDynamicScheduler(Arc::new(RwLock::new(DynamicPriorityScheduler::new(), Ghost(SchedulerInvariant))))
    }

    /// Queues `task_id` with `priority`; the handle can later change its
    /// priority.  Once the sequence numbers run out nothing is queued and
    /// the handle's sequence number is the exhausted counter.
    pub fn push(&self, task_id: usize, priority: Priority) -> (h: PriorityHandle)
        ensures
            h.task() == task_id,
    {
        let (mut inner, handle) = self.0.acquire_write();
        let seq = if inner.has_room() {
            inner.push_inner(task_id, priority)
        } else {
            u64::MAX
        };
        handle.release_write(inner);
        PriorityHandle { task_id, seq, scheduler: Arc::clone(&self.0) }
    }

    /// Takes the next task in run order, if any: the first task of the
    /// queue as it stands when the call takes the lock.
    pub fn pop(&self) -> (r: Option<usize>)
        ensures
            exists|s: DynamicPriorityScheduler| s.wf() && r == #[trigger] head_task(s@),
    {
        let (mut inner, handle) = self.0.acquire_write();
        let ghost before = inner;
        let r = inner.pop();
        assert(before.wf() && r == head_task(before@));
        handle.release_write(inner);
        r
    }

    /// The next task in run order and its priority, if any, in the queue
    /// as it stands when the call takes the lock.
    pub fn peek(&self) -> (r: Option<(usize, Priority)>)
        ensures
            exists|s: DynamicPriorityScheduler| s.wf() && r == #[trigger] head_entry(s@),
    {
        let handle = self.0.acquire_read();
        let r = handle.borrow().peek();
        assert(handle.view().wf() && r == head_entry(handle.view()@));
        handle.release_read();
        r
    }

    /// Changes the priority of a queued task; `false` when it is not
    /// pending in the queue as it stands when the call takes the lock.
    pub fn reprioritize(&self, task_id: usize, new_priority: Priority) -> (r: bool)
        ensures
            exists|s: DynamicPriorityScheduler| s.wf() && r == #[trigger] s.pending().contains_key(task_id),
    {
        reprioritize_in(&self.0, task_id, new_priority)
    }

    /// The priority of a queued task, in the queue as it stands when the
    /// call takes the lock.
    pub fn peek_priority(&self, task_id: usize) -> (r: Option<Priority>)
        ensures
            exists|s: DynamicPriorityScheduler| s.wf() && r == #[trigger] pending_priority(s, task_id),
    {
        peek_priority_in(&self.0, task_id)
    }

    /// Drops a queued task; `false` when it is not pending in the queue as
    /// it stands when the call takes the lock.
    pub fn remove(&self, task_id: usize) -> (r: bool)
        ensures
            exists|s: DynamicPriorityScheduler| s.wf() && r == #[trigger] s.pending().contains_key(task_id),
    {
        remove_in(&self.0, task_id)
    }

    /// The number of queued tasks when the call takes the lock.
    pub fn len(&self) -> (n: usize)
        ensures
            exists|s: DynamicPriorityScheduler| s.wf() && n == #[trigger] s@.len(),
    {
        let handle = self.0.acquire_read();
        let n = handle.borrow().len();
        assert(handle.view().wf() && n == handle.view()@.len());
        handle.release_read();
        n
    }

    /// Whether no task is queued when the call takes the lock.
    pub fn is_empty(&self) -> (b: bool)
        ensures
            exists|s: DynamicPriorityScheduler| s.wf() && b == (#[trigger] s@.len() == 0),
    {
        let handle = self.0.acquire_read();
        let b = handle.borrow().is_empty();
        assert(handle.view().wf() && b == (handle.view()@.len() == 0));
        handle.release_read();
        b
    }

    /// The queued tasks and their priorities, in run order, as the queue
    /// stands when the call takes the lock.
    pub fn snapshot(&self) -> (r: Vec<(usize, Priority)>)
        ensures
            exists|s: DynamicPriorityScheduler| s.wf() && r@ == #[trigger] listed(s@),
    {
        let handle = self.0.acquire_read();
        let r = handle.borrow().snapshot();
        assert(r@ =~= listed(handle.view()@));
        assert(handle.view().wf() && r@ == listed(handle.view()@));
        handle.release_read();
        r
    }
}

impl Default for SharedDynamicScheduler {
    fn default() -> (s: Self) {
        Self::new()
    }
}

fn reprioritize_in(lock: &SchedulerLock, task_id: usize, new_priority: Priority) -> (r: bool)
    ensures
        exists|s: DynamicPriorityScheduler| s.wf() && r == #[trigger] s.pending().contains_key(task_id),
{
    let (mut inner, handle) = lock.acquire_write();
    let ghost before = inner;
    let r = inner.reprioritize(task_id, new_priority);
    assert(before.wf() && r == before.pending().contains_key(task_id));
    handle.release_write(inner);
    r
}

fn peek_priority_in(lock: &SchedulerLock, task_id: usize) -> (r: Option<Priority>)
    ensures
        exists|s: DynamicPriorityScheduler| s.wf() && r == #[trigger] pending_priority(s, task_id),
{
    let handle = lock.acquire_read();
    let r = handle.borrow().peek_priority(task_id);
    assert(handle.view().wf() && r == pending_priority(handle.view(), task_id));
    handle.release_read();
    r
}

fn remove_in(lock: &SchedulerLock, task_id: usize) -> (r: bool)
    ensures
        exists|s: DynamicPriorityScheduler| s.wf() && r == #[trigger] s.pending().contains_key(task_id),
{
    let (mut inner, handle) = lock.acquire_write();
    let ghost before = inner;
    let r = inner.remove(task_id);
    assert(before.wf() && r == before.pending().contains_key(task_id));
    handle.release_write(inner);
    r
}

/// A queued task of a shared scheduler, to change its priority later.
pub struct PriorityHandle {
    pub task_id: usize,
    seq: u64,
    scheduler: Arc<SchedulerLock>,
}

impl Clone for PriorityHandle {
    fn clone(&self) -> (c: Self) {
        PriorityHandle { task_id: self.task_id, seq: self.seq, scheduler: Arc::clone(&self.scheduler) }
    }
}

impl PriorityHandle {
    /// The sequence number drawn when the task was pushed.
    pub closed spec fn seq_number(&self) -> u64 {
        self.seq
    }

    /// The task the handle names.
    pub closed spec fn task(&self) -> usize {
        self.task_id
    }

    /// Changes the task's priority; `false` when it is no longer pending
    /// when the call takes the lock.
    pub fn reprioritize(&self, new_priority: Priority) -> (r: bool)
        ensures
            exists|s: DynamicPriorityScheduler| s.wf() && r == #[trigger] s.pending().contains_key(self.task()),
    {
        let r = reprioritize_in(&self.scheduler, self.task_id, new_priority);
        proof {
            let s = choose|s: DynamicPriorityScheduler| s.wf() && r == #[trigger] s.pending().contains_key(self.task_id);
            assert(s.wf() && r == s.pending().contains_key(self.task()));
        }
        r
    }

    /// The task's priority while it is queued, as the queue stands when
    /// the call takes the lock.
    pub fn current_priority(&self) -> (r: Option<Priority>)
        ensures
            exists|s: DynamicPriorityScheduler| s.wf() && r == #[trigger] pending_priority(s, self.task()),
    {
        let r = peek_priority_in(&self.scheduler, self.task_id);
        proof {
            let s = choose|s: DynamicPriorityScheduler| s.wf() && r == #[trigger] pending_priority(s, self.task_id);
            assert(s.wf() && r == pending_priority(s, self.task()));
        }
        r
    }

    /// Drops the task from the queue; `false` when it is no longer pending
    /// when the call takes the lock.
    pub fn cancel(&self) -> (r: bool)
        ensures
            exists|s: DynamicPriorityScheduler| s.wf() && r == #[trigger] s.pending().contains_key(self.task()),
    {
        let r = remove_in(&self.scheduler, self.task_id);
        proof {
            let s = choose|s: DynamicPriorityScheduler| s.wf() && r == #[trigger] s.pending().contains_key(self.task_id);
            assert(s.wf() && r == s.pending().contains_key(self.task()));
        }
        r
    }

    /// Whether the task is still pending when the call takes the lock.
    pub fn is_pending(&self) -> (b: bool)
        ensures
            exists|s: DynamicPriorityScheduler| s.wf() && b == #[trigger] s.pending().contains_key(self.task()),
    {
        let r = self.current_priority();
        proof {
            let s = choose|s: DynamicPriorityScheduler| s.wf() && r == #[trigger] pending_priority(s, self.task());
            assert(s.wf() && (r is Some) == s.pending().contains_key(self.task()));
        }
        r.is_some()
    }

    /// The sequence number drawn when the task was pushed.
    pub fn sequence_number(&self) -> (n: u64)
        ensures
            n == self.seq_number(),
    {
        self.seq
    }
}

/// Raises the priority of waiting tasks every so many ticks, so that low
/// priority tasks are not starved.
pub struct EscalationPolicy {
    scheduler: SharedDynamicScheduler,
    tick_interval: u64,
    tick_count: u64,
    low_age_ticks: u64,
    normal_age_ticks: u64,
}

impl EscalationPolicy {
    /// Ticks between escalation passes.
    pub closed spec fn interval(&self) -> u64 {
        self.tick_interval
    }

    /// Ticks so far.
    pub closed spec fn ticks(&self) -> u64 {
        self.tick_count
    }

    /// A policy over `scheduler` that escalates every `tick_interval`
    /// ticks; the two ages are kept for per-age escalation.
    pub fn new(scheduler: SharedDynamicScheduler, tick_interval: u64, low_age_ticks: u64, normal_age_ticks: u64) -> (p: Self)
        ensures
            p.interval() == tick_interval,
            p.ticks() == 0,
    {
        EscalationPolicy { scheduler, tick_interval, tick_count: 0, low_age_ticks, normal_age_ticks }
    }

    /// Counts a tick; every `tick_interval`-th tick runs an escalation
    /// pass.  Returns whether it did.
    pub fn tick(&mut self) -> (ran: bool)
        requires
            old(self).interval() > 0,
            old(self).ticks() < u64::MAX,
        ensures
            final(self).ticks() == old(self).ticks() + 1,
            final(self).interval() == old(self).interval(),
            ran == ((old(self).ticks() + 1) % (old(self).interval() as int) == 0),
    {
        self.tick_count = self.tick_count + 1;
        if self.tick_count % self.tick_interval != 0 {
            return false;
        }
        self.escalate();
        true
    }

    /// One escalation pass over the tasks queued when it starts: `Low`
    /// tasks become `Normal` and `Normal` tasks become `High`.
    pub fn escalate(&self) {
        let snapshot = self.scheduler.snapshot();
        let mut k: usize = 0;
        while k < snapshot.len()
            invariant
                0 <= k <= snapshot@.len(),
            decreases snapshot@.len() - k,
        {
            let (task_id, priority) = snapshot[k];
            match escalated(priority) {
                Some(p) => {
                    self.scheduler.reprioritize(task_id, p);
                },
                None => {},
            }
            k = k + 1;
        }
    }
}

} // verus!
