//! Multi-way branching after condition tasks, and loop descriptions.

use vstd::prelude::*;

use crate::task::{TaskHandle, TaskId};
use vstd::std_specs::convert::IntoSpec;

verus! {

/// Index of the branch that a condition task selects.
#[derive(Debug, Clone, Copy, PartialEq, Eq, Structural, Hash)]
pub struct BranchId(pub usize);

impl From<usize> for BranchId {
    fn from(id: usize) -> (b: BranchId) {
        BranchId(id)
    }
}

impl vstd::std_specs::convert::FromSpecImpl<usize> for BranchId {
    open spec fn obeys_from_spec() -> bool {
        true
    }

    open spec fn from_spec(v: usize) -> BranchId {
        BranchId(v)
    }
}

impl From<i32> for BranchId {
    /// A negative number wraps to a large index, as an integer cast does.
    fn from(id: i32) -> (b: BranchId) {
        BranchId(id as usize)
    }
}

impl vstd::std_specs::convert::FromSpecImpl<i32> for BranchId {
    open spec fn obeys_from_spec() -> bool {
        true
    }

    open spec fn from_spec(v: i32) -> BranchId {
        BranchId(v as usize)
    }
}

/// A branch table: for each branch id in order of first use, the handles
/// of the tasks that the branch activates.
pub open spec fn table_view(t: Seq<(BranchId, Vec<TaskHandle>)>) -> Seq<(BranchId, Seq<TaskHandle>)> {
    t.map_values(|e: (BranchId, Vec<TaskHandle>)| (e.0, e.1@))
}

/// No branch id occurs twice in the table.
pub open spec fn keys_unique<V>(t: Seq<(BranchId, V)>) -> bool {
    forall|a: int, b: int| 0 <= a < t.len() && 0 <= b < t.len() && a != b ==> t[a].0 != t[b].0
}

/// The table after appending `hs` to branch `b`, creating the branch when
/// it is new.
pub open spec fn extend_branch(
    t: Seq<(BranchId, Seq<TaskHandle>)>,
    b: BranchId,
    hs: Seq<TaskHandle>,
) -> Seq<(BranchId, Seq<TaskHandle>)> {
    if exists|k: int| 0 <= k < t.len() && t[k].0 == b {
        let k = choose|k: int| 0 <= k < t.len() && t[k].0 == b;
        t.update(k, (b, t[k].1 + hs))
    } else {
        t.push((b, hs))
    }
}

/// A condition task together with the successors of each of its branches.
pub struct ConditionalHandle {
    pub task: TaskHandle,
    pub branches: Vec<(BranchId, Vec<TaskHandle>)>,
}

impl ConditionalHandle {
    /// The branches as a table of views.
    pub open spec fn table(&self) -> Seq<(BranchId, Seq<TaskHandle>)> {
        table_view(self.branches@)
    }

    /// A conditional handle with no branches yet.
    pub fn new(task: TaskHandle) -> (c: Self)
        ensures
            c.task == task,
            c.table() == Seq::<(BranchId, Seq<TaskHandle>)>::empty(),
    {
        let c = ConditionalHandle { task, branches: Vec::new() };
        assert(c.table() =~= Seq::<(BranchId, Seq<TaskHandle>)>::empty());
        c
    }

    fn extend(&mut self, b: BranchId, hs: &[TaskHandle])
        requires
            keys_unique(old(self).branches@),
        ensures
            keys_unique(final(self).branches@),
            final(self).task == old(self).task,
            final(self).table() == extend_branch(old(self).table(), b, hs@),
    {
        let ghost t = self.table();
        let mut k: usize = 0;
        while k < self.branches.len() && self.branches[k].0 != b
            invariant
                0 <= k <= self.branches@.len(),
                self.branches@ == old(self).branches@,
                t == table_view(self.branches@),
                forall|j: int| 0 <= j < k ==> self.branches@[j].0 != b,
            decreases self.branches@.len() - k,
        {
            k = k + 1;
        }
        if k < self.branches.len() {
            let ghost old_entry = self.branches@[k as int];
            let mut entry = self.branches.remove(k);
            let mut i: usize = 0;
            while i < hs.len()
                invariant
                    0 <= i <= hs@.len(),
                    entry.0 == b,
                    entry.1@ == old_entry.1@ + hs@.subrange(0, i as int),
                decreases hs@.len() - i,
            {
                entry.1.push(hs[i]);
                i = i + 1;
                assert(entry.1@ =~= old_entry.1@ + hs@.subrange(0, i as int));
            }
            self.branches.insert(k, entry);
            proof {
                assert(hs@.subrange(0, hs@.len() as int) =~= hs@);
                assert(t[k as int].0 == b);
                assert forall|j: int| 0 <= j < t.len() && t[j].0 == b implies j == k by {
                    if j != k {
                        assert(old(self).branches@[j].0 != old(self).branches@[k as int].0);
                    }
                }
                let c = choose|j: int| 0 <= j < t.len() && t[j].0 == b;
                assert(c == k);
                assert(self.table() =~= t.update(k as int, (b, t[k as int].1 + hs@)));
                assert forall|a: int, c2: int| 0 <= a < self.branches@.len() && 0 <= c2 < self.branches@.len() && a != c2
                    implies self.branches@[a].0 != self.branches@[c2].0 by {
                    assert(self.branches@[a].0 == old(self).branches@[a].0);
                    assert(self.branches@[c2].0 == old(self).branches@[c2].0);
                }
            }
        } else {
            let mut v: Vec<TaskHandle> = Vec::new();
            let mut i: usize = 0;
            while i < hs.len()
                invariant
                    0 <= i <= hs@.len(),
                    v@ == hs@.subrange(0, i as int),
                decreases hs@.len() - i,
            {
                v.push(hs[i]);
                i = i + 1;
                assert(v@ =~= hs@.subrange(0, i as int));
            }
            self.branches.push((b, v));
            proof {
                assert(hs@.subrange(0, hs@.len() as int) =~= hs@);
                assert(!exists|j: int| 0 <= j < t.len() && t[j].0 == b);
                assert(self.table() =~= t.push((b, hs@)));
            }
        }
    }

    /// Adds `successor` to branch `branch_id`.  Branch ids given as `usize`
    /// or `i32` convert as `BranchId::from` states.
    pub fn branch<B: Into<BranchId>>(&mut self, branch_id: B, successor: &TaskHandle)
        requires
            keys_unique(old(self).branches@),
        ensures
            keys_unique(final(self).branches@),
            final(self).task == old(self).task,
            B::obeys_into_spec() ==> final(self).table() == extend_branch(old(self).table(), branch_id.into_spec(), seq![*successor]),
    {
        let b: BranchId = branch_id.into();
        let one = [*successor];
        self.extend(b, &one);
        assert(one@ =~= seq![*successor]);
    }

    /// Adds several successors to branch `branch_id`, in order.
    pub fn branch_many<B: Into<BranchId>>(&mut self, branch_id: B, successors: &[TaskHandle])
        requires
            keys_unique(old(self).branches@),
        ensures
            keys_unique(final(self).branches@),
            final(self).task == old(self).task,
            B::obeys_into_spec() ==> final(self).table() == extend_branch(old(self).table(), branch_id.into_spec(), successors@),
    {
        let b: BranchId = branch_id.into();
        self.extend(b, successors);
    }

    /// The condition task.
    pub fn task(&self) -> (t: &TaskHandle)
        ensures
            *t == self.task,
    {
        &self.task
    }

    /// The id of the condition task.
    pub fn task_id(&self) -> (id: TaskId)
        ensures
            id == self.task.spec_id(),
    {
        self.task.get_id()
    }
}

/// A loop in a task graph: a condition task, the tasks of its body and an
/// optional iteration bound.
pub struct Loop {
    pub condition: TaskHandle,
    pub body: Vec<TaskHandle>,
    pub max_iterations: Option<usize>,
}

impl Loop {
    /// A loop with an empty body and no bound.
    pub fn new(condition: TaskHandle) -> (l: Self)
        ensures
            l.condition == condition,
            l.body@ == Seq::<TaskHandle>::empty(),
            l.max_iterations is None,
    {
        Loop { condition, body: Vec::new(), max_iterations: None }
    }

    /// Appends a task to the body.
    pub fn add_body_task(&mut self, task: TaskHandle)
        ensures
            final(self).condition == old(self).condition,
            final(self).body@ == old(self).body@.push(task),
            final(self).max_iterations == old(self).max_iterations,
    {
        self.body.push(task);
    }

    /// Bounds the number of iterations.
    pub fn max_iterations(&mut self, max: usize)
        ensures
            final(self).condition == old(self).condition,
            final(self).body@ == old(self).body@,
            final(self).max_iterations == Some(max),
    {
        self.max_iterations = Some(max);
    }
}

} // verus!
