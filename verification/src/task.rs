//! Task nodes of a task graph and the handles that name them.

use vstd::prelude::*;

use crate::text::{decimal, decimal_string, push_str};

verus! {

/// Identifier of a task within its graph.
pub type TaskId = usize;

/// What kind of work a task carries.
#[derive(Debug, Clone, Copy, PartialEq, Eq, Structural)]
pub enum TaskKind {
    /// Plain work run once.
    Static,
    /// Work that builds a nested graph when it runs.
    Subflow,
    /// Work that returns the index of the branch to follow.
    Condition,
}

/// The default name of task `id`: `task_<id>`.
pub open spec fn default_task_name(id: usize) -> Seq<char> {
    "task_"@ + decimal(id as nat)
}

/// A node of a task graph: identity, display name, kind and its links.
pub struct TaskNode {
    pub id: TaskId,
    pub name: String,
    pub kind: TaskKind,
    /// Tasks that run after this one, without repetitions.
    pub successors: Vec<TaskId>,
    /// Tasks that run before this one, without repetitions.
    pub dependents: Vec<TaskId>,
    pub num_dependents: usize,
}

impl TaskNode {
    /// A node with no links, named `task_<id>`.
    pub fn new(id: TaskId, kind: TaskKind) -> (n: Self)
        ensures
            n.id == id,
            n.name@ == default_task_name(id),
            n.kind == kind,
            n.successors@ == Seq::<TaskId>::empty(),
            n.dependents@ == Seq::<TaskId>::empty(),
            n.num_dependents == 0,
    {
        let mut name = String::new();
        push_str(&mut name, "task_");
        let digits = decimal_string(id);
        push_str(&mut name, digits.as_str());
        proof {
            reveal_strlit("task_");
            assert(name@ =~= default_task_name(id));
        }
        TaskNode {
            id,
            name,
            kind,
            successors: Vec::new(),
            dependents: Vec::new(),
            num_dependents: 0,
        }
    }
}

/// Adds `x` to a list that holds no repetitions, unless it is there already.
pub fn insert_unique(v: &mut Vec<TaskId>, x: TaskId)
    requires
        old(v)@.no_duplicates(),
    ensures
        final(v)@.no_duplicates(),
        final(v)@ == if old(v)@.contains(x) {
            old(v)@
        } else {
            old(v)@.push(x)
        },
{
    let mut i: usize = 0;
    while i < v.len()
        invariant
            0 <= i <= v@.len(),
            v@ == old(v)@,
            v@.no_duplicates(),
            forall|j: int| 0 <= j < i ==> v@[j] != x,
        decreases v@.len() - i,
    {
        if v[i] == x {
            assert(v@[i as int] == x);
            return;
        }
        i = i + 1;
    }
    v.push(x);
    proof {
        assert forall|a: int, b: int| 0 <= a < v@.len() && 0 <= b < v@.len() && a != b implies v@[a] != v@[b] by {
            if a < old(v)@.len() && b < old(v)@.len() {
            }
        }
    }
}

/// Handle of a task in a graph; it only names the task.
#[derive(Debug, Clone, Copy, PartialEq, Eq, Structural)]
pub struct TaskHandle {
    id: TaskId,
}

impl TaskHandle {
    /// The task id the handle names.
    pub closed spec fn spec_id(&self) -> TaskId {
        self.id
    }

    /// A handle for task `id`.
    pub fn new(id: TaskId) -> (h: Self)
        ensures
            h.spec_id() == id,
    {
        TaskHandle { id }
    }

    /// The task id the handle names.
    pub fn get_id(&self) -> (id: TaskId)
        ensures
            id == self.spec_id(),
    {
        self.id
    }
}

/// Anything that names a task.
pub trait Task {
    fn id(&self) -> TaskId;
}

impl Task for TaskHandle {
    fn id(&self) -> TaskId {
        self.id
    }
}

} // verus!
