//! Subflows: task graphs built by a running task, whose tasks join the
//! graph being run.

use vstd::prelude::*;

use crate::task::{TaskHandle, TaskKind};
use crate::taskflow::{Taskflow, fresh_node};

verus! {

/// A nested task graph built while its parent task runs.  Its task ids
/// continue those of the graph it will join.
pub struct Subflow<W> {
    flow: Taskflow<W>,
}

impl<W> Subflow<W> {
    /// The graph built so far.
    pub closed spec fn graph(&self) -> Taskflow<W> {
        self.flow
    }

    /// An empty subflow whose first task gets id `first_id`.
    pub fn new(first_id: usize) -> (s: Self)
        ensures
            s.graph().wf(),
            s.graph().nodes().len() == 0,
            s.graph().works().len() == 0,
            s.graph().base_id() == first_id,
            s.graph().branch_tables().len() == 0,
    {
        Subflow { flow: Taskflow::with_base(first_id) }
    }

    /// Adds a task of plain work.
    pub fn emplace(&mut self, work: W) -> (h: TaskHandle)
        requires
            old(self).graph().wf(),
            old(self).graph().base_id() + old(self).graph().nodes().len() < usize::MAX,
        ensures
            final(self).graph().wf(),
            h.spec_id() == old(self).graph().base_id() + old(self).graph().nodes().len(),
            final(self).graph().nodes().drop_last() == old(self).graph().nodes(),
            final(self).graph().nodes().len() == old(self).graph().nodes().len() + 1,
            fresh_node(final(self).graph().nodes().last(), h.spec_id(), TaskKind::Static),
            final(self).graph().works() == old(self).graph().works().push(Some(work)),
            final(self).graph().base_id() == old(self).graph().base_id(),
            final(self).graph().branch_tables() == old(self).graph().branch_tables(),
    {
        self.flow.emplace(work)
    }

    /// Adds a task whose work builds a further subflow.
    pub fn emplace_subflow(&mut self, work: W) -> (h: TaskHandle)
        requires
            old(self).graph().wf(),
            old(self).graph().base_id() + old(self).graph().nodes().len() < usize::MAX,
        ensures
            final(self).graph().wf(),
            h.spec_id() == old(self).graph().base_id() + old(self).graph().nodes().len(),
            final(self).graph().nodes().drop_last() == old(self).graph().nodes(),
            final(self).graph().nodes().len() == old(self).graph().nodes().len() + 1,
            fresh_node(final(self).graph().nodes().last(), h.spec_id(), TaskKind::Subflow),
            final(self).graph().works() == old(self).graph().works().push(Some(work)),
            final(self).graph().base_id() == old(self).graph().base_id(),
            final(self).graph().branch_tables() == old(self).graph().branch_tables(),
    {
        self.flow.emplace_subflow(work)
    }

    /// The graph, to link its tasks.
    pub fn taskflow_mut(&mut self) -> (g: &mut Taskflow<W>)
        ensures
            *g == old(self).graph(),
            final(self).graph() == *final(g),
    {
        &mut self.flow
    }

    /// The graph built, to be appended to the graph being run.
    pub fn into_taskflow(self) -> (g: Taskflow<W>)
        ensures
            g == self.graph(),
    {
        self.flow
    }
}

} // verus!
