//! Typed pipelines: stages run one after the other on one value, each a
//! function from the previous stage's output to its own, so that the
//! compiler checks that they fit.  A pipeline can also be laid out as a
//! chain of tasks in a task graph.

use std::marker::PhantomData;
use vstd::prelude::*;

use crate::algorithms::{add_planned_tasks, is_planned};
use crate::pipeline::{chain_stages, is_stage_chain};
use crate::task::TaskHandle;
use crate::taskflow::Taskflow;
use crate::text::to_owned_string;

verus! {

/// A chain of stages that turns an `In` into an `Out`.
pub trait StageChain<In, Out>: Sized {
    /// The inputs every stage of the chain can take, stage after stage.
    spec fn accepts(&self, input: In) -> bool;

    /// `output` is what the chain may give for `input`.
    spec fn gives(&self, input: In, output: Out) -> bool;

    /// The number of stages.
    spec fn stage_count(&self) -> nat;

    /// Runs the stages in order.
    fn run(&self, input: In) -> (output: Out)
        requires
            self.accepts(input),
        ensures
            self.gives(input, output);

    /// The number of stages.
    fn count(&self) -> (n: usize)
        requires
            self.stage_count() <= usize::MAX,
        ensures
            n == self.stage_count();
}

/// No stage: the input is the output.
pub struct NoStages;

impl<T> StageChain<T, T> for NoStages {
    open spec fn accepts(&self, input: T) -> bool {
        true
    }

    open spec fn gives(&self, input: T, output: T) -> bool {
        output == input
    }

    open spec fn stage_count(&self) -> nat {
        0
    }

    fn run(&self, input: T) -> (output: T) {
        input
    }

    fn count(&self) -> (n: usize) {
        0
    }
}

/// The stages of `prev`, then `f`.
pub struct Then<P, F, Mid> {
    prev: P,
    f: F,
    mid: PhantomData<Mid>,
}

impl<P, F, Mid> Then<P, F, Mid> {
    /// The stages before the last.
    pub closed spec fn before(&self) -> P {
        self.prev
    }

    /// The last stage.
    pub closed spec fn last(&self) -> F {
        self.f
    }
}

impl<In, Mid, Out, P: StageChain<In, Mid>, F: Fn(Mid) -> Out> StageChain<In, Out> for Then<P, F, Mid> {
    open spec fn accepts(&self, input: In) -> bool {
        &&& self.before().accepts(input)
        &&& forall|m: Mid| self.before().gives(input, m) ==> #[trigger] self.last().requires((m,))
    }

    open spec fn gives(&self, input: In, output: Out) -> bool {
        exists|m: Mid| self.before().gives(input, m) && #[trigger] self.last().ensures((m,), output)
    }

    open spec fn stage_count(&self) -> nat {
        self.before().stage_count() + 1
    }

    fn run(&self, input: In) -> (output: Out) {
        let m = self.prev.run(input);
        assert(self.last().requires((m,)));
        let output = (self.f)(m);
        assert(self.last().ensures((m,), output));
        output
    }

    fn count(&self) -> (n: usize) {
        self.prev.count() + 1
    }
}

/// A pipeline from `In` to `Out` through the stages `S`.
pub struct TypeSafePipeline<In, Out, S> {
    stages: S,
    io: PhantomData<(In, Out)>,
}

impl<In, Out, S: StageChain<In, Out>> TypeSafePipeline<In, Out, S> {
    /// The pipeline's stages.
    pub closed spec fn chain(&self) -> S {
        self.stages
    }

    /// Adds `transform` as the last stage.
    pub fn stage<F: Fn(Out) -> NewOut, NewOut>(self, transform: F) -> (p: TypeSafePipeline<In, NewOut, Then<S, F, Out>>)
        ensures
            p.chain().before() == self.chain(),
            p.chain().last() == transform,
    {
        TypeSafePipeline { stages: Then { prev: self.stages, f: transform, mid: PhantomData }, io: PhantomData }
    }

    /// Runs every stage in order on `input`.
    pub fn execute(&self, input: In) -> (output: Out)
        requires
            self.chain().accepts(input),
        ensures
            self.chain().gives(input, output),
    {
        self.stages.run(input)
    }
}

impl<T> TypeSafePipeline<T, T, NoStages> {
    /// A pipeline without stages.
    pub fn new() -> (p: Self)
        ensures
            p.chain() == NoStages,
    {
        TypeSafePipeline { stages: NoStages, io: PhantomData }
    }
}

/// Starts a pipeline with its first stage.
pub struct PipelineBuilder<T> {
    input: PhantomData<T>,
}

impl<T> Default for PipelineBuilder<T> {
    fn default() -> (b: Self) {
        PipelineBuilder { input: PhantomData }
    }
}

impl<T> PipelineBuilder<T> {
    /// A builder for pipelines from `T`.
    pub fn new() -> (b: Self) {
        PipelineBuilder { input: PhantomData }
    }

    /// A pipeline whose only stage is `transform`.
    pub fn map<F: Fn(T) -> Out, Out>(self, transform: F) -> (p: TypeSafePipeline<T, Out, Then<NoStages, F, T>>)
        ensures
            p.chain().last() == transform,
    {
        TypeSafePipeline::new().stage(transform)
    }
}

impl<In, Out, S: StageChain<In, Out>> TypeSafePipeline<In, Out, S> {
    /// The number of stages.
    pub fn stage_count(&self) -> (n: usize)
        requires
            self.chain().stage_count() <= usize::MAX,
        ensures
            n == self.chain().stage_count(),
    {
        self.stages.count()
    }

    /// Lays the pipeline out in `tf`: one task per stage, named
    /// `pipeline_stage_<i>`, each after the one before; or, without stages,
    /// one task named `pipeline_passthrough`.  `works` holds the work of
    /// each of these tasks.  Returns the last task.
    pub fn build_taskflow<W>(&self, tf: &mut Taskflow<W>, works: Vec<W>) -> (h: TaskHandle)
        requires
            old(tf).wf(),
            works@.len() == if self.chain().stage_count() == 0 { 1 } else { self.chain().stage_count() },
            old(tf).base_id() + old(tf).nodes().len() + works@.len() < usize::MAX,
        ensures
            final(tf).wf(),
            final(tf).base_id() == old(tf).base_id(),
            final(tf).branch_tables() == old(tf).branch_tables(),
            final(tf).nodes().subrange(0, old(tf).nodes().len() as int) == old(tf).nodes(),
            final(tf).works() == old(tf).works() + works@.map_values(|w: W| Some(w)),
            self.chain().stage_count() == 0 ==> is_planned(
                final(tf).nodes(),
                old(tf).nodes().len() as int,
                old(tf).base_id() + old(tf).nodes().len(),
                seq!["pipeline_passthrough"@],
                Seq::empty(),
            ),
            self.chain().stage_count() > 0 ==> is_stage_chain(
                final(tf).nodes(),
                old(tf).nodes().len() as int,
                works@.len() as int,
                "pipeline_stage_"@,
            ),
            h.spec_id() == old(tf).base_id() + old(tf).nodes().len() + works@.len() - 1,
    {
        let n = self.stages.count();
        if n == 0 {
            let mut names: Vec<String> = Vec::new();
            names.push(to_owned_string("pipeline_passthrough"));
            let edges: Vec<(usize, usize)> = Vec::new();
            proof {
                assert(crate::algorithms::names_view(names@) =~= seq!["pipeline_passthrough"@]);
                assert(edges@ =~= Seq::<(usize, usize)>::empty());
            }
            let hs = add_planned_tasks(tf, works, names, edges);
            hs[0]
        } else {
            let hs = chain_stages(tf, works, "pipeline_stage_");
            hs[hs.len() - 1]
        }
    }
}

} // verus!
