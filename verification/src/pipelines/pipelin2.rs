//! A pipeline of observers: running it on a value calls every observer on
//! that value, in the order they were added.
use vstd::prelude::*;

verus! {

pub use crate::pipelines::pipeline2::copy_shuffle;

/// Something that can be run on a value.
pub trait Executor<T> {
    fn execute(v: &T);
}

/// Every observer can be called on `t`.
pub open spec fn all_callable<T, F: Fn(&T)>(steps: Seq<DefaultReactorExecutor<F>>, t: &T) -> bool {
    forall|i: int| 0 <= i < steps.len() ==> call_requires((#[trigger] steps[i]).function(), (t,))
}

/// Every observer was called on `t`.
pub open spec fn all_called<T, F: Fn(&T)>(steps: Seq<DefaultReactorExecutor<F>>, t: &T) -> bool {
    forall|i: int| 0 <= i < steps.len() ==> call_ensures((#[trigger] steps[i]).function(), (t,), ())
}

/// A step of a chain: calls its observer, then the rest of the chain.
pub struct DefaultReactorExecutor<F> {
    f: F,
}

impl<F> DefaultReactorExecutor<F> {
    /// A step calling `f`.
    pub fn new(f: F) -> (r: Self)
        ensures
            r.function() == f,
    {
        Self { f }
    }

    /// The observer called.
    pub closed spec fn function(&self) -> F {
        self.f
    }
}

/// The steps still to run in a chain.
pub struct ExecutorContext<F> {
    executors: Vec<DefaultReactorExecutor<F>>,
    called: Ghost<Seq<DefaultReactorExecutor<F>>>,
}

impl<F> ExecutorContext<F> {
    /// A context that runs `executors`, first to last.
    pub fn new(executors: Vec<DefaultReactorExecutor<F>>) -> (r: Self)
        ensures
            r.pending() == executors@,
            r.called_steps() == Seq::<DefaultReactorExecutor<F>>::empty(),
    {
        Self { executors, called: Ghost(Seq::empty()) }
    }

    /// The steps still to run.
    pub closed spec fn pending(&self) -> Seq<DefaultReactorExecutor<F>> {
        self.executors@
    }

    /// The steps whose observers have been called through this context, in
    /// the order of the calls.
    pub closed spec fn called_steps(&self) -> Seq<DefaultReactorExecutor<F>> {
        self.called@
    }
}

impl<F> DefaultReactorExecutor<F> {
    /// Calls this step's observer on `t`, then the steps left in `c`.
    pub fn execute<T>(self, t: &T, c: &mut ExecutorContext<F>)
        where F: Fn(&T)
        requires
            call_requires(self.function(), (t,)),
            all_callable(old(c).pending(), t),
        ensures
            final(c).pending().len() == 0,
            call_ensures(self.function(), (t,), ()),
            all_called(old(c).pending(), t),
            final(c).called_steps() == old(c).called_steps().push(self) + old(c).pending(),
        decreases old(c).pending().len(), 1nat,
    {
        let ghost me = self;
        (self.f)(t);
        proof {
            c.called@ = c.called@.push(me);
        }
        c.next(t);
    }
}

impl<F> ExecutorContext<F> {
    /// Calls the observers of the steps left on `t`, first to last.
    pub fn next<T>(&mut self, t: &T)
        where F: Fn(&T)
        requires
            all_callable(old(self).pending(), t),
        ensures
            final(self).pending().len() == 0,
            all_called(old(self).pending(), t),
            final(self).called_steps() == old(self).called_steps() + old(self).pending(),
        decreases old(self).pending().len(), 0nat,
    {
        if self.executors.len() == 0 {
            proof {
                assert(old(self).called_steps() + old(self).pending() =~= old(self).called_steps());
            }
            return;
        }
        let ghost before = self.executors@;
        let ee = self.executors.remove(0);
        proof {
            assert(before[0] == ee);
            assert forall|i: int| 0 <= i < self.executors@.len() implies call_requires((#[trigger] self.executors@[i]).function(), (t,)) by {
                assert(self.executors@[i] == before[i + 1]);
            }
        }
        let ghost rest = self.executors@;
        ee.execute(t, self);
        proof {
            assert forall|i: int| 0 <= i < before.len() implies call_ensures((#[trigger] before[i]).function(), (t,), ()) by {
                if i > 0 {
                    assert(before[i] == rest[i - 1]);
                }
            }
            assert(before =~= seq![before[0]] + rest);
            assert(old(self).called_steps().push(before[0]) + rest =~= old(self).called_steps() + before);
        }
    }
}

/// The steps of a pipeline.
pub struct DefaultChainExecutor<F> {
    executors: Vec<DefaultReactorExecutor<F>>,
}

impl<F> Default for DefaultChainExecutor<F> {
    fn default() -> (r: Self)
        ensures
            r.steps().len() == 0,
    {
        DefaultChainExecutor { executors: Vec::new() }
    }
}

impl<F> DefaultChainExecutor<F> {
    /// A chain of `executors`, run first to last.
    pub fn new(executors: Vec<DefaultReactorExecutor<F>>) -> (r: Self)
        ensures
            r.steps() == executors@,
    {
        Self { executors }
    }

    /// The steps, first to last.
    pub closed spec fn steps(&self) -> Seq<DefaultReactorExecutor<F>> {
        self.executors@
    }

    /// Calls every step's observer on `t`, first to last.
    pub fn execute<T>(&self, t: &T)
        where F: Fn(&T)
        requires
            all_callable(self.steps(), t),
        ensures
            all_called(self.steps(), t),
    {
        let mut i: usize = 0;
        while i < self.executors.len()
            invariant
                i <= self.executors@.len(),
                all_callable(self.steps(), t),
                forall|j: int| 0 <= j < i ==> call_ensures((#[trigger] self.executors@[j]).function(), (t,), ()),
            decreases self.executors@.len() - i,
        {
            proof {
                assert(call_requires(self.executors@[i as int].function(), (t,)));
            }
            (self.executors[i].f)(t);
            i = i + 1;
        }
    }
}

/// A pipeline: a chain of observers called on each value given.
pub struct DefaultPipeline<F> {
    executor: DefaultChainExecutor<F>,
}

impl<F> Default for DefaultPipeline<F> {
    fn default() -> (r: Self)
        ensures
            r.steps().len() == 0,
    {
        DefaultPipeline { executor: DefaultChainExecutor { executors: Vec::new() } }
    }
}

impl<F> DefaultPipeline<F> {
    /// A pipeline running `executor`.
    pub fn new(executor: DefaultChainExecutor<F>) -> (r: Self)
        ensures
            r.steps() == executor.steps(),
    {
        Self { executor }
    }

    /// The steps, first to last.
    pub closed spec fn steps(&self) -> Seq<DefaultReactorExecutor<F>> {
        self.executor.steps()
    }

    /// Calls every observer on `v`, first to last.
    pub fn execute<T>(&mut self, v: &T)
        where F: Fn(&T)
        requires
            all_callable(old(self).steps(), v),
        ensures
            final(self).steps() == old(self).steps(),
            all_called(old(self).steps(), v),
    {
        self.executor.execute(v);
    }

    /// The pipeline itself.
    pub fn build(self) -> (r: Self)
        ensures
            r.steps() == self.steps(),
    {
        self
    }
}

/// Collects the steps of a pipeline.
pub struct PipelineBuilder<F> {
    executors: Vec<DefaultReactorExecutor<F>>,
}

impl<F> Default for PipelineBuilder<F> {
    fn default() -> (r: Self)
        ensures
            r.steps().len() == 0,
    {
        PipelineBuilder { executors: Vec::new() }
    }
}

impl<F> PipelineBuilder<F> {
    /// The steps so far, first to last.
    pub closed spec fn steps(&self) -> Seq<DefaultReactorExecutor<F>> {
        self.executors@
    }

    /// The builder with `e` added as the last step.
    pub fn add_last(self, e: DefaultReactorExecutor<F>) -> (r: Self)
        ensures
            r.steps() == self.steps().push(e),
    {
        let mut b = self;
        b.executors.push(e);
        b
    }

    /// The pipeline of the steps, in the order added.
    pub fn build(self) -> (r: DefaultPipeline<F>)
        ensures
            r.steps() == self.steps(),
    {
        let chain = DefaultChainExecutor::new(self.executors);
        DefaultPipeline { executor: chain }
    }
}

} // verus!
