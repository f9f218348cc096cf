//! A pipeline of executors that each transform a value: running the
//! pipeline runs every executor, in the order they were added, each on what
//! the one before left.
use vstd::prelude::*;

verus! {

/// A step of a pipeline.
pub trait Executor<T>: Sized {
    /// The executor is ready to run.
    spec fn inv(&self) -> bool;

    /// Running the executor may turn `before` into `after`.
    spec fn effect(&self, before: T, after: T) -> bool;

    /// Runs the executor on `v`.
    fn execute(&self, v: &mut T)
        requires
            self.inv(),
        ensures
            self.effect(*old(v), *final(v)),
    ;
}

/// Running `executors` one after the other may turn `before` into `after`.
pub open spec fn chain_effect<T, E: Executor<T>>(executors: Seq<E>, before: T, after: T) -> bool
    decreases executors.len(),
{
    if executors.len() == 0 {
        after == before
    } else {
        exists|mid: T| #[trigger] executors[0].effect(before, mid) && chain_effect(executors.drop_first(), mid, after)
    }
}

/// Every executor is ready to run.
pub open spec fn all_ready<T, E: Executor<T>>(executors: Seq<E>) -> bool {
    forall|i: int| 0 <= i < executors.len() ==> (#[trigger] executors[i]).inv()
}

/// Running two chains one after the other is running their concatenation:
/// the pipeline runs its executors in order, whatever way they are grouped.
pub proof fn lemma_chain_effect_append<T, E: Executor<T>>(a: Seq<E>, b: Seq<E>, x: T, y: T, z: T)
    requires
        chain_effect(a, x, y),
        chain_effect(b, y, z),
    ensures
        chain_effect(a + b, x, z),
    decreases a.len(),
{
    if a.len() == 0 {
        assert(a + b =~= b);
    } else {
        let mid = choose|mid: T| #[trigger] a[0].effect(x, mid) && chain_effect(a.drop_first(), mid, y);
        lemma_chain_effect_append(a.drop_first(), b, mid, y, z);
        assert((a + b).drop_first() =~= a.drop_first() + b);
        assert((a + b)[0] == a[0]);
    }
}

/// One more executor extends a chain.
pub proof fn lemma_chain_effect_push<T, E: Executor<T>>(a: Seq<E>, e: E, x: T, y: T, z: T)
    requires
        chain_effect(a, x, y),
        e.effect(y, z),
    ensures
        chain_effect(a.push(e), x, z),
{
    let one = seq![e];
    assert(one.drop_first() =~= Seq::<E>::empty());
    assert(one[0] == e);
    assert(chain_effect(one.drop_first(), z, z));
    assert(chain_effect(one, y, z));
    lemma_chain_effect_append(a, one, x, y, z);
    assert(a + one =~= a.push(e));
}

/// An executor that runs a function producing the new value from the old.
pub struct ClosureExecutor<F> {
    f: F,
}

impl<F> ClosureExecutor<F> {
    /// An executor running `f`.
    pub fn new(f: F) -> (r: Self)
        ensures
            r.function() == f,
    {
        ClosureExecutor { f }
    }

    /// The function run.
    pub closed spec fn function(&self) -> F {
        self.f
    }
}

impl<T, F: Fn(&T) -> T> Executor<T> for ClosureExecutor<F> {
    open spec fn inv(&self) -> bool {
        forall|t: &T| call_requires(self.function(), (t,))
    }

    open spec fn effect(&self, before: T, after: T) -> bool {
        call_ensures(self.function(), (&before,), after)
    }

    fn execute(&self, v: &mut T) {
        let next = (self.f)(&*v);
        *v = next;
    }
}

/// An executor that can hand out a copy of itself.
pub trait ExecutorClone: Sized {
    fn clone_box(&self) -> Self;
}

impl<F: Clone> ExecutorClone for ClosureExecutor<F> {
    fn clone_box(&self) -> (r: Self)
        ensures
            cloned::<F>(self.function(), r.function()),
    {
        ClosureExecutor { f: self.f.clone() }
    }
}

/// An executor that leaves the value as it is.
pub struct MockExecutor {}

impl Default for MockExecutor {
    fn default() -> (r: Self) {
        MockExecutor {}
    }
}

impl ExecutorClone for MockExecutor {
    fn clone_box(&self) -> (r: Self) {
        MockExecutor {}
    }
}

impl<T> Executor<T> for MockExecutor {
    open spec fn inv(&self) -> bool {
        true
    }

    open spec fn effect(&self, before: T, after: T) -> bool {
        after == before
    }

    fn execute(&self, v: &mut T) {
    }
}

/// A step of a chain: runs its executor, then the rest of the chain.
pub struct DefaultReactorExecutor<E> {
    f: E,
}

impl<E> DefaultReactorExecutor<E> {
    /// A step running `f`.
    pub fn new(f: E) -> (r: Self)
        ensures
            r.executor() == f,
    {
        Self { f }
    }

    /// The executor run.
    pub closed spec fn executor(&self) -> E {
        self.f
    }
}

/// The executors of a sequence of steps.
pub open spec fn step_executors<E>(steps: Seq<DefaultReactorExecutor<E>>) -> Seq<E> {
    Seq::new(steps.len(), |i: int| steps[i].executor())
}

/// The steps still to run in a chain.
pub struct ExecutorContext<E> {
    executors: Vec<DefaultReactorExecutor<E>>,
}

impl<E> ExecutorContext<E> {
    /// A context that runs `executors`, first to last.
    pub fn new(executors: Vec<DefaultReactorExecutor<E>>) -> (r: Self)
        ensures
            r.pending() == executors@,
    {
        Self { executors }
    }

    /// The steps still to run.
    pub closed spec fn pending(&self) -> Seq<DefaultReactorExecutor<E>> {
        self.executors@
    }
}

impl<E> DefaultReactorExecutor<E> {
    /// Runs this step's executor on `t`, then the steps left in `c`.
    pub fn execute<T>(self, t: &mut T, c: &mut ExecutorContext<E>)
        where E: Executor<T>
        requires
            self.executor().inv(),
            all_ready(step_executors(old(c).pending())),
        ensures
            final(c).pending().len() == 0,
            exists|mid: T| {
                &&& #[trigger] self.executor().effect(*old(t), mid)
                &&& chain_effect(step_executors(old(c).pending()), mid, *final(t))
            },
        decreases old(c).pending().len(), 1nat,
    {
        self.f.execute(t);
        let ghost mid = *t;
        c.next(t);
    }
}

impl<E> ExecutorContext<E> {
    /// Runs the steps left, first to last, each on what the one before
    /// left.
    pub fn next<T>(&mut self, t: &mut T)
        where E: Executor<T>
        requires
            all_ready(step_executors(old(self).pending())),
        ensures
            final(self).pending().len() == 0,
            chain_effect(step_executors(old(self).pending()), *old(t), *final(t)),
        decreases old(self).pending().len(), 0nat,
    {
        if self.executors.len() == 0 {
            return;
        }
        let ghost before = step_executors(self.executors@);
        let ee = self.executors.remove(0);
        proof {
            assert(step_executors(self.executors@) =~= before.drop_first());
            assert(before[0] == ee.executor());
        }
        ee.execute(t, self);
    }
}

/// The executors of a pipeline.
pub struct DefaultChainExecutor<E> {
    executors: Vec<DefaultReactorExecutor<E>>,
}

impl<E> Default for DefaultChainExecutor<E> {
    fn default() -> (r: Self)
        ensures
            r.steps().len() == 0,
    {
        DefaultChainExecutor { executors: Vec::new() }
    }
}

impl<E> DefaultChainExecutor<E> {
    /// A chain of `executors`, run first to last.
    pub fn new(executors: Vec<DefaultReactorExecutor<E>>) -> (r: Self)
        ensures
            r.steps() == executors@,
    {
        Self { executors }
    }

    /// The steps, first to last.
    pub closed spec fn steps(&self) -> Seq<DefaultReactorExecutor<E>> {
        self.executors@
    }

    /// Runs every step, first to last, each on what the one before left.
    pub fn execute<T>(&self, t: &mut T)
        where E: Executor<T>
        requires
            all_ready(step_executors(self.steps())),
        ensures
            chain_effect(step_executors(self.steps()), *old(t), *final(t)),
    {
        let ghost all = step_executors(self.executors@);
        let ghost start = *t;
        let mut i: usize = 0;
        proof {
            assert(all.subrange(0, 0) =~= Seq::<E>::empty());
        }
        while i < self.executors.len()
            invariant
                all == step_executors(self.executors@),
                all_ready(all),
                i <= all.len(),
                chain_effect(all.subrange(0, i as int), start, *t),
            decreases all.len() - i,
        {
            let ghost before = *t;
            proof {
                assert(all[i as int] == self.executors@[i as int].executor());
            }
            self.executors[i].f.execute(t);
            proof {
                lemma_chain_effect_push(all.subrange(0, i as int), all[i as int], start, before, *t);
                assert(all.subrange(0, i as int).push(all[i as int]) =~= all.subrange(0, i as int + 1));
            }
            i = i + 1;
        }
        proof {
            assert(all.subrange(0, all.len() as int) =~= all);
        }
    }
}

/// A copy of the vector, each item cloned.
pub fn copy_shuffle<T: Clone>(vec: &Vec<T>) -> (r: Vec<T>)
    ensures
        r@.len() == vec@.len(),
        forall|i: int| 0 <= i < vec@.len() ==> cloned::<T>(vec@[i], #[trigger] r@[i]),
{
    let mut out: Vec<T> = Vec::new();
    let mut i: usize = 0;
    while i < vec.len()
        invariant
            i <= vec@.len(),
            out@.len() == i,
            forall|j: int| 0 <= j < i ==> cloned::<T>(vec@[j], #[trigger] out@[j]),
        decreases vec@.len() - i,
    {
        out.push(vec[i].clone());
        i = i + 1;
    }
    out
}

/// A pipeline: a chain of executors run on each value given.
pub struct DefaultPipelineV2<E> {
    executor: DefaultChainExecutor<E>,
}

impl<E> Default for DefaultPipelineV2<E> {
    fn default() -> (r: Self)
        ensures
            r.steps().len() == 0,
    {
        DefaultPipelineV2 { executor: DefaultChainExecutor { executors: Vec::new() } }
    }
}

impl<E> DefaultPipelineV2<E> {
    /// A pipeline running `executor`.
    pub fn new(executor: DefaultChainExecutor<E>) -> (r: Self)
        ensures
            r.steps() == executor.steps(),
    {
        Self { executor }
    }

    /// The steps, first to last.
    pub closed spec fn steps(&self) -> Seq<DefaultReactorExecutor<E>> {
        self.executor.steps()
    }

    /// Runs every step on `v`, first to last.
    pub fn execute<T>(&self, v: &mut T)
        where E: Executor<T>
        requires
            all_ready(step_executors(self.steps())),
        ensures
            chain_effect(step_executors(self.steps()), *old(v), *final(v)),
    {
        self.executor.execute(v)
    }

    /// The pipeline itself.
    pub fn build(self) -> (r: Self)
        ensures
            r.steps() == self.steps(),
    {
        self
    }

    /// Adds a step at the end.
    pub fn add_last(&mut self, e: DefaultReactorExecutor<E>)
        ensures
            final(self).steps() == old(self).steps().push(e),
    {
        self.executor.executors.push(e);
    }
}

/// Collects the steps of a pipeline.
pub struct PipelineBuilder<E> {
    executors: Vec<DefaultReactorExecutor<E>>,
}

impl<E> Default for PipelineBuilder<E> {
    fn default() -> (r: Self)
        ensures
            r.steps().len() == 0,
    {
        PipelineBuilder { executors: Vec::new() }
    }
}

impl<E> PipelineBuilder<E> {
    /// The steps so far, first to last.
    pub closed spec fn steps(&self) -> Seq<DefaultReactorExecutor<E>> {
        self.executors@
    }

    /// The builder with `e` added as the last step.
    pub fn add_last(self, e: DefaultReactorExecutor<E>) -> (r: Self)
        ensures
            r.steps() == self.steps().push(e),
    {
        let mut b = self;
        b.executors.push(e);
        b
    }

    /// The pipeline of the steps, in the order added.
    pub fn build(self) -> (r: DefaultPipelineV2<E>)
        ensures
            r.steps() == self.steps(),
    {
        let chain = DefaultChainExecutor::new(self.executors);
        DefaultPipelineV2 { executor: chain }
    }
}

} // verus!
