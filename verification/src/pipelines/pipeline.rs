//! A chain of reactors: executing the chain lets each reactor not yet run
//! react to the value, in order; a chain runs its reactors once.
use vstd::prelude::*;

verus! {

/// A value that can go through a chain.
pub trait ExecutorValueTrait {}

/// A chain of reactors.
pub trait ChainExecutor<V> {
    /// Every reactor of the chain not yet run can take `v`.
    spec fn chain_ready(&self, v: V) -> bool;

    /// Runs the reactors of the chain not yet run on `v`.
    fn execute(&mut self, v: &V)
        requires
            old(self).chain_ready(*v),
    ;
}

/// A reactor: something done on each value passing through a chain.
pub trait ReactorExecutor<V>: Sized {
    /// The reactor can react to `v`.
    spec fn ready(&self, v: V) -> bool;

    /// The reactor reacted to `v`.
    spec fn reacted(&self, v: V) -> bool;

    /// Reacts to `v`.
    fn on_execute(&self, v: &V)
        requires
            self.ready(*v),
        ensures
            self.reacted(*v),
    ;

    /// Reacts to `v`, then passes it on along `chain`.
    fn execute<E: ChainExecutor<V>>(&self, v: &V, chain: &mut E)
        requires
            self.ready(*v),
            old(chain).chain_ready(*v),
        ensures
            self.reacted(*v),
    {
        self.on_execute(v);
        chain.execute(v)
    }
}

/// A chain of reactors with a cursor: the reactors before it have run.
pub struct DefaultChainExecutor<R> {
    executors: Vec<R>,
    index: usize,
    trace: Ghost<Seq<R>>,
}

impl<R> DefaultChainExecutor<R> {
    /// A chain of `exs`, none run yet.
    pub fn new(exs: Vec<R>) -> (r: Self)
        ensures
            r.reactors() == exs@,
            r.cursor() == 0,
            r.reacted_in_order() == Seq::<R>::empty(),
    {
        DefaultChainExecutor { executors: exs, index: 0, trace: Ghost(Seq::empty()) }
    }

    /// The reactors, first to last.
    pub closed spec fn reactors(&self) -> Seq<R> {
        self.executors@
    }

    /// How many reactors have run.
    pub closed spec fn cursor(&self) -> nat {
        self.index as nat
    }

    /// The reactors that have reacted, in the order of their reactions.
    pub closed spec fn reacted_in_order(&self) -> Seq<R> {
        self.trace@
    }

    /// Adds a reactor at the end.
    pub fn add_last(&mut self, exe: R)
        ensures
            final(self).reactors() == old(self).reactors().push(exe),
            final(self).cursor() == old(self).cursor(),
            final(self).reacted_in_order() == old(self).reacted_in_order(),
    {
        self.executors.push(exe)
    }
}

impl<R> DefaultChainExecutor<R> {
    /// Every reactor not yet run can react to `v`.
    pub open spec fn ready_for<V>(&self, v: V) -> bool
        where R: ReactorExecutor<V>
    {
        forall|i: int| self.cursor() <= i < self.reactors().len() ==> (#[trigger] self.reactors()[i]).ready(v)
    }

    /// Lets reactor `i` react to `v`, recording the reaction.
    fn react_at<V>(&mut self, i: usize, v: &V)
        where R: ReactorExecutor<V>
        requires
            i < old(self).reactors().len(),
            old(self).reactors()[i as int].ready(*v),
        ensures
            final(self).reactors() == old(self).reactors(),
            final(self).cursor() == old(self).cursor(),
            final(self).reacted_in_order() == old(self).reacted_in_order().push(old(self).reactors()[i as int]),
            old(self).reactors()[i as int].reacted(*v),
    {
        self.executors[i].on_execute(v);
        proof {
            self.trace@ = self.trace@.push(self.executors@[i as int]);
        }
    }

    /// Lets every reactor not yet run react to `v`, first to last; then all
    /// have run.
    pub fn run<V>(&mut self, v: &V)
        where R: ReactorExecutor<V>
        requires
            old(self).ready_for(*v),
        ensures
            final(self).reactors() == old(self).reactors(),
            final(self).cursor() == if old(self).cursor() <= old(self).reactors().len() { old(self).reactors().len() } else { old(self).cursor() },
            forall|i: int| old(self).cursor() <= i < old(self).reactors().len() ==> (#[trigger] old(self).reactors()[i]).reacted(*v),
            final(self).reacted_in_order() == old(self).reacted_in_order() + reactors_from(old(self).reactors(), old(self).cursor()),
    {
        let ghost start = self.index;
        while self.index < self.executors.len()
            invariant
                self.reactors() == old(self).reactors(),
                start == old(self).cursor(),
                start <= self.index,
                self.index <= self.executors@.len() || self.index == start,
                forall|i: int| start <= i < self.reactors().len() ==> (#[trigger] self.reactors()[i]).ready(*v),
                forall|i: int| start <= i < self.index ==> (#[trigger] self.reactors()[i]).reacted(*v),
                self.index <= self.executors@.len() ==> self.reacted_in_order() == old(self).reacted_in_order() + self.reactors().subrange(start as int, self.index as int),
                self.index > self.executors@.len() ==> self.reacted_in_order() == old(self).reacted_in_order(),
            decreases self.executors@.len() - self.index,
        {
            let i = self.index;
            self.react_at(i, v);
            self.index = i + 1;
            proof {
                assert(self.reactors().subrange(start as int, self.index as int)
                    =~= self.reactors().subrange(start as int, i as int).push(self.reactors()[i as int]));
            }
        }
        proof {
            if start <= self.executors@.len() {
                assert(self.reactors().subrange(start as int, self.index as int) =~= reactors_from(old(self).reactors(), start as nat));
            } else {
                assert(reactors_from(old(self).reactors(), start as nat) =~= Seq::<R>::empty());
            }
        }
    }
}

/// The reactors of `rs` from position `cursor` on, in order (none when the
/// cursor is past the end).
pub open spec fn reactors_from<R>(rs: Seq<R>, cursor: nat) -> Seq<R> {
    if cursor <= rs.len() {
        rs.subrange(cursor as int, rs.len() as int)
    } else {
        Seq::empty()
    }
}

impl<V, R: ReactorExecutor<V>> ChainExecutor<V> for DefaultChainExecutor<R> {
    open spec fn chain_ready(&self, v: V) -> bool {
        self.ready_for(v)
    }

    fn execute(&mut self, v: &V)
        ensures
            final(self).reactors() == old(self).reactors(),
            final(self).cursor() == if old(self).cursor() <= old(self).reactors().len() { old(self).reactors().len() } else { old(self).cursor() },
            forall|i: int| old(self).cursor() <= i < old(self).reactors().len() ==> (#[trigger] old(self).reactors()[i]).reacted(*v),
            final(self).reacted_in_order() == old(self).reacted_in_order() + reactors_from(old(self).reactors(), old(self).cursor()),
    {
        self.run(v);
    }
}

/// A reactor that calls a function on each value.
pub struct DefaultClosureReactorExecutor<F> {
    f: F,
}

impl<F> DefaultClosureReactorExecutor<F> {
    /// A reactor calling `f`.
    pub fn new(f: F) -> (r: Self)
        ensures
            r.function() == f,
    {
        DefaultClosureReactorExecutor { f }
    }

    /// The function called.
    pub closed spec fn function(&self) -> F {
        self.f
    }
}

impl<V, F: Fn(&V)> ReactorExecutor<V> for DefaultClosureReactorExecutor<F> {
    open spec fn ready(&self, v: V) -> bool {
        call_requires(self.function(), (&v,))
    }

    open spec fn reacted(&self, v: V) -> bool {
        call_ensures(self.function(), (&v,), ())
    }

    fn on_execute(&self, v: &V) {
        (self.f)(v);
    }
}

/// A reactor that leaves each value as it is.
pub struct DefaultReactorExecutor {}

impl DefaultReactorExecutor {
    /// A reactor.
    pub fn new() -> (r: Self) {
        DefaultReactorExecutor {}
    }
}

impl<V> ReactorExecutor<V> for DefaultReactorExecutor {
    open spec fn ready(&self, v: V) -> bool {
        true
    }

    open spec fn reacted(&self, v: V) -> bool {
        true
    }

    fn on_execute(&self, v: &V) {
    }
}

/// Collects the reactors of a chain.
pub struct DefaultChainExecutorBuilder<R> {
    executors: Vec<R>,
}

impl<R> DefaultChainExecutorBuilder<R> {
    /// A builder with no reactor.
    pub fn new() -> (r: Self)
        ensures
            r.reactors().len() == 0,
    {
        DefaultChainExecutorBuilder { executors: Vec::new() }
    }

    /// The reactors so far, first to last.
    pub closed spec fn reactors(&self) -> Seq<R> {
        self.executors@
    }

    /// Adds `e` as the last reactor.
    pub fn executor(&mut self, e: R) -> (r: &mut Self)
        ensures
            r.reactors() == old(self).reactors().push(e),
            *final(self) == *final(r),
    {
        self.executors.push(e);
        self
    }

    /// The chain of the reactors, in the order added, none run yet; the
    /// builder is left empty.
    pub fn build(&mut self) -> (r: DefaultChainExecutor<R>)
        ensures
            r.reactors() == old(self).reactors(),
            r.cursor() == 0,
            r.reacted_in_order() == Seq::<R>::empty(),
            final(self).reactors().len() == 0,
    {
        let mut exs: Vec<R> = Vec::new();
        std::mem::swap(&mut exs, &mut self.executors);
        DefaultChainExecutor::new(exs)
    }
}

/// A pipeline: reactors can be added at the end.
pub trait Pipeline<R> {
    fn add_last(&mut self, exe: R);
}

/// A pipeline over a chain of reactors.
pub struct DefaultPipeline<R> {
    executor: DefaultChainExecutor<R>,
    seald: bool,
}

impl<R> DefaultPipeline<R> {
    /// A pipeline over `exe`.
    pub fn new(exe: DefaultChainExecutor<R>) -> (r: Self)
        ensures
            r.chain() == exe,
    {
        DefaultPipeline { executor: exe, seald: true }
    }

    /// The chain.
    pub closed spec fn chain(&self) -> DefaultChainExecutor<R> {
        self.executor
    }
}

impl<R> Pipeline<R> for DefaultPipeline<R> {
    fn add_last(&mut self, exe: R)
        ensures
            final(self).chain().reactors() == old(self).chain().reactors().push(exe),
            final(self).chain().cursor() == old(self).chain().cursor(),
            final(self).chain().reacted_in_order() == old(self).chain().reacted_in_order(),
    {
        self.executor.add_last(exe)
    }
}

impl<R> DefaultPipeline<R> {
    /// Runs the chain's reactors not yet run on `v`.
    pub fn execute<V>(&mut self, v: &V)
        where R: ReactorExecutor<V>
        requires
            old(self).chain().ready_for(*v),
        ensures
            final(self).chain().reactors() == old(self).chain().reactors(),
            final(self).chain().cursor() == if old(self).chain().cursor() <= old(self).chain().reactors().len() { old(self).chain().reactors().len() } else { old(self).chain().cursor() },
            forall|i: int| old(self).chain().cursor() <= i < old(self).chain().reactors().len() ==> (#[trigger] old(self).chain().reactors()[i]).reacted(*v),
            final(self).chain().reacted_in_order() == old(self).chain().reacted_in_order() + reactors_from(old(self).chain().reactors(), old(self).chain().cursor()),
    {
        self.executor.execute(v)
    }
}

} // verus!
