use std::cell::RefCell;
use std::collections::LinkedList;

use cell_sdk::pipelines::pipelin2;
use cell_sdk::pipelines::pipeline::{
    ChainExecutor, DefaultChainExecutor, DefaultChainExecutorBuilder, DefaultClosureReactorExecutor,
    DefaultPipeline, DefaultReactorExecutor, Pipeline,
};
use cell_sdk::pipelines::pipeline2;
use cell_sdk::pipelines::pipeline2::Executor;

pub struct PipValue {
    pub name: String,
}

pub struct AA {
    pub name: String,
}

pub struct BB<'e, R> {
    l: &'e LinkedList<&'e Box<R>>,
    l2: &'e Vec<&'e Box<R>>,
}

impl<'e, R> BB<'e, R> {
    pub fn new(l: &'e LinkedList<&'e Box<R>>, l2: &'e Vec<&'e Box<R>>) -> Self {
        BB { l, l2 }
    }
}

#[test]
fn lib_it_works() {
    let result = 2 + 2;
    assert_eq!(result, 4);
}

#[test]
fn lib_test_pipeline() {
    let f1: fn(&i64) = |v: &i64| println!("f1:{}", v);
    let f2: fn(&i64) = |v: &i64| println!("f2:{}", v);
    let e1 = pipelin2::DefaultReactorExecutor::new(f1);
    let e2 = pipelin2::DefaultReactorExecutor::new(f2);
    let builder = pipelin2::PipelineBuilder::default();
    let pip2 = builder.add_last(e1);
    let mut final_pip = pip2.add_last(e2).build();
    final_pip.execute(&123);
    final_pip.execute(&456);

    let exe22 = DefaultReactorExecutor::new();
    let mut builder = DefaultChainExecutorBuilder::new();
    let executor = builder.executor(exe22).build();
    let mut pip = DefaultPipeline::new(executor);
    pip.execute(&PipValue { name: String::from("charlie") });

    let g1 = |v: &i64| -> i64 {
        println!("f1:{}", v);
        *v
    };
    let c1 = pipeline2::DefaultReactorExecutor::new(pipeline2::ClosureExecutor::new(g1));
    let c2 = pipeline2::DefaultReactorExecutor::new(pipeline2::ClosureExecutor::new(g1));
    let builder = pipeline2::PipelineBuilder::default();
    let pip3 = builder.add_last(c1);
    let final_pip = pip3.add_last(c2).build();
    let mut v = 123;
    final_pip.execute(&mut v);
    assert_eq!(v, 123);
    let mut v = 456;
    final_pip.execute(&mut v);
    assert_eq!(v, 456);
}

#[test]
fn test_chain_executor() {
    let mut ess2: Vec<DefaultReactorExecutor> = Vec::new();
    let e1 = DefaultReactorExecutor::new();
    let e2 = DefaultReactorExecutor::new();
    ess2.push(e1);
    ess2.push(e2);

    let mut chain_executor = DefaultChainExecutor::new(ess2);
    chain_executor.execute(&AA { name: String::from("asd") });
}

#[test]
fn test_bb() {
    let _v1: LinkedList<&Box<DefaultReactorExecutor>> = LinkedList::new();
    let _v2: Vec<&Box<DefaultReactorExecutor>> = Vec::new();
    let b = BB::new(&_v1, &_v2);
    assert!(b.l.is_empty());
    assert!(b.l2.is_empty());
}

#[test]
fn test_default_executor() {}

#[test]
fn test_closure() {
    let vv = "asd";
    let seen = RefCell::new(Vec::new());
    let f = |v: &PipValue| {
        println!("closure {:?},{}", v.name, vv);
        seen.borrow_mut().push(v.name.clone());
    };
    let exe22 = DefaultClosureReactorExecutor::new(&f);
    let exe23 = DefaultClosureReactorExecutor::new(&f);
    let mut builder = DefaultChainExecutorBuilder::new();
    let executor = builder.executor(exe22).executor(exe23).build();
    let mut pip = DefaultPipeline::new(executor);
    pip.execute(&PipValue { name: String::from("charlie") });
    assert_eq!(*seen.borrow(), vec![String::from("charlie"), String::from("charlie")]);
}

#[test]
fn chain_runs_each_reactor_once() {
    let seen = RefCell::new(Vec::new());
    let f = |v: &i64| seen.borrow_mut().push(*v);
    let mut chain = DefaultChainExecutor::new(vec![DefaultClosureReactorExecutor::new(&f), DefaultClosureReactorExecutor::new(&f)]);
    chain.execute(&7);
    chain.execute(&8);
    assert_eq!(*seen.borrow(), vec![7, 7]);
    chain.add_last(DefaultClosureReactorExecutor::new(&f));
    chain.execute(&9);
    assert_eq!(*seen.borrow(), vec![7, 7, 9]);
}

#[test]
fn pipeline_add_last_extends_chain() {
    let seen = RefCell::new(Vec::new());
    let f = |v: &i64| seen.borrow_mut().push(*v);
    let mut pip = DefaultPipeline::new(DefaultChainExecutor::new(Vec::new()));
    pip.add_last(DefaultClosureReactorExecutor::new(&f));
    pip.execute(&3);
    assert_eq!(*seen.borrow(), vec![3]);
}

#[test]
fn observers_run_in_order() {
    let seen: RefCell<Vec<(u8, i64)>> = RefCell::new(Vec::new());
    let a = |v: &i64| seen.borrow_mut().push((1, *v));
    let b = |v: &i64| seen.borrow_mut().push((2, *v));
    let fa: &dyn Fn(&i64) = &a;
    let fb: &dyn Fn(&i64) = &b;
    let mut pip = pipelin2::PipelineBuilder::default()
        .add_last(pipelin2::DefaultReactorExecutor::new(fa))
        .add_last(pipelin2::DefaultReactorExecutor::new(fb))
        .build();
    pip.execute(&5);
    pip.execute(&6);
    assert_eq!(*seen.borrow(), vec![(1, 5), (2, 5), (1, 6), (2, 6)]);
}

#[test]
fn context_runs_and_empties() {
    let seen = RefCell::new(Vec::new());
    let a = |v: &i64| seen.borrow_mut().push(*v * 10);
    let fa: &dyn Fn(&i64) = &a;
    let mut ctx = pipelin2::ExecutorContext::new(vec![pipelin2::DefaultReactorExecutor::new(fa), pipelin2::DefaultReactorExecutor::new(fa)]);
    ctx.next(&4);
    ctx.next(&5);
    assert_eq!(*seen.borrow(), vec![40, 40]);
}

#[test]
fn transforms_compose_in_order() {
    let add = |v: &i64| -> i64 { *v + 3 };
    let mul = |v: &i64| -> i64 { *v * 2 };
    let fa: &dyn Fn(&i64) -> i64 = &add;
    let fm: &dyn Fn(&i64) -> i64 = &mul;
    let pip = pipeline2::PipelineBuilder::default()
        .add_last(pipeline2::DefaultReactorExecutor::new(pipeline2::ClosureExecutor::new(fa)))
        .add_last(pipeline2::DefaultReactorExecutor::new(pipeline2::ClosureExecutor::new(fm)))
        .build();
    let mut v = 1;
    pip.execute(&mut v);
    assert_eq!(v, 8);
    let mut pip2 = pipeline2::DefaultPipelineV2::default();
    pip2.add_last(pipeline2::DefaultReactorExecutor::new(pipeline2::ClosureExecutor::new(fm)));
    pip2.add_last(pipeline2::DefaultReactorExecutor::new(pipeline2::ClosureExecutor::new(fa)));
    let mut w = 1;
    pip2.execute(&mut w);
    assert_eq!(w, 5);
    let mut ctx = pipeline2::ExecutorContext::new(vec![
        pipeline2::DefaultReactorExecutor::new(pipeline2::ClosureExecutor::new(fa)),
        pipeline2::DefaultReactorExecutor::new(pipeline2::ClosureExecutor::new(fa)),
    ]);
    let mut x = 0;
    ctx.next(&mut x);
    assert_eq!(x, 6);
}

#[test]
fn mock_executor_keeps_value() {
    let m = pipeline2::MockExecutor::default();
    let mut v = 42;
    m.execute(&mut v);
    assert_eq!(v, 42);
    let copies = pipeline2::copy_shuffle(&vec![1, 2, 3]);
    assert_eq!(copies, vec![1, 2, 3]);
}
