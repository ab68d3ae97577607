use incrgraph::{EngineError, Expr, Graph};

// Every read returns the value a from-scratch evaluation would produce
// from the latest written inputs, whatever the order of writes and reads.
#[test]
fn read_consistency_across_writes() {
    let mut g = Graph::new();
    let a = g.initial(1);
    let c = g.compute(Expr::add(a.read(), Expr::constant(1))).unwrap();
    assert_eq!(c.get(&mut g).unwrap(), 2);
    a.set(&mut g, 10).unwrap();
    assert_eq!(c.get(&mut g).unwrap(), 11);
    a.set(&mut g, 3).unwrap();
    a.set(&mut g, 4).unwrap();
    assert_eq!(a.get(&mut g).unwrap(), 4);
    assert_eq!(c.get(&mut g).unwrap(), 5);
    assert_eq!(c.get(&mut g).unwrap(), 5);
}

// Between two consecutive reads of the same derived node with no
// intervening write to any of its dependencies, the computation runs at
// most once in total.
#[test]
fn no_redundant_recomputation() {
    let mut g = Graph::new();
    let a = g.initial(1);
    let c = g.compute(Expr::add(a.read(), Expr::constant(1))).unwrap();
    // One seeding evaluation at construction; the node starts dirty.
    assert_eq!(g.eval_count(&c).unwrap(), 1);
    assert_eq!(g.is_dirty(&c).unwrap(), true);
    // The first read recomputes once; the second is served from the cache.
    assert_eq!(c.get(&mut g).unwrap(), 2);
    assert_eq!(g.eval_count(&c).unwrap(), 2);
    assert_eq!(c.get(&mut g).unwrap(), 2);
    assert_eq!(g.eval_count(&c).unwrap(), 2);
    // A write to an unrelated input does not disturb the cache.
    let b = g.initial(7);
    b.set(&mut g, 8).unwrap();
    assert_eq!(c.get(&mut g).unwrap(), 2);
    assert_eq!(g.eval_count(&c).unwrap(), 2);
}

// A write marks dirty exactly the derived nodes that transitively read the
// written input, and leaves every other node clean.
#[test]
fn propagated_invalidation() {
    let mut g = Graph::new();
    let a = g.initial(5);
    let b = g.initial(4);
    let c = g.compute(Expr::add(a.read(), Expr::constant(6))).unwrap();
    let d = g.compute(Expr::add(b.read(), c.read())).unwrap();
    let e = g.compute(Expr::mul(b.read(), d.read())).unwrap();
    let f = g.compute(Expr::add(b.read(), Expr::constant(1))).unwrap();
    assert_eq!(e.get(&mut g).unwrap(), 60);
    assert_eq!(f.get(&mut g).unwrap(), 5);
    assert_eq!(g.is_dirty(&c).unwrap(), false);
    assert_eq!(g.is_dirty(&d).unwrap(), false);
    assert_eq!(g.is_dirty(&e).unwrap(), false);
    assert_eq!(g.is_dirty(&f).unwrap(), false);
    a.set(&mut g, 2).unwrap();
    // c, d and e transitively read a; f reads only b.
    assert_eq!(g.is_dirty(&a.node()).unwrap(), false);
    assert_eq!(g.is_dirty(&b.node()).unwrap(), false);
    assert_eq!(g.is_dirty(&c).unwrap(), true);
    assert_eq!(g.is_dirty(&d).unwrap(), true);
    assert_eq!(g.is_dirty(&e).unwrap(), true);
    assert_eq!(g.is_dirty(&f).unwrap(), false);
}

// The recorded dependency set reflects only the most recent evaluation's
// reads: a conditional that switches branches drops the old branch's edge.
#[test]
fn dynamic_dependency_tracking() {
    let mut g = Graph::new();
    let s = g.initial(1);
    let x = g.initial(10);
    let y = g.initial(20);
    let c = g
        .compute(Expr::if_pos(s.read(), x.read(), y.read()))
        .unwrap();
    assert_eq!(c.get(&mut g).unwrap(), 10);
    let count = g.eval_count(&c).unwrap();
    // c read s and x only: a write to y does not invalidate it.
    y.set(&mut g, 21).unwrap();
    assert_eq!(g.is_dirty(&c).unwrap(), false);
    assert_eq!(c.get(&mut g).unwrap(), 10);
    assert_eq!(g.eval_count(&c).unwrap(), count);
    // Switch the branch: c now reads s and y.
    s.set(&mut g, 0).unwrap();
    assert_eq!(g.is_dirty(&c).unwrap(), true);
    assert_eq!(c.get(&mut g).unwrap(), 21);
    let count2 = g.eval_count(&c).unwrap();
    // The old edge to x is gone...
    x.set(&mut g, 11).unwrap();
    assert_eq!(g.is_dirty(&c).unwrap(), false);
    assert_eq!(c.get(&mut g).unwrap(), 21);
    assert_eq!(g.eval_count(&c).unwrap(), count2);
    // ... and the new edge to y is live.
    y.set(&mut g, 22).unwrap();
    assert_eq!(g.is_dirty(&c).unwrap(), true);
    assert_eq!(c.get(&mut g).unwrap(), 22);
}

// One write followed by one read of the diamond's sink recomputes each
// intermediate node at most once, not once per path.
#[test]
fn idempotent_diamond_evaluation() {
    let mut g = Graph::new();
    let a = g.initial(5);
    let b = g.initial(4);
    let c = g.compute(Expr::add(a.read(), Expr::constant(6))).unwrap();
    let d = g.compute(Expr::add(b.read(), c.read())).unwrap();
    let e = g.compute(Expr::mul(b.read(), d.read())).unwrap();
    assert_eq!(e.get(&mut g).unwrap(), 60);
    let cc = g.eval_count(&c).unwrap();
    let cd = g.eval_count(&d).unwrap();
    let ce = g.eval_count(&e).unwrap();
    a.set(&mut g, 2).unwrap();
    assert_eq!(e.get(&mut g).unwrap(), 48);
    assert_eq!(g.eval_count(&c).unwrap(), cc + 1);
    assert_eq!(g.eval_count(&d).unwrap(), cd + 1);
    assert_eq!(g.eval_count(&e).unwrap(), ce + 1);
}

#[test]
fn diamond_on_shared_input() {
    let mut g = Graph::new();
    let a = g.initial(3);
    let left = g.compute(Expr::add(a.read(), Expr::constant(1))).unwrap();
    let right = g.compute(Expr::add(a.read(), Expr::constant(2))).unwrap();
    let sink = g.compute(Expr::add(left.read(), right.read())).unwrap();
    assert_eq!(sink.get(&mut g).unwrap(), 9);
    let cl = g.eval_count(&left).unwrap();
    let cr = g.eval_count(&right).unwrap();
    let cs = g.eval_count(&sink).unwrap();
    a.set(&mut g, 10).unwrap();
    assert_eq!(sink.get(&mut g).unwrap(), 23);
    assert_eq!(g.eval_count(&left).unwrap(), cl + 1);
    assert_eq!(g.eval_count(&right).unwrap(), cr + 1);
    assert_eq!(g.eval_count(&sink).unwrap(), cs + 1);
}

#[test]
fn input_nodes_read_and_write() {
    let mut g = Graph::new();
    let a = g.initial(5);
    assert_eq!(a.get(&mut g).unwrap(), 5);
    assert_eq!(g.eval_count(&a.node()).unwrap(), 0);
    assert_eq!(g.is_dirty(&a.node()).unwrap(), false);
    a.set(&mut g, 2).unwrap();
    assert_eq!(a.get(&mut g).unwrap(), 2);
    assert_eq!(g.eval_count(&a.node()).unwrap(), 0);
}

#[test]
fn constant_only_computation() {
    let mut g = Graph::new();
    let c = g.compute(Expr::constant(7)).unwrap();
    assert_eq!(g.eval_count(&c).unwrap(), 1);
    assert_eq!(c.get(&mut g).unwrap(), 7);
    assert_eq!(g.eval_count(&c).unwrap(), 2);
    assert_eq!(c.get(&mut g).unwrap(), 7);
    assert_eq!(g.eval_count(&c).unwrap(), 2);
}

#[test]
fn arithmetic_wraps_around() {
    let mut g = Graph::new();
    let c = g
        .compute(Expr::add(Expr::constant(u64::MAX), Expr::constant(1)))
        .unwrap();
    assert_eq!(c.get(&mut g).unwrap(), 0);
    let m = g
        .compute(Expr::mul(Expr::constant(u64::MAX), Expr::constant(2)))
        .unwrap();
    assert_eq!(m.get(&mut g).unwrap(), u64::MAX - 1);
}

#[test]
fn duplicate_preserves_expression() {
    let mut g = Graph::new();
    let a = g.initial(9);
    let e = Expr::add(a.read(), Expr::constant(1));
    let e2 = e.duplicate();
    let c1 = g.compute(e).unwrap();
    let c2 = g.compute(e2).unwrap();
    assert_eq!(c1.get(&mut g).unwrap(), 10);
    assert_eq!(c2.get(&mut g).unwrap(), 10);
}

#[test]
fn foreign_handle_get_is_invalid() {
    let mut big = Graph::new();
    let _ = big.initial(1);
    let _ = big.initial(2);
    let far = big.compute(Expr::constant(0)).unwrap();
    let mut small = Graph::new();
    let _ = small.initial(1);
    assert_eq!(far.get(&mut small), Err(EngineError::InvalidReference));
    // The failed call left the small graph untouched.
    assert_eq!(small.eval_count(&far), None);
}

#[test]
fn foreign_handle_set_is_invalid() {
    let mut a_graph = Graph::new();
    let a = a_graph.initial(1);
    let mut b_graph = Graph::new();
    let _derived = b_graph.compute(Expr::constant(3)).unwrap();
    // In the foreign graph the same reference names a derived node: a
    // settable handle must not write through it.
    assert_eq!(
        a.set(&mut b_graph, 9),
        Err(EngineError::InvalidReference)
    );
    let mut empty = Graph::new();
    assert_eq!(a.set(&mut empty, 9), Err(EngineError::InvalidReference));
    assert_eq!(a.get(&mut a_graph).unwrap(), 1);
}

#[test]
fn compute_rejects_unknown_references() {
    let mut g = Graph::new();
    let _ = g.initial(1);
    let res = g.compute(Expr::add(Expr::Get(5), Expr::constant(1)));
    assert!(matches!(res, Err(EngineError::InvalidReference)));
    // A computation may not read the node it is about to become either.
    let res2 = g.compute(Expr::Get(1));
    assert!(matches!(res2, Err(EngineError::InvalidReference)));
    // The graph is untouched and still usable.
    let c = g.compute(Expr::Get(0)).unwrap();
    assert_eq!(c.get(&mut g).unwrap(), 1);
}

#[test]
fn nested_dirty_chain_recomputes_in_order() {
    let mut g = Graph::new();
    let a = g.initial(1);
    let c1 = g.compute(Expr::add(a.read(), Expr::constant(1))).unwrap();
    let c2 = g.compute(Expr::add(c1.read(), Expr::constant(1))).unwrap();
    let c3 = g.compute(Expr::add(c2.read(), Expr::constant(1))).unwrap();
    assert_eq!(c3.get(&mut g).unwrap(), 4);
    a.set(&mut g, 100).unwrap();
    assert_eq!(c3.get(&mut g).unwrap(), 103);
    assert_eq!(c2.get(&mut g).unwrap(), 102);
    assert_eq!(c1.get(&mut g).unwrap(), 101);
}
