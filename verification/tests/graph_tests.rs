use incrgraph::{Expr, Graph};

#[test]
fn it_works() {
    assert_eq!(2 + 2, 4);
}

#[test]
fn graph1() {
    let mut graph = Graph::new();
    let a = graph.initial(5);
    let b = graph.initial(4);
    let c = graph
        .compute(Expr::add(a.read(), Expr::constant(6)))
        .unwrap();
    let d = graph.compute(Expr::add(b.read(), c.read())).unwrap();
    assert_eq!(d.get(&mut graph).unwrap(), 15);
}

#[test]
fn graph2() {
    let mut graph = Graph::new();
    let a = graph.initial(5);
    let a_c = a;
    let b = graph.initial(4);
    let b_c = b;
    let c = graph
        .compute(Expr::add(a.read(), Expr::constant(6)))
        .unwrap();
    let d = graph.compute(Expr::add(b.read(), c.read())).unwrap();
    let e = graph.compute(Expr::mul(b_c.read(), d.read())).unwrap();
    assert_eq!(e.get(&mut graph).unwrap(), 60);
    a_c.set(&mut graph, 2).unwrap();
    assert_eq!(e.get(&mut graph).unwrap(), 48);
}
