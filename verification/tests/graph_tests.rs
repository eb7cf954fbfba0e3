use makegrad::graph::{Factor, Graph, GradTerm, Op};

fn leaf(g: &mut Graph<f64>, x: f64) -> usize {
    g.value(x)
}

#[test]
fn symbol_labels() {
    assert_eq!(Op::Leaf.symbol(), "");
    assert_eq!(Op::Add.symbol(), "+");
    assert_eq!(Op::Mul.symbol(), "*");
    assert_eq!(Op::Tanh.symbol(), "tanh");
    assert_eq!(Op::Exp.symbol(), "exp");
    assert_eq!(Op::Pow(2).symbol(), "pow2");
    assert_eq!(Op::Pow(-1).symbol(), "pow-1");
    assert_eq!(Op::Pow(i32::MIN).symbol(), "pow-2147483648");
}

#[test]
fn topo_lists_operands_first() {
    let mut g: Graph<f64> = Graph::new(0.0);
    let a = leaf(&mut g, 3.5);
    let b = leaf(&mut g, -2.0);
    let c = g.from_prev(-7.0, vec![a, b], Op::Mul);
    let d = g.from_prev(-3.5, vec![c, a], Op::Add);
    assert_eq!(g.build_topo(d), vec![a, b, c, d]);
    assert_eq!(g.backward_order(d), vec![d, c, b, a]);
    assert_eq!(g.build_topo(c), vec![a, b, c]);
}

#[test]
fn grad_terms_follow_chain_rule() {
    let mut g: Graph<f64> = Graph::new(0.0);
    let a = leaf(&mut g, 3.0);
    let b = leaf(&mut g, 4.0);
    let m = g.from_prev(12.0, vec![a, b], Op::Mul);
    assert_eq!(
        g.local_grad_terms(m),
        vec![
            GradTerm { target: a, factor: Factor::DataOf(b) },
            GradTerm { target: b, factor: Factor::DataOf(a) }
        ]
    );
    let s = g.from_prev(7.0, vec![a, a], Op::Add);
    assert_eq!(
        g.local_grad_terms(s),
        vec![
            GradTerm { target: a, factor: Factor::One },
            GradTerm { target: a, factor: Factor::One }
        ]
    );
    assert_eq!(g.local_grad_terms(a), vec![]);
}

#[test]
fn values_and_setters() {
    let mut g: Graph<f64> = Graph::new(0.0);
    let ids = g.values(&vec![1.0, 2.0, 3.0]);
    assert_eq!(ids, vec![0, 1, 2]);
    assert_eq!(g.len(), 3);
    assert_eq!(g.data(1), 2.0);
    assert_eq!(g.grad(1), 0.0);
    assert_eq!(g.op(1), Op::Leaf);
    assert_eq!(g.prev(1), Vec::<usize>::new());
    g.set_grad(1, 5.0);
    g.set_data(2, -1.0);
    assert_eq!(g.grad(1), 5.0);
    assert_eq!(g.data(2), -1.0);
    let s = g.from_prev(3.0, vec![0, 1], Op::Add);
    assert_eq!(g.prev(s), vec![0, 1]);
    assert_eq!(g.op(s), Op::Add);
    g.set_grad(0, 7.0);
    g.zero_grad(&vec![0, 1]);
    assert_eq!(g.grad(0), 0.0);
    assert_eq!(g.grad(1), 0.0);
}

#[test]
fn shared_operands_are_listed_once() {
    // e = (a * b) + (a * b) over a diamond: d is used twice.
    let mut g: Graph<i64> = Graph::new(0);
    let a = g.value(2);
    let b = g.value(3);
    let d = g.from_prev(6, vec![a, b], Op::Mul);
    let e = g.from_prev(12, vec![d, d], Op::Add);
    let unrelated = g.value(9);
    let topo = g.build_topo(e);
    assert_eq!(topo, vec![a, b, d, e]);
    assert!(!topo.contains(&unrelated));
    assert_eq!(g.backward_order(e), vec![e, d, b, a]);
    assert_eq!(g.build_topo(unrelated), vec![unrelated]);
}

#[test]
fn unary_grad_terms() {
    let mut g: Graph<f64> = Graph::new(0.0);
    let x = g.value(0.5);
    let t = g.from_prev(0.5f64.tanh(), vec![x], Op::Tanh);
    let e = g.from_prev(0.5f64.exp(), vec![x], Op::Exp);
    let p = g.from_prev(0.25, vec![x], Op::Pow(2));
    assert_eq!(g.local_grad_terms(t), vec![GradTerm { target: x, factor: Factor::OneMinusOutputSquared }]);
    assert_eq!(g.local_grad_terms(e), vec![GradTerm { target: x, factor: Factor::Output }]);
    assert_eq!(g.local_grad_terms(p), vec![GradTerm { target: x, factor: Factor::PowerRule(2) }]);
    assert!(g.arity_fits(p));
    let bad = g.from_prev(1.0, vec![x], Op::Mul);
    assert!(!g.arity_fits(bad));
}

#[test]
fn paren_symbol_labels() {
    assert_eq!(Op::Leaf.paren_symbol(), "");
    assert_eq!(Op::Add.paren_symbol(), "+");
    assert_eq!(Op::Mul.paren_symbol(), "*");
    assert_eq!(Op::Tanh.paren_symbol(), "tanh");
    assert_eq!(Op::Pow(2).paren_symbol(), "pow(2");
    assert_eq!(Op::Pow(-3).paren_symbol(), "pow(-3");
}

#[test]
fn leaf_with_operands_keeps_them_in_the_walk() {
    let mut g: Graph<f64> = Graph::new(0.0);
    let a = leaf(&mut g, 1.0);
    let b = g.from_prev(2.0, vec![a], Op::Leaf);
    assert_eq!(g.prev(b), vec![a]);
    assert_eq!(g.build_topo(b), vec![a, b]);
    assert_eq!(g.backward_order(b), vec![b, a]);
    assert!(g.local_grad_terms(b).is_empty());
}

#[test]
fn setters_touch_one_node() {
    let mut g: Graph<f64> = Graph::new(0.0);
    let a = leaf(&mut g, 1.0);
    let b = leaf(&mut g, 2.0);
    g.set_grad(a, 5.0);
    g.set_data(b, 7.0);
    assert_eq!((g.data(a), g.grad(a)), (1.0, 5.0));
    assert_eq!((g.data(b), g.grad(b)), (7.0, 0.0));
}

#[test]
fn labels_tell_operations_apart() {
    let ops = [Op::Leaf, Op::Add, Op::Mul, Op::Tanh, Op::Exp, Op::Pow(2), Op::Pow(-2), Op::Pow(22)];
    for a in ops {
        assert_eq!(a.symbol().is_empty(), a == Op::Leaf);
        assert_eq!(a.paren_symbol().is_empty(), a == Op::Leaf);
        for b in ops {
            assert_eq!(a.symbol() == b.symbol(), a == b);
            assert_eq!(a.paren_symbol() == b.paren_symbol(), a == b);
        }
    }
}

#[test]
fn visit_extends_a_closed_list() {
    let mut g: Graph<f64> = Graph::new(0.0);
    let a = leaf(&mut g, 1.0);
    let b = leaf(&mut g, 2.0);
    let c = g.from_prev(3.0, vec![a, b], Op::Add);
    let d = g.from_prev(6.0, vec![c, a], Op::Mul);
    let mut visited = vec![true, false, false, false];
    let mut topo = vec![a];
    g.visit(d, &mut visited, &mut topo);
    assert_eq!(topo, vec![a, b, c, d]);
    assert_eq!(visited, vec![true, true, true, true]);
    g.visit(c, &mut visited, &mut topo);
    assert_eq!(topo, vec![a, b, c, d]);
    assert_eq!(visited, vec![true, true, true, true]);
}
