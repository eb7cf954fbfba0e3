use makegrad::dot::{dot_footer, dot_header, op_edge_line, op_node_line, operand_edge_line, DotItem};
use makegrad::graph::{Graph, Op};

#[test]
fn drawing_statements_in_walk_order() {
    let mut g: Graph<f64> = Graph::new(0.0);
    let a = g.value(3.0);
    let b = g.value(-4.0);
    let c = g.from_prev(-1.0, vec![a, b], Op::Add);
    let d = g.from_prev(-3.0, vec![a, c], Op::Mul);
    let items = g.dot_items(d);
    assert_eq!(
        items,
        vec![
            DotItem::Value(d),
            DotItem::OpNode(d, Op::Mul),
            DotItem::OpToValue(d),
            DotItem::Value(a),
            DotItem::ValueToOp(a, d),
            DotItem::Value(c),
            DotItem::OpNode(c, Op::Add),
            DotItem::OpToValue(c),
            DotItem::ValueToOp(a, c),
            DotItem::Value(b),
            DotItem::ValueToOp(b, c),
            DotItem::ValueToOp(c, d),
        ]
    );
}

#[test]
fn drawing_of_a_leaf_is_its_box() {
    let mut g: Graph<f64> = Graph::new(0.0);
    let a = g.value(1.0);
    let _b = g.value(2.0);
    assert_eq!(g.dot_items(a), vec![DotItem::Value(a)]);
}

#[test]
fn repeated_operand_gets_one_box_and_two_edges() {
    let mut g: Graph<f64> = Graph::new(0.0);
    let a = g.value(1.0);
    let s = g.from_prev(2.0, vec![a, a], Op::Add);
    assert_eq!(
        g.dot_items(s),
        vec![
            DotItem::Value(s),
            DotItem::OpNode(s, Op::Add),
            DotItem::OpToValue(s),
            DotItem::Value(a),
            DotItem::ValueToOp(a, s),
            DotItem::ValueToOp(a, s),
        ]
    );
}

#[test]
fn leaf_with_operands_is_drawn_as_its_box() {
    let mut g: Graph<f64> = Graph::new(0.0);
    let a = g.value(1.0);
    let b = g.from_prev(2.0, vec![a], Op::Leaf);
    assert_eq!(g.dot_items(b), vec![DotItem::Value(b)]);
}

#[test]
fn drawing_lines() {
    assert_eq!(
        dot_header(),
        "digraph computation {\n\trankdir=LR;\n\tgraph [bgcolor=\"white\"];\n\tnode [fontname=\"Helvetica\"];\n"
    );
    assert_eq!(dot_footer(), "}\n");
    assert_eq!(
        op_node_line(255, Op::Tanh),
        "\top_ff [label=\"tanh\", shape=circle, width=0.35, fixedsize=true];\n"
    );
    assert_eq!(op_node_line(0, Op::Pow(2)), "\top_0 [label=\"pow2\", shape=circle, width=0.35, fixedsize=true];\n");
    assert_eq!(op_edge_line(26), "\top_1a -> value_1a;\n");
    assert_eq!(operand_edge_line(16, 4096), "\tvalue_10 -> op_1000;\n");
}
