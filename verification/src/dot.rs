//! The drawing of a computation graph in the Graphviz `dot` language.
//!
//! The walk here decides which statements the drawing holds and in which
//! order; turning each statement into text (with the node values) is left to
//! the caller.

use vstd::prelude::*;
use crate::graph::{Graph, NodeView, Op, op_symbol, wf_nodes};
use crate::text::{hex, push_hex};
use crate::reach::{
    marked, reach, reach_prefix, lemma_reach_prefix_bounds, lemma_reach_prefix_step,
    lemma_reach_prefix_closed, lemma_reach_prefix_mono,
};

verus! {

/// One statement of a drawing.
#[derive(Clone, Copy, PartialEq, Eq, Structural, Debug)]
pub enum DotItem {
    /// The box that shows a node's value and gradient.
    Value(usize),
    /// The circle that shows the operation that produced a node.
    OpNode(usize, Op),
    /// The edge from a node's operation to the node.
    OpToValue(usize),
    /// The edge from an operand (first) to the operation of a node (second).
    ValueToOp(usize, usize),
}

/// The node a statement belongs to; an operand edge belongs to its target.
pub open spec fn item_node(it: DotItem) -> usize {
    match it {
        DotItem::Value(x) => x,
        DotItem::OpNode(x, _) => x,
        DotItem::OpToValue(x) => x,
        DotItem::ValueToOp(_, x) => x,
    }
}

/// The statements of `s` that belong to node `x`, in order.
pub open spec fn about(s: Seq<DotItem>, x: usize) -> Seq<DotItem>
    decreases s.len(),
{
    if s.len() == 0 {
        s
    } else if item_node(s.last()) == x {
        about(s.drop_last(), x).push(s.last())
    } else {
        about(s.drop_last(), x)
    }
}

/// The statements that draw node `x`: its box, and unless it is a leaf its
/// operation, the edge to the box and one edge per operand, in operand order.
pub open spec fn node_block<T>(g: Seq<NodeView<T>>, x: usize) -> Seq<DotItem> {
    let n = g[x as int];
    if n.op == Op::Leaf {
        seq![DotItem::Value(x)]
    } else {
        seq![DotItem::Value(x), DotItem::OpNode(x, n.op), DotItem::OpToValue(x)] + n.prev.map_values(
            |p: usize| DotItem::ValueToOp(p, x),
        )
    }
}

/// The statements of a depth-first walk from `v` that skips the nodes of
/// `vis`, and the nodes visited once it is done: a node reached for the
/// first time gets its box, and unless it is a leaf its operation and the
/// edge to its box, then for each operand in order the walk into it and the
/// edge from it.
pub open spec fn dot_walk<T>(g: Seq<NodeView<T>>, v: int, vis: Set<int>) -> (Seq<DotItem>, Set<int>)
    decreases v, g[v].prev.len() + 1,
{
    if !(0 <= v < g.len()) || vis.contains(v) {
        (Seq::empty(), vis)
    } else if g[v].op == Op::Leaf {
        (seq![DotItem::Value(v as usize)], vis.insert(v))
    } else {
        let r = dot_walk_operands(g, v, g[v].prev.len() as int, vis.insert(v));
        (
            seq![
                DotItem::Value(v as usize),
                DotItem::OpNode(v as usize, g[v].op),
                DotItem::OpToValue(v as usize),
            ] + r.0,
            r.1,
        )
    }
}

/// The walks into the first `k` operands of `v`, each followed by the edge
/// from that operand to the operation of `v`.
pub open spec fn dot_walk_operands<T>(g: Seq<NodeView<T>>, v: int, k: int, vis: Set<int>) -> (
    Seq<DotItem>,
    Set<int>,
)
    decreases v, k,
{
    if k <= 0 || !(0 <= v < g.len()) {
        (Seq::empty(), vis)
    } else {
        let r1 = dot_walk_operands(g, v, k - 1, vis);
        let c = g[v].prev[k - 1];
        if 0 <= c < v {
            let r2 = dot_walk(g, c as int, r1.1);
            (r1.0 + r2.0 + seq![DotItem::ValueToOp(c, v as usize)], r2.1)
        } else {
            (r1.0 + seq![DotItem::ValueToOp(c, v as usize)], r1.1)
        }
    }
}

pub proof fn lemma_about_add(a: Seq<DotItem>, b: Seq<DotItem>, x: usize)
    ensures
        about(a + b, x) == about(a, x) + about(b, x),
    decreases b.len(),
{
    if b.len() == 0 {
        assert(a + b =~= a);
        assert(about(a, x) + about(b, x) =~= about(a, x));
    } else {
        assert((a + b).drop_last() =~= a + b.drop_last());
        assert((a + b).last() == b.last());
        lemma_about_add(a, b.drop_last(), x);
        if item_node(b.last()) == x {
            assert(about(a, x) + about(b.drop_last(), x).push(b.last()) =~= (about(a, x) + about(
                b.drop_last(),
                x,
            )).push(b.last()));
        }
    }
}

pub proof fn lemma_about_push(a: Seq<DotItem>, it: DotItem, x: usize)
    ensures
        about(a.push(it), x) == if item_node(it) == x {
            about(a, x).push(it)
        } else {
            about(a, x)
        },
{
    assert(a.push(it).drop_last() =~= a);
}

/// The graph as the drawing walks it: the operands of a leaf are not
/// followed.
pub open spec fn drawn<T>(g: Seq<NodeView<T>>) -> Seq<NodeView<T>> {
    g.map_values(
        |n: NodeView<T>|
            if n.op == Op::Leaf {
                NodeView { prev: Seq::empty(), ..n }
            } else {
                n
            },
    )
}

/// Every marked node that `id` reaches in the drawing has everything it
/// reaches marked too.
pub open spec fn marks_closed<T>(g: Seq<NodeView<T>>, id: int, vis: Seq<bool>) -> bool {
    forall|x: int, y: int|
        #![trigger reach(drawn(g), id).contains(x), reach(drawn(g), x).contains(y)]
        reach(drawn(g), id).contains(x) && vis[x] && reach(drawn(g), x).contains(y) ==> vis[y]
}

/// What the drawing walk from `id` newly visits: the nodes it reaches that
/// are not marked yet.
pub open spec fn newly_drawn<T>(g: Seq<NodeView<T>>, id: int, vis: Seq<bool>, x: usize) -> bool {
    x < g.len() && !vis[x as int] && reach(drawn(g), id).contains(x as int)
}

pub proof fn lemma_drawn<T>(g: Seq<NodeView<T>>)
    requires
        wf_nodes(g),
    ensures
        wf_nodes(drawn(g)),
        drawn(g).len() == g.len(),
        forall|i: int| 0 <= i < g.len() ==> (#[trigger] drawn(g)[i]).op == g[i].op,
        forall|i: int| 0 <= i < g.len() && g[i].op != Op::Leaf ==> (#[trigger] drawn(g)[i]).prev == g[i].prev,
        forall|i: int| 0 <= i < g.len() && g[i].op == Op::Leaf ==> (#[trigger] drawn(g)[i]).prev.len() == 0,
{
}

impl<T: Copy> Graph<T> {
    /// Depth-first walk from `id` that appends the statements of every node
    /// reached for the first time: a node's box and operation come before
    /// the walk into its operands, each operand edge right after the walk
    /// into that operand. An operand of a leaf is not walked into.
    fn write_dot(&self, id: usize, visited: &mut Vec<bool>, out: &mut Vec<DotItem>)
        requires
            self.wf(),
            id < self@.len(),
            old(visited)@.len() == self@.len(),
        ensures
            final(visited)@.len() == self@.len(),
            final(out)@ == old(out)@ + dot_walk(self@, id as int, marked(old(visited)@)).0,
            marked(final(visited)@) == dot_walk(self@, id as int, marked(old(visited)@)).1,
            old(out)@.len() <= final(out)@.len(),
            final(out)@.subrange(0, old(out)@.len() as int) == old(out)@,
            old(visited)@[id as int] ==> final(visited)@ == old(visited)@ && final(out)@ == old(out)@,
            marks_closed(self@, id as int, old(visited)@) ==> {
                &&& forall|i: int|
                    0 <= i < self@.len() ==> #[trigger] final(visited)@[i] == (old(visited)@[i] || reach(
                        drawn(self@),
                        id as int,
                    ).contains(i))
                &&& forall|x: usize|
                    #[trigger] about(final(out)@.subrange(old(out)@.len() as int, final(out)@.len() as int), x)
                        == if newly_drawn(self@, id as int, old(visited)@, x) {
                        node_block(self@, x)
                    } else {
                        Seq::empty()
                    }
            },
        decreases id,
    {
        let total = self.len();
        let ghost g = self@;
        let ghost dg = drawn(self@);
        let ghost hyp = marks_closed(self@, id as int, old(visited)@);
        proof {
            lemma_drawn(g);
            lemma_reach_prefix_bounds(dg, id as int, dg[id as int].prev.len() as int);
        }
        if visited[id] {
            proof {
                let new = out@.subrange(old(out)@.len() as int, out@.len() as int);
                assert(new =~= Seq::<DotItem>::empty());
                assert(out@.subrange(0, old(out)@.len() as int) =~= old(out)@);
                assert(marked(old(visited)@).contains(id as int));
                assert(out@ =~= old(out)@ + Seq::<DotItem>::empty());
                assert(visited@ =~= old(visited)@);
                if hyp {
                    assert(reach(dg, id as int).contains(id as int));
                    assert forall|i: int| 0 <= i < self@.len() implies #[trigger] visited@[i] == (old(visited)@[i]
                        || reach(dg, id as int).contains(i)) by {
                        if reach(dg, id as int).contains(i) {
                            assert(reach(dg, id as int).contains(id as int) && old(visited)@[id as int]
                                && reach(dg, id as int).contains(i));
                        }
                    }
                    assert forall|x: usize| #[trigger] about(new, x) == if newly_drawn(self@, id as int, old(visited)@, x) {
                        node_block(self@, x)
                    } else {
                        Seq::empty()
                    } by {
                        assert(about(new, x) == new);
                        if x < self@.len() && reach(dg, id as int).contains(x as int) {
                            assert(reach(dg, id as int).contains(id as int) && old(visited)@[id as int]
                                && reach(dg, id as int).contains(x as int));
                        }
                    }
                }
            }
            return;
        }
        visited.set(id, true);
        let ghost vis0 = marked(old(visited)@).insert(id as int);
        proof {
            assert(marked(visited@) =~= vis0);
            assert(!marked(old(visited)@).contains(id as int));
        }
        out.push(DotItem::Value(id));
        let op = self.op(id);
        if op != Op::Leaf {
            out.push(DotItem::OpNode(id, op));
            out.push(DotItem::OpToValue(id));
            let prev = self.prev(id);
            let n = prev.len();
            let mut k: usize = 0;
            proof {
                let l0 = old(out)@.len() as int;
                let new = out@.subrange(l0, out@.len() as int);
                assert(new =~= Seq::<DotItem>::empty().push(DotItem::Value(id)).push(DotItem::OpNode(id, op)).push(
                    DotItem::OpToValue(id)));
                assert(out@.subrange(0, l0) =~= old(out)@);
                assert forall|x: usize|
                    #[trigger] about(new, x)
                        == if x == id {
                        seq![DotItem::Value(id), DotItem::OpNode(id, op), DotItem::OpToValue(id)]
                            + prev@.subrange(0, 0).map_values(|p: usize| DotItem::ValueToOp(p, id))
                    } else if x < self@.len() && !old(visited)@[x as int] && reach_prefix(
                        dg,
                        id as int,
                        0,
                    ).contains(x as int) {
                        node_block(self@, x)
                    } else {
                        Seq::empty()
                    } by {
                    let e = Seq::<DotItem>::empty();
                    lemma_about_push(e, DotItem::Value(id), x);
                    lemma_about_push(e.push(DotItem::Value(id)), DotItem::OpNode(id, op), x);
                    lemma_about_push(e.push(DotItem::Value(id)).push(DotItem::OpNode(id, op)), DotItem::OpToValue(id), x);
                    assert(about(e, x) =~= e);
                    if x == id {
                        assert(seq![DotItem::Value(id), DotItem::OpNode(id, op), DotItem::OpToValue(id)]
                            + prev@.subrange(0, 0).map_values(|p: usize| DotItem::ValueToOp(p, id)) =~=
                            e.push(DotItem::Value(id)).push(DotItem::OpNode(id, op)).push(DotItem::OpToValue(id)));
                    }
                }
            }
            while k < n
                invariant
                    self.wf(),
                    g == self@,
                    dg == drawn(self@),
                    wf_nodes(dg),
                    dg.len() == g.len(),
                    id < self@.len(),
                    total == self@.len(),
                    prev@ == self@[id as int].prev,
                    prev@ == dg[id as int].prev,
                    n == prev@.len(),
                    k <= n,
                    op == self@[id as int].op,
                    op != Op::Leaf,
                    !old(visited)@[id as int],
                    vis0 == marked(old(visited)@).insert(id as int),
                    out@ == old(out)@ + seq![DotItem::Value(id), DotItem::OpNode(id, op), DotItem::OpToValue(id)]
                        + dot_walk_operands(self@, id as int, k as int, vis0).0,
                    marked(visited@) == dot_walk_operands(self@, id as int, k as int, vis0).1,
                    visited@.len() == self@.len(),
                    old(out)@.len() <= out@.len(),
                    out@.subrange(0, old(out)@.len() as int) == old(out)@,
                    hyp == marks_closed(self@, id as int, old(visited)@),
                    hyp ==> forall|i: int|
                        0 <= i < self@.len() ==> #[trigger] visited@[i] == (old(visited)@[i] || reach_prefix(
                            dg,
                            id as int,
                            k as int,
                        ).contains(i)),
                    hyp ==> forall|x: usize|
                        #[trigger] about(out@.subrange(old(out)@.len() as int, out@.len() as int), x)
                            == if x == id {
                            seq![DotItem::Value(id), DotItem::OpNode(id, op), DotItem::OpToValue(id)]
                                + prev@.subrange(0, k as int).map_values(
                                |p: usize| DotItem::ValueToOp(p, id),
                            )
                        } else if x < self@.len() && !old(visited)@[x as int] && reach_prefix(
                            dg,
                            id as int,
                            k as int,
                        ).contains(x as int) {
                            node_block(self@, x)
                        } else {
                            Seq::empty()
                        },
                decreases n - k,
            {
                let c = prev[k];
                let ghost before = out@;
                let ghost vis_before = visited@;
                proof {
                    assert(c < id);
                    lemma_reach_prefix_bounds(dg, id as int, k as int);
                    if hyp {
                        lemma_reach_prefix_step(dg, id as int, k as int);
                        lemma_reach_prefix_mono(dg, id as int, k + 1, n as int);
                        assert(reach(dg, c as int).subset_of(reach(dg, id as int)));
                        assert forall|x: int, y: int|
                            #![trigger reach(drawn(self@), c as int).contains(x), reach(drawn(self@), x).contains(y)]
                            reach(drawn(self@), c as int).contains(x) && visited@[x] && reach(drawn(self@), x).contains(y)
                            implies visited@[y] by {
                            lemma_reach_prefix_bounds(dg, c as int, dg[c as int].prev.len() as int);
                            lemma_reach_prefix_bounds(dg, x, dg[x].prev.len() as int);
                            if old(visited)@[x] {
                                assert(reach(dg, id as int).contains(x));
                            } else {
                                lemma_reach_prefix_closed(dg, id as int, k as int, x, y);
                            }
                        }
                    }
                }
                self.write_dot(c, visited, out);
                let ghost mid = out@;
                out.push(DotItem::ValueToOp(c, id));
                proof {
                    let r1 = dot_walk_operands(self@, id as int, k as int, vis0);
                    assert(dot_walk_operands(self@, id as int, k + 1, vis0) == (
                        r1.0 + dot_walk(self@, c as int, r1.1).0 + seq![DotItem::ValueToOp(c, id)],
                        dot_walk(self@, c as int, r1.1).1,
                    ));
                    assert(out@ =~= old(out)@ + seq![DotItem::Value(id), DotItem::OpNode(id, op), DotItem::OpToValue(id)]
                        + dot_walk_operands(self@, id as int, k + 1, vis0).0);
                    let l0 = old(out)@.len() as int;
                    assert(out@.subrange(0, l0) =~= old(out)@) by {
                        assert(out@.subrange(0, l0) =~= mid.subrange(0, l0));
                        assert(mid.subrange(0, before.len() as int) == before);
                        assert(mid.subrange(0, l0) =~= before.subrange(0, l0));
                    }
                    if hyp {
                        lemma_reach_prefix_step(dg, id as int, k as int);
                        lemma_reach_prefix_bounds(dg, c as int, dg[c as int].prev.len() as int);
                        let part0 = before.subrange(l0, before.len() as int);
                        let part1 = mid.subrange(before.len() as int, mid.len() as int);
                        let edge = seq![DotItem::ValueToOp(c, id)];
                        assert(out@.subrange(l0, out@.len() as int) =~= part0 + part1 + edge);
                        assert forall|x: usize|
                            #[trigger] about(out@.subrange(l0, out@.len() as int), x)
                                == if x == id {
                                seq![DotItem::Value(id), DotItem::OpNode(id, op), DotItem::OpToValue(id)]
                                    + prev@.subrange(0, k + 1).map_values(
                                    |p: usize| DotItem::ValueToOp(p, id),
                                )
                            } else if x < self@.len() && !old(visited)@[x as int] && reach_prefix(
                                dg,
                                id as int,
                                k + 1,
                            ).contains(x as int) {
                                node_block(self@, x)
                            } else {
                                Seq::empty()
                            } by {
                            lemma_about_add(part0 + part1, edge, x);
                            lemma_about_add(part0, part1, x);
                            assert(edge =~= Seq::<DotItem>::empty().push(DotItem::ValueToOp(c, id)));
                            lemma_about_push(Seq::<DotItem>::empty(), DotItem::ValueToOp(c, id), x);
                            assert(about(Seq::<DotItem>::empty(), x) =~= Seq::<DotItem>::empty());
                            assert(vis_before[id as int]);
                            if x == id {
                                assert(about(part1, x) =~= Seq::<DotItem>::empty());
                                assert(prev@.subrange(0, k + 1).map_values(|p: usize| DotItem::ValueToOp(p, id))
                                    =~= prev@.subrange(0, k as int).map_values(|p: usize| DotItem::ValueToOp(p, id)).push(
                                    DotItem::ValueToOp(c, id)));
                            } else {
                                if x < self@.len() {
                                    assert(vis_before[x as int] == (old(visited)@[x as int] || reach_prefix(
                                        dg, id as int, k as int).contains(x as int)));
                                }
                            }
                        }
                    }
                }
                k = k + 1;
            }
            proof {
                let l0 = old(out)@.len() as int;
                assert(out@ =~= old(out)@ + dot_walk(self@, id as int, marked(old(visited)@)).0);
                assert(prev@.subrange(0, n as int) =~= prev@);
                if hyp {
                    assert forall|i: int| 0 <= i < self@.len() implies #[trigger] visited@[i] == (old(visited)@[i]
                        || reach(dg, id as int).contains(i)) by {
                    }
                    assert forall|x: usize|
                        #[trigger] about(out@.subrange(l0, out@.len() as int), x)
                            == if newly_drawn(self@, id as int, old(visited)@, x) {
                            node_block(self@, x)
                        } else {
                            Seq::empty()
                        } by {
                        if x == id {
                            assert(reach(dg, id as int).contains(x as int));
                        }
                    }
                }
            }
        } else {
            proof {
                let l0 = old(out)@.len() as int;
                let new = out@.subrange(l0, out@.len() as int);
                assert(dg[id as int].prev.len() == 0);
                assert(reach(dg, id as int) =~= set![id as int]);
                assert(new =~= Seq::<DotItem>::empty().push(DotItem::Value(id)));
                assert(out@.subrange(0, l0) =~= old(out)@);
                assert(out@ =~= old(out)@ + dot_walk(self@, id as int, marked(old(visited)@)).0);
                assert(marked(visited@) =~= dot_walk(self@, id as int, marked(old(visited)@)).1);
                assert forall|x: usize|
                    #[trigger] about(new, x)
                        == if newly_drawn(self@, id as int, old(visited)@, x) {
                        node_block(self@, x)
                    } else {
                        Seq::empty()
                    } by {
                    lemma_about_push(Seq::<DotItem>::empty(), DotItem::Value(id), x);
                    assert(about(Seq::<DotItem>::empty(), x) =~= Seq::<DotItem>::empty());
                    if x == id {
                        assert(Seq::<DotItem>::empty().push(DotItem::Value(id)) =~= seq![DotItem::Value(id)]);
                    }
                }
            }
        }
    }
}

impl<T: Copy> Graph<T> {
    /// The statements of the drawing of everything `root` depends on, in
    /// the order of a depth-first walk from `root`: for each such node
    /// exactly its own block, in block order, and nothing about any other
    /// node. The operands of a leaf are not drawn from it.
    pub fn dot_items(&self, root: usize) -> (items: Vec<DotItem>)
        requires
            self.wf(),
            root < self@.len(),
        ensures
            items@ == dot_walk(self@, root as int, Set::empty()).0,
            forall|x: usize|
                #[trigger] about(items@, x) == if x < self@.len() && reach(drawn(self@), root as int).contains(
                    x as int,
                ) {
                    node_block(self@, x)
                } else {
                    Seq::empty()
                },
    {
        let n = self.len();
        let mut visited: Vec<bool> = Vec::new();
        let mut i: usize = 0;
        while i < n
            invariant
                n == self@.len(),
                i <= n,
                visited@.len() == i,
                forall|j: int| 0 <= j < i ==> !#[trigger] visited@[j],
            decreases n - i,
        {
            visited.push(false);
            i = i + 1;
        }
        let mut items: Vec<DotItem> = Vec::new();
        proof {
            assert(marked(visited@) =~= Set::<int>::empty());
            assert(marks_closed(self@, root as int, visited@));
        }
        self.write_dot(root, &mut visited, &mut items);
        proof {
            assert(items@ =~= dot_walk(self@, root as int, Set::empty()).0);
            assert(items@.subrange(0, items@.len() as int) =~= items@);
        }
        items
    }
}

/// The lines that open a drawing: the graph, its direction and defaults.
pub open spec fn header_text() -> Seq<char> {
    "digraph computation {\n"@ + "\trankdir=LR;\n"@ + "\tgraph [bgcolor=\"white\"];\n"@
        + "\tnode [fontname=\"Helvetica\"];\n"@
}

/// The line that closes a drawing.
pub open spec fn footer_text() -> Seq<char> {
    "}\n"@
}

/// The line of the circle that shows the operation of node `id`.
pub open spec fn op_node_text(id: usize, op: Op) -> Seq<char> {
    "\top_"@ + hex(id as nat) + " [label=\""@ + op_symbol(op)
        + "\", shape=circle, width=0.35, fixedsize=true];\n"@
}

/// The line of the edge from the operation of node `id` to its box.
pub open spec fn op_edge_text(id: usize) -> Seq<char> {
    "\top_"@ + hex(id as nat) + " -> value_"@ + hex(id as nat) + ";\n"@
}

/// The line of the edge from the box of operand `p` to the operation of
/// node `id`.
pub open spec fn operand_edge_text(p: usize, id: usize) -> Seq<char> {
    "\tvalue_"@ + hex(p as nat) + " -> op_"@ + hex(id as nat) + ";\n"@
}

/// The lines that open a drawing.
pub fn dot_header() -> (s: String)
    ensures
        s@ == header_text(),
{
    let mut s = String::new();
    s.append("digraph computation {\n");
    s.append("\trankdir=LR;\n");
    s.append("\tgraph [bgcolor=\"white\"];\n");
    s.append("\tnode [fontname=\"Helvetica\"];\n");
    proof {
        assert(s@ =~= header_text());
    }
    s
}

/// The line that closes a drawing.
pub fn dot_footer() -> (s: String)
    ensures
        s@ == footer_text(),
{
    let mut s = String::new();
    s.append("}\n");
    proof {
        assert(s@ =~= footer_text());
    }
    s
}

/// The line of the circle that shows the operation of node `id`, labelled
/// with the operation's symbol and the node written in hexadecimal.
pub fn op_node_line(id: usize, op: Op) -> (s: String)
    ensures
        s@ == op_node_text(id, op),
{
    let mut s = String::new();
    s.append("\top_");
    push_hex(&mut s, id);
    s.append(" [label=\"");
    let sym = op.symbol();
    s.append(sym.as_str());
    s.append("\", shape=circle, width=0.35, fixedsize=true];\n");
    proof {
        assert(s@ =~= op_node_text(id, op));
    }
    s
}

/// The line of the edge from the operation of node `id` to its box.
pub fn op_edge_line(id: usize) -> (s: String)
    ensures
        s@ == op_edge_text(id),
{
    let mut s = String::new();
    s.append("\top_");
    push_hex(&mut s, id);
    s.append(" -> value_");
    push_hex(&mut s, id);
    s.append(";\n");
    proof {
        assert(s@ =~= op_edge_text(id));
    }
    s
}

/// The line of the edge from the box of operand `p` to the operation of
/// node `id`.
pub fn operand_edge_line(p: usize, id: usize) -> (s: String)
    ensures
        s@ == operand_edge_text(p, id),
{
    let mut s = String::new();
    s.append("\tvalue_");
    push_hex(&mut s, p);
    s.append(" -> op_");
    push_hex(&mut s, id);
    s.append(";\n");
    proof {
        assert(s@ =~= operand_edge_text(p, id));
    }
    s
}

} // verus!
