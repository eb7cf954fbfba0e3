//! Computation graphs for reverse-mode differentiation.
//!
//! Nodes live in an arena and refer to their operands by index. Every operand
//! of a node was created before the node itself, so the graph is acyclic by
//! construction. The scalar type `T` is opaque here: the arithmetic on it is
//! done by the caller, the graph keeps the structure and the stored values.

use vstd::prelude::*;
use crate::text::{decimal, lemma_decimal_injective, push_char, push_decimal};
use crate::reach::{
    marked, post_order, post_order_operands, reach, reach_prefix, is_topological, users_first,
    walk_ready, closed_under_operands, operands_first_from, lemma_reach_prefix_bounds,
    lemma_reach_prefix_step, lemma_closed_reach, lemma_reach_prefix_mono, lemma_reverse_topological,
};

verus! {

/// The operation that produced a node.
#[derive(Clone, Copy, PartialEq, Eq, Structural, Debug)]
pub enum Op {
    Leaf,
    Add,
    Mul,
    Tanh,
    Exp,
    Pow(i32),
}

/// The label of an operation in a drawing of the graph.
pub open spec fn op_symbol(op: Op) -> Seq<char> {
    match op {
        Op::Leaf => Seq::empty(),
        Op::Add => seq!['+'],
        Op::Mul => seq!['*'],
        Op::Tanh => seq!['t', 'a', 'n', 'h'],
        Op::Exp => seq!['e', 'x', 'p'],
        Op::Pow(n) => seq!['p', 'o', 'w'] + decimal(n as int),
    }
}

/// The label of an operation in the drawings that open a bracket before
/// the exponent of a power (which is never closed); other operations keep
/// their plain label.
pub open spec fn op_paren_symbol(op: Op) -> Seq<char> {
    match op {
        Op::Pow(n) => seq!['p', 'o', 'w', '('] + decimal(n as int),
        _ => op_symbol(op),
    }
}

/// Labels tell operations apart: two operations have the same label
/// exactly when they are the same operation (powers by their exponent),
/// and only a leaf has the empty label.
pub proof fn lemma_symbol_distinct(a: Op, b: Op)
    ensures
        (op_symbol(a) == op_symbol(b)) <==> a == b,
        op_symbol(a).len() == 0 <==> a == Op::Leaf,
{
    if let Op::Pow(n) = a {
        lemma_decimal_injective(n as int, n as int);
    }
    if let Op::Pow(m) = b {
        lemma_decimal_injective(m as int, m as int);
    }
    if op_symbol(a) == op_symbol(b) {
        match (a, b) {
            (Op::Pow(n), Op::Pow(m)) => {
                assert(op_symbol(a).subrange(3, op_symbol(a).len() as int) =~= decimal(n as int));
                assert(op_symbol(b).subrange(3, op_symbol(b).len() as int) =~= decimal(m as int));
                lemma_decimal_injective(n as int, m as int);
            },
            _ => {
                if op_symbol(a).len() > 0 {
                    assert(op_symbol(a)[0] == op_symbol(b)[0]);
                }
            },
        }
    }
}

/// The same for the labels with a bracket before the exponent: two
/// operations have the same such label exactly when they are the same
/// operation, and only a leaf has the empty label.
pub proof fn lemma_paren_symbol_distinct(a: Op, b: Op)
    ensures
        (op_paren_symbol(a) == op_paren_symbol(b)) <==> a == b,
        op_paren_symbol(a).len() == 0 <==> a == Op::Leaf,
{
    lemma_symbol_distinct(a, b);
    if let Op::Pow(n) = a {
        lemma_decimal_injective(n as int, n as int);
    }
    if let Op::Pow(m) = b {
        lemma_decimal_injective(m as int, m as int);
    }
    if op_paren_symbol(a) == op_paren_symbol(b) {
        match (a, b) {
            (Op::Pow(n), Op::Pow(m)) => {
                assert(op_paren_symbol(a).subrange(4, op_paren_symbol(a).len() as int) =~= decimal(n as int));
                assert(op_paren_symbol(b).subrange(4, op_paren_symbol(b).len() as int) =~= decimal(m as int));
                lemma_decimal_injective(n as int, m as int);
            },
            _ => {
                if op_paren_symbol(a).len() > 0 {
                    assert(op_paren_symbol(a)[0] == op_paren_symbol(b)[0]);
                }
            },
        }
    }
}

impl Op {
    /// The label of the operation: empty for a leaf, `pow` followed by the
    /// exponent for a power.
    pub fn symbol(self) -> (s: String)
        ensures
            s@ == op_symbol(self),
    {
        let mut s = String::new();
        match self {
            Op::Leaf => {},
            Op::Add => {
                push_char(&mut s, '+');
            },
            Op::Mul => {
                push_char(&mut s, '*');
            },
            Op::Tanh => {
                push_char(&mut s, 't');
                push_char(&mut s, 'a');
                push_char(&mut s, 'n');
                push_char(&mut s, 'h');
            },
            Op::Exp => {
                push_char(&mut s, 'e');
                push_char(&mut s, 'x');
                push_char(&mut s, 'p');
            },
            Op::Pow(n) => {
                push_char(&mut s, 'p');
                push_char(&mut s, 'o');
                push_char(&mut s, 'w');
                push_decimal(&mut s, n);
            },
        }
        proof {
            assert(s@ =~= op_symbol(self));
        }
        s
    }

    /// The label of the operation with `pow(` before the exponent of a
    /// power, as in `pow(2`; the other labels are those of `symbol`.
    pub fn paren_symbol(self) -> (s: String)
        ensures
            s@ == op_paren_symbol(self),
    {
        match self {
            Op::Pow(n) => {
                let mut s = String::new();
                push_char(&mut s, 'p');
                push_char(&mut s, 'o');
                push_char(&mut s, 'w');
                push_char(&mut s, '(');
                push_decimal(&mut s, n);
                proof {
                    assert(s@ =~= op_paren_symbol(self));
                }
                s
            },
            _ => self.symbol(),
        }
    }
}

/// The local derivative of a node with respect to one of its operands,
/// described by the values it is computed from.
#[derive(Clone, Copy, PartialEq, Eq, Structural, Debug)]
pub enum Factor {
    /// The derivative is the constant one.
    One,
    /// The derivative is the value held by the given node.
    DataOf(usize),
    /// The derivative is one minus the square of the node's own value.
    OneMinusOutputSquared,
    /// The derivative is the node's own value.
    Output,
    /// The derivative is `n * x^(n - 1)`, `x` being the operand's value.
    PowerRule(i32),
}

/// One step of the chain rule: the gradient of `target` grows by the
/// gradient of the node times `factor`.
#[derive(Clone, Copy, PartialEq, Eq, Structural, Debug)]
pub struct GradTerm {
    pub target: usize,
    pub factor: Factor,
}

/// Whether a node with `n` operands can be differentiated as `op`.
pub open spec fn fits_arity(op: Op, n: nat) -> bool {
    match op {
        Op::Mul => n == 2,
        Op::Tanh | Op::Exp | Op::Pow(_) => n >= 1,
        Op::Leaf | Op::Add => true,
    }
}

/// The chain-rule steps that propagate a node's gradient to its operands.
pub open spec fn grad_terms<T>(node: NodeView<T>) -> Seq<GradTerm> {
    let p = node.prev;
    match node.op {
        Op::Leaf => Seq::empty(),
        Op::Add => p.map_values(|c: usize| GradTerm { target: c, factor: Factor::One }),
        Op::Mul => seq![
            GradTerm { target: p[0], factor: Factor::DataOf(p[1]) },
            GradTerm { target: p[1], factor: Factor::DataOf(p[0]) },
        ],
        Op::Tanh => seq![GradTerm { target: p[0], factor: Factor::OneMinusOutputSquared }],
        Op::Exp => seq![GradTerm { target: p[0], factor: Factor::Output }],
        Op::Pow(n) => seq![GradTerm { target: p[0], factor: Factor::PowerRule(n) }],
    }
}

/// The chain rule, operation by operation: a leaf passes nothing on; a sum
/// passes the gradient unchanged to each operand, once per occurrence; a
/// product passes to each factor the gradient times the other factor's
/// value; `tanh` scales by one minus the square of its output and `exp` by
/// its output, both towards their single operand.
pub proof fn lemma_chain_rule<T>(node: NodeView<T>)
    requires
        fits_arity(node.op, node.prev.len()),
    ensures
        node.op == Op::Leaf ==> grad_terms(node).len() == 0,
        node.op == Op::Add ==> grad_terms(node).len() == node.prev.len() && forall|k: int|
            0 <= k < node.prev.len() ==> (#[trigger] grad_terms(node)[k]).target == node.prev[k]
                && grad_terms(node)[k].factor == Factor::One,
        node.op == Op::Mul ==> grad_terms(node).len() == 2 && grad_terms(node)[0].target == node.prev[0]
            && grad_terms(node)[0].factor == Factor::DataOf(node.prev[1]) && grad_terms(node)[1].target
            == node.prev[1] && grad_terms(node)[1].factor == Factor::DataOf(node.prev[0]),
        node.op == Op::Tanh ==> grad_terms(node).len() == 1 && grad_terms(node)[0].target == node.prev[0]
            && grad_terms(node)[0].factor == Factor::OneMinusOutputSquared,
        node.op == Op::Exp ==> grad_terms(node).len() == 1 && grad_terms(node)[0].target == node.prev[0]
            && grad_terms(node)[0].factor == Factor::Output,
{
}

/// The power rule keeps the exponent: a node that raises its operand to
/// the power `n` sends its gradient to that operand alone, scaled by
/// `n * x^(n - 1)` for that same `n`, whatever its sign (a quotient
/// `a / b` is `a * b^-1`, whose step uses the exponent `-1`).
pub proof fn lemma_power_rule_keeps_exponent<T>(node: NodeView<T>, n: i32)
    requires
        node.op == Op::Pow(n),
        node.prev.len() >= 1,
    ensures
        grad_terms(node).len() == 1,
        grad_terms(node)[0].target == node.prev[0],
        grad_terms(node)[0].factor == Factor::PowerRule(n),
{
}

/// One node of the arena.
struct Node<T> {
    data: T,
    grad: T,
    prev: Vec<usize>,
    op: Op,
}

/// What a node is, as a mathematical value.
pub struct NodeView<T> {
    pub data: T,
    pub grad: T,
    pub prev: Seq<usize>,
    pub op: Op,
}

spec fn node_view<T>(n: Node<T>) -> NodeView<T> {
    NodeView { data: n.data, grad: n.grad, prev: n.prev@, op: n.op }
}

/// Every operand of node `i` is a node created before `i`.
pub open spec fn wf_nodes<T>(g: Seq<NodeView<T>>) -> bool {
    forall|i: int, k: int|
        #![trigger g[i].prev[k]]
        0 <= i < g.len() && 0 <= k < g[i].prev.len() ==> g[i].prev[k] < i
}

/// A leaf holding `d`, with gradient `zero`.
pub open spec fn leaf<T>(d: T, zero: T) -> NodeView<T> {
    NodeView { data: d, grad: zero, prev: Seq::empty(), op: Op::Leaf }
}

/// One leaf per value, in order.
pub open spec fn leaves<T>(ds: Seq<T>, zero: T) -> Seq<NodeView<T>> {
    ds.map_values(|d: T| leaf(d, zero))
}

/// An arena of nodes; a node is named by its index.
pub struct Graph<T> {
    nodes: Vec<Node<T>>,
    zero: T,
}

impl<T> View for Graph<T> {
    type V = Seq<NodeView<T>>;

    closed spec fn view(&self) -> Seq<NodeView<T>> {
        self.nodes@.map_values(|n: Node<T>| node_view(n))
    }
}

impl<T> Graph<T> {
    /// The value that every new node starts with as its gradient.
    pub closed spec fn zero_value(&self) -> T {
        self.zero
    }

    pub open spec fn wf(&self) -> bool {
        wf_nodes(self@)
    }
}

impl<T: Copy> Graph<T> {
    /// An empty graph whose gradients start at `zero`.
    pub fn new(zero: T) -> (g: Self)
        ensures
            g@ == Seq::<NodeView<T>>::empty(),
            g.zero_value() == zero,
            g.wf(),
    {
        let g = Graph { nodes: Vec::new(), zero };
        assert(g@ =~= Seq::<NodeView<T>>::empty());
        g
    }

    pub fn len(&self) -> (n: usize)
        ensures
            n == self@.len(),
    {
        self.nodes.len()
    }

    /// Adds a node computed by `op` from the operands `prev`, holding `data`.
    pub fn from_prev(&mut self, data: T, prev: Vec<usize>, op: Op) -> (id: usize)
        requires
            old(self).wf(),
            forall|k: int| 0 <= k < prev@.len() ==> prev@[k] < old(self)@.len(),
        ensures
            final(self).wf(),
            id == old(self)@.len(),
            final(self).zero_value() == old(self).zero_value(),
            final(self)@ == old(self)@.push(
                NodeView { data, grad: old(self).zero_value(), prev: prev@, op },
            ),
    {
        let id = self.nodes.len();
        let ghost p = prev@;
        self.nodes.push(Node { data, grad: self.zero, prev, op });
        assert(self@ =~= old(self)@.push(
            NodeView { data, grad: old(self).zero_value(), prev: p, op },
        ));
        id
    }

    /// Adds a leaf holding `data`.
    pub fn value(&mut self, data: T) -> (id: usize)
        requires
            old(self).wf(),
        ensures
            final(self).wf(),
            id == old(self)@.len(),
            final(self).zero_value() == old(self).zero_value(),
            final(self)@ == old(self)@.push(
                NodeView { data, grad: old(self).zero_value(), prev: Seq::empty(), op: Op::Leaf },
            ),
    {
        let prev: Vec<usize> = Vec::new();
        proof {
            assert(prev@ =~= Seq::<usize>::empty());
        }
        self.from_prev(data, prev, Op::Leaf)
    }
}

impl<T: Copy> Graph<T> {
    /// Adds one leaf per value of `items[from..from + count]`, in order, and
    /// returns their indices.
    pub fn values_from(&mut self, items: &Vec<T>, from: usize, count: usize) -> (ids: Vec<usize>)
        requires
            old(self).wf(),
            from + count <= items@.len(),
        ensures
            final(self).wf(),
            final(self).zero_value() == old(self).zero_value(),
            final(self)@ == old(self)@ + leaves(
                items@.subrange(from as int, from + count),
                old(self).zero_value(),
            ),
            ids@.len() == count,
            forall|i: int| 0 <= i < count ==> #[trigger] ids@[i] == old(self)@.len() + i,
    {
        let mut ids: Vec<usize> = Vec::new();
        let mut k: usize = 0;
        let limit = items.len();
        while k < count
            invariant
                limit == items@.len(),
                self.wf(),
                self.zero_value() == old(self).zero_value(),
                from + count <= items@.len(),
                k <= count,
                self@ == old(self)@ + leaves(items@.subrange(from as int, from + k), old(self).zero_value()),
                ids@.len() == k,
                forall|i: int| 0 <= i < k ==> #[trigger] ids@[i] == old(self)@.len() + i,
            decreases count - k,
        {
            let id = self.value(items[from + k]);
            ids.push(id);
            k = k + 1;
            proof {
                assert(self@ =~= old(self)@ + leaves(
                    items@.subrange(from as int, from + k),
                    old(self).zero_value(),
                ));
            }
        }
        ids
    }

    /// Adds one leaf per value of `items`, in order, and returns their indices.
    pub fn values(&mut self, items: &Vec<T>) -> (ids: Vec<usize>)
        requires
            old(self).wf(),
        ensures
            final(self).wf(),
            final(self).zero_value() == old(self).zero_value(),
            final(self)@ == old(self)@ + leaves(items@, old(self).zero_value()),
            ids@.len() == items@.len(),
            forall|i: int| 0 <= i < items@.len() ==> #[trigger] ids@[i] == old(self)@.len() + i,
    {
        let ids = self.values_from(items, 0, items.len());
        proof {
            assert(items@.subrange(0, items@.len() as int) =~= items@);
        }
        ids
    }

    /// Resets the gradient of every node in `ids` to the graph's zero.
    pub fn zero_grad(&mut self, ids: &Vec<usize>)
        requires
            old(self).wf(),
            forall|i: int| 0 <= i < ids@.len() ==> ids@[i] < old(self)@.len(),
        ensures
            final(self).wf(),
            final(self).zero_value() == old(self).zero_value(),
            final(self)@.len() == old(self)@.len(),
            forall|x: int|
                0 <= x < old(self)@.len() ==> #[trigger] final(self)@[x] == if ids@.contains(x as usize) {
                    NodeView { grad: old(self).zero_value(), ..old(self)@[x] }
                } else {
                    old(self)@[x]
                },
    {
        let n = ids.len();
        let total = self.len();
        let mut k: usize = 0;
        while k < n
            invariant
                total == old(self)@.len(),
                self.wf(),
                self.zero_value() == old(self).zero_value(),
                n == ids@.len(),
                k <= n,
                forall|i: int| 0 <= i < ids@.len() ==> ids@[i] < old(self)@.len(),
                self@.len() == old(self)@.len(),
                forall|x: int|
                    0 <= x < old(self)@.len() ==> #[trigger] self@[x] == if ids@.subrange(0, k as int).contains(
                        x as usize,
                    ) {
                        NodeView { grad: old(self).zero_value(), ..old(self)@[x] }
                    } else {
                        old(self)@[x]
                    },
            decreases n - k,
        {
            let z = self.zero;
            self.set_grad(ids[k], z);
            k = k + 1;
            proof {
                assert forall|x: int| 0 <= x < old(self)@.len() implies (#[trigger] ids@.subrange(0, k as int).contains(
                    x as usize) <==> (ids@.subrange(0, k - 1).contains(x as usize) || ids@[k - 1] == x as usize))
                by {
                    if ids@.subrange(0, k as int).contains(x as usize) {
                        let j = choose|j: int| 0 <= j < k && #[trigger] ids@.subrange(0, k as int)[j] == x as usize;
                        if j < k - 1 {
                            assert(ids@.subrange(0, k - 1)[j] == x as usize);
                        }
                    }
                    if ids@.subrange(0, k - 1).contains(x as usize) {
                        let j = choose|j: int| 0 <= j < k - 1 && #[trigger] ids@.subrange(0, k - 1)[j] == x as usize;
                        assert(ids@.subrange(0, k as int)[j] == x as usize);
                    }
                    if ids@[k - 1] == x as usize {
                        assert(ids@.subrange(0, k as int)[k - 1] == x as usize);
                    }
                }
            }
        }
        proof {
            assert(ids@.subrange(0, n as int) =~= ids@);
        }
    }

    /// The value held by node `id`.
    pub fn data(&self, id: usize) -> (d: T)
        requires
            id < self@.len(),
        ensures
            d == self@[id as int].data,
    {
        self.nodes[id].data
    }

    /// The gradient accumulated at node `id`.
    pub fn grad(&self, id: usize) -> (g: T)
        requires
            id < self@.len(),
        ensures
            g == self@[id as int].grad,
    {
        self.nodes[id].grad
    }

    /// The operation that produced node `id`.
    pub fn op(&self, id: usize) -> (o: Op)
        requires
            id < self@.len(),
        ensures
            o == self@[id as int].op,
    {
        self.nodes[id].op
    }

    /// The operands of node `id`, in order.
    pub fn prev(&self, id: usize) -> (p: Vec<usize>)
        requires
            id < self@.len(),
        ensures
            p@ == self@[id as int].prev,
    {
        let n = self.nodes[id].prev.len();
        let mut out: Vec<usize> = Vec::new();
        let mut k: usize = 0;
        while k < n
            invariant
                id < self@.len(),
                n == self@[id as int].prev.len(),
                k <= n,
                out@ == self@[id as int].prev.subrange(0, k as int),
            decreases n - k,
        {
            out.push(self.nodes[id].prev[k]);
            k = k + 1;
            proof {
                assert(out@ =~= self@[id as int].prev.subrange(0, k as int));
            }
        }
        proof {
            assert(out@ =~= self@[id as int].prev);
        }
        out
    }

    /// Replaces the gradient of node `id`.
    pub fn set_grad(&mut self, id: usize, g: T)
        requires
            old(self).wf(),
            id < old(self)@.len(),
        ensures
            final(self).wf(),
            final(self).zero_value() == old(self).zero_value(),
            final(self)@ == old(self)@.update(
                id as int,
                NodeView { grad: g, ..old(self)@[id as int] },
            ),
    {
        self.nodes[id].grad = g;
        proof {
            assert(self@ =~= old(self)@.update(
                id as int,
                NodeView { grad: g, ..old(self)@[id as int] },
            ));
        }
    }

    /// Replaces the value held by node `id`.
    pub fn set_data(&mut self, id: usize, d: T)
        requires
            old(self).wf(),
            id < old(self)@.len(),
        ensures
            final(self).wf(),
            final(self).zero_value() == old(self).zero_value(),
            final(self)@ == old(self)@.update(
                id as int,
                NodeView { data: d, ..old(self)@[id as int] },
            ),
    {
        self.nodes[id].data = d;
        proof {
            assert(self@ =~= old(self)@.update(
                id as int,
                NodeView { data: d, ..old(self)@[id as int] },
            ));
        }
    }
}

impl<T: Copy> Graph<T> {
    /// Depth-first walk from `v`: every node that `v` reaches through nodes
    /// not yet marked is marked and appended to `topo` after the walks into
    /// its operands; a marked `v` changes nothing. When `topo` lists
    /// distinct nodes, holds the operands of its nodes and its nodes are
    /// the marked ones (more generally, `walk_ready`), afterwards the marks
    /// are the old ones plus everything `v` reaches, `topo` keeps its old
    /// entries and adds exactly the reached nodes it lacked, each after all
    /// of its operands, and the same conditions hold again.
    pub fn visit(&self, v: usize, visited: &mut Vec<bool>, topo: &mut Vec<usize>)
        requires
            self.wf(),
            v < self@.len(),
            old(visited)@.len() == self@.len(),
        ensures
            final(visited)@.len() == self@.len(),
            old(topo)@.len() <= final(topo)@.len(),
            final(topo)@.subrange(0, old(topo)@.len() as int) == old(topo)@,
            final(topo)@ == old(topo)@ + post_order(self@, v as int, marked(old(visited)@)).0,
            marked(final(visited)@) == post_order(self@, v as int, marked(old(visited)@)).1,
            !old(visited)@[v as int] ==> final(topo)@.len() > 0 && final(topo)@.last() == v,
            old(visited)@[v as int] ==> final(visited)@ == old(visited)@ && final(topo)@ == old(topo)@,
            walk_ready(self@, v as int, old(visited)@, old(topo)@) ==> {
                &&& forall|i: int|
                    0 <= i < self@.len() ==> #[trigger] final(visited)@[i] == (old(visited)@[i] || reach(
                        self@,
                        v as int,
                    ).contains(i))
                &&& walk_ready(self@, v as int, final(visited)@, final(topo)@)
                &&& forall|i: int|
                    0 <= i < self@.len() ==> (#[trigger] final(topo)@.contains(i as usize) <==> (old(
                        topo,
                    )@.contains(i as usize) || reach(self@, v as int).contains(i)))
                &&& operands_first_from(self@, final(topo)@, old(topo)@.len() as int)
            },
        decreases v,
    {
        let total = self.nodes.len();
        let ghost hyp = walk_ready(self@, v as int, old(visited)@, old(topo)@);
        proof {
            assert(self@.len() == total);
            lemma_reach_prefix_bounds(self@, v as int, self@[v as int].prev.len() as int);
        }
        if visited[v] {
            proof {
                assert(topo@.subrange(0, old(topo)@.len() as int) =~= old(topo)@);
                assert(marked(old(visited)@).contains(v as int));
                assert(topo@ =~= old(topo)@ + Seq::<usize>::empty());
                if hyp {
                    assert(old(topo)@.contains(v));
                    lemma_closed_reach(self@, old(topo)@, v as int, self@[v as int].prev.len() as int);
                    assert forall|i: int| 0 <= i < self@.len() && reach(self@, v as int).contains(i)
                        implies visited@[i] by {
                        assert(old(topo)@.contains(i as usize));
                        let j = choose|j: int| 0 <= j < old(topo)@.len() && old(topo)@[j] == i as usize;
                        assert(old(visited)@[old(topo)@[j] as int]);
                    }
                }
            }
            return;
        }
        visited.set(v, true);
        let ghost vis0 = marked(old(visited)@).insert(v as int);
        proof {
            assert(marked(visited@) =~= vis0);
            assert(topo@ =~= old(topo)@ + post_order_operands(self@, v as int, 0, vis0).0);
            assert(topo@.subrange(0, old(topo)@.len() as int) =~= old(topo)@);
            if hyp {
                assert forall|j: int| 0 <= j < topo@.len() implies #[trigger] visited@[topo@[j] as int] by {
                    assert(old(visited)@[old(topo)@[j] as int]);
                }
            }
        }
        let n = self.nodes[v].prev.len();
        let mut k: usize = 0;
        while k < n
            invariant
                self.wf(),
                v < self@.len(),
                total == self@.len(),
                n == self@[v as int].prev.len(),
                k <= n,
                !old(visited)@[v as int],
                vis0 == marked(old(visited)@).insert(v as int),
                topo@ == old(topo)@ + post_order_operands(self@, v as int, k as int, vis0).0,
                marked(visited@) == post_order_operands(self@, v as int, k as int, vis0).1,
                visited@.len() == self@.len(),
                old(topo)@.len() <= topo@.len(),
                topo@.subrange(0, old(topo)@.len() as int) == old(topo)@,
                hyp == walk_ready(self@, v as int, old(visited)@, old(topo)@),
                hyp ==> forall|i: int|
                    0 <= i < self@.len() ==> #[trigger] visited@[i] == (old(visited)@[i] || reach_prefix(
                        self@,
                        v as int,
                        k as int,
                    ).contains(i)),
                hyp ==> forall|i: int| 0 <= i < topo@.len() ==> topo@[i] < self@.len(),
                hyp ==> topo@.no_duplicates(),
                hyp ==> closed_under_operands(self@, topo@),
                hyp ==> forall|j: int| 0 <= j < topo@.len() ==> #[trigger] visited@[topo@[j] as int],
                hyp ==> forall|i: int|
                    0 <= i < self@.len() ==> (#[trigger] topo@.contains(i as usize) <==> (old(
                        topo,
                    )@.contains(i as usize) || (reach_prefix(self@, v as int, k as int).contains(i)
                        && i != v))),
                hyp ==> forall|i: int|
                    0 <= i < self@.len() && #[trigger] visited@[i] && !topo@.contains(i as usize) ==> i >= v,
                hyp ==> operands_first_from(self@, topo@, old(topo)@.len() as int),
            decreases n - k,
        {
            let c = self.nodes[v].prev[k];
            proof {
                assert(c < v);
                lemma_reach_prefix_bounds(self@, v as int, k as int);
                if hyp {
                    assert forall|i: int|
                        0 <= i < self@.len() && #[trigger] visited@[i] && !topo@.contains(i as usize)
                        implies i > c by {
                    }
                    assert(walk_ready(self@, c as int, visited@, topo@));
                }
            }
            let ghost t_before = topo@;
            let ghost vis_before = visited@;
            self.visit(c, visited, topo);
            proof {
                let r1 = post_order_operands(self@, v as int, k as int, vis0);
                assert(post_order_operands(self@, v as int, k + 1, vis0) == (
                    r1.0 + post_order(self@, c as int, r1.1).0,
                    post_order(self@, c as int, r1.1).1,
                ));
                assert(topo@ =~= old(topo)@ + post_order_operands(self@, v as int, k + 1, vis0).0);
                assert(topo@.subrange(0, old(topo)@.len() as int) =~= old(topo)@) by {
                    assert(topo@.subrange(0, t_before.len() as int) == t_before);
                    assert(topo@.subrange(0, old(topo)@.len() as int) =~= t_before.subrange(
                        0,
                        old(topo)@.len() as int,
                    ));
                }
                if hyp {
                    lemma_reach_prefix_step(self@, v as int, k as int);
                    lemma_reach_prefix_bounds(self@, c as int, self@[c as int].prev.len() as int);
                    let t = topo@;
                    assert forall|i: int|
                        0 <= i < self@.len() && #[trigger] visited@[i] && !t.contains(i as usize)
                        implies i >= v by {
                        if reach(self@, c as int).contains(i) {
                            assert(t.contains(i as usize));
                        } else {
                            assert(vis_before[i]);
                            if t_before.contains(i as usize) {
                                let j = choose|j: int| 0 <= j < t_before.len() && t_before[j] == i as usize;
                                assert(t[j] == i as usize);
                            }
                        }
                    }
                    assert forall|i: int, kk: int|
                        #![trigger t[i], self@[t[i] as int].prev[kk]]
                        old(topo)@.len() <= i < t.len() && 0 <= kk < self@[t[i] as int].prev.len()
                        implies t.subrange(0, i).contains(self@[t[i] as int].prev[kk]) by {
                        if i < t_before.len() {
                            assert(t[i] == t_before[i]);
                            assert(t.subrange(0, i) =~= t_before.subrange(0, i));
                        }
                    }
                }
            }
            k = k + 1;
        }
        proof {
            if hyp {
                let ghost t0 = topo@;
                if t0.contains(v) {
                    assert(old(topo)@.contains(v as usize));
                    let jj = choose|jj: int| 0 <= jj < old(topo)@.len() && old(topo)@[jj] == v;
                    assert(old(visited)@[old(topo)@[jj] as int]);
                }
                assert(!t0.contains(v));
                assert forall|kk: int| 0 <= kk < n implies t0.contains(#[trigger] self@[v as int].prev[kk]) by {
                    let c = self@[v as int].prev[kk] as int;
                    assert(c < v);
                    lemma_reach_prefix_bounds(self@, c, self@[c].prev.len() as int);
                    lemma_reach_prefix_step(self@, v as int, kk);
                    lemma_reach_prefix_mono(self@, v as int, kk + 1, n as int);
                    assert(reach_prefix(self@, v as int, n as int).contains(c));
                    assert(t0.contains(c as usize));
                }
            }
        }
        let ghost before = topo@;
        topo.push(v);
        proof {
            let t = topo@;
            assert(!marked(old(visited)@).contains(v as int));
            assert(t =~= old(topo)@ + post_order(self@, v as int, marked(old(visited)@)).0);
            assert(t.subrange(0, before.len() as int) =~= before);
            assert(t.subrange(0, old(topo)@.len() as int) =~= old(topo)@);
            if hyp {
                assert forall|i: int, kk: int|
                    #![trigger t[i], self@[t[i] as int].prev[kk]]
                    0 <= i < t.len() && 0 <= kk < self@[t[i] as int].prev.len()
                    implies t.contains(self@[t[i] as int].prev[kk]) by {
                    if i < before.len() {
                        assert(before[i] == t[i]);
                        assert(before.contains(self@[t[i] as int].prev[kk]));
                        let j = choose|j: int| 0 <= j < before.len() && before[j] == self@[t[i] as int].prev[kk];
                        assert(t[j] == before[j]);
                    } else {
                        assert(before.contains(self@[t[i] as int].prev[kk]));
                        let j = choose|j: int| 0 <= j < before.len() && before[j] == self@[t[i] as int].prev[kk];
                        assert(t[j] == before[j]);
                    }
                }
                assert forall|i: int, kk: int|
                    #![trigger t[i], self@[t[i] as int].prev[kk]]
                    old(topo)@.len() <= i < t.len() && 0 <= kk < self@[t[i] as int].prev.len()
                    implies t.subrange(0, i).contains(self@[t[i] as int].prev[kk]) by {
                    if i < before.len() {
                        assert(t.subrange(0, i) =~= before.subrange(0, i));
                        assert(before[i] == t[i]);
                    } else {
                        assert(t.subrange(0, i) =~= before);
                    }
                }
                assert forall|a: int, b: int| 0 <= a < t.len() && 0 <= b < t.len() && a != b
                    implies t[a] != t[b] by {
                    if a < before.len() && b < before.len() {
                    } else if a < before.len() {
                        assert(before.contains(t[a]));
                    } else {
                        assert(before.contains(t[b]));
                    }
                }
                assert forall|j: int| 0 <= j < t.len() implies #[trigger] visited@[t[j] as int] by {
                    if j < before.len() {
                        assert(t[j] == before[j]);
                    }
                }
                assert forall|i: int| 0 <= i < self@.len() implies (#[trigger] t.contains(i as usize) <==> (old(
                    topo,
                )@.contains(i as usize) || reach(self@, v as int).contains(i))) by {
                    if t.contains(i as usize) && i != v {
                        let j = choose|j: int| 0 <= j < t.len() && t[j] == i as usize;
                        assert(before[j] == i as usize);
                        assert(before.contains(i as usize));
                    }
                    if before.contains(i as usize) {
                        let j = choose|j: int| 0 <= j < before.len() && before[j] == i as usize;
                        assert(t[j] == i as usize);
                    }
                    if i == v {
                        assert(t[t.len() - 1] == v);
                    }
                }
                assert forall|i: int|
                    0 <= i < self@.len() && #[trigger] visited@[i] && !t.contains(i as usize)
                    implies i > v by {
                    if i == v {
                        assert(t[t.len() - 1] == v);
                    }
                    if before.contains(i as usize) {
                        let j = choose|j: int| 0 <= j < before.len() && before[j] == i as usize;
                        assert(t[j] == i as usize);
                    }
                }
                assert(walk_ready(self@, v as int, visited@, t));
            }
        }
    }
}

impl<T: Copy> Graph<T> {
    /// Lists every node that `root` depends on, `root` included, each once
    /// and after all of its operands; `root` comes last. The list is the
    /// post-order of a depth-first walk that takes operands in order.
    pub fn build_topo(&self, root: usize) -> (t: Vec<usize>)
        requires
            self.wf(),
            root < self@.len(),
        ensures
            is_topological(self@, t@),
            forall|i: int|
                0 <= i < self@.len() ==> (#[trigger] t@.contains(i as usize) <==> reach(
                    self@,
                    root as int,
                ).contains(i)),
            t@.len() > 0,
            t@.last() == root,
            t@ == post_order(self@, root as int, Set::empty()).0,
    {
        let n = self.nodes.len();
        let mut visited: Vec<bool> = Vec::new();
        let mut i: usize = 0;
        while i < n
            invariant
                n == self@.len(),
                i <= n,
                visited@.len() == i,
                forall|j: int| 0 <= j < i ==> !#[trigger] visited@[j],
            decreases n - i,
        {
            visited.push(false);
            i = i + 1;
        }
        let mut topo: Vec<usize> = Vec::new();
        proof {
            assert(is_topological(self@, topo@));
            assert(marked(visited@) =~= Set::<int>::empty());
        }
        self.visit(root, &mut visited, &mut topo);
        proof {
            assert(topo@ =~= post_order(self@, root as int, Set::empty()).0);
        }
        topo
    }

    /// The order in which gradients flow back from `root`: every node that
    /// `root` depends on, once each, before all of its operands; `root` first.
    /// It is `build_topo(root)` reversed.
    pub fn backward_order(&self, root: usize) -> (order: Vec<usize>)
        requires
            self.wf(),
            root < self@.len(),
        ensures
            users_first(self@, order@),
            order@.no_duplicates(),
            forall|i: int| 0 <= i < order@.len() ==> order@[i] < self@.len(),
            forall|i: int|
                0 <= i < self@.len() ==> (#[trigger] order@.contains(i as usize) <==> reach(
                    self@,
                    root as int,
                ).contains(i)),
            order@.len() > 0,
            order@[0] == root,
            order@ == post_order(self@, root as int, Set::empty()).0.reverse(),
    {
        let topo = self.build_topo(root);
        let n = topo.len();
        let mut order: Vec<usize> = Vec::new();
        let mut i: usize = 0;
        while i < n
            invariant
                n == topo@.len(),
                i <= n,
                order@ == topo@.reverse().subrange(0, i as int),
            decreases n - i,
        {
            order.push(topo[n - 1 - i]);
            i = i + 1;
            proof {
                assert(order@ =~= topo@.reverse().subrange(0, i as int));
            }
        }
        proof {
            assert(order@ =~= topo@.reverse());
            lemma_reverse_topological(self@, topo@);
            assert forall|i: int| 0 <= i < self@.len() implies (#[trigger] order@.contains(i as usize)
                <==> reach(self@, root as int).contains(i)) by {
                assert(order@.contains(i as usize) == topo@.contains(i as usize));
            }
        }
        order
    }
}

impl<T: Copy> Graph<T> {
    /// Whether node `id` has as many operands as its operation needs.
    pub fn arity_fits(&self, id: usize) -> (b: bool)
        requires
            id < self@.len(),
        ensures
            b == fits_arity(self@[id as int].op, self@[id as int].prev.len()),
    {
        let n = self.nodes[id].prev.len();
        match self.nodes[id].op {
            Op::Mul => n == 2,
            Op::Tanh | Op::Exp | Op::Pow(_) => n >= 1,
            Op::Leaf | Op::Add => true,
        }
    }

    /// The chain-rule steps from node `id` to its operands.
    pub fn local_grad_terms(&self, id: usize) -> (terms: Vec<GradTerm>)
        requires
            id < self@.len(),
            fits_arity(self@[id as int].op, self@[id as int].prev.len()),
        ensures
            terms@ == grad_terms(self@[id as int]),
            self@[id as int].op matches Op::Pow(n) ==> terms@ == seq![
                GradTerm { target: self@[id as int].prev[0], factor: Factor::PowerRule(n) },
            ],
    {
        let node = &self.nodes[id];
        let mut terms: Vec<GradTerm> = Vec::new();
        match node.op {
            Op::Leaf => {},
            Op::Add => {
                let n = node.prev.len();
                let mut k: usize = 0;
                while k < n
                    invariant
                        id < self@.len(),
                        node_view(*node) == self@[id as int],
                        n == node.prev@.len(),
                        k <= n,
                        terms@ == node.prev@.subrange(0, k as int).map_values(
                            |c: usize| GradTerm { target: c, factor: Factor::One },
                        ),
                    decreases n - k,
                {
                    terms.push(GradTerm { target: node.prev[k], factor: Factor::One });
                    k = k + 1;
                    proof {
                        assert(terms@ =~= node.prev@.subrange(0, k as int).map_values(
                            |c: usize| GradTerm { target: c, factor: Factor::One },
                        ));
                    }
                }
                proof {
                    assert(node.prev@.subrange(0, n as int) =~= node.prev@);
                }
            },
            Op::Mul => {
                let lhs = node.prev[0];
                let rhs = node.prev[1];
                terms.push(GradTerm { target: lhs, factor: Factor::DataOf(rhs) });
                terms.push(GradTerm { target: rhs, factor: Factor::DataOf(lhs) });
            },
            Op::Tanh => {
                terms.push(GradTerm { target: node.prev[0], factor: Factor::OneMinusOutputSquared });
            },
            Op::Exp => {
                terms.push(GradTerm { target: node.prev[0], factor: Factor::Output });
            },
            Op::Pow(e) => {
                terms.push(GradTerm { target: node.prev[0], factor: Factor::PowerRule(e) });
            },
        }
        proof {
            assert(terms@ =~= grad_terms(self@[id as int]));
        }
        terms
    }
}

} // verus!
