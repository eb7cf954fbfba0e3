//! Reachability in a computation graph and the orders that respect it.

use vstd::prelude::*;
use crate::graph::{NodeView, wf_nodes};

verus! {

/// The nodes reachable from `x` through its first `k` operands, `x` included.
pub open spec fn reach_prefix<T>(g: Seq<NodeView<T>>, x: int, k: int) -> Set<int>
    decreases x, k,
{
    if k <= 0 || !(0 <= x < g.len()) {
        set![x]
    } else {
        let c = g[x].prev[k - 1] as int;
        reach_prefix(g, x, k - 1) + (if 0 <= c < x {
            reach_prefix(g, c, g[c].prev.len() as int)
        } else {
            Set::empty()
        })
    }
}

/// The nodes that `x` depends on, directly or not, and `x` itself.
pub open spec fn reach<T>(g: Seq<NodeView<T>>, x: int) -> Set<int> {
    reach_prefix(g, x, g[x].prev.len() as int)
}

/// The nodes marked true in `vis`.
pub open spec fn marked(vis: Seq<bool>) -> Set<int> {
    Set::new(|i: int| 0 <= i < vis.len() && vis[i])
}

/// A depth-first walk from `v` that skips the nodes of `vis`: the nodes it
/// reaches for the first time, each after the walks into its operands
/// (taken in operand order), and the nodes visited once it is done.
pub open spec fn post_order<T>(g: Seq<NodeView<T>>, v: int, vis: Set<int>) -> (Seq<usize>, Set<int>)
    decreases v, g[v].prev.len() + 1,
{
    if !(0 <= v < g.len()) || vis.contains(v) {
        (Seq::empty(), vis)
    } else {
        let r = post_order_operands(g, v, g[v].prev.len() as int, vis.insert(v));
        (r.0.push(v as usize), r.1)
    }
}

/// The walks into the first `k` operands of `v`, one after the other.
pub open spec fn post_order_operands<T>(g: Seq<NodeView<T>>, v: int, k: int, vis: Set<int>) -> (
    Seq<usize>,
    Set<int>,
)
    decreases v, k,
{
    if k <= 0 || !(0 <= v < g.len()) {
        (Seq::empty(), vis)
    } else {
        let r1 = post_order_operands(g, v, k - 1, vis);
        let c = g[v].prev[k - 1] as int;
        if 0 <= c < v {
            let r2 = post_order(g, c, r1.1);
            (r1.0 + r2.0, r2.1)
        } else {
            r1
        }
    }
}

/// From position `from` on, every operand of a node in `t` occurs in `t`
/// before that node.
pub open spec fn operands_first_from<T>(g: Seq<NodeView<T>>, t: Seq<usize>, from: int) -> bool {
    forall|i: int, k: int|
        #![trigger t[i], g[t[i] as int].prev[k]]
        from <= i < t.len() && 0 <= k < g[t[i] as int].prev.len() ==> t.subrange(0, i).contains(
            g[t[i] as int].prev[k],
        )
}

/// Every operand of a node in `t` occurs in `t` before that node.
pub open spec fn operands_first<T>(g: Seq<NodeView<T>>, t: Seq<usize>) -> bool {
    operands_first_from(g, t, 0)
}

/// Every operand of a node in `t` is in `t`.
pub open spec fn closed_under_operands<T>(g: Seq<NodeView<T>>, t: Seq<usize>) -> bool {
    forall|i: int, k: int|
        #![trigger t[i], g[t[i] as int].prev[k]]
        0 <= i < t.len() && 0 <= k < g[t[i] as int].prev.len() ==> t.contains(g[t[i] as int].prev[k])
}

/// A walk from `v` can extend `t` given the marks `vis`: `t` lists
/// distinct nodes, holds the operands of its nodes, and all of them are
/// marked; any other marked node comes after `v`.
pub open spec fn walk_ready<T>(g: Seq<NodeView<T>>, v: int, vis: Seq<bool>, t: Seq<usize>) -> bool {
    &&& forall|i: int| 0 <= i < t.len() ==> t[i] < g.len()
    &&& t.no_duplicates()
    &&& closed_under_operands(g, t)
    &&& forall|j: int| 0 <= j < t.len() ==> #[trigger] vis[t[j] as int]
    &&& forall|i: int| 0 <= i < g.len() && #[trigger] vis[i] && !t.contains(i as usize) ==> i > v
}

/// `t` lists distinct nodes of `g`, each after all of its operands.
pub open spec fn is_topological<T>(g: Seq<NodeView<T>>, t: Seq<usize>) -> bool {
    &&& forall|i: int| 0 <= i < t.len() ==> t[i] < g.len()
    &&& t.no_duplicates()
    &&& operands_first(g, t)
}

/// Every operand of a node in `t` occurs in `t` after that node.
pub open spec fn users_first<T>(g: Seq<NodeView<T>>, t: Seq<usize>) -> bool {
    forall|i: int, k: int|
        #![trigger t[i], g[t[i] as int].prev[k]]
        0 <= i < t.len() && 0 <= k < g[t[i] as int].prev.len() ==> t.subrange(i + 1, t.len() as int).contains(
            g[t[i] as int].prev[k],
        )
}

pub proof fn lemma_reach_prefix_bounds<T>(g: Seq<NodeView<T>>, x: int, k: int)
    requires
        wf_nodes(g),
        0 <= x < g.len(),
        0 <= k <= g[x].prev.len(),
    ensures
        reach_prefix(g, x, k).contains(x),
        forall|y: int| reach_prefix(g, x, k).contains(y) ==> 0 <= y <= x,
    decreases x, k,
{
    if k > 0 {
        lemma_reach_prefix_bounds(g, x, k - 1);
        let c = g[x].prev[k - 1] as int;
        assert(c < x);
        lemma_reach_prefix_bounds(g, c, g[c].prev.len() as int);
    }
}

/// Reaching through more operands reaches more.
pub proof fn lemma_reach_prefix_mono<T>(g: Seq<NodeView<T>>, x: int, k: int, m: int)
    requires
        wf_nodes(g),
        0 <= x < g.len(),
        0 <= k <= m <= g[x].prev.len(),
    ensures
        reach_prefix(g, x, k).subset_of(reach_prefix(g, x, m)),
    decreases m - k,
{
    if k < m {
        lemma_reach_prefix_mono(g, x, k, m - 1);
        lemma_reach_prefix_step(g, x, m - 1);
    }
}

/// What a node reaches, the nodes that reach it reach too.
pub proof fn lemma_reach_transitive<T>(g: Seq<NodeView<T>>, x: int, k: int, y: int, z: int)
    requires
        wf_nodes(g),
        0 <= x < g.len(),
        0 <= k <= g[x].prev.len(),
        reach_prefix(g, x, k).contains(y),
        reach(g, y).contains(z),
    ensures
        reach(g, x).contains(z),
    decreases x, k,
{
    if k > 0 {
        let c = g[x].prev[k - 1] as int;
        assert(c < x);
        lemma_reach_prefix_step(g, x, k - 1);
        if reach_prefix(g, x, k - 1).contains(y) {
            lemma_reach_transitive(g, x, k - 1, y, z);
        } else {
            assert(reach(g, c).contains(y));
            lemma_reach_transitive(g, c, g[c].prev.len() as int, y, z);
            lemma_reach_prefix_step(g, x, k - 1);
            lemma_reach_prefix_mono(g, x, k, g[x].prev.len() as int);
        }
    }
}

/// What a node reached through the first `k` operands of `v` reaches is
/// reached through them too.
pub proof fn lemma_reach_prefix_closed<T>(g: Seq<NodeView<T>>, v: int, k: int, x: int, y: int)
    requires
        wf_nodes(g),
        0 <= v < g.len(),
        0 <= k <= g[v].prev.len(),
        reach_prefix(g, v, k).contains(x),
        x != v,
        reach(g, x).contains(y),
    ensures
        reach_prefix(g, v, k).contains(y),
    decreases k,
{
    if k > 0 {
        let c = g[v].prev[k - 1] as int;
        assert(c < v);
        lemma_reach_prefix_step(g, v, k - 1);
        if reach_prefix(g, v, k - 1).contains(x) {
            lemma_reach_prefix_closed(g, v, k - 1, x, y);
        } else {
            lemma_reach_transitive(g, c, g[c].prev.len() as int, x, y);
        }
    }
}

/// One more operand adds exactly what that operand reaches.
pub proof fn lemma_reach_prefix_step<T>(g: Seq<NodeView<T>>, x: int, k: int)
    requires
        wf_nodes(g),
        0 <= x < g.len(),
        0 <= k < g[x].prev.len(),
    ensures
        reach_prefix(g, x, k + 1) == reach_prefix(g, x, k) + reach(g, g[x].prev[k] as int),
{
    assert(g[x].prev[k] < x);
}

/// A list that holds the operands of its nodes holds everything its nodes
/// reach.
pub proof fn lemma_closed_reach<T>(g: Seq<NodeView<T>>, t: Seq<usize>, x: int, k: int)
    requires
        wf_nodes(g),
        g.len() <= usize::MAX,
        closed_under_operands(g, t),
        t.contains(x as usize),
        0 <= x < g.len(),
        0 <= k <= g[x].prev.len(),
    ensures
        forall|y: int| reach_prefix(g, x, k).contains(y) ==> t.contains(y as usize),
    decreases x, k,
{
    if k > 0 {
        lemma_closed_reach(g, t, x, k - 1);
        let c = g[x].prev[k - 1] as int;
        assert(c < x);
        assert(exists|i: int| 0 <= i < t.len() && t[i] == x as usize);
        let i = choose|i: int| 0 <= i < t.len() && t[i] == x as usize;
        assert(t[i] as int == x);
        assert(0 <= k - 1 < g[t[i] as int].prev.len());
        assert(t.contains(g[t[i] as int].prev[k - 1]));
        lemma_closed_reach(g, t, c, g[c].prev.len() as int);
        assert(reach_prefix(g, x, k) == reach_prefix(g, x, k - 1) + reach(g, c));
    }
}

/// Reversing a topological list puts every node before its operands.
pub proof fn lemma_reverse_topological<T>(g: Seq<NodeView<T>>, t: Seq<usize>)
    requires
        is_topological(g, t),
    ensures
        users_first(g, t.reverse()),
        t.reverse().no_duplicates(),
        t.reverse().len() == t.len(),
        forall|x: usize| t.reverse().contains(x) <==> t.contains(x),
{
    let r = t.reverse();
    let n = t.len() as int;
    assert forall|i: int, k: int|
        #![trigger r[i], g[r[i] as int].prev[k]]
        0 <= i < r.len() && 0 <= k < g[r[i] as int].prev.len()
        implies r.subrange(i + 1, r.len() as int).contains(g[r[i] as int].prev[k]) by {
        let ti = n - 1 - i;
        assert(r[i] == t[ti]);
        assert(t.subrange(0, ti).contains(g[t[ti] as int].prev[k]));
        let j = choose|j: int| 0 <= j < ti && t.subrange(0, ti)[j] == g[t[ti] as int].prev[k];
        assert(r[n - 1 - j] == t[j]);
        assert(r.subrange(i + 1, r.len() as int)[n - 1 - j - (i + 1)] == r[n - 1 - j]);
    }
    assert forall|a: int, b: int| 0 <= a < r.len() && 0 <= b < r.len() && a != b
        implies r[a] != r[b] by {
        assert(r[a] == t[n - 1 - a]);
        assert(r[b] == t[n - 1 - b]);
    }
    assert forall|x: usize| r.contains(x) <==> t.contains(x) by {
        if r.contains(x) {
            let j = choose|j: int| 0 <= j < r.len() && r[j] == x;
            assert(t[n - 1 - j] == x);
        }
        if t.contains(x) {
            let j = choose|j: int| 0 <= j < t.len() && t[j] == x;
            assert(r[n - 1 - j] == x);
        }
    }
}

} // verus!
