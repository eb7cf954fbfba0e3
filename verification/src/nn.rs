//! Neurons, layers and multi-layer perceptrons as sets of parameters of a
//! computation graph. A parameter is a leaf of the graph.

use vstd::prelude::*;
use crate::graph::{Graph, NodeView, leaves};

verus! {

/// The indices `start, start + 1, ..., start + len - 1`.
pub open spec fn index_range(start: int, len: int) -> Seq<usize> {
    Seq::new(len as nat, |i: int| (start + i) as usize)
}

/// A neuron: one weight per input, and a bias.
pub struct Neuron {
    pub w: Vec<usize>,
    pub b: usize,
}

/// A layer: neurons that all read the same inputs.
pub struct Layer {
    pub neurons: Vec<Neuron>,
}

/// A multi-layer perceptron: layers that feed one another in order.
pub struct MLP {
    pub layers: Vec<Layer>,
}

/// The parameters of a neuron: its weights, then its bias.
pub open spec fn neuron_params(n: Neuron) -> Seq<usize> {
    n.w@.push(n.b)
}

/// The parameters of the neurons, neuron after neuron.
pub open spec fn layer_params(ns: Seq<Neuron>) -> Seq<usize>
    decreases ns.len(),
{
    if ns.len() == 0 {
        Seq::empty()
    } else {
        layer_params(ns.drop_last()) + neuron_params(ns.last())
    }
}

/// The parameters of the layers, layer after layer.
pub open spec fn mlp_params(ls: Seq<Layer>) -> Seq<usize>
    decreases ls.len(),
{
    if ls.len() == 0 {
        Seq::empty()
    } else {
        mlp_params(ls.drop_last()) + layer_params(ls.last().neurons@)
    }
}

/// The (inputs, outputs) of each layer of a perceptron with `n_in` inputs
/// whose layers have `n_outs` outputs.
pub open spec fn layer_shapes(n_in: usize, n_outs: Seq<usize>) -> Seq<(usize, usize)> {
    Seq::new(n_outs.len(), |i: int| (if i == 0 { n_in } else { n_outs[i - 1] }, n_outs[i]))
}

/// How many parameters layers of these shapes hold.
pub open spec fn shapes_param_count(shapes: Seq<(usize, usize)>) -> int
    decreases shapes.len(),
{
    if shapes.len() == 0 {
        0
    } else {
        shapes_param_count(shapes.drop_last()) + shapes.last().1 * (shapes.last().0 + 1)
    }
}

/// Each layer of `ls` has the shape given for it.
pub open spec fn has_shapes(ls: Seq<Layer>, shapes: Seq<(usize, usize)>) -> bool {
    &&& ls.len() == shapes.len()
    &&& forall|l: int| #![trigger ls[l]] 0 <= l < ls.len() ==> {
        &&& ls[l].neurons@.len() == shapes[l].1
        &&& forall|j: int| 0 <= j < ls[l].neurons@.len() ==> (#[trigger] ls[l].neurons@[j]).w@.len() == shapes[l].0
    }
}

/// Layers feed one another: there is one layer per output width, layer
/// `i` puts out `n_outs[i]` values, the first layer reads the `n_in`
/// inputs, and every later layer reads as many values as the layer before
/// it puts out.
pub proof fn lemma_layers_chain(n_in: usize, n_outs: Seq<usize>)
    ensures
        layer_shapes(n_in, n_outs).len() == n_outs.len(),
        n_outs.len() > 0 ==> layer_shapes(n_in, n_outs)[0].0 == n_in,
        forall|i: int| 0 <= i < n_outs.len() ==> #[trigger] layer_shapes(n_in, n_outs)[i].1 == n_outs[i],
        forall|i: int|
            1 <= i < n_outs.len() ==> #[trigger] layer_shapes(n_in, n_outs)[i].0 == layer_shapes(
                n_in,
                n_outs,
            )[i - 1].1,
{
}

/// The (inputs, outputs) of each layer: the first layer reads `n_in`
/// inputs, and each layer reads what the layer before it puts out.
pub fn layer_sizes(n_in: usize, n_outs: &Vec<usize>) -> (sizes: Vec<(usize, usize)>)
    ensures
        sizes@ == layer_shapes(n_in, n_outs@),
        sizes@.len() == n_outs@.len(),
        n_outs@.len() > 0 ==> sizes@[0].0 == n_in,
        forall|i: int| 0 <= i < sizes@.len() ==> #[trigger] sizes@[i].1 == n_outs@[i],
        forall|i: int| 1 <= i < sizes@.len() ==> #[trigger] sizes@[i].0 == sizes@[i - 1].1,
{
    let mut sizes: Vec<(usize, usize)> = Vec::new();
    let n = n_outs.len();
    let mut i: usize = 0;
    while i < n
        invariant
            n == n_outs@.len(),
            i <= n,
            sizes@ == layer_shapes(n_in, n_outs@).subrange(0, i as int),
        decreases n - i,
    {
        let input = if i == 0 { n_in } else { n_outs[i - 1] };
        sizes.push((input, n_outs[i]));
        i = i + 1;
        proof {
            assert(sizes@ =~= layer_shapes(n_in, n_outs@).subrange(0, i as int));
        }
    }
    proof {
        assert(sizes@ =~= layer_shapes(n_in, n_outs@));
    }
    sizes
}

impl Neuron {
    /// A neuron with `n_in` weights: new leaves holding `init[pos..pos + n_in]`,
    /// then a bias: a new leaf holding `init[pos + n_in]`.
    pub fn new<T: Copy>(g: &mut Graph<T>, n_in: usize, init: &Vec<T>, pos: usize) -> (n: Neuron)
        requires
            old(g).wf(),
            pos + n_in + 1 <= init@.len(),
        ensures
            final(g).wf(),
            final(g).zero_value() == old(g).zero_value(),
            final(g)@ == old(g)@ + leaves(init@.subrange(pos as int, pos + n_in + 1), old(g).zero_value()),
            n.w@.len() == n_in,
            neuron_params(n) == index_range(old(g)@.len() as int, n_in + 1),
    {
        let limit = init.len();
        proof {
            assert(pos + n_in < limit);
        }
        let w = g.values_from(init, pos, n_in);
        let b = g.value(init[pos + n_in]);
        let n = Neuron { w, b };
        proof {
            assert(g@ =~= old(g)@ + leaves(init@.subrange(pos as int, pos + n_in + 1), old(g).zero_value()));
            assert(neuron_params(n) =~= index_range(old(g)@.len() as int, n_in + 1));
        }
        n
    }

    /// The weights, then the bias.
    pub fn parameters(&self) -> (params: Vec<usize>)
        ensures
            params@ == neuron_params(*self),
    {
        let mut params = self.w.clone();
        proof {
            assert(params@ =~= self.w@);
        }
        params.push(self.b);
        params
    }
}

proof fn lemma_next_block(j: int, m: int)
    requires
        0 <= j,
        0 <= m,
    ensures
        (j + 1) * m == j * m + m,
        0 <= j * m,
{
    assert((j + 1) * m == j * m + m) by (nonlinear_arith);
    assert(0 <= j * m) by (nonlinear_arith)
        requires
            0 <= j,
            0 <= m,
    ;
}

proof fn lemma_block_bound(j: int, n: int, m: int)
    requires
        0 <= j < n,
        0 <= m,
    ensures
        j * m + m <= n * m,
{
    assert((j + 1) * m <= n * m) by (nonlinear_arith)
        requires
            0 <= j < n,
            0 <= m,
    ;
    lemma_next_block(j, m);
}

impl Layer {
    /// `n_out` neurons with `n_in` weights each, built in order from
    /// `init[pos..]`: each takes `n_in + 1` values, its weights then its bias.
    pub fn new<T: Copy>(g: &mut Graph<T>, n_in: usize, n_out: usize, init: &Vec<T>, pos: usize) -> (layer: Layer)
        requires
            old(g).wf(),
            pos + n_out * (n_in + 1) <= init@.len(),
        ensures
            final(g).wf(),
            final(g).zero_value() == old(g).zero_value(),
            final(g)@ == old(g)@ + leaves(
                init@.subrange(pos as int, pos + n_out * (n_in + 1)),
                old(g).zero_value(),
            ),
            layer.neurons@.len() == n_out,
            forall|j: int| 0 <= j < n_out ==> (#[trigger] layer.neurons@[j]).w@.len() == n_in,
            layer_params(layer.neurons@) == index_range(old(g)@.len() as int, n_out * (n_in + 1)),
    {
        let limit = init.len();
        let mut neurons: Vec<Neuron> = Vec::new();
        let mut p: usize = pos;
        let mut j: usize = 0;
        let ghost m = n_in + 1;
        while j < n_out
            invariant
                limit == init@.len(),
                pos + n_out * m <= limit,
                m == n_in + 1,
                j <= n_out,
                p == pos + j * m,
                g.wf(),
                g.zero_value() == old(g).zero_value(),
                g@ == old(g)@ + leaves(init@.subrange(pos as int, p as int), old(g).zero_value()),
                neurons@.len() == j,
                forall|i: int| 0 <= i < j ==> (#[trigger] neurons@[i]).w@.len() == n_in,
                layer_params(neurons@) == index_range(old(g)@.len() as int, j * m),
            decreases n_out - j,
        {
            proof {
                lemma_block_bound(j as int, n_out as int, m);
                lemma_next_block(j as int, m);
            }
            let ghost g0 = g@;
            let neuron = Neuron::new(g, n_in, init, p);
            let ghost prev_neurons = neurons@;
            neurons.push(neuron);
            p = p + n_in + 1;
            j = j + 1;
            proof {
                assert(neurons@.drop_last() =~= prev_neurons);
                assert(g@ =~= old(g)@ + leaves(init@.subrange(pos as int, p as int), old(g).zero_value()));
                assert(layer_params(neurons@) =~= index_range(old(g)@.len() as int, j * m));
            }
        }
        Layer { neurons }
    }

    /// The parameters of every neuron, neuron after neuron.
    pub fn parameters(&self) -> (params: Vec<usize>)
        ensures
            params@ == layer_params(self.neurons@),
    {
        let mut params: Vec<usize> = Vec::new();
        let n = self.neurons.len();
        let mut j: usize = 0;
        while j < n
            invariant
                n == self.neurons@.len(),
                j <= n,
                params@ == layer_params(self.neurons@.subrange(0, j as int)),
            decreases n - j,
        {
            let mut more = self.neurons[j].parameters();
            params.append(&mut more);
            j = j + 1;
            proof {
                assert(self.neurons@.subrange(0, j as int).drop_last() =~= self.neurons@.subrange(0, j - 1));
            }
        }
        proof {
            assert(self.neurons@.subrange(0, n as int) =~= self.neurons@);
        }
        params
    }
}

impl MLP {
    /// A perceptron with `n_in` inputs whose layers have `n_outs` outputs,
    /// its parameters built in order from `init`: layer after layer, neuron
    /// after neuron, the weights then the bias. `n_in` is put in front of
    /// `n_outs`, which then lists the width of every layer boundary.
    pub fn new<T: Copy>(g: &mut Graph<T>, n_in: usize, n_outs: &mut Vec<usize>, init: &Vec<T>) -> (mlp: MLP)
        requires
            old(g).wf(),
            init@.len() == shapes_param_count(layer_shapes(n_in, old(n_outs)@)),
        ensures
            final(n_outs)@ == seq![n_in] + old(n_outs)@,
            final(g).wf(),
            final(g).zero_value() == old(g).zero_value(),
            final(g)@ == old(g)@ + leaves(init@, old(g).zero_value()),
            has_shapes(mlp.layers@, layer_shapes(n_in, old(n_outs)@)),
            mlp.layers@.len() + 1 == final(n_outs)@.len(),
            forall|l: int, j: int|
                0 <= l < mlp.layers@.len() && 0 <= j < mlp.layers@[l].neurons@.len() ==> (
                #[trigger] mlp.layers@[l].neurons@[j]).w@.len() == final(n_outs)@[l],
            forall|l: int| 0 <= l < mlp.layers@.len() ==> (#[trigger] mlp.layers@[l]).neurons@.len()
                == final(n_outs)@[l + 1],
            mlp_params(mlp.layers@) == index_range(old(g)@.len() as int, init@.len() as int),
    {
        let sizes = layer_sizes(n_in, n_outs);
        let ghost shapes = layer_shapes(n_in, old(n_outs)@);
        n_outs.insert(0, n_in);
        proof {
            assert(n_outs@ =~= seq![n_in] + old(n_outs)@);
        }
        let limit = init.len();
        let n = sizes.len();
        let mut layers: Vec<Layer> = Vec::new();
        let mut p: usize = 0;
        let mut l: usize = 0;
        while l < n
            invariant
                limit == init@.len(),
                sizes@ == shapes,
                n == shapes.len(),
                limit == shapes_param_count(shapes),
                l <= n,
                p == shapes_param_count(shapes.subrange(0, l as int)),
                g.wf(),
                g.zero_value() == old(g).zero_value(),
                g@ == old(g)@ + leaves(init@.subrange(0, p as int), old(g).zero_value()),
                has_shapes(layers@, shapes.subrange(0, l as int)),
                mlp_params(layers@) == index_range(old(g)@.len() as int, p as int),
            decreases n - l,
        {
            let (i, o) = sizes[l];
            proof {
                lemma_param_count_prefix(shapes, l as int + 1, n as int);
                assert(shapes.subrange(0, n as int) =~= shapes);
                assert(shapes.subrange(0, l + 1).drop_last() =~= shapes.subrange(0, l as int));
                assert(shapes.subrange(0, l + 1).last() == (i, o));
                assert(p + o * (i + 1) <= limit);
                assert(o * i + o == o * (i + 1) && o * i <= o * (i + 1)) by (nonlinear_arith)
                    requires
                        o >= 0,
                        i >= 0,
                ;
            }
            let layer = Layer::new(g, i, o, init, p);
            let ghost prev_layers = layers@;
            layers.push(layer);
            p = p + o * i + o;
            l = l + 1;
            proof {
                assert(layers@.drop_last() =~= prev_layers);
                assert(g@ =~= old(g)@ + leaves(init@.subrange(0, p as int), old(g).zero_value()));
                assert(mlp_params(layers@) =~= index_range(old(g)@.len() as int, p as int));
                assert(has_shapes(layers@, shapes.subrange(0, l as int))) by {
                    assert forall|ll: int| #![trigger layers@[ll]] 0 <= ll < layers@.len() implies {
                        &&& layers@[ll].neurons@.len() == shapes.subrange(0, l as int)[ll].1
                        &&& forall|j: int| 0 <= j < layers@[ll].neurons@.len() ==> (#[trigger] layers@[ll].neurons@[j]).w@.len()
                            == shapes.subrange(0, l as int)[ll].0
                    } by {
                        if ll < l - 1 {
                            assert(layers@[ll] == prev_layers[ll]);
                            assert(prev_layers[ll] == layers@.drop_last()[ll]);
                        }
                    }
                }
            }
        }
        proof {
            assert(shapes.subrange(0, n as int) =~= shapes);
            assert(init@.subrange(0, p as int) =~= init@);
            assert forall|l: int, j: int|
                0 <= l < layers@.len() && 0 <= j < layers@[l].neurons@.len() implies (
                #[trigger] layers@[l].neurons@[j]).w@.len() == n_outs@[l] by {
                assert(layers@[l].neurons@.len() == shapes[l].1);
            }
            assert forall|l: int| 0 <= l < layers@.len() implies (#[trigger] layers@[l]).neurons@.len()
                == n_outs@[l + 1] by {
            }
        }
        MLP { layers }
    }

    /// The parameters of every layer, layer after layer.
    pub fn parameters(&self) -> (params: Vec<usize>)
        ensures
            params@ == mlp_params(self.layers@),
    {
        let mut params: Vec<usize> = Vec::new();
        let n = self.layers.len();
        let mut l: usize = 0;
        while l < n
            invariant
                n == self.layers@.len(),
                l <= n,
                params@ == mlp_params(self.layers@.subrange(0, l as int)),
            decreases n - l,
        {
            let mut more = self.layers[l].parameters();
            params.append(&mut more);
            l = l + 1;
            proof {
                assert(self.layers@.subrange(0, l as int).drop_last() =~= self.layers@.subrange(0, l - 1));
            }
        }
        proof {
            assert(self.layers@.subrange(0, n as int) =~= self.layers@);
        }
        params
    }
}

/// A prefix of the layers holds no more parameters than all of them.
proof fn lemma_param_count_prefix(shapes: Seq<(usize, usize)>, k: int, n: int)
    requires
        0 <= k <= n <= shapes.len(),
    ensures
        0 <= shapes_param_count(shapes.subrange(0, k)) <= shapes_param_count(shapes.subrange(0, n)),
    decreases n,
{
    if n > 0 {
        assert(shapes.subrange(0, n).drop_last() =~= shapes.subrange(0, n - 1));
        let last = shapes.subrange(0, n).last();
        assert(last.1 * (last.0 + 1) >= 0) by (nonlinear_arith)
            requires
                last.1 >= 0,
                last.0 + 1 >= 0,
        ;
        if k < n {
            lemma_param_count_prefix(shapes, k, n - 1);
        } else {
            lemma_param_count_prefix(shapes, n - 1, n - 1);
        }
    }
}

} // verus!
