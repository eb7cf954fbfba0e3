use makegrad::graph::{Graph, Op};
use makegrad::nn::{layer_sizes, Layer, Neuron, MLP};

#[test]
fn layer_sizes_chain_inputs_and_outputs() {
    assert_eq!(layer_sizes(3, &vec![4, 4, 1]), vec![(3, 4), (4, 4), (4, 1)]);
    assert_eq!(layer_sizes(3, &vec![]), vec![]);
}

#[test]
fn mlp_parameters_are_the_new_leaves_in_order() {
    let mut g: Graph<f64> = Graph::new(0.0);
    let before = g.value(42.0);
    let init: Vec<f64> = (0..41).map(|i| i as f64).collect();
    let mut n_outs = vec![4, 4, 1];
    let mlp = MLP::new(&mut g, 3, &mut n_outs, &init);
    assert_eq!(n_outs, vec![3, 4, 4, 1]);
    let params = mlp.parameters();
    assert_eq!(params.len(), 41);
    assert_eq!(params, (before + 1..before + 42).collect::<Vec<_>>());
    for (k, &p) in params.iter().enumerate() {
        assert_eq!(g.data(p), k as f64);
        assert_eq!(g.op(p), Op::Leaf);
    }
    assert_eq!(mlp.layers.len(), 3);
    assert_eq!(mlp.layers[1].neurons.len(), 4);
    assert_eq!(mlp.layers[1].neurons[0].w.len(), 4);
    assert_eq!(mlp.layers[2].neurons.len(), 1);
}

#[test]
fn neuron_weights_then_bias() {
    let mut g: Graph<f64> = Graph::new(0.0);
    let init = vec![0.1, 0.2, 0.3, 0.4];
    let n = Neuron::new(&mut g, 2, &init, 1);
    assert_eq!(n.w, vec![0, 1]);
    assert_eq!(n.b, 2);
    assert_eq!(g.data(n.b), 0.4);
    assert_eq!(n.parameters(), vec![0, 1, 2]);
    let layer = Layer::new(&mut g, 1, 2, &init, 0);
    assert_eq!(layer.parameters(), vec![3, 4, 5, 6]);
    assert_eq!(g.data(6), 0.4);
}
