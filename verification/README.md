# makegrad

A scalar autograd engine and a character-level bigram language model, with
their structure specified and proved in Verus.

`src/` is the verified library:

- `graph`: an arena of computation nodes generic over the scalar type. Nodes
  refer to earlier nodes only, so every graph is acyclic. It lists the nodes an
  output depends on in topological order (and in the reverse order in which
  gradients flow back) and describes each chain-rule step.
- `reach`: reachability, depth-first orders and the lemmas behind them.
- `dot`: the statements of a Graphviz drawing of a graph, in walk order, and
  the text of the statements that carry no floating-point value.
- `nn`: neurons, layers and multi-layer perceptrons as sets of parameters.
- `vocab`: the symbols of the bigram model and the encoding of words.
- `counts`: bigram counts kept in an `ndarray` matrix.
- `sampling`: drawing the next symbol with `rand`'s `WeightedIndex`, and the
  proof that a word written step by step takes only transitions seen in the
  counts.
- `text`: building strings from characters and integers (decimal and
  hexadecimal).

`app/` is the command-line program around it: reading `names.txt`, the
floating-point arithmetic (node values, gradients, probabilities, training),
printing and rendering drawings with Graphviz. Its first argument picks one of
`makemore`, `makemore2` ... `makemore6`, `micrograd`, `micrograd2`,
`micrograd3`.
