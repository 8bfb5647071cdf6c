use grokking_deep_learning_rs::layers::{
    Embedding, LSTMCell, Layer, Linear, RNNCell, Sequential, Sigmoid, Tanh,
};
use grokking_deep_learning_rs::tensor::{Fill, Graph, Op, Tensor, TensorError};

fn ids(from: usize, to: usize) -> Vec<Tensor> {
    (from..to).map(|id| Tensor { id }).collect()
}

#[test]
fn linear_new_allocates_weights_and_bias() {
    let mut g = Graph::new();
    let l = Linear::new(&mut g, 3, 2, true);
    assert_eq!(l.weights, Tensor { id: 0 });
    assert_eq!(l.bias, Some(Tensor { id: 1 }));
    assert_eq!(g.shape(l.weights), Some((3, 2)));
    assert_eq!(g.shape(Tensor { id: 1 }), Some((1, 2)));
    assert!(matches!(
        g.node(l.weights).unwrap().op,
        Op::Leaf(Fill::Uniform { inverse_width: 2, centered: true })
    ));
    assert!(matches!(g.node(Tensor { id: 1 }).unwrap().op, Op::Leaf(Fill::Zeros)));
    assert_eq!(l.parameters(), ids(0, 2));
}

#[test]
fn linear_new_without_bias_allocates_weights_only() {
    let mut g = Graph::new();
    let l = Linear::new(&mut g, 3, 2, false);
    assert_eq!(l.bias, None);
    assert_eq!(g.len(), 1);
    assert_eq!(l.parameters(), ids(0, 1));
}

#[test]
fn linear_forward_has_rows_of_input_and_n_outputs_columns() {
    for rows in [0usize, 1, 2, 7, 64] {
        for bias in [false, true] {
            let mut g = Graph::new();
            let l = Linear::new(&mut g, 3, 5, bias);
            let x = g.new_const(rows, 3, Fill::Given);
            let out = l.forward(&mut g, &[x]).unwrap();
            assert_eq!(out.len(), 1);
            assert_eq!(g.shape(out[0]), Some((rows, 5)));
        }
    }
}

#[test]
fn linear_forward_without_bias_is_one_product() {
    let mut g = Graph::new();
    let l = Linear::new(&mut g, 3, 1, false);
    let x = g.new_const(4, 3, Fill::Given);
    let before = g.len();
    let out = l.forward(&mut g, &[x]).unwrap();
    assert_eq!(g.len(), before + 1);
    match g.node(out[0]).unwrap().op {
        Op::Dot(a, b) => {
            assert_eq!(a, x);
            assert_eq!(b, l.weights);
        }
        _ => panic!("not a product"),
    }
}

#[test]
fn linear_forward_with_bias_adds_the_spread_bias() {
    let mut g = Graph::new();
    let l = Linear::new(&mut g, 3, 2, true);
    let x = g.new_const(4, 3, Fill::Given);
    let before = g.len();
    let out = l.forward(&mut g, &[x]).unwrap();
    assert_eq!(g.len(), before + 3);
    let (product, spread) = match g.node(out[0]).unwrap().op {
        Op::Add(a, b) => (a, b),
        _ => panic!("not a sum"),
    };
    assert!(matches!(g.node(product).unwrap().op, Op::Dot(_, _)));
    match g.node(spread).unwrap().op {
        Op::Expand { parent, axis, copies } => {
            assert_eq!(Some(parent), l.bias);
            assert_eq!(axis, 0);
            assert_eq!(copies, 4);
        }
        _ => panic!("not an expansion"),
    }
    assert_eq!(g.shape(spread), Some((4, 2)));
}

#[test]
fn linear_forward_refuses_wrong_columns_and_leaves_no_node() {
    let mut g = Graph::new();
    let l = Linear::new(&mut g, 3, 2, true);
    let x = g.new_const(4, 5, Fill::Given);
    let before = g.len();
    assert_eq!(l.forward(&mut g, &[x]), Err(TensorError::ShapeMismatch));
    assert_eq!(g.len(), before);
    assert_eq!(l.forward(&mut g, &[]), Err(TensorError::ConfigurationError));
    assert_eq!(
        l.forward(&mut g, &[Tensor { id: 50 }]),
        Err(TensorError::ConfigurationError)
    );
    assert_eq!(g.len(), before);
}

#[test]
fn linear_forward_rolls_back_when_the_bias_does_not_fit() {
    let mut g = Graph::new();
    let weights = g.new_const(3, 2, Fill::Given);
    let bias = g.new_const(1, 4, Fill::Given);
    let l = Linear { weights, bias: Some(bias) };
    let x = g.new_const(5, 3, Fill::Given);
    let before = g.len();
    assert_eq!(l.forward(&mut g, &[x]), Err(TensorError::ShapeMismatch));
    assert_eq!(g.len(), before);
}

#[test]
fn activations_have_no_parameters() {
    let mut g = Graph::new();
    let x = g.new_const(2, 3, Fill::Given);
    let s = Sigmoid {}.forward(&mut g, &[x]).unwrap();
    let t = Tanh {}.forward(&mut g, &[x]).unwrap();
    assert!(matches!(g.node(s[0]).unwrap().op, Op::Sigmoid(_)));
    assert!(matches!(g.node(t[0]).unwrap().op, Op::Tanh(_)));
    assert_eq!(Sigmoid {}.parameters(), vec![]);
    assert_eq!(Tanh {}.parameters(), vec![]);
    assert_eq!(Sigmoid {}.forward(&mut g, &[]), Err(TensorError::ConfigurationError));
    assert_eq!(Tanh {}.forward(&mut g, &[]), Err(TensorError::ConfigurationError));
}

#[test]
fn sequential_threads_one_tensor_through_its_layers() {
    let mut g = Graph::new();
    let first = Linear::new(&mut g, 3, 4, true);
    let second = Linear::new(&mut g, 4, 1, false);
    let layers: Vec<Box<dyn Layer>> =
        vec![Box::new(first), Box::new(Tanh {}), Box::new(second), Box::new(Sigmoid {})];
    let model = Sequential::new(layers);
    let x = g.new_const(6, 3, Fill::Given);
    let out = model.forward(&mut g, &[x]).unwrap();
    assert_eq!(out.len(), 1);
    assert_eq!(g.shape(out[0]), Some((6, 1)));
    assert!(matches!(g.node(out[0]).unwrap().op, Op::Sigmoid(_)));
}

#[test]
fn sequential_parameters_are_those_of_its_layers_in_order() {
    let mut g = Graph::new();
    let first = Linear::new(&mut g, 3, 4, true);
    let second = Linear::new(&mut g, 4, 1, false);
    let third = Embedding::new(&mut g, 5, 2);
    let counts = first.parameters().len() + second.parameters().len() + third.parameters().len();
    let mut model = Sequential::new(vec![Box::new(first), Box::new(Tanh {})]);
    model.add(Box::new(second));
    model.add(Box::new(third));
    let params = model.parameters();
    assert_eq!(params.len(), counts);
    assert_eq!(params, ids(0, 4));
    assert_eq!(model.parameters(), params);
    assert_eq!(model.layers.len(), 4);
}

#[test]
fn sequential_without_layers_hands_back_its_input() {
    let mut g = Graph::new();
    let x = g.new_const(2, 2, Fill::Given);
    let model = Sequential::new(vec![]);
    assert_eq!(model.forward(&mut g, &[x]), Ok(vec![x]));
    assert_eq!(model.parameters(), vec![]);
    assert_eq!(g.len(), 1);
    assert_eq!(model.forward(&mut g, &[]), Err(TensorError::ConfigurationError));
    assert_eq!(
        model.forward(&mut g, &[Tensor { id: 1 }]),
        Err(TensorError::ConfigurationError)
    );
}

#[test]
fn sequential_failure_leaves_the_graph_as_it_was() {
    let mut g = Graph::new();
    let first = Linear::new(&mut g, 3, 4, true);
    let second = Linear::new(&mut g, 5, 1, false);
    let model = Sequential::new(vec![Box::new(first), Box::new(second)]);
    let x = g.new_const(6, 3, Fill::Given);
    let before = g.len();
    assert_eq!(model.forward(&mut g, &[x]), Err(TensorError::ShapeMismatch));
    assert_eq!(g.len(), before);
}

#[test]
fn sequential_refuses_a_layer_with_more_than_one_output() {
    let mut g = Graph::new();
    let cell = LSTMCell::new(&mut g, 3, 2, 1).unwrap();
    let model = Sequential::new(vec![Box::new(cell)]);
    let x = g.new_const(4, 3, Fill::Given);
    let before = g.len();
    assert_eq!(model.forward(&mut g, &[x]), Err(TensorError::ConfigurationError));
    assert_eq!(g.len(), before);
}

#[test]
fn embedding_new_allocates_the_table() {
    let mut g = Graph::new();
    let e = Embedding::new(&mut g, 10, 4);
    assert_eq!(g.shape(e.weights), Some((10, 4)));
    assert!(matches!(
        g.node(e.weights).unwrap().op,
        Op::Leaf(Fill::Uniform { inverse_width: 4, centered: true })
    ));
    assert_eq!(e.parameters(), vec![e.weights]);
}

#[test]
fn embedding_from_weights_takes_the_shape_given() {
    let mut g = Graph::new();
    let e = Embedding::from_weights(&mut g, 7, 3);
    assert_eq!(g.shape(e.weights), Some((7, 3)));
    assert!(matches!(g.node(e.weights).unwrap().op, Op::Leaf(Fill::Given)));
}

#[test]
fn embedding_forward_gathers_rows_in_input_order() {
    let mut g = Graph::new();
    let e = Embedding::new(&mut g, 10, 4);
    let words = g.new_indices(vec![7, 0, 7, 9]);
    let out = e.forward(&mut g, &[words]).unwrap();
    assert_eq!(out.len(), 1);
    assert_eq!(g.shape(out[0]), Some((4, 4)));
    match &g.node(out[0]).unwrap().op {
        Op::IndexSelect { parent, indices } => {
            assert_eq!(*parent, e.weights);
            assert_eq!(indices, &vec![7, 0, 7, 9]);
        }
        _ => panic!("not a selection"),
    }
    assert_eq!(g.source(out[0], 3, 2), Some((e.weights, 9, 2)));
}

#[test]
fn embedding_forward_refuses_bad_inputs() {
    let mut g = Graph::new();
    let e = Embedding::new(&mut g, 10, 4);
    let late = g.new_indices(vec![1, 10]);
    let floats = g.new_const(1, 2, Fill::Given);
    let before = g.len();
    assert_eq!(e.forward(&mut g, &[late]), Err(TensorError::IndexOutOfRange));
    assert_eq!(e.forward(&mut g, &[floats]), Err(TensorError::ConfigurationError));
    assert_eq!(e.forward(&mut g, &[]), Err(TensorError::ConfigurationError));
    assert_eq!(
        e.forward(&mut g, &[Tensor { id: 77 }]),
        Err(TensorError::ConfigurationError)
    );
    assert_eq!(g.len(), before);
}

#[test]
fn embedding_clone_is_a_leaf_of_its_own() {
    let mut g = Graph::new();
    let e = Embedding::new(&mut g, 10, 4);
    let copy = e.clone(&mut g).unwrap();
    assert_ne!(copy.weights, e.weights);
    assert_eq!(g.shape(copy.weights), Some((10, 4)));
    match g.node(copy.weights).unwrap().op {
        Op::Detach(from) => assert_eq!(from, e.weights),
        _ => panic!("not a copy"),
    }
    let stray = Embedding { weights: Tensor { id: 40 } };
    assert_eq!(stray.clone(&mut g).err(), Some(TensorError::ConfigurationError));
}

#[test]
fn rnn_cell_new_allocates_three_projections_with_bias() {
    let mut g = Graph::new();
    let cell = RNNCell::new(&mut g, 3, 4, 2, Box::new(Tanh {})).unwrap();
    assert_eq!(g.len(), 6);
    assert_eq!(cell.n_hidden, 4);
    assert_eq!(g.shape(cell.w_ih.weights), Some((3, 4)));
    assert_eq!(g.shape(cell.w_hh.weights), Some((4, 4)));
    assert_eq!(g.shape(cell.w_ho.weights), Some((4, 2)));
    assert_eq!(g.shape(cell.w_ih.bias.unwrap()), Some((1, 4)));
    assert_eq!(g.shape(cell.w_hh.bias.unwrap()), Some((1, 4)));
    assert_eq!(g.shape(cell.w_ho.bias.unwrap()), Some((1, 2)));
    assert_eq!(cell.parameters(), ids(0, 6));
}

#[test]
fn rnn_cell_without_hidden_units_is_refused() {
    let mut g = Graph::new();
    let r = RNNCell::new(&mut g, 3, 0, 2, Box::new(Tanh {}));
    assert_eq!(r.err(), Some(TensorError::ConfigurationError));
    assert_eq!(g.len(), 0);
}

#[test]
fn rnn_cell_start_state_is_zero() {
    let mut g = Graph::new();
    let cell = RNNCell::new(&mut g, 3, 4, 2, Box::new(Sigmoid {})).unwrap();
    let h = cell.create_start_state(&mut g, 5);
    assert_eq!(g.shape(h), Some((5, 4)));
    assert!(matches!(g.node(h).unwrap().op, Op::Leaf(Fill::Zeros)));
}

#[test]
fn rnn_cell_forward_hands_back_output_then_hidden() {
    let mut g = Graph::new();
    let cell = RNNCell::new(&mut g, 3, 4, 2, Box::new(Tanh {})).unwrap();
    let h = cell.create_start_state(&mut g, 5);
    let x = g.new_const(5, 3, Fill::Given);
    let before = g.len();
    let out = cell.forward(&mut g, &[x, h]).unwrap();
    assert_eq!(out.len(), 2);
    assert_eq!(g.len(), before + 11);
    assert_eq!(g.shape(out[0]), Some((5, 2)));
    assert_eq!(g.shape(out[1]), Some((5, 4)));
    let squashed = match g.node(out[1]).unwrap().op {
        Op::Tanh(t) => t,
        _ => panic!("hidden state is not activated"),
    };
    let (input_part, state_part) = match g.node(squashed).unwrap().op {
        Op::Add(a, b) => (a, b),
        _ => panic!("not a sum"),
    };
    assert!(state_part.id < input_part.id);
    let again = cell.forward(&mut g, &[x, out[1]]).unwrap();
    assert_eq!(g.shape(again[1]), Some((5, 4)));
}

#[test]
fn rnn_cell_forward_refuses_bad_inputs() {
    let mut g = Graph::new();
    let cell = RNNCell::new(&mut g, 3, 4, 2, Box::new(Tanh {})).unwrap();
    let h = cell.create_start_state(&mut g, 5);
    let x = g.new_const(5, 3, Fill::Given);
    let short = g.new_const(4, 3, Fill::Given);
    let wide = g.new_const(5, 6, Fill::Given);
    let before = g.len();
    assert_eq!(cell.forward(&mut g, &[x]), Err(TensorError::ConfigurationError));
    assert_eq!(cell.forward(&mut g, &[short, h]), Err(TensorError::ShapeMismatch));
    assert_eq!(cell.forward(&mut g, &[wide, h]), Err(TensorError::ShapeMismatch));
    assert_eq!(cell.forward(&mut g, &[x, x]), Err(TensorError::ShapeMismatch));
    assert_eq!(g.len(), before);
}

#[test]
fn rnn_cell_refuses_an_activation_with_two_outputs() {
    let mut g = Graph::new();
    let inner = RNNCell::new(&mut g, 4, 4, 4, Box::new(Tanh {})).unwrap();
    let cell = RNNCell::new(&mut g, 3, 4, 2, Box::new(inner)).unwrap();
    let h = cell.create_start_state(&mut g, 5);
    let x = g.new_const(5, 3, Fill::Given);
    let before = g.len();
    assert_eq!(cell.forward(&mut g, &[x, h]), Err(TensorError::ConfigurationError));
    assert_eq!(g.len(), before);
}

#[test]
fn lstm_cell_new_allocates_nine_projections() {
    let mut g = Graph::new();
    let cell = LSTMCell::new(&mut g, 3, 4, 2).unwrap();
    assert_eq!(g.len(), 13);
    assert_eq!(cell.n_hidden, 4);
    for l in [&cell.xf, &cell.xi, &cell.xo, &cell.xc] {
        assert_eq!(g.shape(l.weights), Some((3, 4)));
        assert_eq!(g.shape(l.bias.unwrap()), Some((1, 4)));
    }
    for l in [&cell.hf, &cell.hi, &cell.ho, &cell.hc] {
        assert_eq!(g.shape(l.weights), Some((4, 4)));
        assert_eq!(l.bias, None);
    }
    assert_eq!(g.shape(cell.w_ho.weights), Some((4, 2)));
    assert_eq!(cell.w_ho.bias, None);
    assert_eq!(cell.parameters(), ids(0, 13));
    assert_eq!(cell.xf.weights, Tensor { id: 0 });
    assert_eq!(cell.xc.weights, Tensor { id: 6 });
    assert_eq!(cell.hf.weights, Tensor { id: 8 });
    assert_eq!(cell.w_ho.weights, Tensor { id: 12 });
}

#[test]
fn lstm_cell_without_hidden_units_is_refused() {
    let mut g = Graph::new();
    assert_eq!(LSTMCell::new(&mut g, 3, 0, 2).err(), Some(TensorError::ConfigurationError));
    assert_eq!(g.len(), 0);
}

#[test]
fn lstm_cell_start_state_seeds_column_zero() {
    let mut g = Graph::new();
    let cell = LSTMCell::new(&mut g, 3, 4, 2).unwrap();
    let (h, c) = cell.create_start_state(&mut g, 2);
    assert_ne!(h, c);
    assert_eq!(g.shape(h), Some((2, 4)));
    assert_eq!(g.shape(c), Some((2, 4)));
    assert!(matches!(g.node(h).unwrap().op, Op::Leaf(Fill::SeedColumn)));
    assert!(matches!(g.node(c).unwrap().op, Op::Leaf(Fill::SeedColumn)));
}

#[test]
fn lstm_cell_forward_hands_back_output_hidden_and_cell() {
    let mut g = Graph::new();
    let cell = LSTMCell::new(&mut g, 3, 4, 2).unwrap();
    let (h, c) = cell.create_start_state(&mut g, 5);
    let x = g.new_const(5, 3, Fill::Given);
    let before = g.len();
    let out = cell.forward(&mut g, &[x, h, c]).unwrap();
    assert_eq!(out.len(), 3);
    assert_eq!(g.len(), before + 30);
    assert_eq!(g.shape(out[0]), Some((5, 2)));
    assert_eq!(g.shape(out[1]), Some((5, 4)));
    assert_eq!(g.shape(out[2]), Some((5, 4)));
    match g.node(out[0]).unwrap().op {
        Op::Dot(a, b) => {
            assert_eq!(a, out[1]);
            assert_eq!(b, cell.w_ho.weights);
        }
        _ => panic!("output is not a projection of the hidden state"),
    }
    let (release, squashed) = match g.node(out[1]).unwrap().op {
        Op::Mul(a, b) => (a, b),
        _ => panic!("hidden state is not a product"),
    };
    assert!(matches!(g.node(release).unwrap().op, Op::Sigmoid(_)));
    match g.node(squashed).unwrap().op {
        Op::Tanh(t) => assert_eq!(t, out[2]),
        _ => panic!("not the squashed cell state"),
    }
    let (kept, added) = match g.node(out[2]).unwrap().op {
        Op::Add(a, b) => (a, b),
        _ => panic!("cell state is not a sum"),
    };
    match g.node(kept).unwrap().op {
        Op::Mul(forget, old) => {
            assert!(matches!(g.node(forget).unwrap().op, Op::Sigmoid(_)));
            assert_eq!(old, c);
        }
        _ => panic!("not a product"),
    }
    match g.node(added).unwrap().op {
        Op::Mul(intake, candidate) => {
            assert!(matches!(g.node(intake).unwrap().op, Op::Sigmoid(_)));
            assert!(matches!(g.node(candidate).unwrap().op, Op::Tanh(_)));
        }
        _ => panic!("not a product"),
    }
}

#[test]
fn lstm_cell_forward_refuses_bad_inputs() {
    let mut g = Graph::new();
    let cell = LSTMCell::new(&mut g, 3, 4, 2).unwrap();
    let (h, c) = cell.create_start_state(&mut g, 5);
    let (h2, _) = cell.create_start_state(&mut g, 2);
    let x = g.new_const(5, 3, Fill::Given);
    let before = g.len();
    assert_eq!(cell.forward(&mut g, &[x, h]), Err(TensorError::ConfigurationError));
    assert_eq!(cell.forward(&mut g, &[x, h2, c]), Err(TensorError::ShapeMismatch));
    assert_eq!(cell.forward(&mut g, &[x, h, h2]), Err(TensorError::ShapeMismatch));
    assert_eq!(cell.forward(&mut g, &[h, h, c]), Err(TensorError::ShapeMismatch));
    assert_eq!(
        cell.forward(&mut g, &[Tensor { id: 500 }, h, c]),
        Err(TensorError::ConfigurationError)
    );
    assert_eq!(g.len(), before);
}
