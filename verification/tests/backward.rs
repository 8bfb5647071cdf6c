use grokking_deep_learning_rs::backward::{backward_order, operands};
use grokking_deep_learning_rs::layers::{LSTMCell, Layer, Linear};
use grokking_deep_learning_rs::tensor::{Fill, Graph, Tensor, TensorError};

fn ids(list: &[usize]) -> Vec<Tensor> {
    list.iter().map(|id| Tensor { id: *id }).collect()
}

#[test]
fn operands_of_each_kind_of_node() {
    let mut g = Graph::new();
    let a = g.new_const(2, 2, Fill::Given);
    let b = g.new_const(2, 2, Fill::Given);
    let row = g.new_const(1, 2, Fill::Zeros);
    let words = g.new_indices(vec![1, 0]);
    let sum = g.add(a, b).unwrap();
    let product = g.mul(b, a).unwrap();
    let dot = g.dot(a, b).unwrap();
    let spread = g.expand(row, 0, 2).unwrap();
    let picked = g.index_select(a, vec![1]).unwrap();
    let copy = g.detach(a).unwrap();
    let s = g.sigmoid(sum).unwrap();
    let t = g.tanh(s).unwrap();
    assert_eq!(operands(&g, a), vec![]);
    assert_eq!(operands(&g, row), vec![]);
    assert_eq!(operands(&g, words), vec![]);
    assert_eq!(operands(&g, copy), vec![]);
    assert_eq!(operands(&g, sum), vec![a, b]);
    assert_eq!(operands(&g, product), vec![b, a]);
    assert_eq!(operands(&g, dot), vec![a, b]);
    assert_eq!(operands(&g, spread), vec![row]);
    assert_eq!(operands(&g, picked), vec![a]);
    assert_eq!(operands(&g, s), vec![sum]);
    assert_eq!(operands(&g, t), vec![s]);
    assert_eq!(operands(&g, Tensor { id: 99 }), vec![]);
}

#[test]
fn backward_order_of_a_leaf_is_the_leaf() {
    let mut g = Graph::new();
    let a = g.new_const(2, 2, Fill::Given);
    let _ = g.new_const(2, 2, Fill::Given);
    assert_eq!(backward_order(&g, a), Ok(vec![a]));
}

#[test]
fn backward_order_refuses_a_handle_of_no_node() {
    let mut g = Graph::new();
    let _ = g.new_const(2, 2, Fill::Given);
    assert_eq!(backward_order(&g, Tensor { id: 1 }), Err(TensorError::ConfigurationError));
    assert_eq!(backward_order(&Graph::new(), Tensor { id: 0 }), Err(TensorError::ConfigurationError));
}

#[test]
fn backward_order_skips_what_the_gradient_does_not_reach() {
    let mut g = Graph::new();
    let a = g.new_const(2, 2, Fill::Given); // 0
    let b = g.new_const(2, 2, Fill::Given); // 1
    let c = g.new_const(2, 2, Fill::Given); // 2
    let ab = g.add(a, b).unwrap(); // 3
    let unused = g.mul(c, c).unwrap(); // 4
    let copy = g.detach(ab).unwrap(); // 5
    let out = g.tanh(ab).unwrap(); // 6
    let later = g.sigmoid(out).unwrap(); // 7
    assert_eq!(backward_order(&g, out), Ok(ids(&[6, 3, 1, 0])));
    assert_eq!(backward_order(&g, later), Ok(ids(&[7, 6, 3, 1, 0])));
    assert_eq!(backward_order(&g, unused), Ok(ids(&[4, 2])));
    assert_eq!(backward_order(&g, copy), Ok(ids(&[5])));
}

#[test]
fn backward_order_visits_a_shared_node_once() {
    let mut g = Graph::new();
    let w = g.new_const(2, 2, Fill::Given);
    let x = g.new_const(2, 2, Fill::Given);
    let first = g.dot(x, w).unwrap();
    let second = g.dot(first, w).unwrap();
    let both = g.add(first, second).unwrap();
    assert_eq!(backward_order(&g, both), Ok(vec![both, second, first, x, w]));
}

#[test]
fn backward_order_of_a_linear_layer_reaches_its_parameters() {
    let mut g = Graph::new();
    let l = Linear::new(&mut g, 3, 2, true);
    let x = g.new_const(4, 3, Fill::Given);
    let out = l.forward(&mut g, &[x]).unwrap();
    let order = backward_order(&g, out[0]).unwrap();
    assert_eq!(order[0], out[0]);
    for p in l.parameters() {
        assert!(order.contains(&p));
    }
    assert!(order.contains(&x));
    for k in 1..order.len() {
        assert!(order[k].id < order[k - 1].id);
    }
}

#[test]
fn backward_order_visits_operands_after_their_consumers() {
    let mut g = Graph::new();
    let cell = LSTMCell::new(&mut g, 3, 4, 1).unwrap();
    let (h, c) = cell.create_start_state(&mut g, 2);
    let x = g.new_const(2, 3, Fill::Given);
    let out = cell.forward(&mut g, &[x, h, c]).unwrap();
    let order = backward_order(&g, out[0]).unwrap();
    for (k, t) in order.iter().enumerate() {
        for p in operands(&g, *t) {
            let at = order.iter().position(|o| *o == p).unwrap();
            assert!(at > k);
        }
    }
    for p in cell.parameters() {
        assert!(order.contains(&p));
    }
    assert!(order.contains(&h));
    assert!(order.contains(&c));
    assert!(order.contains(&x));
}
