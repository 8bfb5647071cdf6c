use grokking_deep_learning_rs::backward::backward_order;
use grokking_deep_learning_rs::layers::{LSTMCell, Layer, Linear, RNNCell, Tanh};
use grokking_deep_learning_rs::tensor::{Fill, Graph, Op, Tensor};
use rulinalg::matrix::{BaseMatrix, BaseMatrixMut, Matrix};

/// The values and gradients of the nodes of a graph, by position.
struct Session {
    values: Vec<Option<Matrix<f64>>>,
    grads: Vec<Option<Matrix<f64>>>,
}

impl Session {
    fn new() -> Session {
        Session { values: Vec::new(), grads: Vec::new() }
    }

    fn set(&mut self, t: Tensor, rows: usize, cols: usize, data: Vec<f64>) {
        while self.values.len() <= t.id {
            self.values.push(None);
        }
        self.values[t.id] = Some(Matrix::new(rows, cols, data));
    }

    fn value(&self, t: Tensor) -> &Matrix<f64> {
        self.values[t.id].as_ref().unwrap()
    }

    fn truncate(&mut self, len: usize) {
        self.values.truncate(len);
    }

    fn moved(&self, g: &Graph, t: Tensor, rows: usize, cols: usize) -> Matrix<f64> {
        let mut out = Matrix::zeros(rows, cols);
        for r in 0..rows {
            for c in 0..cols {
                let (from, fr, fc) = g.source(t, r, c).unwrap();
                out[[r, c]] = self.value(from)[[fr, fc]];
            }
        }
        out
    }

    fn forward(&mut self, g: &Graph) {
        while self.values.len() < g.len() {
            self.values.push(None);
        }
        for id in 0..g.len() {
            if self.values[id].is_some() {
                continue;
            }
            let t = Tensor { id };
            let node = g.node(t).unwrap();
            let (rows, cols) = (node.rows, node.cols);
            let value = match &node.op {
                Op::Leaf(Fill::Zeros) | Op::Leaf(Fill::SeedColumn) | Op::Indices(_) => {
                    Matrix::from_fn(rows, cols, |c, r| g.entry(t, r, c).unwrap() as f64)
                }
                Op::Leaf(_) => panic!("leaf {} has no value", id),
                Op::Add(a, b) => self.value(*a) + self.value(*b),
                Op::Mul(a, b) => self.value(*a).elemul(self.value(*b)),
                Op::Dot(a, b) => self.value(*a) * self.value(*b),
                Op::Sigmoid(a) => self.value(*a).clone().apply(&|x| 1.0 / (1.0 + (-x).exp())),
                Op::Tanh(a) => self.value(*a).clone().apply(&|x| x.tanh()),
                Op::Expand { .. } | Op::IndexSelect { .. } | Op::Detach(_) => {
                    self.moved(g, t, rows, cols)
                }
            };
            self.values[id] = Some(value);
        }
    }

    fn accumulate(&mut self, g: &Graph, t: Tensor, delta: Matrix<f64>) {
        let (rows, cols) = g.shape(t).unwrap();
        assert_eq!((delta.rows(), delta.cols()), (rows, cols));
        let sum = match self.grads[t.id].take() {
            None => delta,
            Some(old) => old + delta,
        };
        self.grads[t.id] = Some(sum);
    }

    fn backward(&mut self, g: &Graph, root: Tensor, seed: Matrix<f64>) {
        self.grads = (0..g.len()).map(|_| None).collect();
        self.accumulate(g, root, seed);
        for t in backward_order(g, root).unwrap() {
            let go = self.grads[t.id].clone().unwrap();
            let node = g.node(t).unwrap();
            match &node.op {
                Op::Leaf(_) | Op::Indices(_) | Op::Detach(_) => {}
                Op::Add(a, b) => {
                    self.accumulate(g, *a, go.clone());
                    self.accumulate(g, *b, go);
                }
                Op::Mul(a, b) => {
                    let da = go.elemul(self.value(*b));
                    let db = go.elemul(self.value(*a));
                    self.accumulate(g, *a, da);
                    self.accumulate(g, *b, db);
                }
                Op::Dot(a, b) => {
                    let da = &go * self.value(*b).transpose();
                    let db = self.value(*a).transpose() * &go;
                    self.accumulate(g, *a, da);
                    self.accumulate(g, *b, db);
                }
                Op::Sigmoid(a) => {
                    let local = self.value(t).clone().apply(&|s| s * (1.0 - s));
                    self.accumulate(g, *a, go.elemul(&local));
                }
                Op::Tanh(a) => {
                    let local = self.value(t).clone().apply(&|s| 1.0 - s * s);
                    self.accumulate(g, *a, go.elemul(&local));
                }
                Op::Expand { parent, .. } | Op::IndexSelect { parent, .. } => {
                    let (prows, pcols) = g.shape(*parent).unwrap();
                    let mut dp = Matrix::zeros(prows, pcols);
                    for r in 0..node.rows {
                        for c in 0..node.cols {
                            let (_, fr, fc) = g.source(t, r, c).unwrap();
                            dp[[fr, fc]] += go[[r, c]];
                        }
                    }
                    self.accumulate(g, *parent, dp);
                }
            }
        }
    }

    fn descend(&mut self, params: &[Tensor], rate: f64) {
        for p in params {
            if let Some(grad) = self.grads[p.id].clone() {
                let new = self.value(*p) - grad * rate;
                self.values[p.id] = Some(new);
            }
        }
    }
}

fn close(a: f64, b: f64) -> bool {
    (a - b).abs() < 1e-9
}

#[test]
fn expand_then_sum_of_rows_is_copies_times_the_row() {
    let mut g = Graph::new();
    let mut s = Session::new();
    let row = g.new_const(1, 3, Fill::Given);
    s.set(row, 1, 3, vec![0.25, -1.5, 2.0]);
    let spread = g.expand(row, 0, 4).unwrap();
    s.forward(&g);
    let sums = s.value(spread).sum_rows();
    assert_eq!(sums.data(), &vec![1.0, -6.0, 8.0]);
    s.backward(&g, spread, Matrix::ones(4, 3));
    assert_eq!(s.grads[row.id].as_ref().unwrap().data(), &vec![4.0, 4.0, 4.0]);
}

#[test]
fn index_select_value_is_the_row_of_the_table() {
    let mut g = Graph::new();
    let mut s = Session::new();
    let table = g.new_const(3, 2, Fill::Given);
    s.set(table, 3, 2, vec![1.0, 2.0, 3.0, 4.0, 5.0, 6.0]);
    let expected = s.value(table).select_rows(&[2, 0]);
    let picked = g.index_select(table, vec![2, 0]).unwrap();
    s.forward(&g);
    assert_eq!(s.value(picked), &expected);
    assert_eq!(s.value(picked).data(), &vec![5.0, 6.0, 1.0, 2.0]);
}

#[test]
fn dot_is_associative_within_tolerance() {
    let mut g = Graph::new();
    let mut s = Session::new();
    let a = g.new_const(2, 3, Fill::Given);
    let b = g.new_const(3, 2, Fill::Given);
    let c = g.new_const(2, 2, Fill::Given);
    s.set(a, 2, 3, vec![0.1, 0.2, 0.3, 0.4, 0.5, 0.6]);
    s.set(b, 3, 2, vec![1.5, -2.0, 0.25, 0.75, -1.0, 3.0]);
    s.set(c, 2, 2, vec![0.3, 0.7, -0.9, 1.1]);
    let ab = g.dot(a, b).unwrap();
    let left = g.dot(ab, c).unwrap();
    let bc = g.dot(b, c).unwrap();
    let right = g.dot(a, bc).unwrap();
    s.forward(&g);
    assert_eq!(g.shape(left), Some((2, 2)));
    for (x, y) in s.value(left).data().iter().zip(s.value(right).data().iter()) {
        assert!(close(*x, *y));
    }
}

#[test]
fn lstm_start_state_values() {
    let mut g = Graph::new();
    let mut s = Session::new();
    let cell = LSTMCell::new(&mut g, 3, 4, 1).unwrap();
    let mark = g.len();
    let (h, c) = cell.create_start_state(&mut g, 2);
    for p in cell.parameters() {
        let (rows, cols) = g.shape(p).unwrap();
        s.set(p, rows, cols, vec![0.0; rows * cols]);
    }
    assert_eq!(mark, 13);
    s.forward(&g);
    for t in [h, c] {
        let m = s.value(t);
        assert_eq!((m.rows(), m.cols()), (2, 4));
        for r in 0..2 {
            for col in 0..4 {
                assert_eq!(m[[r, col]], if col == 0 { 1.0 } else { 0.0 });
            }
        }
    }
}

#[test]
fn rnn_two_steps_match_the_unrolled_computation() {
    let mut g = Graph::new();
    let mut s = Session::new();
    let cell = RNNCell::new(&mut g, 1, 2, 1, Box::new(Tanh {})).unwrap();
    let w_ih = [0.3, -0.2];
    let b_ih = [0.05, 0.1];
    let w_hh = [0.5, 0.1, -0.4, 0.2];
    let b_hh = [-0.1, 0.0];
    let w_ho = [0.7, -0.6];
    let b_ho = [0.25];
    s.set(cell.w_ih.weights, 1, 2, w_ih.to_vec());
    s.set(cell.w_ih.bias.unwrap(), 1, 2, b_ih.to_vec());
    s.set(cell.w_hh.weights, 2, 2, w_hh.to_vec());
    s.set(cell.w_hh.bias.unwrap(), 1, 2, b_hh.to_vec());
    s.set(cell.w_ho.weights, 2, 1, w_ho.to_vec());
    s.set(cell.w_ho.bias.unwrap(), 1, 1, b_ho.to_vec());
    let xs = [1.5, -0.5];
    let h0 = cell.create_start_state(&mut g, 1);
    let x1 = g.new_const(1, 1, Fill::Given);
    s.set(x1, 1, 1, vec![xs[0]]);
    let step1 = cell.forward(&mut g, &[x1, h0]).unwrap();
    let x2 = g.new_const(1, 1, Fill::Given);
    s.set(x2, 1, 1, vec![xs[1]]);
    let step2 = cell.forward(&mut g, &[x2, step1[1]]).unwrap();
    s.forward(&g);

    let mut h = [0.0f64, 0.0];
    let mut outs = [0.0f64, 0.0];
    for (k, x) in xs.iter().enumerate() {
        let mut next = [0.0f64, 0.0];
        for j in 0..2 {
            let from_input = x * w_ih[j] + b_ih[j];
            let from_state = h[0] * w_hh[j] + h[1] * w_hh[2 + j] + b_hh[j];
            next[j] = (from_input + from_state).tanh();
        }
        h = next;
        outs[k] = h[0] * w_ho[0] + h[1] * w_ho[1] + b_ho[0];
    }
    assert!(close(s.value(step2[0])[[0, 0]], outs[1]));
    assert!(close(s.value(step1[0])[[0, 0]], outs[0]));
    assert!(close(s.value(step2[1])[[0, 0]], h[0]));
    assert!(close(s.value(step2[1])[[0, 1]], h[1]));
    assert!(!close(outs[0], outs[1]));
}

#[test]
fn linear_layer_learns_the_streetlights() {
    let streetlights = [
        [1.0, 0.0, 1.0],
        [0.0, 1.0, 1.0],
        [0.0, 0.0, 1.0],
        [1.0, 1.0, 1.0],
        [0.0, 1.0, 1.0],
        [1.0, 0.0, 1.0],
    ];
    let walk_vs_stop = [0.0, 1.0, 0.0, 1.0, 1.0, 0.0];
    let mut g = Graph::new();
    let mut s = Session::new();
    let layer = Linear::new(&mut g, 3, 1, false);
    s.set(layer.weights, 3, 1, vec![0.5, 0.48, -0.7]);
    let params = layer.parameters();
    let mark = g.len();
    let mut last_error = f64::MAX;
    for _ in 0..40 {
        let mut total_error = 0.0;
        for (row, goal) in streetlights.iter().zip(walk_vs_stop.iter()) {
            let input = g.new_const(1, 3, Fill::Given);
            s.set(input, 1, 3, row.to_vec());
            let out = layer.forward(&mut g, &[input]).unwrap();
            s.forward(&g);
            let prediction = s.value(out[0])[[0, 0]];
            total_error += (prediction - goal).powi(2);
            s.backward(&g, out[0], Matrix::new(1, 1, vec![prediction - goal]));
            s.descend(&params, 0.1);
            g.rollback(mark);
            s.truncate(mark);
        }
        last_error = total_error;
    }
    assert!(last_error < 0.01, "error on the last pass: {}", last_error);
    assert_eq!(g.len(), mark);
}

#[test]
fn lstm_cell_error_falls_at_every_checkpoint() {
    let inputs = [1.0, 0.0, 1.0, 0.0, 1.0, 1.0, 0.0, 0.0, 1.0, 1.0, 1.0, 1.0];
    let targets = [1.0, 1.0, 0.0, 0.0];
    let mut g = Graph::new();
    let mut s = Session::new();
    let cell = LSTMCell::new(&mut g, 3, 4, 1).unwrap();
    let params = cell.parameters();
    let mut seed: u64 = 1;
    for p in &params {
        let (rows, cols) = g.shape(*p).unwrap();
        let zero_bias = matches!(g.node(*p).unwrap().op, Op::Leaf(Fill::Zeros));
        let mut data = Vec::new();
        for _ in 0..rows * cols {
            seed = seed.wrapping_mul(6364136223846793005).wrapping_add(1442695040888963407);
            let unit = ((seed >> 11) as f64) / ((1u64 << 53) as f64);
            data.push(if zero_bias { 0.0 } else { unit * 0.5 });
        }
        s.set(*p, rows, cols, data);
    }
    let mark = g.len();
    let mut checkpoints = Vec::new();
    for pass in 1..=60 {
        let x = g.new_const(4, 3, Fill::Given);
        s.set(x, 4, 3, inputs.to_vec());
        let (h, c) = cell.create_start_state(&mut g, 4);
        let out = cell.forward(&mut g, &[x, h, c]).unwrap();
        s.forward(&g);
        let prediction = s.value(out[0]).clone();
        let delta = prediction - Matrix::new(4, 1, targets.to_vec());
        let error: f64 = delta.data().iter().map(|d| d * d).sum();
        if pass % 10 == 0 {
            checkpoints.push(error);
        }
        s.backward(&g, out[0], delta);
        s.descend(&params, 0.2);
        g.rollback(mark);
        s.truncate(mark);
    }
    assert_eq!(checkpoints.len(), 6);
    for k in 1..checkpoints.len() {
        assert!(
            checkpoints[k] < checkpoints[k - 1],
            "error did not fall: {:?}",
            checkpoints
        );
    }
}

fn sigmoid(x: f64) -> f64 {
    1.0 / (1.0 + (-x).exp())
}

#[test]
fn linear_forward_adds_the_bias_to_every_row() {
    let mut g = Graph::new();
    let mut s = Session::new();
    let layer = Linear::new(&mut g, 2, 2, true);
    s.set(layer.weights, 2, 2, vec![1.0, 2.0, 3.0, 4.0]);
    s.set(layer.bias.unwrap(), 1, 2, vec![0.5, -0.5]);
    let x = g.new_const(3, 2, Fill::Given);
    s.set(x, 3, 2, vec![1.0, 0.0, 0.0, 1.0, 2.0, -1.0]);
    let out = layer.forward(&mut g, &[x]).unwrap();
    s.forward(&g);
    assert_eq!(s.value(out[0]).data(), &vec![1.5, 1.5, 3.5, 3.5, -0.5, -0.5]);
}

#[test]
fn lstm_step_matches_the_gate_equations() {
    let mut g = Graph::new();
    let mut s = Session::new();
    let cell = LSTMCell::new(&mut g, 1, 1, 1).unwrap();
    let (xf, bf, hf) = (0.4, 0.1, -0.3);
    let (xi, bi, hi) = (-0.6, 0.2, 0.5);
    let (xo, bo, ho) = (0.9, -0.4, 0.7);
    let (xc, bc, hc) = (0.35, 0.05, -0.8);
    let who = 1.25;
    s.set(cell.xf.weights, 1, 1, vec![xf]);
    s.set(cell.xf.bias.unwrap(), 1, 1, vec![bf]);
    s.set(cell.xi.weights, 1, 1, vec![xi]);
    s.set(cell.xi.bias.unwrap(), 1, 1, vec![bi]);
    s.set(cell.xo.weights, 1, 1, vec![xo]);
    s.set(cell.xo.bias.unwrap(), 1, 1, vec![bo]);
    s.set(cell.xc.weights, 1, 1, vec![xc]);
    s.set(cell.xc.bias.unwrap(), 1, 1, vec![bc]);
    s.set(cell.hf.weights, 1, 1, vec![hf]);
    s.set(cell.hi.weights, 1, 1, vec![hi]);
    s.set(cell.ho.weights, 1, 1, vec![ho]);
    s.set(cell.hc.weights, 1, 1, vec![hc]);
    s.set(cell.w_ho.weights, 1, 1, vec![who]);
    let (h0, c0) = cell.create_start_state(&mut g, 1);
    let x = g.new_const(1, 1, Fill::Given);
    let input = 0.75;
    s.set(x, 1, 1, vec![input]);
    let out = cell.forward(&mut g, &[x, h0, c0]).unwrap();
    s.forward(&g);

    let (prev_h, prev_c) = (1.0, 1.0);
    let f = sigmoid(input * xf + bf + prev_h * hf);
    let i = sigmoid(input * xi + bi + prev_h * hi);
    let o = sigmoid(input * xo + bo + prev_h * ho);
    let candidate = (input * xc + bc + prev_h * hc).tanh();
    let c = f * prev_c + i * candidate;
    let h = o * c.tanh();
    let output = h * who;
    assert!(close(s.value(out[0])[[0, 0]], output));
    assert!(close(s.value(out[1])[[0, 0]], h));
    assert!(close(s.value(out[2])[[0, 0]], c));
}
