//! Layers: steps of a network that append to a graph the nodes of their
//! forward pass. Every layer says exactly which nodes it appends, fails
//! without leaving a node behind, and names its trainable leaves in a fixed
//! order.

use crate::tensor::{
    add_spec, detach_spec, dot_spec, expand_spec, grown, in_graph, in_shape, index_select_spec,
    known_entry, landed, leaf_node, lemma_add_lands, lemma_dot_lands, lemma_expand_lands,
    lemma_grown_cut, lemma_grown_keeps, lemma_grown_same, lemma_grown_twice, lemma_mul_lands,
    lemma_sigmoid_lands, lemma_tanh_lands, mul_spec, next_handle, same_shape, sigmoid_spec,
    tanh_spec, tried, Fill, Graph, NodeView, Op, OpView, Tensor, TensorError,
};
use vstd::prelude::*;

verus! {

/// Whether graph `after` and result `r` are what `outcome` says: on success
/// the graph and the outputs it names, on failure the error and the graph
/// `before`.
pub open spec fn ran(
    before: Seq<NodeView>,
    outcome: Result<(Seq<NodeView>, Seq<Tensor>), TensorError>,
    after: Seq<NodeView>,
    r: Result<Vec<Tensor>, TensorError>,
) -> bool {
    match outcome {
        Ok((g, outs)) => after == g && (match r {
            Ok(v) => v@ == outs,
            Err(_) => false,
        }),
        Err(e) => after == before && (match r {
            Ok(_) => false,
            Err(x) => x == e,
        }),
    }
}

/// Whether every output of a successful pass names a node of `g`.
pub open spec fn outputs_in_graph(g: Seq<NodeView>, r: Result<Vec<Tensor>, TensorError>) -> bool {
    match r {
        Ok(v) => forall|k: int| 0 <= k < v@.len() ==> in_graph(g, #[trigger] v@[k]),
        Err(_) => true,
    }
}

/// A single output, as a layer hands it back.
pub open spec fn one_output(built: Result<(Seq<NodeView>, Tensor), TensorError>) -> Result<
    (Seq<NodeView>, Seq<Tensor>),
    TensorError,
> {
    match built {
        Ok((g, t)) => Ok((g, seq![t])),
        Err(e) => Err(e),
    }
}

/// Whether `outcome` is a success with one output that has landed as
/// `landed` says.
pub open spec fn landed_alone(
    g: Seq<NodeView>,
    outcome: Result<(Seq<NodeView>, Seq<Tensor>), TensorError>,
    rows: nat,
    cols: nat,
    count: nat,
) -> bool {
    match outcome {
        Ok((g1, outs)) => outs.len() == 1 && landed(
            g,
            Ok::<(Seq<NodeView>, Tensor), TensorError>((g1, outs[0])),
            rows,
            cols,
            count,
        ),
        Err(_) => false,
    }
}

/// Cuts the graph back to `before`, the graph it has grown from.
fn undo(g: &mut Graph, mark: usize, Ghost(before): Ghost<Seq<NodeView>>)
    requires
        old(g).wf(),
        grown(before, old(g)@),
        mark == before.len(),
    ensures
        final(g).wf(),
        final(g)@ == before,
        grown(before, final(g)@),
{
    proof {
        lemma_grown_cut(before, g@);
        lemma_grown_same(before);
    }
    g.rollback(mark);
}

fn single(t: Tensor) -> (v: Vec<Tensor>)
    ensures
        v@ == seq![t],
{
    let v = vec![t];
    assert(v@ =~= seq![t]);
    v
}

fn pair(a: Tensor, b: Tensor) -> (v: Vec<Tensor>)
    ensures
        v@ == seq![a, b],
{
    let v = vec![a, b];
    assert(v@ =~= seq![a, b]);
    v
}

fn triple(a: Tensor, b: Tensor, c: Tensor) -> (v: Vec<Tensor>)
    ensures
        v@ == seq![a, b, c],
{
    let v = vec![a, b, c];
    assert(v@ =~= seq![a, b, c]);
    v
}

/// A step of a network: it appends to the graph the nodes that compute its
/// outputs from its inputs, and names the leaves it can be trained through.
pub trait Layer {
    /// The graph and the outputs that `forward` leaves behind on graph `g`
    /// and `inputs`, or the error it fails with.
    spec fn forward_spec(&self, g: Seq<NodeView>, inputs: Seq<Tensor>) -> Result<
        (Seq<NodeView>, Seq<Tensor>),
        TensorError,
    >;

    /// Appends the nodes of one forward pass. Earlier nodes are never
    /// touched, and a pass that fails leaves the graph as it was.
    fn forward(&self, g: &mut Graph, inputs: &[Tensor]) -> (r: Result<Vec<Tensor>, TensorError>)
        requires
            old(g).wf(),
        ensures
            final(g).wf(),
            grown(old(g)@, final(g)@),
            ran(old(g)@, self.forward_spec(old(g)@, inputs@), final(g)@, r),
            outputs_in_graph(final(g)@, r),
    ;

    /// The leaves that `parameters` hands out, in their fixed order.
    spec fn parameters_spec(&self) -> Seq<Tensor>;

    /// The trainable leaves of this layer and of the layers inside it.
    fn parameters(&self) -> (r: Vec<Tensor>)
        ensures
            r@ == self.parameters_spec(),
    ;
}

/// An affine projection: `input · weights`, plus the bias row on every row of
/// the batch where there is a bias.
#[derive(Debug)]
pub struct Linear {
    pub weights: Tensor,
    pub bias: Option<Tensor>,
}

/// The passing of `input` through a projection with the given leaves: the
/// product, then the bias row repeated once for each row of `input`, then
/// their sum.
pub open spec fn linear_spec(
    g: Seq<NodeView>,
    input: Tensor,
    weights: Tensor,
    bias: Option<Tensor>,
) -> Result<(Seq<NodeView>, Tensor), TensorError> {
    match dot_spec(g, input, weights) {
        Err(e) => Err(e),
        Ok((g1, product)) => match bias {
            None => Ok((g1, product)),
            Some(b) => match expand_spec(g1, b, 0, g[input.id as int].rows) {
                Err(e) => Err(e),
                Ok((g2, spread)) => add_spec(g2, product, spread),
            },
        },
    }
}

/// The leaf that holds the weights of a projection: drawn uniformly from
/// an interval of width one half that is centred on zero.
pub open spec fn weight_leaf(n_inputs: usize, n_outputs: usize) -> NodeView {
    leaf_node(n_inputs, n_outputs, Fill::Uniform { inverse_width: 2, centered: true })
}

/// The leaves that a new projection brings: its weights, then its bias row of
/// zeros if it has one.
pub open spec fn linear_leaves(n_inputs: usize, n_outputs: usize, bias: bool) -> Seq<NodeView> {
    if bias {
        seq![weight_leaf(n_inputs, n_outputs), leaf_node(1, n_outputs, Fill::Zeros)]
    } else {
        seq![weight_leaf(n_inputs, n_outputs)]
    }
}

/// The projection whose leaves start at position `base` of the graph.
pub open spec fn linear_at(base: nat, bias: bool) -> Linear {
    Linear {
        weights: Tensor { id: base as usize },
        bias: if bias {
            Some(Tensor { id: (base + 1) as usize })
        } else {
            None
        },
    }
}

impl Linear {
    /// Whether the leaves of this projection are in `g` with the shapes of a
    /// projection from `n_inputs` to `n_outputs` features.
    pub open spec fn fits(&self, g: Seq<NodeView>, n_inputs: nat, n_outputs: nat) -> bool {
        &&& in_graph(g, self.weights)
        &&& g[self.weights.id as int].rows == n_inputs
        &&& g[self.weights.id as int].cols == n_outputs
        &&& match self.bias {
            None => true,
            Some(b) => in_graph(g, b) && g[b.id as int].rows == 1 && g[b.id as int].cols
                == n_outputs,
        }
    }

    /// The number of nodes that one pass through this projection appends.
    pub open spec fn pass_len(&self) -> nat {
        if self.bias.is_some() {
            3
        } else {
            1
        }
    }

    /// A projection that fits a graph fits the grown graph.
    pub proof fn lemma_fits_grown(
        &self,
        before: Seq<NodeView>,
        after: Seq<NodeView>,
        n_inputs: nat,
        n_outputs: nat,
    )
        requires
            self.fits(before, n_inputs, n_outputs),
            grown(before, after),
        ensures
            self.fits(after, n_inputs, n_outputs),
    {
        lemma_grown_keeps(before, after, self.weights);
        if let Some(b) = self.bias {
            lemma_grown_keeps(before, after, b);
        }
    }

    /// A pass through a projection that fits the graph succeeds exactly on
    /// an input with `n_inputs` columns, and then gives a node with the rows
    /// of the input and `n_outputs` columns, whatever the number of rows. On
    /// any other input of the graph it fails with a shape mismatch.
    pub proof fn lemma_forward_shape(
        &self,
        g: Seq<NodeView>,
        input: Tensor,
        n_inputs: nat,
        n_outputs: nat,
    )
        requires
            g.len() + self.pass_len() <= usize::MAX,
            self.fits(g, n_inputs, n_outputs),
            in_graph(g, input),
        ensures
            g[input.id as int].cols == n_inputs ==> landed(
                g,
                linear_spec(g, input, self.weights, self.bias),
                g[input.id as int].rows,
                n_outputs,
                self.pass_len(),
            ),
            g[input.id as int].cols != n_inputs ==> linear_spec(
                g,
                input,
                self.weights,
                self.bias,
            ) == Err::<(Seq<NodeView>, Tensor), TensorError>(TensorError::ShapeMismatch),
    {
        if g[input.id as int].cols == n_inputs {
            lemma_dot_lands(g, input, self.weights);
            let (g1, product) = dot_spec(g, input, self.weights).unwrap();
            if let Some(b) = self.bias {
                lemma_grown_keeps(g, g1, b);
                lemma_expand_lands(g1, b, g[input.id as int].rows);
                let (g2, spread) = expand_spec(g1, b, 0, g[input.id as int].rows).unwrap();
                lemma_grown_keeps(g1, g2, product);
                lemma_add_lands(g2, product, spread);
                let (g3, sum) = add_spec(g2, product, spread).unwrap();
                lemma_grown_twice(g, g1, g2);
                lemma_grown_twice(g, g2, g3);
            }
        }
    }

    /// A projection from `n_inputs` to `n_outputs` features. The weights are
    /// a new leaf of `n_inputs` rows and `n_outputs` columns; the bias, where
    /// asked for, is a new leaf of one row.
    pub fn new(g: &mut Graph, n_inputs: usize, n_outputs: usize, bias: bool) -> (l: Linear)
        requires
            old(g).wf(),
        ensures
            final(g).wf(),
            grown(old(g)@, final(g)@),
            final(g)@ == old(g)@ + linear_leaves(n_inputs, n_outputs, bias),
            l == linear_at(old(g)@.len(), bias),
            l.fits(final(g)@, n_inputs as nat, n_outputs as nat),
    {
        broadcast use {lemma_grown_same, lemma_grown_twice};
        let weights = g.new_const(
            n_inputs,
            n_outputs,
            Fill::Uniform { inverse_width: 2, centered: true },
        );
        let bias = if bias {
            Some(g.new_const(1, n_outputs, Fill::Zeros))
        } else {
            None
        };
        assert(g@ =~= old(g)@ + linear_leaves(n_inputs, n_outputs, bias.is_some()));
        Linear { weights, bias }
    }

    /// Passes the one tensor `input` through the projection. Nodes appended
    /// before a failure stay in the graph, for the caller to cut back.
    pub(crate) fn apply(&self, g: &mut Graph, input: Tensor) -> (r: Result<Tensor, TensorError>)
        requires
            old(g).wf(),
        ensures
            final(g).wf(),
            grown(old(g)@, final(g)@),
            tried(old(g)@, linear_spec(old(g)@, input, self.weights, self.bias), final(g)@, r),
    {
        broadcast use {lemma_grown_same, lemma_grown_twice};
        let rows: usize = match g.shape(input) {
            Some(shape) => shape.0,
            None => { return Err(TensorError::ConfigurationError); },
        };
        let product = g.dot(input, self.weights)?;
        match self.bias {
            None => Ok(product),
            Some(b) => {
                let spread = g.expand(b, 0, rows)?;
                g.add(product, spread)
            },
        }
    }
}

impl Layer for Linear {
    open spec fn forward_spec(&self, g: Seq<NodeView>, inputs: Seq<Tensor>) -> Result<
        (Seq<NodeView>, Seq<Tensor>),
        TensorError,
    > {
        if inputs.len() < 1 {
            Err(TensorError::ConfigurationError)
        } else {
            one_output(linear_spec(g, inputs[0], self.weights, self.bias))
        }
    }

    fn forward(&self, g: &mut Graph, inputs: &[Tensor]) -> (r: Result<Vec<Tensor>, TensorError>) {
        broadcast use {lemma_grown_same, lemma_grown_twice};
        if inputs.len() < 1 {
            return Err(TensorError::ConfigurationError);
        }
        let mark: usize = g.len();
        match self.apply(g, inputs[0]) {
            Ok(t) => Ok(single(t)),
            Err(e) => {
                undo(g, mark, Ghost(old(g)@));
                Err(e)
            },
        }
    }

    open spec fn parameters_spec(&self) -> Seq<Tensor> {
        match self.bias {
            None => seq![self.weights],
            Some(b) => seq![self.weights, b],
        }
    }

    fn parameters(&self) -> (r: Vec<Tensor>) {
        match self.bias {
            None => vec![self.weights],
            Some(b) => vec![self.weights, b],
        }
    }
}

/// The logistic function as a layer without parameters.
#[derive(Debug)]
pub struct Sigmoid {}

impl Layer for Sigmoid {
    open spec fn forward_spec(&self, g: Seq<NodeView>, inputs: Seq<Tensor>) -> Result<
        (Seq<NodeView>, Seq<Tensor>),
        TensorError,
    > {
        if inputs.len() < 1 {
            Err(TensorError::ConfigurationError)
        } else {
            one_output(sigmoid_spec(g, inputs[0]))
        }
    }

    fn forward(&self, g: &mut Graph, inputs: &[Tensor]) -> (r: Result<Vec<Tensor>, TensorError>) {
        broadcast use {lemma_grown_same, lemma_grown_twice};
        if inputs.len() < 1 {
            return Err(TensorError::ConfigurationError);
        }
        match g.sigmoid(inputs[0]) {
            Ok(t) => Ok(single(t)),
            Err(e) => Err(e),
        }
    }

    open spec fn parameters_spec(&self) -> Seq<Tensor> {
        Seq::empty()
    }

    fn parameters(&self) -> (r: Vec<Tensor>) {
        Vec::new()
    }
}

impl Sigmoid {
    /// The layer turns a tensor of the graph into one new node of the same
    /// shape.
    pub proof fn lemma_keeps_shape(&self, g: Seq<NodeView>, t: Tensor)
        requires
            g.len() < usize::MAX,
            in_graph(g, t),
        ensures
            landed_alone(
                g,
                self.forward_spec(g, seq![t]),
                g[t.id as int].rows,
                g[t.id as int].cols,
                1,
            ),
    {
        lemma_sigmoid_lands(g, t);
    }
}

/// The hyperbolic tangent as a layer without parameters.
#[derive(Debug)]
pub struct Tanh {}

impl Layer for Tanh {
    open spec fn forward_spec(&self, g: Seq<NodeView>, inputs: Seq<Tensor>) -> Result<
        (Seq<NodeView>, Seq<Tensor>),
        TensorError,
    > {
        if inputs.len() < 1 {
            Err(TensorError::ConfigurationError)
        } else {
            one_output(tanh_spec(g, inputs[0]))
        }
    }

    fn forward(&self, g: &mut Graph, inputs: &[Tensor]) -> (r: Result<Vec<Tensor>, TensorError>) {
        broadcast use {lemma_grown_same, lemma_grown_twice};
        if inputs.len() < 1 {
            return Err(TensorError::ConfigurationError);
        }
        match g.tanh(inputs[0]) {
            Ok(t) => Ok(single(t)),
            Err(e) => Err(e),
        }
    }

    open spec fn parameters_spec(&self) -> Seq<Tensor> {
        Seq::empty()
    }

    fn parameters(&self) -> (r: Vec<Tensor>) {
        Vec::new()
    }
}

impl Tanh {
    /// The layer turns a tensor of the graph into one new node of the same
    /// shape.
    pub proof fn lemma_keeps_shape(&self, g: Seq<NodeView>, t: Tensor)
        requires
            g.len() < usize::MAX,
            in_graph(g, t),
        ensures
            landed_alone(
                g,
                self.forward_spec(g, seq![t]),
                g[t.id as int].rows,
                g[t.id as int].cols,
                1,
            ),
    {
        lemma_tanh_lands(g, t);
    }
}

/// Layers applied one after the other, each to the single output of the one
/// before it.
pub struct Sequential {
    pub layers: Vec<Box<dyn Layer>>,
}

/// The passing of `input` through `layers` in order. A layer that hands back
/// anything but one tensor ends the pass with a configuration error.
pub open spec fn chain_spec(layers: Seq<Box<dyn Layer>>, g: Seq<NodeView>, input: Tensor) -> Result<
    (Seq<NodeView>, Tensor),
    TensorError,
>
    decreases layers.len(),
{
    if layers.len() == 0 {
        Ok((g, input))
    } else {
        match chain_spec(layers.drop_last(), g, input) {
            Err(e) => Err(e),
            Ok((g1, t)) => match layers.last().forward_spec(g1, seq![t]) {
                Err(e) => Err(e),
                Ok((g2, outs)) => if outs.len() == 1 {
                    Ok((g2, outs[0]))
                } else {
                    Err(TensorError::ConfigurationError)
                },
            },
        }
    }
}

/// The parameters of `layers`, layer after layer.
pub open spec fn chain_parameters(layers: Seq<Box<dyn Layer>>) -> Seq<Tensor>
    decreases layers.len(),
{
    if layers.len() == 0 {
        Seq::empty()
    } else {
        chain_parameters(layers.drop_last()) + layers.last().parameters_spec()
    }
}

/// The number of parameters of `layers`, layer after layer.
pub open spec fn chain_parameter_count(layers: Seq<Box<dyn Layer>>) -> nat
    decreases layers.len(),
{
    if layers.len() == 0 {
        0
    } else {
        chain_parameter_count(layers.drop_last()) + layers.last().parameters_spec().len()
    }
}

/// A pass that has failed after its first `k` layers fails in the same way
/// as a whole.
pub proof fn lemma_chain_error_stays(
    layers: Seq<Box<dyn Layer>>,
    k: int,
    g: Seq<NodeView>,
    input: Tensor,
)
    requires
        0 <= k <= layers.len(),
        chain_spec(layers.take(k), g, input).is_err(),
    ensures
        chain_spec(layers, g, input) == chain_spec(layers.take(k), g, input),
    decreases layers.len(),
{
    if k == layers.len() {
        assert(layers.take(k) =~= layers);
    } else {
        assert(layers.drop_last().take(k) =~= layers.take(k));
        lemma_chain_error_stays(layers.drop_last(), k, g, input);
    }
}

impl Sequential {
    /// A chain of the given layers, in the given order.
    pub fn new(layers: Vec<Box<dyn Layer>>) -> (s: Sequential)
        ensures
            s.layers@ == layers@,
    {
        broadcast use {lemma_grown_same, lemma_grown_twice};
        Sequential { layers }
    }

    /// Puts `layer` at the end of the chain.
    pub fn add(&mut self, layer: Box<dyn Layer>)
        ensures
            final(self).layers@ == old(self).layers@.push(layer),
    {
        self.layers.push(layer);
    }
}

impl Layer for Sequential {
    open spec fn forward_spec(&self, g: Seq<NodeView>, inputs: Seq<Tensor>) -> Result<
        (Seq<NodeView>, Seq<Tensor>),
        TensorError,
    > {
        if inputs.len() < 1 || !in_graph(g, inputs[0]) {
            Err(TensorError::ConfigurationError)
        } else {
            one_output(chain_spec(self.layers@, g, inputs[0]))
        }
    }

    fn forward(&self, g: &mut Graph, inputs: &[Tensor]) -> (r: Result<Vec<Tensor>, TensorError>) {
        broadcast use {lemma_grown_same, lemma_grown_twice};
        if inputs.len() < 1 || !g.contains(inputs[0]) {
            return Err(TensorError::ConfigurationError);
        }
        let mark: usize = g.len();
        let mut current = inputs[0];
        let mut i: usize = 0;
        while i < self.layers.len()
            invariant
                i <= self.layers.len(),
                inputs@.len() >= 1,
                in_graph(old(g)@, inputs@[0]),
                in_graph(g@, current),
                g.wf(),
                mark == old(g)@.len(),
                grown(old(g)@, g@),
                chain_spec(self.layers@.take(i as int), old(g)@, inputs@[0]) == Ok::<
                    (Seq<NodeView>, Tensor),
                    TensorError,
                >((g@, current)),
            decreases self.layers.len() - i,
        {
            let ghost before = g@;
            let arg = single(current);
            let step = self.layers[i].forward(g, arg.as_slice());
            proof {
                lemma_grown_twice(old(g)@, before, g@);
                assert(self.layers@.take(i + 1).drop_last() =~= self.layers@.take(i as int));
                assert(self.layers@.take(i + 1).last() == self.layers@[i as int]);
            }
            match step {
                Err(e) => {
                    proof {
                        lemma_chain_error_stays(self.layers@, i + 1, old(g)@, inputs@[0]);
                    }
                    undo(g, mark, Ghost(old(g)@));
                    return Err(e);
                },
                Ok(outs) => {
                    if outs.len() != 1 {
                        proof {
                            lemma_chain_error_stays(self.layers@, i + 1, old(g)@, inputs@[0]);
                        }
                        undo(g, mark, Ghost(old(g)@));
                        return Err(TensorError::ConfigurationError);
                    }
                    current = outs[0];
                },
            }
            i = i + 1;
        }
        proof {
            assert(self.layers@.take(i as int) =~= self.layers@);
        }
        Ok(single(current))
    }

    open spec fn parameters_spec(&self) -> Seq<Tensor> {
        chain_parameters(self.layers@)
    }

    fn parameters(&self) -> (r: Vec<Tensor>) {
        let mut all: Vec<Tensor> = Vec::new();
        let mut i: usize = 0;
        while i < self.layers.len()
            invariant
                i <= self.layers.len(),
                all@ == chain_parameters(self.layers@.take(i as int)),
            decreases self.layers.len() - i,
        {
            let mut own = self.layers[i].parameters();
            proof {
                assert(self.layers@.take(i + 1).drop_last() =~= self.layers@.take(i as int));
                assert(self.layers@.take(i + 1).last() == self.layers@[i as int]);
            }
            all.append(&mut own);
            i = i + 1;
        }
        proof {
            assert(self.layers@.take(i as int) =~= self.layers@);
        }
        all
    }
}

/// A chain has as many parameters as its layers have together.
pub proof fn lemma_chain_parameters_len(layers: Seq<Box<dyn Layer>>)
    ensures
        chain_parameters(layers).len() == chain_parameter_count(layers),
    decreases layers.len(),
{
    if layers.len() > 0 {
        lemma_chain_parameters_len(layers.drop_last());
    }
}

/// The parameters of a chain are those of its layers in the order of the
/// layers: parameter `j` of layer `k` stands after all the parameters of the
/// layers before `k`.
pub proof fn lemma_chain_parameters_order(layers: Seq<Box<dyn Layer>>, k: int, j: int)
    requires
        0 <= k < layers.len(),
        0 <= j < layers[k].parameters_spec().len(),
    ensures
        chain_parameter_count(layers.take(k)) + j < chain_parameters(layers).len(),
        chain_parameters(layers)[chain_parameter_count(layers.take(k)) + j]
            == layers[k].parameters_spec()[j],
    decreases layers.len(),
{
    lemma_chain_parameters_len(layers);
    lemma_chain_parameters_len(layers.drop_last());
    if k == layers.len() - 1 {
        assert(layers.take(k) =~= layers.drop_last());
    } else {
        assert(layers.drop_last().take(k) =~= layers.take(k));
        assert(layers.drop_last()[k] == layers[k]);
        lemma_chain_parameters_order(layers.drop_last(), k, j);
    }
}

/// A table with one row for each word of a vocabulary.
#[derive(Debug)]
pub struct Embedding {
    pub weights: Tensor,
}

/// The row indices that the node named by `t` holds, if it is a leaf of
/// indices.
pub open spec fn indices_of(g: Seq<NodeView>, t: Tensor) -> Option<Seq<usize>> {
    if in_graph(g, t) {
        match g[t.id as int].op {
            OpView::Indices(v) => Some(v),
            _ => None,
        }
    } else {
        None
    }
}

fn copy_indices(g: &Graph, t: Tensor) -> (r: Option<Vec<usize>>)
    ensures
        match indices_of(g@, t) {
            Some(v) => r.is_some() && r.unwrap()@ == v,
            None => r.is_none(),
        },
{
    match g.node(t) {
        None => None,
        Some(node) => match &node.op {
            Op::Indices(v) => {
                let mut copy: Vec<usize> = Vec::new();
                let mut k: usize = 0;
                while k < v.len()
                    invariant
                        k <= v.len(),
                        copy@ == v@.take(k as int),
                    decreases v.len() - k,
                {
                    copy.push(v[k]);
                    assert(v@.take(k + 1) =~= v@.take(k as int).push(v@[k as int]));
                    k = k + 1;
                }
                assert(v@.take(k as int) =~= v@);
                Some(copy)
            },
            _ => None,
        },
    }
}

impl Embedding {
    /// A table of `vocab_size` rows and `embedding_size` columns: a new leaf
    /// drawn uniformly from an interval of width `1 / embedding_size` that is
    /// centred on zero.
    pub fn new(g: &mut Graph, vocab_size: usize, embedding_size: usize) -> (e: Embedding)
        requires
            old(g).wf(),
        ensures
            final(g).wf(),
            grown(old(g)@, final(g)@),
            final(g)@ == old(g)@.push(
                leaf_node(
                    vocab_size,
                    embedding_size,
                    Fill::Uniform { inverse_width: embedding_size, centered: true },
                ),
            ),
            e.weights == next_handle(old(g)@),
    {
        broadcast use {lemma_grown_same, lemma_grown_twice};
        Embedding {
            weights: g.new_const(
                vocab_size,
                embedding_size,
                Fill::Uniform { inverse_width: embedding_size, centered: true },
            ),
        }
    }

    /// A table of the given shape whose entries the caller supplies: a new
    /// leaf, shared with nothing.
    pub fn from_weights(g: &mut Graph, rows: usize, cols: usize) -> (e: Embedding)
        requires
            old(g).wf(),
        ensures
            final(g).wf(),
            grown(old(g)@, final(g)@),
            final(g)@ == old(g)@.push(leaf_node(rows, cols, Fill::Given)),
            e.weights == next_handle(old(g)@),
    {
        broadcast use {lemma_grown_same, lemma_grown_twice};
        Embedding { weights: g.new_const(rows, cols, Fill::Given) }
    }

    /// A table with the same entries in a new leaf of its own. Fails with a
    /// configuration error where the table is not in `g`.
    pub fn clone(&self, g: &mut Graph) -> (r: Result<Embedding, TensorError>)
        requires
            old(g).wf(),
        ensures
            final(g).wf(),
            grown(old(g)@, final(g)@),
            match detach_spec(old(g)@, self.weights) {
                Ok((g1, t)) => final(g)@ == g1 && r == Ok::<Embedding, TensorError>(
                    Embedding { weights: t },
                ),
                Err(e) => final(g)@ == old(g)@ && r == Err::<Embedding, TensorError>(e),
            },
    {
        broadcast use {lemma_grown_same, lemma_grown_twice};
        match g.detach(self.weights) {
            Ok(t) => Ok(Embedding { weights: t }),
            Err(e) => Err(e),
        }
    }
}

impl Layer for Embedding {
    open spec fn forward_spec(&self, g: Seq<NodeView>, inputs: Seq<Tensor>) -> Result<
        (Seq<NodeView>, Seq<Tensor>),
        TensorError,
    > {
        if inputs.len() < 1 {
            Err(TensorError::ConfigurationError)
        } else {
            match indices_of(g, inputs[0]) {
                None => Err(TensorError::ConfigurationError),
                Some(indices) => one_output(index_select_spec(g, self.weights, indices)),
            }
        }
    }

    fn forward(&self, g: &mut Graph, inputs: &[Tensor]) -> (r: Result<Vec<Tensor>, TensorError>) {
        broadcast use {lemma_grown_same, lemma_grown_twice};
        if inputs.len() < 1 {
            return Err(TensorError::ConfigurationError);
        }
        match copy_indices(g, inputs[0]) {
            None => Err(TensorError::ConfigurationError),
            Some(indices) => match g.index_select(self.weights, indices) {
                Ok(t) => Ok(single(t)),
                Err(e) => Err(e),
            },
        }
    }

    open spec fn parameters_spec(&self) -> Seq<Tensor> {
        seq![self.weights]
    }

    fn parameters(&self) -> (r: Vec<Tensor>) {
        single(self.weights)
    }
}

/// A recurrent cell: the new hidden state is the activation of the projected
/// input plus the projected old hidden state, and the output is the projected
/// new hidden state.
pub struct RNNCell {
    pub n_hidden: usize,
    pub w_ih: Linear,
    pub w_hh: Linear,
    pub w_ho: Linear,
    pub activation: Box<dyn Layer>,
}

/// Whether `input` and `hidden` have the shapes that a gate from `n_inputs`
/// features to `n_hidden` units takes: the columns fit the two projections
/// and the rows agree.
pub open spec fn gate_accepts(
    g: Seq<NodeView>,
    input: Tensor,
    hidden: Tensor,
    n_inputs: nat,
    n_hidden: nat,
) -> bool {
    &&& g[input.id as int].cols == n_inputs
    &&& g[hidden.id as int].cols == n_hidden
    &&& g[hidden.id as int].rows == g[input.id as int].rows
}

impl RNNCell {
    /// One step of the cell. The old hidden state is projected first, then
    /// the input; the outputs are the cell's output and the new hidden state,
    /// in that order.
    pub open spec fn step_spec(&self, g: Seq<NodeView>, input: Tensor, hidden: Tensor) -> Result<
        (Seq<NodeView>, Seq<Tensor>),
        TensorError,
    > {
        match linear_spec(g, hidden, self.w_hh.weights, self.w_hh.bias) {
            Err(e) => Err(e),
            Ok((g1, state_part)) => match linear_spec(
                g1,
                input,
                self.w_ih.weights,
                self.w_ih.bias,
            ) {
                Err(e) => Err(e),
                Ok((g2, input_part)) => match add_spec(g2, input_part, state_part) {
                    Err(e) => Err(e),
                    Ok((g3, sum)) => match self.activation.forward_spec(g3, seq![sum]) {
                        Err(e) => Err(e),
                        Ok((g4, outs)) => if outs.len() != 1 {
                            Err(TensorError::ConfigurationError)
                        } else {
                            match linear_spec(g4, outs[0], self.w_ho.weights, self.w_ho.bias) {
                                Err(e) => Err(e),
                                Ok((g5, output)) => Ok((g5, seq![output, outs[0]])),
                            }
                        },
                    },
                },
            },
        }
    }

    /// A cell with `n_hidden` hidden units and three projections with bias:
    /// input to hidden, hidden to hidden, hidden to output, whose leaves are
    /// appended in that order. A cell without hidden units is refused.
    pub fn new(
        g: &mut Graph,
        n_inputs: usize,
        n_hidden: usize,
        n_outputs: usize,
        activation: Box<dyn Layer>,
    ) -> (r: Result<RNNCell, TensorError>)
        requires
            old(g).wf(),
        ensures
            final(g).wf(),
            n_hidden == 0 ==> final(g)@ == old(g)@ && r == Err::<RNNCell, TensorError>(
                TensorError::ConfigurationError,
            ),
            grown(old(g)@, final(g)@),
            r.is_ok() ==> r.unwrap().fits(final(g)@, n_inputs as nat, n_outputs as nat),
            n_hidden != 0 ==> final(g)@ == old(g)@ + linear_leaves(n_inputs, n_hidden, true)
                + linear_leaves(n_hidden, n_hidden, true) + linear_leaves(n_hidden, n_outputs, true)
                && r == Ok::<RNNCell, TensorError>(
                RNNCell {
                    n_hidden,
                    w_ih: linear_at(old(g)@.len(), true),
                    w_hh: linear_at(old(g)@.len() + 2, true),
                    w_ho: linear_at(old(g)@.len() + 4, true),
                    activation,
                },
            ),
    {
        broadcast use {lemma_grown_same, lemma_grown_twice};
        if n_hidden == 0 {
            return Err(TensorError::ConfigurationError);
        }
        let w_ih = Linear::new(g, n_inputs, n_hidden, true);
        let w_hh = Linear::new(g, n_hidden, n_hidden, true);
        let w_ho = Linear::new(g, n_hidden, n_outputs, true);
        Ok(RNNCell { n_hidden, w_ih, w_hh, w_ho, activation })
    }

    /// The hidden state that a sequence starts from: a new leaf of zeros with
    /// one row for each row of the batch.
    pub fn create_start_state(&self, g: &mut Graph, batch_size: usize) -> (t: Tensor)
        requires
            old(g).wf(),
        ensures
            final(g).wf(),
            grown(old(g)@, final(g)@),
            final(g)@ == old(g)@.push(leaf_node(batch_size, self.n_hidden, Fill::Zeros)),
            t == next_handle(old(g)@),
            forall|row: nat, col: nat|
                row < batch_size && col < self.n_hidden ==> in_shape(final(g)@, t, row, col)
                    && #[trigger] known_entry(final(g)@, t, row, col) == Some(0nat),
    {
        broadcast use {lemma_grown_same, lemma_grown_twice};
        g.new_const(batch_size, self.n_hidden, Fill::Zeros)
    }

    fn build(&self, g: &mut Graph, input: Tensor, hidden: Tensor) -> (r: Result<
        Vec<Tensor>,
        TensorError,
    >)
        requires
            old(g).wf(),
        ensures
            final(g).wf(),
            grown(old(g)@, final(g)@),
            match self.step_spec(old(g)@, input, hidden) {
                Ok((g1, outs)) => final(g)@ == g1 && (match r {
                    Ok(v) => v@ == outs,
                    Err(_) => false,
                }),
                Err(e) => match r {
                    Ok(_) => false,
                    Err(x) => x == e,
                },
            },
    {
        broadcast use {lemma_grown_same, lemma_grown_twice};
        let state_part = self.w_hh.apply(g, hidden)?;
        let input_part = self.w_ih.apply(g, input)?;
        let sum = g.add(input_part, state_part)?;
        let arg = single(sum);
        let activated = self.activation.forward(g, arg.as_slice())?;
        if activated.len() != 1 {
            return Err(TensorError::ConfigurationError);
        }
        let new_hidden = activated[0];
        let output = self.w_ho.apply(g, new_hidden)?;
        Ok(pair(output, new_hidden))
    }

    /// Whether the three projections of this cell are in `g` with the shapes
    /// of a cell from `n_inputs` features to `n_outputs` features.
    pub open spec fn fits(&self, g: Seq<NodeView>, n_inputs: nat, n_outputs: nat) -> bool {
        &&& self.w_ih.fits(g, n_inputs, self.n_hidden as nat)
        &&& self.w_hh.fits(g, self.n_hidden as nat, self.n_hidden as nat)
        &&& self.w_ho.fits(g, self.n_hidden as nat, n_outputs)
    }

    /// The number of nodes that one step of this cell appends, where its
    /// activation appends one.
    pub open spec fn pass_len(&self) -> nat {
        self.w_hh.pass_len() + self.w_ih.pass_len() + self.w_ho.pass_len() + 2
    }

    /// Whether the activation of this cell turns any tensor of any graph into
    /// one new node of the same shape, as the logistic function and the
    /// hyperbolic tangent do.
    pub open spec fn activation_keeps_shape(&self) -> bool {
        forall|g: Seq<NodeView>, t: Tensor|
            g.len() < usize::MAX && in_graph(g, t) ==> landed_alone(
                g,
                #[trigger] self.activation.forward_spec(g, seq![t]),
                g[t.id as int].rows,
                g[t.id as int].cols,
                1,
            )
    }

    /// A step of a cell that fits the graph, with an activation that keeps
    /// the shape, succeeds exactly where the input has `n_inputs` columns and
    /// the hidden state has the rows of the input and one column for each
    /// hidden unit. It then hands back an output with the rows of the input
    /// and `n_outputs` columns, and a new hidden state of the shape of the
    /// old one. On any other inputs of the graph it fails with a shape
    /// mismatch.
    pub proof fn lemma_step_shape(
        &self,
        g: Seq<NodeView>,
        input: Tensor,
        hidden: Tensor,
        n_inputs: nat,
        n_outputs: nat,
    )
        requires
            g.len() + self.pass_len() <= usize::MAX,
            self.fits(g, n_inputs, n_outputs),
            self.activation_keeps_shape(),
            in_graph(g, input),
            in_graph(g, hidden),
        ensures
            gate_accepts(g, input, hidden, n_inputs, self.n_hidden as nat) ==> match self.step_spec(
                g,
                input,
                hidden,
            ) {
                Ok((g1, outs)) => {
                    &&& grown(g, g1)
                    &&& g1.len() == g.len() + self.pass_len()
                    &&& outs.len() == 2
                    &&& in_graph(g1, outs[0])
                    &&& in_graph(g1, outs[1])
                    &&& g1[outs[0].id as int].rows == g[input.id as int].rows
                    &&& g1[outs[0].id as int].cols == n_outputs
                    &&& g1[outs[1].id as int].rows == g[input.id as int].rows
                    &&& g1[outs[1].id as int].cols == self.n_hidden
                },
                Err(_) => false,
            },
            !gate_accepts(g, input, hidden, n_inputs, self.n_hidden as nat) ==> self.step_spec(
                g,
                input,
                hidden,
            ) == Err::<(Seq<NodeView>, Seq<Tensor>), TensorError>(TensorError::ShapeMismatch),
    {
        let n_hidden = self.n_hidden as nat;
        self.w_hh.lemma_forward_shape(g, hidden, n_hidden, n_hidden);
        if g[hidden.id as int].cols == n_hidden {
            let (g1, state_part) = linear_spec(g, hidden, self.w_hh.weights, self.w_hh.bias).unwrap();
            self.w_ih.lemma_fits_grown(g, g1, n_inputs, n_hidden);
            lemma_grown_keeps(g, g1, input);
            self.w_ih.lemma_forward_shape(g1, input, n_inputs, n_hidden);
            if g[input.id as int].cols == n_inputs {
                let (g2, input_part) = linear_spec(
                    g1,
                    input,
                    self.w_ih.weights,
                    self.w_ih.bias,
                ).unwrap();
                lemma_grown_keeps(g1, g2, state_part);
                lemma_grown_twice(g, g1, g2);
                if g[hidden.id as int].rows == g[input.id as int].rows {
                    lemma_add_lands(g2, input_part, state_part);
                    let (g3, sum) = add_spec(g2, input_part, state_part).unwrap();
                    lemma_grown_twice(g, g2, g3);
                    assert(landed_alone(
                        g3,
                        self.activation.forward_spec(g3, seq![sum]),
                        g3[sum.id as int].rows,
                        g3[sum.id as int].cols,
                        1,
                    ));
                    let (g4, outs) = self.activation.forward_spec(g3, seq![sum]).unwrap();
                    lemma_grown_twice(g, g3, g4);
                    self.w_ho.lemma_fits_grown(g, g4, n_hidden, n_outputs);
                    self.w_ho.lemma_forward_shape(g4, outs[0], n_hidden, n_outputs);
                    let (g5, output) = linear_spec(
                        g4,
                        outs[0],
                        self.w_ho.weights,
                        self.w_ho.bias,
                    ).unwrap();
                    lemma_grown_twice(g, g4, g5);
                    lemma_grown_keeps(g4, g5, outs[0]);
                }
            }
        }
    }
}

impl Layer for RNNCell {
    open spec fn forward_spec(&self, g: Seq<NodeView>, inputs: Seq<Tensor>) -> Result<
        (Seq<NodeView>, Seq<Tensor>),
        TensorError,
    > {
        if inputs.len() < 2 {
            Err(TensorError::ConfigurationError)
        } else {
            self.step_spec(g, inputs[0], inputs[1])
        }
    }

    fn forward(&self, g: &mut Graph, inputs: &[Tensor]) -> (r: Result<Vec<Tensor>, TensorError>) {
        broadcast use {lemma_grown_same, lemma_grown_twice};
        if inputs.len() < 2 {
            return Err(TensorError::ConfigurationError);
        }
        let mark: usize = g.len();
        match self.build(g, inputs[0], inputs[1]) {
            Ok(outs) => Ok(outs),
            Err(e) => {
                undo(g, mark, Ghost(old(g)@));
                Err(e)
            },
        }
    }

    open spec fn parameters_spec(&self) -> Seq<Tensor> {
        self.w_ih.parameters_spec() + self.w_hh.parameters_spec() + self.w_ho.parameters_spec()
    }

    fn parameters(&self) -> (r: Vec<Tensor>) {
        let mut all = self.w_ih.parameters();
        let mut next = self.w_hh.parameters();
        all.append(&mut next);
        let mut last = self.w_ho.parameters();
        all.append(&mut last);
        all
    }
}

/// A long short-term memory cell: three gates and a candidate, each from the
/// input and the old hidden state, a cell state, a hidden state and an output
/// projection.
#[derive(Debug)]
pub struct LSTMCell {
    pub xf: Linear,
    pub xi: Linear,
    pub xo: Linear,
    pub xc: Linear,
    pub hf: Linear,
    pub hi: Linear,
    pub ho: Linear,
    pub hc: Linear,
    pub w_ho: Linear,
    pub n_hidden: usize,
}

/// The gates and the candidate of one step of a cell.
pub struct Gates {
    pub forget: Tensor,
    pub intake: Tensor,
    pub release: Tensor,
    pub candidate: Tensor,
}

/// The sum that a gate squashes: the projected input plus the projected
/// hidden state, the input projected first.
pub open spec fn gate_sum_spec(
    g: Seq<NodeView>,
    from_input: Linear,
    from_hidden: Linear,
    input: Tensor,
    hidden: Tensor,
) -> Result<(Seq<NodeView>, Tensor), TensorError> {
    match linear_spec(g, input, from_input.weights, from_input.bias) {
        Err(e) => Err(e),
        Ok((g1, x)) => match linear_spec(g1, hidden, from_hidden.weights, from_hidden.bias) {
            Err(e) => Err(e),
            Ok((g2, h)) => add_spec(g2, x, h),
        },
    }
}

/// A gate: the logistic function of its sum.
pub open spec fn gate_spec(
    g: Seq<NodeView>,
    from_input: Linear,
    from_hidden: Linear,
    input: Tensor,
    hidden: Tensor,
) -> Result<(Seq<NodeView>, Tensor), TensorError> {
    match gate_sum_spec(g, from_input, from_hidden, input, hidden) {
        Err(e) => Err(e),
        Ok((g1, sum)) => sigmoid_spec(g1, sum),
    }
}

/// The candidate for the cell state: the hyperbolic tangent of its sum.
pub open spec fn candidate_spec(
    g: Seq<NodeView>,
    from_input: Linear,
    from_hidden: Linear,
    input: Tensor,
    hidden: Tensor,
) -> Result<(Seq<NodeView>, Tensor), TensorError> {
    match gate_sum_spec(g, from_input, from_hidden, input, hidden) {
        Err(e) => Err(e),
        Ok((g1, sum)) => tanh_spec(g1, sum),
    }
}

/// The new cell state: `forget ⊙ prev_cell + intake ⊙ candidate`.
pub open spec fn cell_spec(
    g: Seq<NodeView>,
    forget: Tensor,
    intake: Tensor,
    candidate: Tensor,
    prev_cell: Tensor,
) -> Result<(Seq<NodeView>, Tensor), TensorError> {
    match mul_spec(g, forget, prev_cell) {
        Err(e) => Err(e),
        Ok((g1, kept)) => match mul_spec(g1, intake, candidate) {
            Err(e) => Err(e),
            Ok((g2, added)) => add_spec(g2, kept, added),
        },
    }
}

/// The new hidden state: `release ⊙ tanh(cell)`.
pub open spec fn hidden_spec(g: Seq<NodeView>, release: Tensor, cell: Tensor) -> Result<
    (Seq<NodeView>, Tensor),
    TensorError,
> {
    match tanh_spec(g, cell) {
        Err(e) => Err(e),
        Ok((g1, squashed)) => mul_spec(g1, release, squashed),
    }
}

fn gate_sum(
    g: &mut Graph,
    from_input: &Linear,
    from_hidden: &Linear,
    input: Tensor,
    hidden: Tensor,
) -> (r: Result<Tensor, TensorError>)
    requires
        old(g).wf(),
    ensures
        final(g).wf(),
        grown(old(g)@, final(g)@),
        tried(
            old(g)@,
            gate_sum_spec(old(g)@, *from_input, *from_hidden, input, hidden),
            final(g)@,
            r,
        ),
{
    broadcast use {lemma_grown_same, lemma_grown_twice};
    let x = from_input.apply(g, input)?;
    let h = from_hidden.apply(g, hidden)?;
    g.add(x, h)
}

/// The leaves that a new cell brings, in the order of their creation.
pub open spec fn lstm_leaves(n_inputs: usize, n_hidden: usize, n_outputs: usize) -> Seq<NodeView> {
    linear_leaves(n_inputs, n_hidden, true) + linear_leaves(n_inputs, n_hidden, true)
        + linear_leaves(n_inputs, n_hidden, true) + linear_leaves(n_inputs, n_hidden, true)
        + linear_leaves(n_hidden, n_hidden, false) + linear_leaves(n_hidden, n_hidden, false)
        + linear_leaves(n_hidden, n_hidden, false) + linear_leaves(n_hidden, n_hidden, false)
        + linear_leaves(n_hidden, n_outputs, false)
}

/// The cell whose leaves start at position `base` of the graph.
pub open spec fn lstm_at(base: nat, n_hidden: usize) -> LSTMCell {
    LSTMCell {
        xf: linear_at(base, true),
        xi: linear_at(base + 2, true),
        xo: linear_at(base + 4, true),
        xc: linear_at(base + 6, true),
        hf: linear_at(base + 8, false),
        hi: linear_at(base + 9, false),
        ho: linear_at(base + 10, false),
        hc: linear_at(base + 11, false),
        w_ho: linear_at(base + 12, false),
        n_hidden,
    }
}

impl LSTMCell {
    /// The three gates and the candidate of one step, in the order forget,
    /// input, output, candidate.
    pub open spec fn gates_spec(&self, g: Seq<NodeView>, input: Tensor, prev_hidden: Tensor) -> Result<
        (Seq<NodeView>, Gates),
        TensorError,
    > {
        match gate_spec(g, self.xf, self.hf, input, prev_hidden) {
            Err(e) => Err(e),
            Ok((g1, forget)) => match gate_spec(g1, self.xi, self.hi, input, prev_hidden) {
                Err(e) => Err(e),
                Ok((g2, intake)) => match gate_spec(g2, self.xo, self.ho, input, prev_hidden) {
                    Err(e) => Err(e),
                    Ok((g3, release)) => match candidate_spec(
                        g3,
                        self.xc,
                        self.hc,
                        input,
                        prev_hidden,
                    ) {
                        Err(e) => Err(e),
                        Ok((g4, candidate)) => Ok(
                            (g4, Gates { forget, intake, release, candidate }),
                        ),
                    },
                },
            },
        }
    }

    /// What follows the gates: the new cell state, the new hidden state and
    /// the output. The outputs are the cell's output, the new hidden state
    /// and the new cell state.
    pub open spec fn finish_spec(&self, g: Seq<NodeView>, gates: Gates, prev_cell: Tensor) -> Result<
        (Seq<NodeView>, Seq<Tensor>),
        TensorError,
    > {
        match cell_spec(g, gates.forget, gates.intake, gates.candidate, prev_cell) {
            Err(e) => Err(e),
            Ok((g1, cell)) => match hidden_spec(g1, gates.release, cell) {
                Err(e) => Err(e),
                Ok((g2, hidden)) => match linear_spec(
                    g2,
                    hidden,
                    self.w_ho.weights,
                    self.w_ho.bias,
                ) {
                    Err(e) => Err(e),
                    Ok((g3, output)) => Ok((g3, seq![output, hidden, cell])),
                },
            },
        }
    }

    /// One step of the cell: the gates and the candidate, then the new cell
    /// state, the new hidden state and the output.
    pub open spec fn step_spec(
        &self,
        g: Seq<NodeView>,
        input: Tensor,
        prev_hidden: Tensor,
        prev_cell: Tensor,
    ) -> Result<(Seq<NodeView>, Seq<Tensor>), TensorError> {
        match self.gates_spec(g, input, prev_hidden) {
            Err(e) => Err(e),
            Ok((g1, gates)) => self.finish_spec(g1, gates, prev_cell),
        }
    }

    /// A cell with `n_hidden` hidden units: four projections of the input
    /// with bias, four of the hidden state without, and an output projection
    /// without, whose leaves are appended in that order. A cell without
    /// hidden units is refused.
    pub fn new(g: &mut Graph, n_inputs: usize, n_hidden: usize, n_outputs: usize) -> (r: Result<
        LSTMCell,
        TensorError,
    >)
        requires
            old(g).wf(),
        ensures
            final(g).wf(),
            n_hidden == 0 ==> final(g)@ == old(g)@ && r == Err::<LSTMCell, TensorError>(
                TensorError::ConfigurationError,
            ),
            grown(old(g)@, final(g)@),
            r.is_ok() ==> r.unwrap().fits(final(g)@, n_inputs as nat, n_outputs as nat),
            n_hidden != 0 ==> final(g)@ == old(g)@ + lstm_leaves(n_inputs, n_hidden, n_outputs)
                && r == Ok::<LSTMCell, TensorError>(lstm_at(old(g)@.len(), n_hidden)),
    {
        broadcast use {lemma_grown_same, lemma_grown_twice};
        if n_hidden == 0 {
            return Err(TensorError::ConfigurationError);
        }
        let xf = Linear::new(g, n_inputs, n_hidden, true);
        let xi = Linear::new(g, n_inputs, n_hidden, true);
        let xo = Linear::new(g, n_inputs, n_hidden, true);
        let xc = Linear::new(g, n_inputs, n_hidden, true);
        let hf = Linear::new(g, n_hidden, n_hidden, false);
        let hi = Linear::new(g, n_hidden, n_hidden, false);
        let ho = Linear::new(g, n_hidden, n_hidden, false);
        let hc = Linear::new(g, n_hidden, n_hidden, false);
        let w_ho = Linear::new(g, n_hidden, n_outputs, false);
        assert(g@ =~= old(g)@ + lstm_leaves(n_inputs, n_hidden, n_outputs));
        Ok(LSTMCell { xf, xi, xo, xc, hf, hi, ho, hc, w_ho, n_hidden })
    }

    /// The hidden state and the cell state that a sequence starts from: two
    /// new leaves with one row for each row of the batch, in which column 0
    /// holds one and every other column holds zero.
    pub fn create_start_state(&self, g: &mut Graph, batch_size: usize) -> (r: (Tensor, Tensor))
        requires
            old(g).wf(),
        ensures
            final(g).wf(),
            grown(old(g)@, final(g)@),
            final(g)@ == old(g)@.push(leaf_node(batch_size, self.n_hidden, Fill::SeedColumn)).push(
                leaf_node(batch_size, self.n_hidden, Fill::SeedColumn),
            ),
            r.0 == next_handle(old(g)@),
            r.1 == next_handle(old(g)@.push(leaf_node(batch_size, self.n_hidden, Fill::SeedColumn))),
            forall|row: nat, col: nat|
                row < batch_size && col < self.n_hidden ==> {
                    &&& in_shape(final(g)@, r.0, row, col)
                    &&& in_shape(final(g)@, r.1, row, col)
                    &&& #[trigger] known_entry(final(g)@, r.0, row, col) == Some(
                        if col == 0 {
                            1nat
                        } else {
                            0nat
                        },
                    )
                    &&& #[trigger] known_entry(final(g)@, r.1, row, col) == Some(
                        if col == 0 {
                            1nat
                        } else {
                            0nat
                        },
                    )
                },
    {
        broadcast use {lemma_grown_same, lemma_grown_twice};
        let h = g.new_const(batch_size, self.n_hidden, Fill::SeedColumn);
        let c = g.new_const(batch_size, self.n_hidden, Fill::SeedColumn);
        (h, c)
    }

    fn build(&self, g: &mut Graph, input: Tensor, prev_hidden: Tensor, prev_cell: Tensor) -> (r:
        Result<Vec<Tensor>, TensorError>)
        requires
            old(g).wf(),
        ensures
            final(g).wf(),
            grown(old(g)@, final(g)@),
            match self.step_spec(old(g)@, input, prev_hidden, prev_cell) {
                Ok((g1, outs)) => final(g)@ == g1 && (match r {
                    Ok(v) => v@ == outs,
                    Err(_) => false,
                }),
                Err(e) => match r {
                    Ok(_) => false,
                    Err(x) => x == e,
                },
            },
    {
        broadcast use {lemma_grown_same, lemma_grown_twice};
        let forget_sum = gate_sum(g, &self.xf, &self.hf, input, prev_hidden)?;
        let forget = g.sigmoid(forget_sum)?;
        let intake_sum = gate_sum(g, &self.xi, &self.hi, input, prev_hidden)?;
        let intake = g.sigmoid(intake_sum)?;
        let release_sum = gate_sum(g, &self.xo, &self.ho, input, prev_hidden)?;
        let release = g.sigmoid(release_sum)?;
        let candidate_sum = gate_sum(g, &self.xc, &self.hc, input, prev_hidden)?;
        let candidate = g.tanh(candidate_sum)?;
        let kept = g.mul(forget, prev_cell)?;
        let added = g.mul(intake, candidate)?;
        let cell = g.add(kept, added)?;
        let squashed = g.tanh(cell)?;
        let hidden = g.mul(release, squashed)?;
        let output = self.w_ho.apply(g, hidden)?;
        Ok(triple(output, hidden, cell))
    }

    /// Whether the nine projections of this cell are in `g` with the shapes
    /// of a cell from `n_inputs` features to `n_outputs` features.
    pub open spec fn fits(&self, g: Seq<NodeView>, n_inputs: nat, n_outputs: nat) -> bool {
        let n_hidden = self.n_hidden as nat;
        &&& self.xf.fits(g, n_inputs, n_hidden)
        &&& self.xi.fits(g, n_inputs, n_hidden)
        &&& self.xo.fits(g, n_inputs, n_hidden)
        &&& self.xc.fits(g, n_inputs, n_hidden)
        &&& self.hf.fits(g, n_hidden, n_hidden)
        &&& self.hi.fits(g, n_hidden, n_hidden)
        &&& self.ho.fits(g, n_hidden, n_hidden)
        &&& self.hc.fits(g, n_hidden, n_hidden)
        &&& self.w_ho.fits(g, n_hidden, n_outputs)
    }

    /// The number of nodes that one step of this cell appends.
    pub open spec fn pass_len(&self) -> nat {
        self.xf.pass_len() + self.hf.pass_len() + self.xi.pass_len() + self.hi.pass_len()
            + self.xo.pass_len() + self.ho.pass_len() + self.xc.pass_len() + self.hc.pass_len()
            + self.w_ho.pass_len() + 13
    }

    /// Whether the three inputs have the shapes that a step of this cell
    /// takes: `n_inputs` columns of input, and a hidden and a cell state with
    /// the rows of the input and one column for each hidden unit.
    pub open spec fn accepts(
        &self,
        g: Seq<NodeView>,
        input: Tensor,
        prev_hidden: Tensor,
        prev_cell: Tensor,
        n_inputs: nat,
    ) -> bool {
        &&& gate_accepts(g, input, prev_hidden, n_inputs, self.n_hidden as nat)
        &&& g[prev_cell.id as int].rows == g[input.id as int].rows
        &&& g[prev_cell.id as int].cols == self.n_hidden
    }

    /// A cell that fits a graph fits the grown graph.
    pub proof fn lemma_fits_grown(
        &self,
        before: Seq<NodeView>,
        after: Seq<NodeView>,
        n_inputs: nat,
        n_outputs: nat,
    )
        requires
            self.fits(before, n_inputs, n_outputs),
            grown(before, after),
        ensures
            self.fits(after, n_inputs, n_outputs),
    {
        let n_hidden = self.n_hidden as nat;
        self.xf.lemma_fits_grown(before, after, n_inputs, n_hidden);
        self.xi.lemma_fits_grown(before, after, n_inputs, n_hidden);
        self.xo.lemma_fits_grown(before, after, n_inputs, n_hidden);
        self.xc.lemma_fits_grown(before, after, n_inputs, n_hidden);
        self.hf.lemma_fits_grown(before, after, n_hidden, n_hidden);
        self.hi.lemma_fits_grown(before, after, n_hidden, n_hidden);
        self.ho.lemma_fits_grown(before, after, n_hidden, n_hidden);
        self.hc.lemma_fits_grown(before, after, n_hidden, n_hidden);
        self.w_ho.lemma_fits_grown(before, after, n_hidden, n_outputs);
    }

    /// The gates and the candidate of a cell that fits the graph land
    /// exactly where the input and the hidden state have the shapes that a
    /// gate accepts, each with the rows of the input and one column for each
    /// hidden unit; elsewhere they fail with a shape mismatch.
    pub proof fn lemma_gates_shape(
        &self,
        g: Seq<NodeView>,
        input: Tensor,
        prev_hidden: Tensor,
        n_inputs: nat,
        n_outputs: nat,
    )
        requires
            g.len() + self.pass_len() <= usize::MAX,
            self.fits(g, n_inputs, n_outputs),
            in_graph(g, input),
            in_graph(g, prev_hidden),
        ensures
            gate_accepts(g, input, prev_hidden, n_inputs, self.n_hidden as nat) ==> match self.gates_spec(
                g,
                input,
                prev_hidden,
            ) {
                Ok((g1, gates)) => {
                    &&& grown(g, g1)
                    &&& g1.len() + self.w_ho.pass_len() + 5 == g.len() + self.pass_len()
                    &&& in_graph(g1, gates.forget)
                    &&& g1[gates.forget.id as int].rows == g[input.id as int].rows
                    &&& g1[gates.forget.id as int].cols == self.n_hidden
                    &&& same_shape(g1, gates.forget, gates.intake)
                    &&& same_shape(g1, gates.forget, gates.release)
                    &&& same_shape(g1, gates.forget, gates.candidate)
                },
                Err(_) => false,
            },
            !gate_accepts(g, input, prev_hidden, n_inputs, self.n_hidden as nat)
                ==> self.gates_spec(g, input, prev_hidden) == Err::<
                (Seq<NodeView>, Gates),
                TensorError,
            >(TensorError::ShapeMismatch),
    {
        let n_hidden = self.n_hidden as nat;
        lemma_gate_shape(g, self.xf, self.hf, input, prev_hidden, n_inputs, n_hidden);
        if gate_accepts(g, input, prev_hidden, n_inputs, n_hidden) {
            let (g1, forget) = gate_spec(g, self.xf, self.hf, input, prev_hidden).unwrap();
            self.lemma_fits_grown(g, g1, n_inputs, n_outputs);
            lemma_grown_keeps(g, g1, input);
            lemma_grown_keeps(g, g1, prev_hidden);
            lemma_gate_shape(g1, self.xi, self.hi, input, prev_hidden, n_inputs, n_hidden);
            let (g2, intake) = gate_spec(g1, self.xi, self.hi, input, prev_hidden).unwrap();
            lemma_grown_twice(g, g1, g2);
            self.lemma_fits_grown(g, g2, n_inputs, n_outputs);
            lemma_grown_keeps(g, g2, input);
            lemma_grown_keeps(g, g2, prev_hidden);
            lemma_gate_shape(g2, self.xo, self.ho, input, prev_hidden, n_inputs, n_hidden);
            let (g3, release) = gate_spec(g2, self.xo, self.ho, input, prev_hidden).unwrap();
            lemma_grown_twice(g, g2, g3);
            self.lemma_fits_grown(g, g3, n_inputs, n_outputs);
            lemma_grown_keeps(g, g3, input);
            lemma_grown_keeps(g, g3, prev_hidden);
            lemma_candidate_shape(g3, self.xc, self.hc, input, prev_hidden, n_inputs, n_hidden);
            let (g4, candidate) = candidate_spec(g3, self.xc, self.hc, input, prev_hidden).unwrap();
            lemma_grown_twice(g, g3, g4);
            lemma_grown_twice(g2, g3, g4);
            lemma_grown_twice(g1, g2, g4);
            lemma_grown_keeps(g1, g4, forget);
            lemma_grown_keeps(g2, g4, intake);
            lemma_grown_keeps(g3, g4, release);
        }
    }

    /// What follows the gates lands exactly where the old cell state has the
    /// shape of the gates, and then hands back an output with the rows of the
    /// gates and `n_outputs` columns, and a hidden and a cell state of the
    /// shape of the gates; elsewhere it fails with a shape mismatch.
    pub proof fn lemma_finish_shape(
        &self,
        g: Seq<NodeView>,
        gates: Gates,
        prev_cell: Tensor,
        n_outputs: nat,
    )
        requires
            g.len() + self.w_ho.pass_len() + 5 <= usize::MAX,
            self.w_ho.fits(g, self.n_hidden as nat, n_outputs),
            in_graph(g, prev_cell),
            same_shape(g, gates.forget, gates.intake),
            same_shape(g, gates.forget, gates.release),
            same_shape(g, gates.forget, gates.candidate),
            g[gates.forget.id as int].cols == self.n_hidden,
        ensures
            same_shape(g, gates.forget, prev_cell) ==> match self.finish_spec(g, gates, prev_cell) {
                Ok((g1, outs)) => {
                    &&& grown(g, g1)
                    &&& g1.len() == g.len() + self.w_ho.pass_len() + 5
                    &&& outs.len() == 3
                    &&& in_graph(g1, outs[0])
                    &&& in_graph(g1, outs[1])
                    &&& in_graph(g1, outs[2])
                    &&& g1[outs[0].id as int].rows == g[gates.forget.id as int].rows
                    &&& g1[outs[0].id as int].cols == n_outputs
                    &&& g1[outs[1].id as int].rows == g[gates.forget.id as int].rows
                    &&& g1[outs[1].id as int].cols == self.n_hidden
                    &&& g1[outs[2].id as int].rows == g[gates.forget.id as int].rows
                    &&& g1[outs[2].id as int].cols == self.n_hidden
                },
                Err(_) => false,
            },
            !same_shape(g, gates.forget, prev_cell) ==> self.finish_spec(g, gates, prev_cell)
                == Err::<(Seq<NodeView>, Seq<Tensor>), TensorError>(TensorError::ShapeMismatch),
    {
        let n_hidden = self.n_hidden as nat;
        lemma_cell_shape(g, gates.forget, gates.intake, gates.candidate, prev_cell);
        if same_shape(g, gates.forget, prev_cell) {
            let (g1, cell) = cell_spec(
                g,
                gates.forget,
                gates.intake,
                gates.candidate,
                prev_cell,
            ).unwrap();
            lemma_grown_keeps(g, g1, gates.release);
            lemma_hidden_shape(g1, gates.release, cell);
            let (g2, hidden) = hidden_spec(g1, gates.release, cell).unwrap();
            lemma_grown_twice(g, g1, g2);
            self.w_ho.lemma_fits_grown(g, g2, n_hidden, n_outputs);
            self.w_ho.lemma_forward_shape(g2, hidden, n_hidden, n_outputs);
            let (g3, output) = linear_spec(g2, hidden, self.w_ho.weights, self.w_ho.bias).unwrap();
            lemma_grown_twice(g, g2, g3);
            lemma_grown_keeps(g2, g3, hidden);
            lemma_grown_twice(g1, g2, g3);
            lemma_grown_keeps(g1, g3, cell);
        }
    }

    /// A step of a cell that fits the graph succeeds exactly on inputs of the
    /// shapes it accepts. It then hands back three tensors: an output with
    /// the rows of the input and `n_outputs` columns, and a hidden and a cell
    /// state with the rows of the input and one column for each hidden unit.
    /// On any other inputs of the graph it fails with a shape mismatch.
    pub proof fn lemma_step_shape(
        &self,
        g: Seq<NodeView>,
        input: Tensor,
        prev_hidden: Tensor,
        prev_cell: Tensor,
        n_inputs: nat,
        n_outputs: nat,
    )
        requires
            g.len() + self.pass_len() <= usize::MAX,
            self.fits(g, n_inputs, n_outputs),
            in_graph(g, input),
            in_graph(g, prev_hidden),
            in_graph(g, prev_cell),
        ensures
            self.accepts(g, input, prev_hidden, prev_cell, n_inputs) ==> match self.step_spec(
                g,
                input,
                prev_hidden,
                prev_cell,
            ) {
                Ok((g1, outs)) => {
                    &&& grown(g, g1)
                    &&& g1.len() == g.len() + self.pass_len()
                    &&& outs.len() == 3
                    &&& in_graph(g1, outs[0])
                    &&& in_graph(g1, outs[1])
                    &&& in_graph(g1, outs[2])
                    &&& g1[outs[0].id as int].rows == g[input.id as int].rows
                    &&& g1[outs[0].id as int].cols == n_outputs
                    &&& g1[outs[1].id as int].rows == g[input.id as int].rows
                    &&& g1[outs[1].id as int].cols == self.n_hidden
                    &&& g1[outs[2].id as int].rows == g[input.id as int].rows
                    &&& g1[outs[2].id as int].cols == self.n_hidden
                },
                Err(_) => false,
            },
            !self.accepts(g, input, prev_hidden, prev_cell, n_inputs) ==> self.step_spec(
                g,
                input,
                prev_hidden,
                prev_cell,
            ) == Err::<(Seq<NodeView>, Seq<Tensor>), TensorError>(TensorError::ShapeMismatch),
    {
        self.lemma_gates_shape(g, input, prev_hidden, n_inputs, n_outputs);
        if gate_accepts(g, input, prev_hidden, n_inputs, self.n_hidden as nat) {
            let (g1, gates) = self.gates_spec(g, input, prev_hidden).unwrap();
            self.w_ho.lemma_fits_grown(g, g1, self.n_hidden as nat, n_outputs);
            lemma_grown_keeps(g, g1, prev_cell);
            self.lemma_finish_shape(g1, gates, prev_cell, n_outputs);
            if same_shape(g1, gates.forget, prev_cell) {
                let (g2, outs) = self.finish_spec(g1, gates, prev_cell).unwrap();
                lemma_grown_twice(g, g1, g2);
            }
        }
    }
}

impl Layer for LSTMCell {
    open spec fn forward_spec(&self, g: Seq<NodeView>, inputs: Seq<Tensor>) -> Result<
        (Seq<NodeView>, Seq<Tensor>),
        TensorError,
    > {
        if inputs.len() < 3 {
            Err(TensorError::ConfigurationError)
        } else {
            self.step_spec(g, inputs[0], inputs[1], inputs[2])
        }
    }

    fn forward(&self, g: &mut Graph, inputs: &[Tensor]) -> (r: Result<Vec<Tensor>, TensorError>) {
        broadcast use {lemma_grown_same, lemma_grown_twice};
        if inputs.len() < 3 {
            return Err(TensorError::ConfigurationError);
        }
        let mark: usize = g.len();
        match self.build(g, inputs[0], inputs[1], inputs[2]) {
            Ok(outs) => Ok(outs),
            Err(e) => {
                undo(g, mark, Ghost(old(g)@));
                Err(e)
            },
        }
    }

    open spec fn parameters_spec(&self) -> Seq<Tensor> {
        self.xf.parameters_spec() + self.xi.parameters_spec() + self.xo.parameters_spec()
            + self.xc.parameters_spec() + self.hf.parameters_spec() + self.hi.parameters_spec()
            + self.ho.parameters_spec() + self.hc.parameters_spec() + self.w_ho.parameters_spec()
    }

    fn parameters(&self) -> (r: Vec<Tensor>) {
        let mut all = self.xf.parameters();
        let mut next = self.xi.parameters();
        all.append(&mut next);
        let mut next = self.xo.parameters();
        all.append(&mut next);
        let mut next = self.xc.parameters();
        all.append(&mut next);
        let mut next = self.hf.parameters();
        all.append(&mut next);
        let mut next = self.hi.parameters();
        all.append(&mut next);
        let mut next = self.ho.parameters();
        all.append(&mut next);
        let mut next = self.hc.parameters();
        all.append(&mut next);
        let mut next = self.w_ho.parameters();
        all.append(&mut next);
        all
    }
}

/// The sum of a gate lands, with the rows of the input and one column for
/// each hidden unit, exactly where a gate accepts the shapes; elsewhere it
/// fails with a shape mismatch.
pub proof fn lemma_gate_sum_shape(
    g: Seq<NodeView>,
    from_input: Linear,
    from_hidden: Linear,
    input: Tensor,
    hidden: Tensor,
    n_inputs: nat,
    n_hidden: nat,
)
    requires
        g.len() + from_input.pass_len() + from_hidden.pass_len() + 1 <= usize::MAX,
        from_input.fits(g, n_inputs, n_hidden),
        from_hidden.fits(g, n_hidden, n_hidden),
        in_graph(g, input),
        in_graph(g, hidden),
    ensures
        gate_accepts(g, input, hidden, n_inputs, n_hidden) ==> landed(
            g,
            gate_sum_spec(g, from_input, from_hidden, input, hidden),
            g[input.id as int].rows,
            n_hidden,
            from_input.pass_len() + from_hidden.pass_len() + 1,
        ),
        !gate_accepts(g, input, hidden, n_inputs, n_hidden) ==> gate_sum_spec(
            g,
            from_input,
            from_hidden,
            input,
            hidden,
        ) == Err::<(Seq<NodeView>, Tensor), TensorError>(TensorError::ShapeMismatch),
{
    from_input.lemma_forward_shape(g, input, n_inputs, n_hidden);
    if g[input.id as int].cols == n_inputs {
        let (g1, x) = linear_spec(g, input, from_input.weights, from_input.bias).unwrap();
        from_hidden.lemma_fits_grown(g, g1, n_hidden, n_hidden);
        lemma_grown_keeps(g, g1, hidden);
        from_hidden.lemma_forward_shape(g1, hidden, n_hidden, n_hidden);
        if g[hidden.id as int].cols == n_hidden {
            let (g2, h) = linear_spec(g1, hidden, from_hidden.weights, from_hidden.bias).unwrap();
            lemma_grown_keeps(g1, g2, x);
            lemma_grown_twice(g, g1, g2);
            if g[hidden.id as int].rows == g[input.id as int].rows {
                lemma_add_lands(g2, x, h);
                let (g3, sum) = add_spec(g2, x, h).unwrap();
                lemma_grown_twice(g, g2, g3);
            }
        }
    }
}

/// As `lemma_gate_sum_shape`, for a whole gate.
pub proof fn lemma_gate_shape(
    g: Seq<NodeView>,
    from_input: Linear,
    from_hidden: Linear,
    input: Tensor,
    hidden: Tensor,
    n_inputs: nat,
    n_hidden: nat,
)
    requires
        g.len() + from_input.pass_len() + from_hidden.pass_len() + 2 <= usize::MAX,
        from_input.fits(g, n_inputs, n_hidden),
        from_hidden.fits(g, n_hidden, n_hidden),
        in_graph(g, input),
        in_graph(g, hidden),
    ensures
        gate_accepts(g, input, hidden, n_inputs, n_hidden) ==> landed(
            g,
            gate_spec(g, from_input, from_hidden, input, hidden),
            g[input.id as int].rows,
            n_hidden,
            from_input.pass_len() + from_hidden.pass_len() + 2,
        ),
        !gate_accepts(g, input, hidden, n_inputs, n_hidden) ==> gate_spec(
            g,
            from_input,
            from_hidden,
            input,
            hidden,
        ) == Err::<(Seq<NodeView>, Tensor), TensorError>(TensorError::ShapeMismatch),
{
    lemma_gate_sum_shape(g, from_input, from_hidden, input, hidden, n_inputs, n_hidden);
    if gate_accepts(g, input, hidden, n_inputs, n_hidden) {
        let (g1, sum) = gate_sum_spec(g, from_input, from_hidden, input, hidden).unwrap();
        lemma_sigmoid_lands(g1, sum);
        let (g2, out) = sigmoid_spec(g1, sum).unwrap();
        lemma_grown_twice(g, g1, g2);
    }
}

/// As `lemma_gate_sum_shape`, for the candidate.
pub proof fn lemma_candidate_shape(
    g: Seq<NodeView>,
    from_input: Linear,
    from_hidden: Linear,
    input: Tensor,
    hidden: Tensor,
    n_inputs: nat,
    n_hidden: nat,
)
    requires
        g.len() + from_input.pass_len() + from_hidden.pass_len() + 2 <= usize::MAX,
        from_input.fits(g, n_inputs, n_hidden),
        from_hidden.fits(g, n_hidden, n_hidden),
        in_graph(g, input),
        in_graph(g, hidden),
    ensures
        gate_accepts(g, input, hidden, n_inputs, n_hidden) ==> landed(
            g,
            candidate_spec(g, from_input, from_hidden, input, hidden),
            g[input.id as int].rows,
            n_hidden,
            from_input.pass_len() + from_hidden.pass_len() + 2,
        ),
        !gate_accepts(g, input, hidden, n_inputs, n_hidden) ==> candidate_spec(
            g,
            from_input,
            from_hidden,
            input,
            hidden,
        ) == Err::<(Seq<NodeView>, Tensor), TensorError>(TensorError::ShapeMismatch),
{
    lemma_gate_sum_shape(g, from_input, from_hidden, input, hidden, n_inputs, n_hidden);
    if gate_accepts(g, input, hidden, n_inputs, n_hidden) {
        let (g1, sum) = gate_sum_spec(g, from_input, from_hidden, input, hidden).unwrap();
        lemma_tanh_lands(g1, sum);
        let (g2, out) = tanh_spec(g1, sum).unwrap();
        lemma_grown_twice(g, g1, g2);
    }
}

/// The new cell state lands with the shape of the gates exactly where the
/// old cell state has that shape; elsewhere it fails with a shape mismatch.
pub proof fn lemma_cell_shape(
    g: Seq<NodeView>,
    forget: Tensor,
    intake: Tensor,
    candidate: Tensor,
    prev_cell: Tensor,
)
    requires
        g.len() + 3 <= usize::MAX,
        same_shape(g, forget, intake),
        same_shape(g, forget, candidate),
        in_graph(g, prev_cell),
    ensures
        same_shape(g, forget, prev_cell) ==> landed(
            g,
            cell_spec(g, forget, intake, candidate, prev_cell),
            g[forget.id as int].rows,
            g[forget.id as int].cols,
            3,
        ),
        !same_shape(g, forget, prev_cell) ==> cell_spec(g, forget, intake, candidate, prev_cell)
            == Err::<(Seq<NodeView>, Tensor), TensorError>(TensorError::ShapeMismatch),
{
    if same_shape(g, forget, prev_cell) {
        lemma_mul_lands(g, forget, prev_cell);
        let (g1, kept) = mul_spec(g, forget, prev_cell).unwrap();
        lemma_grown_keeps(g, g1, intake);
        lemma_grown_keeps(g, g1, candidate);
        lemma_mul_lands(g1, intake, candidate);
        let (g2, added) = mul_spec(g1, intake, candidate).unwrap();
        lemma_grown_keeps(g1, g2, kept);
        lemma_add_lands(g2, kept, added);
        let (g3, sum) = add_spec(g2, kept, added).unwrap();
        lemma_grown_twice(g, g1, g2);
        lemma_grown_twice(g, g2, g3);
    }
}

/// The new hidden state lands with the shape of the cell state.
pub proof fn lemma_hidden_shape(g: Seq<NodeView>, release: Tensor, cell: Tensor)
    requires
        g.len() + 2 <= usize::MAX,
        same_shape(g, release, cell),
    ensures
        landed(g, hidden_spec(g, release, cell), g[cell.id as int].rows, g[cell.id as int].cols, 2),
{
    lemma_tanh_lands(g, cell);
    let (g1, squashed) = tanh_spec(g, cell).unwrap();
    lemma_grown_keeps(g, g1, release);
    lemma_mul_lands(g1, release, squashed);
    let (g2, out) = mul_spec(g1, release, squashed).unwrap();
    lemma_grown_twice(g, g1, g2);
}

} // verus!
