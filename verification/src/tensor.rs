//! The computation graph: nodes with a shape and an operation record, the
//! operations that append nodes, and what each operation does to shapes and
//! entries.

use vstd::prelude::*;

verus! {

/// Why an operation or a layer refused its operands.
#[derive(Clone, Copy, PartialEq, Eq, Structural, Debug)]
pub enum TensorError {
    /// The operand shapes do not fit the operation.
    ShapeMismatch,
    /// A row index reaches past the last row of the table it selects from.
    IndexOutOfRange,
    /// The request itself is malformed: a handle that names no node of the
    /// graph, too few inputs, an input that carries no row indices, a cell
    /// without hidden units, a layer that does not hand back one tensor.
    ConfigurationError,
}

/// A handle to one node of a `Graph`. Copies of a handle share the node.
#[derive(Clone, Copy, PartialEq, Eq, Structural, Debug)]
pub struct Tensor {
    pub id: usize,
}

/// How a leaf gets its entries before the first forward evaluation.
#[derive(Clone, Copy, PartialEq, Eq, Structural, Debug)]
pub enum Fill {
    /// The caller supplies the entries.
    Given,
    /// Every entry is zero.
    Zeros,
    /// Every entry is drawn uniformly from an interval of width
    /// `1 / inverse_width`; the interval starts at zero, or is centred on
    /// zero when `centered` is set.
    Uniform { inverse_width: usize, centered: bool },
    /// Column 0 holds one in every row, all other entries are zero.
    SeedColumn,
}

/// How a node was produced, with handles to the nodes it was produced from.
#[derive(Debug)]
pub enum Op {
    /// A leaf: a weight, a bias, a start state or an input.
    Leaf(Fill),
    /// A leaf of one row whose entries are the given row indices.
    Indices(Vec<usize>),
    /// A leaf whose entries are copied once from another node; no gradient
    /// flows back to that node.
    Detach(Tensor),
    /// The sum of two nodes, entry by entry.
    Add(Tensor, Tensor),
    /// The product of two nodes, entry by entry.
    Mul(Tensor, Tensor),
    /// The matrix product of two nodes.
    Dot(Tensor, Tensor),
    /// The single row (axis 0) or column (axis 1) of `parent`, repeated.
    Expand { parent: Tensor, axis: usize, copies: usize },
    /// The rows of `parent` at the positions `indices`.
    IndexSelect { parent: Tensor, indices: Vec<usize> },
    /// The logistic function of every entry.
    Sigmoid(Tensor),
    /// The hyperbolic tangent of every entry.
    Tanh(Tensor),
}

/// The mathematical content of an `Op`.
pub enum OpView {
    Leaf(Fill),
    Indices(Seq<usize>),
    Detach(Tensor),
    Add(Tensor, Tensor),
    Mul(Tensor, Tensor),
    Dot(Tensor, Tensor),
    Expand { parent: Tensor, axis: nat, copies: nat },
    IndexSelect { parent: Tensor, indices: Seq<usize> },
    Sigmoid(Tensor),
    Tanh(Tensor),
}

impl View for Op {
    type V = OpView;

    open spec fn view(&self) -> OpView {
        match *self {
            Op::Leaf(fill) => OpView::Leaf(fill),
            Op::Indices(v) => OpView::Indices(v@),
            Op::Detach(a) => OpView::Detach(a),
            Op::Add(a, b) => OpView::Add(a, b),
            Op::Mul(a, b) => OpView::Mul(a, b),
            Op::Dot(a, b) => OpView::Dot(a, b),
            Op::Expand { parent, axis, copies } => OpView::Expand {
                parent,
                axis: axis as nat,
                copies: copies as nat,
            },
            Op::IndexSelect { parent, indices } => OpView::IndexSelect { parent, indices: indices@ },
            Op::Sigmoid(a) => OpView::Sigmoid(a),
            Op::Tanh(a) => OpView::Tanh(a),
        }
    }
}

/// One node of the graph: the shape of its value and how it was produced.
#[derive(Debug)]
pub struct Node {
    pub rows: usize,
    pub cols: usize,
    pub op: Op,
}

/// The mathematical content of a `Node`.
pub struct NodeView {
    pub rows: nat,
    pub cols: nat,
    pub op: OpView,
}

impl View for Node {
    type V = NodeView;

    open spec fn view(&self) -> NodeView {
        NodeView { rows: self.rows as nat, cols: self.cols as nat, op: self.op@ }
    }
}

/// Whether `t` names a node of `g`.
pub open spec fn in_graph(g: Seq<NodeView>, t: Tensor) -> bool {
    t.id < g.len()
}

/// Whether `a` and `b` name nodes of `g` with the same shape.
pub open spec fn same_shape(g: Seq<NodeView>, a: Tensor, b: Tensor) -> bool {
    &&& in_graph(g, a)
    &&& in_graph(g, b)
    &&& g[a.id as int].rows == g[b.id as int].rows
    &&& g[a.id as int].cols == g[b.id as int].cols
}

/// Whether every index names a row of a table with `rows` rows.
pub open spec fn indices_in_range(indices: Seq<usize>, rows: nat) -> bool {
    forall|k: int| 0 <= k < indices.len() ==> (#[trigger] indices[k]) < rows
}

/// The shape rule of each operation: node `i` of `g` refers only to earlier
/// nodes, and its shape is the one its operation gives for their shapes.
pub open spec fn node_ok(g: Seq<NodeView>, i: int) -> bool
    recommends
        0 <= i < g.len(),
{
    let n = g[i];
    match n.op {
        OpView::Leaf(_) => true,
        OpView::Indices(v) => n.rows == 1 && n.cols == v.len(),
        OpView::Add(a, b) | OpView::Mul(a, b) => {
            &&& a.id < i
            &&& b.id < i
            &&& same_shape(g, a, b)
            &&& n.rows == g[a.id as int].rows
            &&& n.cols == g[a.id as int].cols
        },
        OpView::Dot(a, b) => {
            &&& a.id < i
            &&& b.id < i
            &&& g[a.id as int].cols == g[b.id as int].rows
            &&& n.rows == g[a.id as int].rows
            &&& n.cols == g[b.id as int].cols
        },
        OpView::Expand { parent, axis, copies } => {
            &&& parent.id < i
            &&& axis < 2
            &&& axis == 0 ==> g[parent.id as int].rows == 1 && n.rows == copies && n.cols
                == g[parent.id as int].cols
            &&& axis == 1 ==> g[parent.id as int].cols == 1 && n.cols == copies && n.rows
                == g[parent.id as int].rows
        },
        OpView::IndexSelect { parent, indices } => {
            &&& parent.id < i
            &&& indices_in_range(indices, g[parent.id as int].rows)
            &&& n.rows == indices.len()
            &&& n.cols == g[parent.id as int].cols
        },
        OpView::Detach(a) | OpView::Sigmoid(a) | OpView::Tanh(a) => {
            &&& a.id < i
            &&& n.rows == g[a.id as int].rows
            &&& n.cols == g[a.id as int].cols
        },
    }
}

/// Whether every node of `g` obeys the shape rule of its operation, and the
/// nodes are few enough for each to have a handle.
pub open spec fn graph_ok(g: Seq<NodeView>) -> bool {
    &&& g.len() <= usize::MAX
    &&& forall|i: int| 0 <= i < g.len() ==> #[trigger] node_ok(g, i)
}

/// Whether (`row`, `col`) is a position inside node `t` of `g`.
pub open spec fn in_shape(g: Seq<NodeView>, t: Tensor, row: nat, col: nat) -> bool {
    in_graph(g, t) && row < g[t.id as int].rows && col < g[t.id as int].cols
}

/// The node that `dot` appends for operands `a` and `b`, or why it refuses.
pub open spec fn dot_node(g: Seq<NodeView>, a: Tensor, b: Tensor) -> Result<NodeView, TensorError> {
    if !in_graph(g, a) || !in_graph(g, b) {
        Err(TensorError::ConfigurationError)
    } else if g[a.id as int].cols != g[b.id as int].rows {
        Err(TensorError::ShapeMismatch)
    } else {
        Ok(NodeView { rows: g[a.id as int].rows, cols: g[b.id as int].cols, op: OpView::Dot(a, b) })
    }
}

/// The node that an elementwise operation appends for operands `a` and `b`,
/// or why it refuses; `op` is the record the node carries.
pub open spec fn elementwise_node(g: Seq<NodeView>, a: Tensor, b: Tensor, op: OpView) -> Result<
    NodeView,
    TensorError,
> {
    if !in_graph(g, a) || !in_graph(g, b) {
        Err(TensorError::ConfigurationError)
    } else if !same_shape(g, a, b) {
        Err(TensorError::ShapeMismatch)
    } else {
        Ok(NodeView { rows: g[a.id as int].rows, cols: g[a.id as int].cols, op })
    }
}

/// The node that `expand` appends, or why it refuses: the dimension along
/// `axis` must have size one, and becomes `copies`.
pub open spec fn expand_node(g: Seq<NodeView>, t: Tensor, axis: nat, copies: nat) -> Result<
    NodeView,
    TensorError,
> {
    if !in_graph(g, t) {
        Err(TensorError::ConfigurationError)
    } else if axis == 0 && g[t.id as int].rows == 1 {
        Ok(
            NodeView {
                rows: copies,
                cols: g[t.id as int].cols,
                op: OpView::Expand { parent: t, axis, copies },
            },
        )
    } else if axis == 1 && g[t.id as int].cols == 1 {
        Ok(
            NodeView {
                rows: g[t.id as int].rows,
                cols: copies,
                op: OpView::Expand { parent: t, axis, copies },
            },
        )
    } else {
        Err(TensorError::ShapeMismatch)
    }
}

/// The node that `index_select` appends, or why it refuses: one row for each
/// index, in the order of the indices.
pub open spec fn index_select_node(g: Seq<NodeView>, t: Tensor, indices: Seq<usize>) -> Result<
    NodeView,
    TensorError,
> {
    if !in_graph(g, t) {
        Err(TensorError::ConfigurationError)
    } else if !indices_in_range(indices, g[t.id as int].rows) {
        Err(TensorError::IndexOutOfRange)
    } else {
        Ok(
            NodeView {
                rows: indices.len(),
                cols: g[t.id as int].cols,
                op: OpView::IndexSelect { parent: t, indices },
            },
        )
    }
}

/// The node that an operation on one operand appends, with the operand's
/// shape, or why it refuses; `op` is the record the node carries.
pub open spec fn unary_node(g: Seq<NodeView>, t: Tensor, op: OpView) -> Result<
    NodeView,
    TensorError,
> {
    if !in_graph(g, t) {
        Err(TensorError::ConfigurationError)
    } else {
        Ok(NodeView { rows: g[t.id as int].rows, cols: g[t.id as int].cols, op })
    }
}

/// A leaf of the given shape.
pub open spec fn leaf_node(rows: usize, cols: usize, fill: Fill) -> NodeView {
    NodeView { rows: rows as nat, cols: cols as nat, op: OpView::Leaf(fill) }
}

/// A leaf of one row that holds the given row indices.
pub open spec fn indices_node(indices: Seq<usize>) -> NodeView {
    NodeView { rows: 1, cols: indices.len(), op: OpView::Indices(indices) }
}

/// The handle that the next node of `g` gets.
pub open spec fn next_handle(g: Seq<NodeView>) -> Tensor {
    Tensor { id: g.len() as usize }
}

/// What an operation leaves behind: the graph with the new node at its end
/// and the handle of that node, or the error and nothing else.
pub open spec fn appended(g: Seq<NodeView>, node: Result<NodeView, TensorError>) -> Result<
    (Seq<NodeView>, Tensor),
    TensorError,
> {
    match node {
        Ok(n) => Ok((g.push(n), next_handle(g))),
        Err(e) => Err(e),
    }
}

/// What `dot` leaves behind.
pub open spec fn dot_spec(g: Seq<NodeView>, a: Tensor, b: Tensor) -> Result<
    (Seq<NodeView>, Tensor),
    TensorError,
> {
    appended(g, dot_node(g, a, b))
}

/// What `add` leaves behind.
pub open spec fn add_spec(g: Seq<NodeView>, a: Tensor, b: Tensor) -> Result<
    (Seq<NodeView>, Tensor),
    TensorError,
> {
    appended(g, elementwise_node(g, a, b, OpView::Add(a, b)))
}

/// What `mul` leaves behind.
pub open spec fn mul_spec(g: Seq<NodeView>, a: Tensor, b: Tensor) -> Result<
    (Seq<NodeView>, Tensor),
    TensorError,
> {
    appended(g, elementwise_node(g, a, b, OpView::Mul(a, b)))
}

/// What `expand` leaves behind.
pub open spec fn expand_spec(g: Seq<NodeView>, t: Tensor, axis: nat, copies: nat) -> Result<
    (Seq<NodeView>, Tensor),
    TensorError,
> {
    appended(g, expand_node(g, t, axis, copies))
}

/// What `index_select` leaves behind.
pub open spec fn index_select_spec(g: Seq<NodeView>, t: Tensor, indices: Seq<usize>) -> Result<
    (Seq<NodeView>, Tensor),
    TensorError,
> {
    appended(g, index_select_node(g, t, indices))
}

/// What `sigmoid` leaves behind.
pub open spec fn sigmoid_spec(g: Seq<NodeView>, t: Tensor) -> Result<
    (Seq<NodeView>, Tensor),
    TensorError,
> {
    appended(g, unary_node(g, t, OpView::Sigmoid(t)))
}

/// What `tanh` leaves behind.
pub open spec fn tanh_spec(g: Seq<NodeView>, t: Tensor) -> Result<
    (Seq<NodeView>, Tensor),
    TensorError,
> {
    appended(g, unary_node(g, t, OpView::Tanh(t)))
}

/// What `detach` leaves behind.
pub open spec fn detach_spec(g: Seq<NodeView>, t: Tensor) -> Result<
    (Seq<NodeView>, Tensor),
    TensorError,
> {
    appended(g, unary_node(g, t, OpView::Detach(t)))
}

/// Whether graph `after` and result `r` are what `outcome` says: on success
/// the graph and handle it names, on failure the error and the graph `before`.
pub open spec fn stepped(
    before: Seq<NodeView>,
    outcome: Result<(Seq<NodeView>, Tensor), TensorError>,
    after: Seq<NodeView>,
    r: Result<Tensor, TensorError>,
) -> bool {
    match outcome {
        Ok((g, t)) => after == g && r == Ok::<Tensor, TensorError>(t),
        Err(e) => after == before && r == Err::<Tensor, TensorError>(e),
    }
}

/// As `stepped`, but for a pass of several operations that stops at the first
/// failure: what was appended before the failure is still there.
pub open spec fn tried(
    before: Seq<NodeView>,
    outcome: Result<(Seq<NodeView>, Tensor), TensorError>,
    after: Seq<NodeView>,
    r: Result<Tensor, TensorError>,
) -> bool {
    match outcome {
        Ok((g, t)) => after == g && r == Ok::<Tensor, TensorError>(t),
        Err(e) => r == Err::<Tensor, TensorError>(e),
    }
}

/// Entry (`row`, `col`) of node `t` where the graph itself fixes it as a
/// whole number: zero in a leaf of zeros, one in column 0 and zero elsewhere
/// in a seeded leaf, the index itself in a leaf of indices. `None` for every
/// other node.
pub open spec fn known_entry(g: Seq<NodeView>, t: Tensor, row: nat, col: nat) -> Option<nat> {
    match g[t.id as int].op {
        OpView::Leaf(Fill::Zeros) => Some(0nat),
        OpView::Leaf(Fill::SeedColumn) => Some(
            if col == 0 {
                1nat
            } else {
                0nat
            },
        ),
        OpView::Indices(v) => Some(v[col as int] as nat),
        _ => None,
    }
}

/// Where entry (`row`, `col`) of node `t` comes from, for a node that only
/// moves entries: the node and the position that it is a copy of. `None` for
/// a node that computes its entries or gets them from outside.
pub open spec fn source_entry(g: Seq<NodeView>, t: Tensor, row: nat, col: nat) -> Option<
    (Tensor, nat, nat),
> {
    match g[t.id as int].op {
        OpView::Expand { parent, axis, copies } => if axis == 0 {
            Some((parent, 0nat, col))
        } else {
            Some((parent, row, 0nat))
        },
        OpView::IndexSelect { parent, indices } => Some((parent, indices[row as int] as nat, col)),
        OpView::Detach(a) => Some((a, row, col)),
        _ => None,
    }
}

/// Whether `after` is `before` with nodes appended: nothing that was in the
/// graph has changed.
#[verifier::opaque]
pub open spec fn grown(before: Seq<NodeView>, after: Seq<NodeView>) -> bool {
    before.is_prefix_of(after)
}

/// A graph has grown from itself.
pub broadcast proof fn lemma_grown_same(g: Seq<NodeView>)
    ensures
        #[trigger] grown(g, g),
{
    reveal(grown);
}

/// A graph with one more node has grown.
pub proof fn lemma_grown_push(g: Seq<NodeView>, node: NodeView)
    ensures
        grown(g, g.push(node)),
{
    reveal(grown);
}

/// Growth in two steps is growth.
pub broadcast proof fn lemma_grown_twice(a: Seq<NodeView>, b: Seq<NodeView>, c: Seq<NodeView>)
    requires
        #[trigger] grown(a, b),
        #[trigger] grown(b, c),
    ensures
        grown(a, c),
{
    reveal(grown);
}

/// Cutting a grown graph back to its old length gives the old graph.
pub proof fn lemma_grown_cut(before: Seq<NodeView>, after: Seq<NodeView>)
    requires
        grown(before, after),
    ensures
        before.len() <= after.len(),
        after.take(before.len() as int) == before,
{
    reveal(grown);
    assert(after.take(before.len() as int) =~= before);
}

/// What was in a graph is in the grown graph, unchanged.
pub proof fn lemma_grown_keeps(before: Seq<NodeView>, after: Seq<NodeView>, t: Tensor)
    requires
        grown(before, after),
        in_graph(before, t),
    ensures
        in_graph(after, t),
        after[t.id as int] == before[t.id as int],
{
    reveal(grown);
}

/// The computation graph: an arena of nodes in the order of their creation.
/// Nodes are only ever appended, so a handle stays valid once given out.
pub struct Graph {
    nodes: Vec<Node>,
}

impl View for Graph {
    type V = Seq<NodeView>;

    closed spec fn view(&self) -> Seq<NodeView> {
        Seq::new(self.nodes@.len(), |i: int| self.nodes@[i]@)
    }
}

impl Graph {
    /// The invariant of the arena.
    pub open spec fn wf(&self) -> bool {
        graph_ok(self@)
    }

    /// An empty graph.
    pub fn new() -> (g: Graph)
        ensures
            g@ == Seq::<NodeView>::empty(),
            g.wf(),
    {
        let g = Graph { nodes: Vec::new() };
        assert(g@ =~= Seq::<NodeView>::empty());
        g
    }

    /// The number of nodes.
    pub fn len(&self) -> (n: usize)
        ensures
            n == self@.len(),
    {
        self.nodes.len()
    }

    /// Whether `t` names a node of this graph.
    pub fn contains(&self, t: Tensor) -> (b: bool)
        ensures
            b == in_graph(self@, t),
    {
        t.id < self.nodes.len()
    }

    /// The node that `t` names, if it names one.
    pub fn node(&self, t: Tensor) -> (r: Option<&Node>)
        ensures
            in_graph(self@, t) ==> r.is_some() && r.unwrap()@ == self@[t.id as int],
            !in_graph(self@, t) ==> r.is_none(),
    {
        if t.id < self.nodes.len() {
            Some(&self.nodes[t.id])
        } else {
            None
        }
    }

    /// The shape of the node that `t` names, rows first.
    pub fn shape(&self, t: Tensor) -> (r: Option<(usize, usize)>)
        ensures
            in_graph(self@, t) ==> r.is_some() && r.unwrap().0 == self@[t.id as int].rows
                && r.unwrap().1 == self@[t.id as int].cols,
            !in_graph(self@, t) ==> r.is_none(),
    {
        if t.id < self.nodes.len() {
            Some((self.nodes[t.id].rows, self.nodes[t.id].cols))
        } else {
            None
        }
    }

    fn push(&mut self, node: Node) -> (t: Tensor)
        requires
            old(self).wf(),
            node_ok(old(self)@.push(node@), old(self)@.len() as int),
        ensures
            final(self).wf(),
            grown(old(self)@, final(self)@),
            final(self)@ == old(self)@.push(node@),
            t == next_handle(old(self)@),
    {
        let id: usize = self.nodes.len();
        self.nodes.push(node);
        let total: usize = self.nodes.len();
        proof {
            assert(self@.len() == total);
            assert(self@ =~= old(self)@.push(node@));
            lemma_grown_push(old(self)@, node@);
            assert forall|i: int| 0 <= i < self@.len() implies #[trigger] node_ok(self@, i) by {
                if i < old(self)@.len() {
                    assert(node_ok(old(self)@, i));
                }
            }
        }
        Tensor { id }
    }

    /// A new leaf of the given shape: a weight, a bias, a start state or an
    /// input from outside.
    pub fn new_const(&mut self, rows: usize, cols: usize, fill: Fill) -> (t: Tensor)
        requires
            old(self).wf(),
        ensures
            final(self).wf(),
            grown(old(self)@, final(self)@),
            final(self)@ == old(self)@.push(leaf_node(rows, cols, fill)),
            t == next_handle(old(self)@),
    {
        self.push(Node { rows, cols, op: Op::Leaf(fill) })
    }

    /// A new leaf of one row that holds row indices, as an embedding takes
    /// them.
    pub fn new_indices(&mut self, indices: Vec<usize>) -> (t: Tensor)
        requires
            old(self).wf(),
        ensures
            final(self).wf(),
            grown(old(self)@, final(self)@),
            final(self)@ == old(self)@.push(indices_node(indices@)),
            t == next_handle(old(self)@),
    {
        let cols: usize = indices.len();
        self.push(Node { rows: 1, cols, op: Op::Indices(indices) })
    }

    /// The matrix product of `a` and `b`.
    pub fn dot(&mut self, a: Tensor, b: Tensor) -> (r: Result<Tensor, TensorError>)
        requires
            old(self).wf(),
        ensures
            final(self).wf(),
            grown(old(self)@, final(self)@),
            stepped(old(self)@, dot_spec(old(self)@, a, b), final(self)@, r),
    {
        if a.id >= self.nodes.len() || b.id >= self.nodes.len() {
            proof {
                lemma_grown_same(self@);
            }
            return Err(TensorError::ConfigurationError);
        }
        if self.nodes[a.id].cols != self.nodes[b.id].rows {
            proof {
                lemma_grown_same(self@);
            }
            return Err(TensorError::ShapeMismatch);
        }
        let rows: usize = self.nodes[a.id].rows;
        let cols: usize = self.nodes[b.id].cols;
        Ok(self.push(Node { rows, cols, op: Op::Dot(a, b) }))
    }

    /// The elementwise sum of `a` and `b`.
    pub fn add(&mut self, a: Tensor, b: Tensor) -> (r: Result<Tensor, TensorError>)
        requires
            old(self).wf(),
        ensures
            final(self).wf(),
            grown(old(self)@, final(self)@),
            stepped(old(self)@, add_spec(old(self)@, a, b), final(self)@, r),
    {
        if a.id >= self.nodes.len() || b.id >= self.nodes.len() {
            proof {
                lemma_grown_same(self@);
            }
            return Err(TensorError::ConfigurationError);
        }
        let rows: usize = self.nodes[a.id].rows;
        let cols: usize = self.nodes[a.id].cols;
        if rows != self.nodes[b.id].rows || cols != self.nodes[b.id].cols {
            proof {
                lemma_grown_same(self@);
            }
            return Err(TensorError::ShapeMismatch);
        }
        Ok(self.push(Node { rows, cols, op: Op::Add(a, b) }))
    }

    /// The elementwise product of `a` and `b`.
    pub fn mul(&mut self, a: Tensor, b: Tensor) -> (r: Result<Tensor, TensorError>)
        requires
            old(self).wf(),
        ensures
            final(self).wf(),
            grown(old(self)@, final(self)@),
            stepped(old(self)@, mul_spec(old(self)@, a, b), final(self)@, r),
    {
        if a.id >= self.nodes.len() || b.id >= self.nodes.len() {
            proof {
                lemma_grown_same(self@);
            }
            return Err(TensorError::ConfigurationError);
        }
        let rows: usize = self.nodes[a.id].rows;
        let cols: usize = self.nodes[a.id].cols;
        if rows != self.nodes[b.id].rows || cols != self.nodes[b.id].cols {
            proof {
                lemma_grown_same(self@);
            }
            return Err(TensorError::ShapeMismatch);
        }
        Ok(self.push(Node { rows, cols, op: Op::Mul(a, b) }))
    }

    /// `t` with its dimension of size one along `axis` repeated `copies`
    /// times: axis 0 repeats the single row, axis 1 the single column.
    pub fn expand(&mut self, t: Tensor, axis: usize, copies: usize) -> (r: Result<
        Tensor,
        TensorError,
    >)
        requires
            old(self).wf(),
        ensures
            final(self).wf(),
            grown(old(self)@, final(self)@),
            stepped(
                old(self)@,
                expand_spec(old(self)@, t, axis as nat, copies as nat),
                final(self)@,
                r,
            ),
    {
        if t.id >= self.nodes.len() {
            proof {
                lemma_grown_same(self@);
            }
            return Err(TensorError::ConfigurationError);
        }
        let rows: usize = self.nodes[t.id].rows;
        let cols: usize = self.nodes[t.id].cols;
        if axis == 0 && rows == 1 {
            Ok(self.push(Node { rows: copies, cols, op: Op::Expand { parent: t, axis, copies } }))
        } else if axis == 1 && cols == 1 {
            Ok(self.push(Node { rows, cols: copies, op: Op::Expand { parent: t, axis, copies } }))
        } else {
            proof {
                lemma_grown_same(self@);
            }
            Err(TensorError::ShapeMismatch)
        }
    }

    /// The rows of `t` at the given positions, in the order given.
    #[verifier::loop_isolation(false)]
    pub fn index_select(&mut self, t: Tensor, indices: Vec<usize>) -> (r: Result<
        Tensor,
        TensorError,
    >)
        requires
            old(self).wf(),
        ensures
            final(self).wf(),
            grown(old(self)@, final(self)@),
            stepped(old(self)@, index_select_spec(old(self)@, t, indices@), final(self)@, r),
    {
        if t.id >= self.nodes.len() {
            proof {
                lemma_grown_same(self@);
            }
            return Err(TensorError::ConfigurationError);
        }
        let rows: usize = self.nodes[t.id].rows;
        let cols: usize = self.nodes[t.id].cols;
        let mut k: usize = 0;
        while k < indices.len()
            invariant
                k <= indices.len(),
                forall|j: int| 0 <= j < k ==> (#[trigger] indices@[j]) < rows,
            decreases indices.len() - k,
        {
            if indices[k] >= rows {
                proof {
                    lemma_grown_same(self@);
                }
                return Err(TensorError::IndexOutOfRange);
            }
            k = k + 1;
        }
        let n: usize = indices.len();
        Ok(self.push(Node { rows: n, cols, op: Op::IndexSelect { parent: t, indices } }))
    }

    /// The logistic function of every entry of `t`.
    pub fn sigmoid(&mut self, t: Tensor) -> (r: Result<Tensor, TensorError>)
        requires
            old(self).wf(),
        ensures
            final(self).wf(),
            grown(old(self)@, final(self)@),
            stepped(old(self)@, sigmoid_spec(old(self)@, t), final(self)@, r),
    {
        if t.id >= self.nodes.len() {
            proof {
                lemma_grown_same(self@);
            }
            return Err(TensorError::ConfigurationError);
        }
        let rows: usize = self.nodes[t.id].rows;
        let cols: usize = self.nodes[t.id].cols;
        Ok(self.push(Node { rows, cols, op: Op::Sigmoid(t) }))
    }

    /// The hyperbolic tangent of every entry of `t`.
    pub fn tanh(&mut self, t: Tensor) -> (r: Result<Tensor, TensorError>)
        requires
            old(self).wf(),
        ensures
            final(self).wf(),
            grown(old(self)@, final(self)@),
            stepped(old(self)@, tanh_spec(old(self)@, t), final(self)@, r),
    {
        if t.id >= self.nodes.len() {
            proof {
                lemma_grown_same(self@);
            }
            return Err(TensorError::ConfigurationError);
        }
        let rows: usize = self.nodes[t.id].rows;
        let cols: usize = self.nodes[t.id].cols;
        Ok(self.push(Node { rows, cols, op: Op::Tanh(t) }))
    }

    /// A new leaf with the entries of `t`, independent of `t` from then on.
    pub fn detach(&mut self, t: Tensor) -> (r: Result<Tensor, TensorError>)
        requires
            old(self).wf(),
        ensures
            final(self).wf(),
            grown(old(self)@, final(self)@),
            stepped(old(self)@, detach_spec(old(self)@, t), final(self)@, r),
    {
        if t.id >= self.nodes.len() {
            proof {
                lemma_grown_same(self@);
            }
            return Err(TensorError::ConfigurationError);
        }
        let rows: usize = self.nodes[t.id].rows;
        let cols: usize = self.nodes[t.id].cols;
        Ok(self.push(Node { rows, cols, op: Op::Detach(t) }))
    }

    /// Drops every node from position `mark` on, so that a forward pass that
    /// failed half way leaves nothing behind; drops nothing where the graph
    /// has no more than `mark` nodes. A handle to a dropped node names no
    /// node any more.
    pub fn rollback(&mut self, mark: usize)
        requires
            old(self).wf(),
        ensures
            final(self).wf(),
            mark <= old(self)@.len() ==> final(self)@ == old(self)@.take(mark as int),
            mark > old(self)@.len() ==> final(self)@ == old(self)@,
            grown(final(self)@, old(self)@),
    {
        self.nodes.truncate(mark);
        proof {
            if mark <= old(self)@.len() {
                assert(self@ =~= old(self)@.take(mark as int));
            } else {
                assert(self@ =~= old(self)@);
            }
            assert(grown(self@, old(self)@)) by {
                reveal(grown);
            }
            assert forall|i: int| 0 <= i < self@.len() implies #[trigger] node_ok(self@, i) by {
                assert(node_ok(old(self)@, i));
            }
        }
    }

    /// The position that entry (`row`, `col`) of node `t` is a copy of, where
    /// the node only moves entries; `None` for any other node and for a
    /// position outside the node. The position handed back lies inside the
    /// node it names.
    pub fn source(&self, t: Tensor, row: usize, col: usize) -> (r: Option<(Tensor, usize, usize)>)
        requires
            self.wf(),
        ensures
            !in_shape(self@, t, row as nat, col as nat) ==> r.is_none(),
            in_shape(self@, t, row as nat, col as nat) ==> match source_entry(
                self@,
                t,
                row as nat,
                col as nat,
            ) {
                None => r.is_none(),
                Some((from, from_row, from_col)) => r == Some((
                    from,
                    from_row as usize,
                    from_col as usize,
                )) && in_shape(self@, from, from_row, from_col),
            },
    {
        if t.id >= self.nodes.len() {
            return None;
        }
        let node = &self.nodes[t.id];
        if row >= node.rows || col >= node.cols {
            return None;
        }
        proof {
            assert(node_ok(self@, t.id as int));
        }
        match &node.op {
            Op::Expand { parent, axis, copies } => {
                if *axis == 0 {
                    Some((*parent, 0, col))
                } else {
                    Some((*parent, row, 0))
                }
            },
            Op::IndexSelect { parent, indices } => Some((*parent, indices[row], col)),
            Op::Detach(a) => Some((*a, row, col)),
            _ => None,
        }
    }

    /// The entry at (`row`, `col`) of node `t` where the graph itself fixes
    /// it as a whole number; `None` for any other node and for a position
    /// outside the node.
    pub fn entry(&self, t: Tensor, row: usize, col: usize) -> (r: Option<usize>)
        requires
            self.wf(),
        ensures
            !in_shape(self@, t, row as nat, col as nat) ==> r.is_none(),
            in_shape(self@, t, row as nat, col as nat) ==> match known_entry(
                self@,
                t,
                row as nat,
                col as nat,
            ) {
                None => r.is_none(),
                Some(v) => r == Some(v as usize) && v <= usize::MAX,
            },
    {
        if t.id >= self.nodes.len() {
            return None;
        }
        let node = &self.nodes[t.id];
        if row >= node.rows || col >= node.cols {
            return None;
        }
        proof {
            assert(node_ok(self@, t.id as int));
        }
        match &node.op {
            Op::Leaf(Fill::Zeros) => Some(0),
            Op::Leaf(Fill::SeedColumn) => if col == 0 {
                Some(1)
            } else {
                Some(0)
            },
            Op::Indices(v) => Some(v[col]),
            _ => None,
        }
    }
}

/// Whether `built` is a success that has appended `count` nodes to `g`, the
/// last of them of the given shape, and hands out the handle of that last
/// node.
pub open spec fn landed(
    g: Seq<NodeView>,
    built: Result<(Seq<NodeView>, Tensor), TensorError>,
    rows: nat,
    cols: nat,
    count: nat,
) -> bool {
    match built {
        Ok((g1, t)) => {
            &&& grown(g, g1)
            &&& g1.len() == g.len() + count
            &&& count > 0
            &&& t.id == g1.len() - 1
            &&& g1[t.id as int].rows == rows
            &&& g1[t.id as int].cols == cols
        },
        Err(_) => false,
    }
}

/// An operation on two operands lands where `dot` accepts their shapes.
pub proof fn lemma_dot_lands(g: Seq<NodeView>, a: Tensor, b: Tensor)
    requires
        g.len() < usize::MAX,
        in_graph(g, a),
        in_graph(g, b),
        g[a.id as int].cols == g[b.id as int].rows,
    ensures
        landed(g, dot_spec(g, a, b), g[a.id as int].rows, g[b.id as int].cols, 1),
{
    lemma_grown_push(g, dot_node(g, a, b).unwrap());
}

/// A sum of two nodes of one shape lands with that shape.
pub proof fn lemma_add_lands(g: Seq<NodeView>, a: Tensor, b: Tensor)
    requires
        g.len() < usize::MAX,
        same_shape(g, a, b),
    ensures
        landed(g, add_spec(g, a, b), g[a.id as int].rows, g[a.id as int].cols, 1),
{
    lemma_grown_push(g, elementwise_node(g, a, b, OpView::Add(a, b)).unwrap());
}

/// A product, entry by entry, of two nodes of one shape lands with that
/// shape.
pub proof fn lemma_mul_lands(g: Seq<NodeView>, a: Tensor, b: Tensor)
    requires
        g.len() < usize::MAX,
        same_shape(g, a, b),
    ensures
        landed(g, mul_spec(g, a, b), g[a.id as int].rows, g[a.id as int].cols, 1),
{
    lemma_grown_push(g, elementwise_node(g, a, b, OpView::Mul(a, b)).unwrap());
}

/// The logistic function lands with the shape of its operand.
pub proof fn lemma_sigmoid_lands(g: Seq<NodeView>, t: Tensor)
    requires
        g.len() < usize::MAX,
        in_graph(g, t),
    ensures
        landed(g, sigmoid_spec(g, t), g[t.id as int].rows, g[t.id as int].cols, 1),
{
    lemma_grown_push(g, unary_node(g, t, OpView::Sigmoid(t)).unwrap());
}

/// The hyperbolic tangent lands with the shape of its operand.
pub proof fn lemma_tanh_lands(g: Seq<NodeView>, t: Tensor)
    requires
        g.len() < usize::MAX,
        in_graph(g, t),
    ensures
        landed(g, tanh_spec(g, t), g[t.id as int].rows, g[t.id as int].cols, 1),
{
    lemma_grown_push(g, unary_node(g, t, OpView::Tanh(t)).unwrap());
}

/// Repeating a single row lands with as many rows as copies.
pub proof fn lemma_expand_lands(g: Seq<NodeView>, t: Tensor, copies: nat)
    requires
        g.len() < usize::MAX,
        in_graph(g, t),
        g[t.id as int].rows == 1,
    ensures
        landed(g, expand_spec(g, t, 0, copies), copies, g[t.id as int].cols, 1),
{
    lemma_grown_push(g, expand_node(g, t, 0, copies).unwrap());
}

/// The shape of the node that a successful operation has appended.
pub open spec fn result_shape(built: Result<(Seq<NodeView>, Tensor), TensorError>) -> (nat, nat) {
    match built {
        Ok((g, t)) => (g[t.id as int].rows, g[t.id as int].cols),
        Err(_) => (0, 0),
    }
}

/// A product has the rows of its left operand and the columns of its right
/// operand, and is refused exactly where the inner dimensions differ.
pub proof fn lemma_dot_shape(g: Seq<NodeView>, a: Tensor, b: Tensor)
    requires
        graph_ok(g),
        in_graph(g, a),
        in_graph(g, b),
    ensures
        g[a.id as int].cols == g[b.id as int].rows ==> dot_spec(g, a, b).is_ok() && result_shape(
            dot_spec(g, a, b),
        ) == (g[a.id as int].rows, g[b.id as int].cols),
        g[a.id as int].cols != g[b.id as int].rows ==> dot_spec(g, a, b) == Err::<
            (Seq<NodeView>, Tensor),
            TensorError,
        >(TensorError::ShapeMismatch),
{
}

/// The product of `a` and `b` and then of that with `c`: the left grouping
/// of a product of three.
pub open spec fn dot_left_spec(g: Seq<NodeView>, a: Tensor, b: Tensor, c: Tensor) -> Result<
    (Seq<NodeView>, Tensor),
    TensorError,
> {
    match dot_spec(g, a, b) {
        Ok((g1, ab)) => dot_spec(g1, ab, c),
        Err(e) => Err(e),
    }
}

/// The product of `a` with the product of `b` and `c`: the right grouping of
/// a product of three.
pub open spec fn dot_right_spec(g: Seq<NodeView>, a: Tensor, b: Tensor, c: Tensor) -> Result<
    (Seq<NodeView>, Tensor),
    TensorError,
> {
    match dot_spec(g, b, c) {
        Ok((g1, bc)) => dot_spec(g1, a, bc),
        Err(e) => Err(e),
    }
}

/// The two groupings of a product of three are accepted for the same shapes
/// and give the same shape.
pub proof fn lemma_dot_shape_associative(g: Seq<NodeView>, a: Tensor, b: Tensor, c: Tensor)
    requires
        graph_ok(g),
        g.len() + 2 <= usize::MAX,
        in_graph(g, a),
        in_graph(g, b),
        in_graph(g, c),
    ensures
        dot_left_spec(g, a, b, c).is_ok() <==> dot_right_spec(g, a, b, c).is_ok(),
        dot_left_spec(g, a, b, c).is_ok() <==> g[a.id as int].cols == g[b.id as int].rows && g[b.id as int].cols
            == g[c.id as int].rows,
        dot_left_spec(g, a, b, c).is_ok() ==> result_shape(dot_left_spec(g, a, b, c))
            == result_shape(dot_right_spec(g, a, b, c)) && result_shape(dot_left_spec(g, a, b, c))
            == (g[a.id as int].rows, g[c.id as int].cols),
        dot_left_spec(g, a, b, c).is_err() ==> dot_left_spec(g, a, b, c) == Err::<
            (Seq<NodeView>, Tensor),
            TensorError,
        >(TensorError::ShapeMismatch) && dot_right_spec(g, a, b, c) == dot_left_spec(g, a, b, c),
{
    match dot_spec(g, a, b) {
        Ok((g1, ab)) => {
            assert(in_graph(g1, ab) && in_graph(g1, c));
            assert(g1[c.id as int] == g[c.id as int]);
        },
        Err(_) => {},
    }
    match dot_spec(g, b, c) {
        Ok((g1, bc)) => {
            assert(in_graph(g1, bc) && in_graph(g1, a));
            assert(g1[a.id as int] == g[a.id as int]);
        },
        Err(_) => {},
    }
}

/// Repeating the single row of `t` gives `copies` rows of the columns of `t`,
/// each of them a copy of that row: every column of the result holds the
/// entry of `t` in that column `copies` times.
pub proof fn lemma_expand_rows(g: Seq<NodeView>, t: Tensor, copies: nat)
    requires
        graph_ok(g),
        in_graph(g, t),
        g[t.id as int].rows == 1,
    ensures
        expand_spec(g, t, 0, copies).is_ok(),
        ({
            let (g1, x) = expand_spec(g, t, 0, copies).unwrap();
            &&& g1 == g.push(g1[x.id as int])
            &&& g1[x.id as int].rows == copies
            &&& g1[x.id as int].cols == g[t.id as int].cols
            &&& forall|row: nat, col: nat|
                in_shape(g1, x, row, col) ==> #[trigger] source_entry(g1, x, row, col) == Some(
                    (t, 0nat, col),
                )
        }),
{
}

/// Selecting the one row `i` of `t` gives exactly that row where `t` has
/// such a row, and fails as out of range where it has not.
pub proof fn lemma_index_select_row(g: Seq<NodeView>, t: Tensor, i: usize)
    requires
        graph_ok(g),
        in_graph(g, t),
    ensures
        i >= g[t.id as int].rows ==> index_select_spec(g, t, seq![i]) == Err::<
            (Seq<NodeView>, Tensor),
            TensorError,
        >(TensorError::IndexOutOfRange),
        i < g[t.id as int].rows ==> index_select_spec(g, t, seq![i]).is_ok() && ({
            let (g1, x) = index_select_spec(g, t, seq![i]).unwrap();
            &&& g1[x.id as int].rows == 1
            &&& g1[x.id as int].cols == g[t.id as int].cols
            &&& forall|col: nat|
                col < g[t.id as int].cols ==> #[trigger] source_entry(g1, x, 0, col) == Some(
                    (t, i as nat, col),
                )
        }),
{
    if i >= g[t.id as int].rows {
        assert(seq![i][0] == i);
        assert(!indices_in_range(seq![i], g[t.id as int].rows));
    }
}

} // verus!
