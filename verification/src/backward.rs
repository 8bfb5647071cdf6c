//! The order of a backward pass: which nodes a gradient that starts at one
//! node reaches, and in which order they are visited.

use crate::tensor::{graph_ok, in_graph, node_ok, Graph, NodeView, Op, OpView, Tensor, TensorError};
use vstd::prelude::*;

verus! {

/// The handle of the node at position `i`.
pub open spec fn handle(i: int) -> Tensor {
    Tensor { id: i as usize }
}

/// The nodes that node `t` passes a gradient on to: the operands it was
/// computed from. A leaf has none, and a detached copy passes nothing on.
pub open spec fn operands_spec(g: Seq<NodeView>, t: Tensor) -> Seq<Tensor> {
    if !in_graph(g, t) {
        Seq::empty()
    } else {
        match g[t.id as int].op {
            OpView::Leaf(_) | OpView::Indices(_) | OpView::Detach(_) => Seq::empty(),
            OpView::Add(a, b) | OpView::Mul(a, b) | OpView::Dot(a, b) => seq![a, b],
            OpView::Expand { parent, .. } | OpView::IndexSelect { parent, .. } => seq![parent],
            OpView::Sigmoid(a) | OpView::Tanh(a) => seq![a],
        }
    }
}

/// Whether a gradient that starts at position `root` reaches position `i`:
/// it is the root itself, or an operand of a later node that is reached.
pub open spec fn reaches(g: Seq<NodeView>, root: int, i: int) -> bool
    decreases root - i,
{
    if i >= root {
        i == root
    } else {
        exists|c: int|
            i < c <= root && reaches(g, root, c) && #[trigger] operands_spec(g, handle(c)).contains(
                handle(i),
            )
    }
}

/// Whether the positions of `order` fall strictly from each to the next.
pub open spec fn descending(order: Seq<Tensor>) -> bool {
    forall|j: int, k: int| 0 <= j < k < order.len() ==> order[j].id > order[k].id
}

/// In a well-formed graph every operand of a node stands before the node.
pub proof fn lemma_operands_before(g: Seq<NodeView>, t: Tensor, k: int)
    requires
        graph_ok(g),
        0 <= k < operands_spec(g, t).len(),
    ensures
        operands_spec(g, t)[k].id < t.id,
        in_graph(g, t),
{
    assert(node_ok(g, t.id as int));
}

/// The operands that node `t` passes a gradient on to; none for a handle that
/// names no node.
pub fn operands(g: &Graph, t: Tensor) -> (r: Vec<Tensor>)
    requires
        g.wf(),
    ensures
        r@ == operands_spec(g@, t),
        forall|k: int| 0 <= k < r@.len() ==> (#[trigger] r@[k]).id < t.id,
{
    proof {
        assert forall|k: int| 0 <= k < operands_spec(g@, t).len() implies (#[trigger] operands_spec(
            g@,
            t,
        )[k]).id < t.id by {
            lemma_operands_before(g@, t, k);
        }
    }
    let mut out: Vec<Tensor> = Vec::new();
    match g.node(t) {
        None => {},
        Some(node) => match &node.op {
            Op::Leaf(_) | Op::Indices(_) | Op::Detach(_) => {},
            Op::Add(a, b) | Op::Mul(a, b) | Op::Dot(a, b) => {
                out.push(*a);
                out.push(*b);
            },
            Op::Expand { parent, .. } | Op::IndexSelect { parent, .. } => {
                out.push(*parent);
            },
            Op::Sigmoid(a) | Op::Tanh(a) => {
                out.push(*a);
            },
        },
    }
    assert(out@ =~= operands_spec(g@, t));
    out
}

/// Whether position `j` is the root or an operand of a reached node at
/// position `from` or later: what is known of `j` once the nodes from `from`
/// on have been visited.
pub open spec fn wanted(g: Seq<NodeView>, root: int, from: int, j: int) -> bool {
    j == root || exists|c: int|
        from <= c <= root && reaches(g, root, c) && #[trigger] operands_spec(g, handle(c)).contains(
            handle(j),
        )
}

/// Once every later node has been visited, a node is wanted exactly if the
/// gradient reaches it.
pub proof fn lemma_wanted_is_reached(g: Seq<NodeView>, root: int, i: int)
    requires
        0 <= i <= root,
    ensures
        wanted(g, root, i + 1, i) == reaches(g, root, i),
{
    if i < root {
        if reaches(g, root, i) {
            let c = choose|c: int|
                i < c <= root && reaches(g, root, c) && #[trigger] operands_spec(
                    g,
                    handle(c),
                ).contains(handle(i));
            assert(i + 1 <= c <= root && reaches(g, root, c) && operands_spec(
                g,
                handle(c),
            ).contains(handle(i)));
        }
    }
}

/// Visiting the node at position `i` adds its operands to the wanted nodes
/// if the gradient reaches it, and nothing otherwise.
pub proof fn lemma_wanted_step(g: Seq<NodeView>, root: int, i: int, j: int)
    requires
        0 <= i <= root,
    ensures
        wanted(g, root, i, j) <==> wanted(g, root, i + 1, j) || (reaches(g, root, i)
            && operands_spec(g, handle(i)).contains(handle(j))),
{
    if wanted(g, root, i, j) && j != root {
        let c = choose|c: int|
            i <= c <= root && reaches(g, root, c) && #[trigger] operands_spec(
                g,
                handle(c),
            ).contains(handle(j));
        if c != i {
            assert(i + 1 <= c <= root && reaches(g, root, c) && operands_spec(
                g,
                handle(c),
            ).contains(handle(j)));
        }
    }
    if wanted(g, root, i + 1, j) && j != root {
        let c = choose|c: int|
            i + 1 <= c <= root && reaches(g, root, c) && #[trigger] operands_spec(
                g,
                handle(c),
            ).contains(handle(j));
        assert(i <= c <= root && reaches(g, root, c) && operands_spec(g, handle(c)).contains(
            handle(j),
        ));
    }

}

/// The nodes that a backward pass from `root` visits, in the order of the
/// visit: `root` first, then, in the reverse order of their creation, every
/// node that the gradient reaches, and no other. By the time a node is
/// visited, every node that passes a gradient on to it has been visited.
/// Fails with a configuration error where `root` names no node.
pub fn backward_order(g: &Graph, root: Tensor) -> (r: Result<Vec<Tensor>, TensorError>)
    requires
        g.wf(),
    ensures
        !in_graph(g@, root) ==> r == Err::<Vec<Tensor>, TensorError>(
            TensorError::ConfigurationError,
        ),
        in_graph(g@, root) ==> match r {
            Ok(order) => {
                &&& descending(order@)
                &&& forall|i: int|
                    0 <= i < g@.len() ==> (order@.contains(handle(i)) <==> #[trigger] reaches(
                        g@,
                        root.id as int,
                        i,
                    ))
                &&& forall|k: int| 0 <= k < order@.len() ==> (#[trigger] order@[k]).id <= root.id
            },
            Err(_) => false,
        },
{
    if !g.contains(root) {
        return Err(TensorError::ConfigurationError);
    }
    let n: usize = root.id + 1;
    let mut marked: Vec<bool> = Vec::new();
    let mut k: usize = 0;
    while k < n
        invariant
            k <= n,
            marked@.len() == k,
            forall|j: int| 0 <= j < k ==> marked@[j] == (j == root.id),
        decreases n - k,
    {
        marked.push(k == root.id);
        k = k + 1;
    }
    let mut order: Vec<Tensor> = Vec::new();
    let mut i: usize = n;
    while i > 0
        invariant
            g.wf(),
            in_graph(g@, root),
            n == root.id + 1,
            i <= n,
            marked@.len() == n,
            forall|j: int|
                0 <= j < i ==> (#[trigger] marked@[j] <==> wanted(g@, root.id as int, i as int, j)),
            forall|k: int| 0 <= k < order@.len() ==> i <= (#[trigger] order@[k]).id < n,
            descending(order@),
            forall|c: int|
                i <= c < n ==> (order@.contains(handle(c)) <==> #[trigger] reaches(
                    g@,
                    root.id as int,
                    c,
                )),
        decreases i,
    {
        i = i - 1;
        let ghost before = marked@;
        let ghost visited = order@;
        proof {
            lemma_wanted_is_reached(g@, root.id as int, i as int);
        }
        if marked[i] {
            order.push(Tensor { id: i });
            let ops = operands(g, Tensor { id: i });
            let mut m: usize = 0;
            while m < ops.len()
                invariant
                    g.wf(),
                    i < n,
                    m <= ops.len(),
                    marked@.len() == n,
                    before.len() == n,
                    ops@ == operands_spec(g@, handle(i as int)),
                    forall|j: int|
                        0 <= j < i ==> (#[trigger] marked@[j] <==> before[j] || ops@.take(
                            m as int,
                        ).contains(handle(j))),
                decreases ops.len() - m,
            {
                let p = ops[m];
                proof {
                    lemma_operands_before(g@, handle(i as int), m as int);
                }
                let ghost so_far = marked@;
                marked.set(p.id, true);
                proof {
                    let shorter = ops@.take(m as int);
                    let longer = ops@.take(m + 1);
                    assert(longer =~= shorter.push(p));
                    assert forall|j: int| 0 <= j < i implies (#[trigger] marked@[j] <==> before[j]
                        || longer.contains(handle(j))) by {
                        if j == p.id {
                            assert(longer[m as int] == handle(j));
                        } else {
                            assert(marked@[j] == so_far[j]);
                            if longer.contains(handle(j)) {
                                let q = choose|q: int| 0 <= q < longer.len() && longer[q] == handle(j);
                                assert(shorter[q] == handle(j));
                            }
                            if shorter.contains(handle(j)) {
                                let q = choose|q: int|
                                    0 <= q < shorter.len() && shorter[q] == handle(j);
                                assert(longer[q] == handle(j));
                            }
                        }
                    }
                }
                m = m + 1;
            }
            proof {
                assert(ops@.take(m as int) =~= ops@);
                assert(before[i as int] && reaches(g@, root.id as int, i as int));
                assert forall|j: int| 0 <= j < i implies (#[trigger] marked@[j] <==> wanted(
                    g@,
                    root.id as int,
                    i as int,
                    j,
                )) by {
                    lemma_wanted_step(g@, root.id as int, i as int, j);
                    assert(before[j] <==> wanted(g@, root.id as int, i + 1, j));
                }
                assert(order@ == visited.push(handle(i as int)));
                assert(order@[visited.len() as int] == handle(i as int));
                assert forall|c: int| i <= c < n implies (order@.contains(handle(c))
                    <==> #[trigger] reaches(g@, root.id as int, c)) by {
                    if c != i {
                        if visited.contains(handle(c)) {
                            let q = choose|q: int| 0 <= q < visited.len() && visited[q] == handle(c);
                            assert(order@[q] == handle(c));
                        }
                        if order@.contains(handle(c)) {
                            let q = choose|q: int| 0 <= q < order@.len() && order@[q] == handle(c);
                            assert(q < visited.len());
                            assert(visited[q] == handle(c));
                        }
                    }
                }
            }
        } else {
            proof {
                assert forall|j: int| 0 <= j < i implies (#[trigger] marked@[j] <==> wanted(
                    g@,
                    root.id as int,
                    i as int,
                    j,
                )) by {
                    lemma_wanted_step(g@, root.id as int, i as int, j);
                }
                if order@.contains(handle(i as int)) {
                    let q = choose|q: int| 0 <= q < order@.len() && order@[q] == handle(i as int);
                    assert(order@[q].id >= i + 1);
                }
            }
        }
    }
    proof {
        assert forall|c: int| 0 <= c < g@.len() implies (order@.contains(handle(c))
            <==> #[trigger] reaches(g@, root.id as int, c)) by {
            if c >= n {
                if order@.contains(handle(c)) {
                    let q = choose|q: int| 0 <= q < order@.len() && order@[q] == handle(c);
                    assert(order@[q].id < n);
                }
            }
        }
    }
    Ok(order)
}

/// In the order of a backward pass every operand of a visited node is
/// visited later than the node: a node is visited only after every node that
/// passes a gradient on to it.
pub proof fn lemma_operands_visited_later(
    g: Seq<NodeView>,
    root: Tensor,
    order: Seq<Tensor>,
    k: int,
    q: int,
)
    requires
        graph_ok(g),
        in_graph(g, root),
        descending(order),
        forall|i: int|
            0 <= i < g.len() ==> (order.contains(handle(i)) <==> #[trigger] reaches(
                g,
                root.id as int,
                i,
            )),
        forall|m: int| 0 <= m < order.len() ==> (#[trigger] order[m]).id <= root.id,
        0 <= k < order.len(),
        0 <= q < operands_spec(g, order[k]).len(),
    ensures
        exists|m: int| k < m < order.len() && #[trigger] order[m] == operands_spec(g, order[k])[q],
{
    let node = order[k];
    let p = operands_spec(g, node)[q];
    lemma_operands_before(g, node, q);
    assert(node == handle(node.id as int));
    assert(p == handle(p.id as int));
    assert(order.contains(handle(node.id as int)));
    assert(reaches(g, root.id as int, node.id as int));
    assert(operands_spec(g, handle(node.id as int)).contains(handle(p.id as int)));
    assert(reaches(g, root.id as int, p.id as int));
    assert(order.contains(p));
    let m = choose|m: int| 0 <= m < order.len() && order[m] == p;
    if m < k {
        assert(order[m].id > order[k].id);
    }
    assert(k < m < order.len() && order[m] == p);
}

} // verus!
