//! What the operations mean in exact arithmetic: laws on the entries of
//! nodes that hold whatever the entries of the leaves are.

use crate::tensor::{expand_spec, graph_ok, in_graph, source_entry, NodeView, Tensor};
use vstd::prelude::*;

verus! {

/// The entry at (`row`, `col`) of node `t` when `value` gives the entries of
/// the nodes: for a node that only moves entries, the entry that it is a copy
/// of.
pub open spec fn moved_value(
    g: Seq<NodeView>,
    value: spec_fn(Tensor, nat, nat) -> int,
    t: Tensor,
    row: nat,
    col: nat,
) -> int {
    match source_entry(g, t, row, col) {
        Some((from, from_row, from_col)) => value(from, from_row, from_col),
        None => value(t, row, col),
    }
}

/// The sum of the first `rows` entries of column `col` of node `t`.
pub open spec fn column_total(
    g: Seq<NodeView>,
    value: spec_fn(Tensor, nat, nat) -> int,
    t: Tensor,
    rows: nat,
    col: nat,
) -> int
    decreases rows,
{
    if rows == 0 {
        0
    } else {
        column_total(g, value, t, (rows - 1) as nat, col) + moved_value(
            g,
            value,
            t,
            (rows - 1) as nat,
            col,
        )
    }
}

/// Repeating the single row of `t` and then summing the rows gives `copies`
/// times that row, in exact arithmetic and whatever the entries of `t` are:
/// the first `rows` rows sum to `rows` times the entry, column by column.
pub proof fn lemma_expand_then_sum(
    g: Seq<NodeView>,
    t: Tensor,
    copies: nat,
    rows: nat,
    col: nat,
    value: spec_fn(Tensor, nat, nat) -> int,
)
    requires
        graph_ok(g),
        in_graph(g, t),
        g[t.id as int].rows == 1,
        rows <= copies,
    ensures
        expand_spec(g, t, 0, copies).is_ok(),
        ({
            let (g1, x) = expand_spec(g, t, 0, copies).unwrap();
            column_total(g1, value, x, rows, col) == rows * value(t, 0, col)
        }),
    decreases rows,
{
    if rows == 0 {
        assert(0 * value(t, 0, col) == 0) by (nonlinear_arith);
    } else {
        lemma_expand_then_sum(g, t, copies, (rows - 1) as nat, col, value);
        let (g1, x) = expand_spec(g, t, 0, copies).unwrap();
        let v = value(t, 0, col);
        assert(moved_value(g1, value, x, (rows - 1) as nat, col) == v);
        assert((rows - 1) * v + v == rows * v) by (nonlinear_arith);
    }
}

/// Entry (`row`, `col`) of the matrix product of nodes `a` and `b` when
/// `value` gives their entries and `inner` is the number of columns of `a`
/// and of rows of `b`: the sum of `a[row][k] * b[k][col]` over `k`.
pub open spec fn dot_value(
    value: spec_fn(Tensor, nat, nat) -> int,
    a: Tensor,
    b: Tensor,
    inner: nat,
    row: nat,
    col: nat,
) -> int
    decreases inner,
{
    if inner == 0 {
        0
    } else {
        dot_value(value, a, b, (inner - 1) as nat, row, col) + value(a, row, (inner - 1) as nat)
            * value(b, (inner - 1) as nat, col)
    }
}

/// The sum of `term(j, k)` over the first `m` values of `j`.
pub open spec fn sum_over_first(term: spec_fn(nat, nat) -> int, m: nat, k: nat) -> int
    decreases m,
{
    if m == 0 {
        0
    } else {
        sum_over_first(term, (m - 1) as nat, k) + term((m - 1) as nat, k)
    }
}

/// The sum of `term(j, k)` over the first `p` values of `k`.
pub open spec fn sum_over_second(term: spec_fn(nat, nat) -> int, j: nat, p: nat) -> int
    decreases p,
{
    if p == 0 {
        0
    } else {
        sum_over_second(term, j, (p - 1) as nat) + term(j, (p - 1) as nat)
    }
}

/// The sum of `term` over `m` by `p` index pairs, taken `k` by `k`.
pub open spec fn sum_by_second(term: spec_fn(nat, nat) -> int, m: nat, p: nat) -> int
    decreases p,
{
    if p == 0 {
        0
    } else {
        sum_by_second(term, m, (p - 1) as nat) + sum_over_first(term, m, (p - 1) as nat)
    }
}

/// The sum of `term` over `m` by `p` index pairs, taken `j` by `j`.
pub open spec fn sum_by_first(term: spec_fn(nat, nat) -> int, m: nat, p: nat) -> int
    decreases m,
{
    if m == 0 {
        0
    } else {
        sum_by_first(term, (m - 1) as nat, p) + sum_over_second(term, (m - 1) as nat, p)
    }
}

/// One more value of `j` adds its sum over `k` to the sum taken `k` by `k`.
pub proof fn lemma_sum_by_second_grows(term: spec_fn(nat, nat) -> int, m: nat, p: nat)
    requires
        m > 0,
    ensures
        sum_by_second(term, m, p) == sum_by_second(term, (m - 1) as nat, p) + sum_over_second(
            term,
            (m - 1) as nat,
            p,
        ),
    decreases p,
{
    if p > 0 {
        lemma_sum_by_second_grows(term, m, (p - 1) as nat);
    }
}

/// A sum over two indices can be taken in either order.
pub proof fn lemma_sum_either_way(term: spec_fn(nat, nat) -> int, m: nat, p: nat)
    ensures
        sum_by_first(term, m, p) == sum_by_second(term, m, p),
    decreases m,
{
    if m == 0 {
        lemma_sum_by_second_empty(term, p);
    } else {
        lemma_sum_either_way(term, (m - 1) as nat, p);
        lemma_sum_by_second_grows(term, m, p);
    }
}

/// A sum over no value of `j` is zero.
pub proof fn lemma_sum_by_second_empty(term: spec_fn(nat, nat) -> int, p: nat)
    ensures
        sum_by_second(term, 0, p) == 0,
    decreases p,
{
    if p > 0 {
        lemma_sum_by_second_empty(term, (p - 1) as nat);
    }
}

/// The triple products that both groupings of a product of three sum up:
/// `a[row][j] * b[j][k] * c[k][col]`.
pub open spec fn triple_term(
    value: spec_fn(Tensor, nat, nat) -> int,
    a: Tensor,
    b: Tensor,
    c: Tensor,
    row: nat,
    col: nat,
) -> spec_fn(nat, nat) -> int {
    |j: nat, k: nat| value(a, row, j) * value(b, j, k) * value(c, k, col)
}

/// An entry of `a · b` times an entry of `c` is a sum of triple products.
pub proof fn lemma_left_term(
    value: spec_fn(Tensor, nat, nat) -> int,
    a: Tensor,
    b: Tensor,
    c: Tensor,
    m: nat,
    row: nat,
    col: nat,
    k: nat,
)
    ensures
        dot_value(value, a, b, m, row, k) * value(c, k, col) == sum_over_first(
            triple_term(value, a, b, c, row, col),
            m,
            k,
        ),
    decreases m,
{
    let y = value(c, k, col);
    if m > 0 {
        lemma_left_term(value, a, b, c, (m - 1) as nat, row, col, k);
        let rest = dot_value(value, a, b, (m - 1) as nat, row, k);
        let last = value(a, row, (m - 1) as nat) * value(b, (m - 1) as nat, k);
        assert((rest + last) * y == rest * y + last * y) by (nonlinear_arith);
    } else {
        assert(0 * y == 0) by (nonlinear_arith);
    }
}

/// An entry of `a` times an entry of `b · c` is a sum of triple products.
pub proof fn lemma_right_term(
    value: spec_fn(Tensor, nat, nat) -> int,
    a: Tensor,
    b: Tensor,
    c: Tensor,
    p: nat,
    row: nat,
    col: nat,
    j: nat,
)
    ensures
        value(a, row, j) * dot_value(value, b, c, p, j, col) == sum_over_second(
            triple_term(value, a, b, c, row, col),
            j,
            p,
        ),
    decreases p,
{
    let x = value(a, row, j);
    if p > 0 {
        lemma_right_term(value, a, b, c, (p - 1) as nat, row, col, j);
        let rest = dot_value(value, b, c, (p - 1) as nat, j, col);
        let u = value(b, j, (p - 1) as nat);
        let v = value(c, (p - 1) as nat, col);
        assert(x * (rest + u * v) == x * rest + x * u * v) by (nonlinear_arith);
    } else {
        assert(x * 0 == 0) by (nonlinear_arith);
    }
}

/// The product of `ab` and `c` sums the triple products `k` by `k`, where
/// the entries of `ab` in row `row` are those of the product of `a` and `b`.
pub proof fn lemma_left_grouping(
    value: spec_fn(Tensor, nat, nat) -> int,
    a: Tensor,
    b: Tensor,
    c: Tensor,
    ab: Tensor,
    m: nat,
    p: nat,
    row: nat,
    col: nat,
)
    requires
        forall|k: nat| k < p ==> #[trigger] value(ab, row, k) == dot_value(value, a, b, m, row, k),
    ensures
        dot_value(value, ab, c, p, row, col) == sum_by_second(
            triple_term(value, a, b, c, row, col),
            m,
            p,
        ),
    decreases p,
{
    if p > 0 {
        lemma_left_grouping(value, a, b, c, ab, m, (p - 1) as nat, row, col);
        lemma_left_term(value, a, b, c, m, row, col, (p - 1) as nat);
    }
}

/// The product of `a` and `bc` sums the triple products `j` by `j`, where
/// the entries of `bc` in column `col` are those of the product of `b` and
/// `c`.
pub proof fn lemma_right_grouping(
    value: spec_fn(Tensor, nat, nat) -> int,
    a: Tensor,
    b: Tensor,
    c: Tensor,
    bc: Tensor,
    m: nat,
    p: nat,
    row: nat,
    col: nat,
)
    requires
        forall|j: nat| j < m ==> #[trigger] value(bc, j, col) == dot_value(value, b, c, p, j, col),
    ensures
        dot_value(value, a, bc, m, row, col) == sum_by_first(
            triple_term(value, a, b, c, row, col),
            m,
            p,
        ),
    decreases m,
{
    if m > 0 {
        lemma_right_grouping(value, a, b, c, bc, (m - 1) as nat, p, row, col);
        lemma_right_term(value, a, b, c, p, row, col, (m - 1) as nat);
    }
}

/// The matrix product is associative in exact arithmetic: where the entries
/// of `ab` are those of the product of `a` and `b`, and the entries of `bc`
/// those of the product of `b` and `c`, the product of `ab` and `c` has the
/// entries of the product of `a` and `bc`. Here `a` has `m` columns and `b`
/// has `p` columns.
pub proof fn lemma_dot_associative(
    value: spec_fn(Tensor, nat, nat) -> int,
    a: Tensor,
    b: Tensor,
    c: Tensor,
    ab: Tensor,
    bc: Tensor,
    m: nat,
    p: nat,
    row: nat,
    col: nat,
)
    requires
        forall|k: nat| k < p ==> #[trigger] value(ab, row, k) == dot_value(value, a, b, m, row, k),
        forall|j: nat| j < m ==> #[trigger] value(bc, j, col) == dot_value(value, b, c, p, j, col),
    ensures
        dot_value(value, ab, c, p, row, col) == dot_value(value, a, bc, m, row, col),
{
    lemma_left_grouping(value, a, b, c, ab, m, p, row, col);
    lemma_right_grouping(value, a, b, c, bc, m, p, row, col);
    lemma_sum_either_way(triple_term(value, a, b, c, row, col), m, p);
}

} // verus!
