use vstd::prelude::*;

use crate::Error;
use crate::graph::Edge;
use crate::graph::Graph;
use crate::labels::demand_label;
use crate::labels::lemma_demand_label_injective;
use crate::labels::lemma_labels_distinct;
use crate::labels::lemma_supply_label_injective;
use crate::labels::spec_demand_label;
use crate::labels::spec_supply_label;
use crate::labels::supply_label;
use crate::matrix::Matrix;
use crate::matrix::row_dot;

verus! {

/// The vertex labels of the bipartite transportation graph: one supply
/// label per row, then one demand label per column, both counted from one.
pub open spec fn spec_table_vertices(n: int, m: int) -> Seq<Seq<char>> {
    Seq::new(
        (n + m) as nat,
        |k: int|
            if k < n {
                spec_supply_label((k + 1) as nat)
            } else {
                spec_demand_label((k - n + 1) as nat)
            },
    )
}

/// The edge `e` stands for cell `(i, j)` of the current plan: it joins
/// the matching supply and demand labels and carries the allocation.
pub open spec fn edge_matches_cell(e: Edge, t: Seq<Seq<i64>>, n: int, m: int, i: int, j: int) -> bool {
    &&& 0 <= i < n
    &&& 0 <= j < m
    &&& e.from@ == spec_supply_label((i + 1) as nat)
    &&& e.to@ == spec_demand_label((j + 1) as nat)
    &&& e.weight == t[i][j]
    &&& t[i][j] != 0i64
}

/// The edge `e` stands for an unused cell `(i, j)`: the plan allocates
/// nothing there, and the edge carries the cell's cost.
pub open spec fn edge_matches_unused(
    e: Edge,
    costs: Seq<Seq<i64>>,
    t: Seq<Seq<i64>>,
    n: int,
    m: int,
    i: int,
    j: int,
) -> bool {
    &&& 0 <= i < n
    &&& 0 <= j < m
    &&& e.from@ == spec_supply_label((i + 1) as nat)
    &&& e.to@ == spec_demand_label((j + 1) as nat)
    &&& e.weight == costs[i][j]
    &&& t[i][j] == 0i64
}

/// The edge stands for some cell of the plan.
pub open spec fn edge_matches_some(e: Edge, t: Seq<Seq<i64>>, n: int, m: int) -> bool {
    exists|a: int, b: int| edge_matches_cell(e, t, n, m, a, b)
}

/// The edge stands for a cell strictly before the cursor `(i, j)` in
/// row-major order.
pub open spec fn edge_matches_below_pos(
    e: Edge,
    t: Seq<Seq<i64>>,
    n: int,
    m: int,
    i: int,
    j: int,
) -> bool {
    exists|a: int, b: int| edge_matches_cell(e, t, n, m, a, b) && (a < i || (a == i && b < j))
}

/// Every edge stands for some cell of the plan.
pub open spec fn graph_edges_match(es: Seq<Edge>, t: Seq<Seq<i64>>, n: int, m: int) -> bool {
    forall|k: int| 0 <= k < es.len() ==> edge_matches_some(#[trigger] es[k], t, n, m)
}

/// Every nonzero cell of the plan has an edge standing for it.
pub open spec fn graph_covers_cells(es: Seq<Edge>, t: Seq<Seq<i64>>, n: int, m: int) -> bool {
    forall|a: int, b: int|
        0 <= a < n && 0 <= b < m && #[trigger] t[a][b] != 0i64 ==> exists|k: int|
            0 <= k < es.len() && edge_matches_cell(es[k], t, n, m, a, b)
}

/// Every edge stands for a cell strictly before the cursor `(i, j)` in
/// row-major order.
pub open spec fn edges_match_below(
    es: Seq<Edge>,
    t: Seq<Seq<i64>>,
    n: int,
    m: int,
    i: int,
    j: int,
) -> bool {
    forall|k: int| 0 <= k < es.len() ==> edge_matches_below_pos(#[trigger] es[k], t, n, m, i, j)
}

/// Every nonzero cell strictly before the cursor has an edge standing for
/// it.
pub open spec fn cells_covered_below(
    es: Seq<Edge>,
    t: Seq<Seq<i64>>,
    n: int,
    m: int,
    i: int,
    j: int,
) -> bool {
    forall|a: int, b: int|
        0 <= a < n && 0 <= b < m && (a < i || (a == i && b < j)) && #[trigger] t[a][b] != 0i64
            ==> exists|k: int| 0 <= k < es.len() && edge_matches_cell(es[k], t, n, m, a, b)
}

/// An edge names its cell uniquely: the labels decode to one row and one
/// column.
pub proof fn lemma_cell_match_unique(
    e: Edge,
    t: Seq<Seq<i64>>,
    n: int,
    m: int,
    i1: int,
    j1: int,
    i2: int,
    j2: int,
)
    requires
        edge_matches_cell(e, t, n, m, i1, j1),
        edge_matches_cell(e, t, n, m, i2, j2),
    ensures
        i1 == i2,
        j1 == j2,
{
    lemma_supply_label_injective((i1 + 1) as nat, (i2 + 1) as nat);
    lemma_demand_label_injective((j1 + 1) as nat, (j2 + 1) as nat);
}

/// A candidate names its unused cell uniquely.
pub proof fn lemma_unused_match_unique(
    e: Edge,
    costs: Seq<Seq<i64>>,
    t: Seq<Seq<i64>>,
    n: int,
    m: int,
    i1: int,
    j1: int,
    i2: int,
    j2: int,
)
    requires
        edge_matches_unused(e, costs, t, n, m, i1, j1),
        edge_matches_unused(e, costs, t, n, m, i2, j2),
    ensures
        i1 == i2,
        j1 == j2,
{
    lemma_supply_label_injective((i1 + 1) as nat, (i2 + 1) as nat);
    lemma_demand_label_injective((j1 + 1) as nat, (j2 + 1) as nat);
}

/// The edges appear in row-major order of the cells they stand for; in
/// particular no cell appears twice.
pub open spec fn edges_row_major(es: Seq<Edge>, t: Seq<Seq<i64>>, n: int, m: int) -> bool {
    forall|k1: int, k2: int, i1: int, j1: int, i2: int, j2: int|
        0 <= k1 < k2 < es.len() && #[trigger] edge_matches_cell(es[k1], t, n, m, i1, j1)
            && #[trigger] edge_matches_cell(es[k2], t, n, m, i2, j2) ==> (i1 < i2 || (i1 == i2 && j1
            < j2))
}

/// The candidates appear in row-major order of their unused cells; in
/// particular no cell appears twice.
pub open spec fn unused_row_major(
    es: Seq<Edge>,
    costs: Seq<Seq<i64>>,
    t: Seq<Seq<i64>>,
    n: int,
    m: int,
) -> bool {
    forall|k1: int, k2: int, i1: int, j1: int, i2: int, j2: int|
        0 <= k1 < k2 < es.len() && #[trigger] edge_matches_unused(es[k1], costs, t, n, m, i1, j1)
            && #[trigger] edge_matches_unused(es[k2], costs, t, n, m, i2, j2) ==> (i1 < i2 || (i1
            == i2 && j1 < j2))
}

/// Moving the cursor forward only weakens the position bound.
pub proof fn lemma_match_below_weaken(
    es: Seq<Edge>,
    t: Seq<Seq<i64>>,
    n: int,
    m: int,
    i1: int,
    j1: int,
    i2: int,
    j2: int,
)
    requires
        edges_match_below(es, t, n, m, i1, j1),
        i1 < i2 || (i1 == i2 && j1 <= j2),
    ensures
        edges_match_below(es, t, n, m, i2, j2),
{
    assert forall|k: int| 0 <= k < es.len() implies edge_matches_below_pos(
        #[trigger] es[k],
        t,
        n,
        m,
        i2,
        j2,
    ) by {
        let (a, b) = choose|a: int, b: int|
            edge_matches_cell(es[k], t, n, m, a, b) && (a < i1 || (a == i1 && b < j1));
        assert(edge_matches_cell(es[k], t, n, m, a, b) && (a < i2 || (a == i2 && b < j2)));
    }
}

/// Appending the edge of the cursor's own cell keeps the bound, with the
/// cursor moved one cell forward.
pub proof fn lemma_match_below_push(
    es: Seq<Edge>,
    e: Edge,
    t: Seq<Seq<i64>>,
    n: int,
    m: int,
    i: int,
    j: int,
)
    requires
        edges_match_below(es, t, n, m, i, j),
        edge_matches_cell(e, t, n, m, i, j),
    ensures
        edges_match_below(es.push(e), t, n, m, i, j + 1),
{
    let es2 = es.push(e);
    assert forall|k: int| 0 <= k < es2.len() implies edge_matches_below_pos(
        #[trigger] es2[k],
        t,
        n,
        m,
        i,
        j + 1,
    ) by {
        if k < es.len() {
            assert(es2[k] == es[k]);
            assert(edge_matches_below_pos(es[k], t, n, m, i, j));
            let (a, b) = choose|a: int, b: int|
                edge_matches_cell(es[k], t, n, m, a, b) && (a < i || (a == i && b < j));
            assert(edge_matches_cell(es2[k], t, n, m, a, b) && (a < i || (a == i && b < j + 1)));
        } else {
            assert(es2[k] == e);
            assert(edge_matches_cell(es2[k], t, n, m, i, j) && (i < i || (i == i && j < j + 1)));
        }
    }
}

/// Once the cursor has passed every row, the bound says nothing more.
pub proof fn lemma_match_below_all(es: Seq<Edge>, t: Seq<Seq<i64>>, n: int, m: int, i: int, j: int)
    requires
        edges_match_below(es, t, n, m, i, j),
    ensures
        graph_edges_match(es, t, n, m),
{
    assert forall|k: int| 0 <= k < es.len() implies edge_matches_some(#[trigger] es[k], t, n, m) by {
        let (a, b) = choose|a: int, b: int|
            edge_matches_cell(es[k], t, n, m, a, b) && (a < i || (a == i && b < j));
        assert(edge_matches_cell(es[k], t, n, m, a, b));
    }
}

/// Appending the edge of the cursor's own cell covers that cell too.
pub proof fn lemma_covered_push(
    es: Seq<Edge>,
    e: Edge,
    t: Seq<Seq<i64>>,
    n: int,
    m: int,
    i: int,
    j: int,
)
    requires
        cells_covered_below(es, t, n, m, i, j),
        edge_matches_cell(e, t, n, m, i, j),
    ensures
        cells_covered_below(es.push(e), t, n, m, i, j + 1),
{
    let es2 = es.push(e);
    assert forall|a: int, b: int|
        0 <= a < n && 0 <= b < m && (a < i || (a == i && b < j + 1)) && #[trigger] t[a][b] != 0i64
        implies exists|k: int| 0 <= k < es2.len() && edge_matches_cell(es2[k], t, n, m, a, b) by {
        if a < i || (a == i && b < j) {
            let k = choose|k: int| 0 <= k < es.len() && edge_matches_cell(es[k], t, n, m, a, b);
            assert(es2[k] == es[k]);
            assert(0 <= k < es2.len() && edge_matches_cell(es2[k], t, n, m, a, b));
        } else {
            let k = es2.len() - 1;
            assert(es2[k] == e);
            assert(0 <= k < es2.len() && edge_matches_cell(es2[k], t, n, m, a, b));
        }
    }
}

/// A zero cell needs no edge: the cursor may step over it.
pub proof fn lemma_covered_skip(es: Seq<Edge>, t: Seq<Seq<i64>>, n: int, m: int, i: int, j: int)
    requires
        cells_covered_below(es, t, n, m, i, j),
        0 <= i < n,
        0 <= j < m,
        t[i][j] == 0i64,
    ensures
        cells_covered_below(es, t, n, m, i, j + 1),
{
    assert forall|a: int, b: int|
        0 <= a < n && 0 <= b < m && (a < i || (a == i && b < j + 1)) && #[trigger] t[a][b] != 0i64
        implies exists|k: int| 0 <= k < es.len() && edge_matches_cell(es[k], t, n, m, a, b) by {
        assert(a < i || (a == i && b < j));
    }
}

/// Passing the end of a row is the same as standing at the head of the
/// next one.
pub proof fn lemma_covered_rowend(es: Seq<Edge>, t: Seq<Seq<i64>>, n: int, m: int, i: int)
    requires
        cells_covered_below(es, t, n, m, i, m),
    ensures
        cells_covered_below(es, t, n, m, i + 1, 0),
{
    assert forall|a: int, b: int|
        0 <= a < n && 0 <= b < m && (a < i + 1 || (a == i + 1 && b < 0)) && #[trigger] t[a][b]
            != 0i64 implies exists|k: int|
        0 <= k < es.len() && edge_matches_cell(es[k], t, n, m, a, b) by {
        assert(a < i || (a == i && b < m));
    }
}

/// Once the cursor has passed every row, every nonzero cell is covered.
pub proof fn lemma_covered_all(es: Seq<Edge>, t: Seq<Seq<i64>>, n: int, m: int, i: int, j: int)
    requires
        cells_covered_below(es, t, n, m, i, j),
        i >= n,
    ensures
        graph_covers_cells(es, t, n, m),
{
    assert forall|a: int, b: int|
        0 <= a < n && 0 <= b < m && #[trigger] t[a][b] != 0i64 implies exists|k: int|
        0 <= k < es.len() && edge_matches_cell(es[k], t, n, m, a, b) by {
        assert(a < i || (a == i && b < j));
    }
}

/// The candidate stands for some unused cell.
pub open spec fn unused_matches_some(
    e: Edge,
    costs: Seq<Seq<i64>>,
    t: Seq<Seq<i64>>,
    n: int,
    m: int,
) -> bool {
    exists|a: int, b: int| edge_matches_unused(e, costs, t, n, m, a, b)
}

/// The candidate stands for an unused cell strictly before the cursor.
pub open spec fn unused_matches_below_pos(
    e: Edge,
    costs: Seq<Seq<i64>>,
    t: Seq<Seq<i64>>,
    n: int,
    m: int,
    i: int,
    j: int,
) -> bool {
    exists|a: int, b: int|
        edge_matches_unused(e, costs, t, n, m, a, b) && (a < i || (a == i && b < j))
}

/// Every candidate stands for some unused cell.
pub open spec fn unused_edges_match(
    es: Seq<Edge>,
    costs: Seq<Seq<i64>>,
    t: Seq<Seq<i64>>,
    n: int,
    m: int,
) -> bool {
    forall|k: int| 0 <= k < es.len() ==> unused_matches_some(#[trigger] es[k], costs, t, n, m)
}

/// Every unused cell has a candidate standing for it.
pub open spec fn unused_covers_cells(
    es: Seq<Edge>,
    costs: Seq<Seq<i64>>,
    t: Seq<Seq<i64>>,
    n: int,
    m: int,
) -> bool {
    forall|a: int, b: int|
        0 <= a < n && 0 <= b < m && #[trigger] t[a][b] == 0i64 ==> exists|k: int|
            0 <= k < es.len() && edge_matches_unused(es[k], costs, t, n, m, a, b)
}

/// As `edges_match_below`, for unused cells.
pub open spec fn unused_match_below(
    es: Seq<Edge>,
    costs: Seq<Seq<i64>>,
    t: Seq<Seq<i64>>,
    n: int,
    m: int,
    i: int,
    j: int,
) -> bool {
    forall|k: int|
        0 <= k < es.len() ==> unused_matches_below_pos(#[trigger] es[k], costs, t, n, m, i, j)
}

/// As `cells_covered_below`, for unused cells.
pub open spec fn unused_covered_below(
    es: Seq<Edge>,
    costs: Seq<Seq<i64>>,
    t: Seq<Seq<i64>>,
    n: int,
    m: int,
    i: int,
    j: int,
) -> bool {
    forall|a: int, b: int|
        0 <= a < n && 0 <= b < m && (a < i || (a == i && b < j)) && #[trigger] t[a][b] == 0i64
            ==> exists|k: int| 0 <= k < es.len() && edge_matches_unused(es[k], costs, t, n, m, a, b)
}

pub proof fn lemma_unused_match_weaken(
    es: Seq<Edge>,
    costs: Seq<Seq<i64>>,
    t: Seq<Seq<i64>>,
    n: int,
    m: int,
    i1: int,
    j1: int,
    i2: int,
    j2: int,
)
    requires
        unused_match_below(es, costs, t, n, m, i1, j1),
        i1 < i2 || (i1 == i2 && j1 <= j2),
    ensures
        unused_match_below(es, costs, t, n, m, i2, j2),
{
    assert forall|k: int| 0 <= k < es.len() implies unused_matches_below_pos(
        #[trigger] es[k],
        costs,
        t,
        n,
        m,
        i2,
        j2,
    ) by {
        let (a, b) = choose|a: int, b: int|
            edge_matches_unused(es[k], costs, t, n, m, a, b) && (a < i1 || (a == i1 && b < j1));
        assert(edge_matches_unused(es[k], costs, t, n, m, a, b) && (a < i2 || (a == i2 && b < j2)));
    }
}

pub proof fn lemma_unused_match_push(
    es: Seq<Edge>,
    e: Edge,
    costs: Seq<Seq<i64>>,
    t: Seq<Seq<i64>>,
    n: int,
    m: int,
    i: int,
    j: int,
)
    requires
        unused_match_below(es, costs, t, n, m, i, j),
        edge_matches_unused(e, costs, t, n, m, i, j),
    ensures
        unused_match_below(es.push(e), costs, t, n, m, i, j + 1),
{
    let es2 = es.push(e);
    assert forall|k: int| 0 <= k < es2.len() implies unused_matches_below_pos(
        #[trigger] es2[k],
        costs,
        t,
        n,
        m,
        i,
        j + 1,
    ) by {
        if k < es.len() {
            assert(es2[k] == es[k]);
            assert(unused_matches_below_pos(es[k], costs, t, n, m, i, j));
            let (a, b) = choose|a: int, b: int|
                edge_matches_unused(es[k], costs, t, n, m, a, b) && (a < i || (a == i && b < j));
            assert(edge_matches_unused(es2[k], costs, t, n, m, a, b) && (a < i || (a == i && b < j
                + 1)));
        } else {
            assert(es2[k] == e);
            assert(edge_matches_unused(es2[k], costs, t, n, m, i, j) && (i < i || (i == i && j < j
                + 1)));
        }
    }
}

pub proof fn lemma_unused_match_all(
    es: Seq<Edge>,
    costs: Seq<Seq<i64>>,
    t: Seq<Seq<i64>>,
    n: int,
    m: int,
    i: int,
    j: int,
)
    requires
        unused_match_below(es, costs, t, n, m, i, j),
    ensures
        unused_edges_match(es, costs, t, n, m),
{
    assert forall|k: int| 0 <= k < es.len() implies unused_matches_some(
        #[trigger] es[k],
        costs,
        t,
        n,
        m,
    ) by {
        let (a, b) = choose|a: int, b: int|
            edge_matches_unused(es[k], costs, t, n, m, a, b) && (a < i || (a == i && b < j));
        assert(edge_matches_unused(es[k], costs, t, n, m, a, b));
    }
}

pub proof fn lemma_unused_covered_push(
    es: Seq<Edge>,
    e: Edge,
    costs: Seq<Seq<i64>>,
    t: Seq<Seq<i64>>,
    n: int,
    m: int,
    i: int,
    j: int,
)
    requires
        unused_covered_below(es, costs, t, n, m, i, j),
        edge_matches_unused(e, costs, t, n, m, i, j),
    ensures
        unused_covered_below(es.push(e), costs, t, n, m, i, j + 1),
{
    let es2 = es.push(e);
    assert forall|a: int, b: int|
        0 <= a < n && 0 <= b < m && (a < i || (a == i && b < j + 1)) && #[trigger] t[a][b] == 0i64
        implies exists|k: int|
        0 <= k < es2.len() && edge_matches_unused(es2[k], costs, t, n, m, a, b) by {
        if a < i || (a == i && b < j) {
            let k = choose|k: int|
                0 <= k < es.len() && edge_matches_unused(es[k], costs, t, n, m, a, b);
            assert(es2[k] == es[k]);
            assert(0 <= k < es2.len() && edge_matches_unused(es2[k], costs, t, n, m, a, b));
        } else {
            let k = es2.len() - 1;
            assert(es2[k] == e);
            assert(0 <= k < es2.len() && edge_matches_unused(es2[k], costs, t, n, m, a, b));
        }
    }
}

pub proof fn lemma_unused_covered_skip(
    es: Seq<Edge>,
    costs: Seq<Seq<i64>>,
    t: Seq<Seq<i64>>,
    n: int,
    m: int,
    i: int,
    j: int,
)
    requires
        unused_covered_below(es, costs, t, n, m, i, j),
        0 <= i < n,
        0 <= j < m,
        t[i][j] != 0i64,
    ensures
        unused_covered_below(es, costs, t, n, m, i, j + 1),
{
    assert forall|a: int, b: int|
        0 <= a < n && 0 <= b < m && (a < i || (a == i && b < j + 1)) && #[trigger] t[a][b] == 0i64
        implies exists|k: int|
        0 <= k < es.len() && edge_matches_unused(es[k], costs, t, n, m, a, b) by {
        assert(a < i || (a == i && b < j));
    }
}

pub proof fn lemma_unused_covered_rowend(
    es: Seq<Edge>,
    costs: Seq<Seq<i64>>,
    t: Seq<Seq<i64>>,
    n: int,
    m: int,
    i: int,
)
    requires
        unused_covered_below(es, costs, t, n, m, i, m),
    ensures
        unused_covered_below(es, costs, t, n, m, i + 1, 0),
{
    assert forall|a: int, b: int|
        0 <= a < n && 0 <= b < m && (a < i + 1 || (a == i + 1 && b < 0)) && #[trigger] t[a][b]
            == 0i64 implies exists|k: int|
        0 <= k < es.len() && edge_matches_unused(es[k], costs, t, n, m, a, b) by {
        assert(a < i || (a == i && b < m));
    }
}

pub proof fn lemma_unused_covered_all(
    es: Seq<Edge>,
    costs: Seq<Seq<i64>>,
    t: Seq<Seq<i64>>,
    n: int,
    m: int,
    i: int,
    j: int,
)
    requires
        unused_covered_below(es, costs, t, n, m, i, j),
        i >= n,
    ensures
        unused_covers_cells(es, costs, t, n, m),
{
    assert forall|a: int, b: int|
        0 <= a < n && 0 <= b < m && #[trigger] t[a][b] == 0i64 implies exists|k: int|
        0 <= k < es.len() && edge_matches_unused(es[k], costs, t, n, m, a, b) by {
        assert(a < i || (a == i && b < j));
    }
}

/// The label names supply row `i`, counted from zero here.
pub open spec fn is_supply_label(l: Seq<char>, i: int) -> bool {
    l == spec_supply_label((i + 1) as nat)
}

/// The label names demand column `j`, counted from zero here.
pub open spec fn is_demand_label(l: Seq<char>, j: int) -> bool {
    l == spec_demand_label((j + 1) as nat)
}

/// The edge joins supply row `i` to demand column `j`, both counted from
/// zero here.
pub open spec fn edge_joins(e: Edge, i: int, j: int) -> bool {
    is_supply_label(e.from@, i) && is_demand_label(e.to@, j)
}

/// On every edge of `es` that joins supply row `i` to demand column `j`,
/// the potentials satisfy `u[i] - v[j] == costs[i][j]`.
pub open spec fn potentials_consistent(
    es: Seq<Edge>,
    u: Seq<i64>,
    v: Seq<i64>,
    costs: Seq<Seq<i64>>,
    n: int,
    m: int,
) -> bool {
    forall|k: int, i: int, j: int|
        0 <= k < es.len() && 0 <= i < n && 0 <= j < m && #[trigger] edge_joins(es[k], i, j) ==> u[i]
            - v[j] == costs[i][j]
}

/// The grid `mc` is the reduced-cost matrix for some potentials `u`, `v`
/// that satisfy every edge equation of `es` and are pinned by `u[0] == 0`.
pub open spec fn marginal_from_potentials(
    mc: Seq<Seq<i64>>,
    u: Seq<i64>,
    v: Seq<i64>,
    es: Seq<Edge>,
    costs: Seq<Seq<i64>>,
    n: int,
    m: int,
) -> bool {
    &&& u.len() == n
    &&& v.len() == m
    &&& (n > 0 ==> u[0] == 0i64)
    &&& potentials_consistent(es, u, v, costs, n, m)
    &&& forall|i: int, j: int|
        0 <= i < n && 0 <= j < m ==> #[trigger] mc[i][j] == costs[i][j] - (u[i] - v[j])
}

/// The supply row that a label names, if any; unique by injectivity of
/// the labels.
pub open spec fn spec_supply_index(l: Seq<char>, n: int) -> Option<int> {
    if exists|i: int| 0 <= i < n && is_supply_label(l, i) {
        Some(choose|i: int| 0 <= i < n && is_supply_label(l, i))
    } else {
        None
    }
}

/// The demand column that a label names, if any.
pub open spec fn spec_demand_index(l: Seq<char>, m: int) -> Option<int> {
    if exists|j: int| 0 <= j < m && is_demand_label(l, j) {
        Some(choose|j: int| 0 <= j < m && is_demand_label(l, j))
    } else {
        None
    }
}

/// Assemble the linear system of the potentials, walking the edges in
/// order from position `t` with `l` rows already written: each edge that
/// joins a supply label to a demand label contributes one equation; an
/// edge that would not fit the square system marks it singular.
#[verifier::opaque]
pub open spec fn assemble_system(
    es: Seq<Edge>,
    costs: Seq<Seq<i64>>,
    n: int,
    m: int,
    a: Seq<Seq<i64>>,
    bv: Seq<i64>,
    l: int,
    t: int,
) -> Result<(Seq<Seq<i64>>, Seq<i64>, int), Error>
    decreases es.len() - t,
{
    if t < 0 || t >= es.len() {
        Ok((a, bv, l))
    } else {
        match (spec_supply_index(es[t].from@, n), spec_demand_index(es[t].to@, m)) {
            (Some(i), Some(j)) => if l >= n + m {
                Err(Error::SingularMatrix)
            } else {
                assemble_system(
                    es,
                    costs,
                    n,
                    m,
                    a.update(l, a[l].update(i, 1i64).update(n + j, (-1) as i64)),
                    bv.update(l, costs[i][j]),
                    l + 1,
                    t + 1,
                )
            },
            _ => assemble_system(es, costs, n, m, a, bv, l, t + 1),
        }
    }
}

/// The whole potentials computation on a spanning tree, mirrored over
/// mathematical values: assemble the equations, append the normalisation
/// `u[0] == 0`, run the mirrored solver, and split the solution.
#[verifier::opaque]
pub open spec fn spec_potentials(es: Seq<Edge>, costs: Seq<Seq<i64>>, n: int, m: int) -> Result<
    (Seq<i64>, Seq<i64>),
    Error,
> {
    if n + m >= usize::MAX {
        Err(Error::NumericOverflow)
    } else if n + m == 0 {
        Ok((Seq::empty(), Seq::empty()))
    } else {
        let size = (n + m) as nat;
        let a0 = Seq::new(size, |r: int| Seq::new(size, |c: int| 0i64));
        let b0 = Seq::new(size, |r: int| 0i64);
        match assemble_system(es, costs, n, m, a0, b0, 0, 0) {
            Err(e) => Err(e),
            Ok(abl) => if abl.2 >= n + m {
                Err(Error::SingularMatrix)
            } else {
                let a2 = abl.0.update(abl.2, abl.0[abl.2].update(0, 1i64));
                let b2 = abl.1.update(abl.2, 0i64);
                match crate::matrix::spec_solve(a2, b2) {
                    Err(e) => Err(e),
                    Ok(x) => Ok((x.subrange(0, n), x.subrange(n, n + m))),
                }
            },
        }
    }
}

/// The mirrored potentials computation, laid out stage by stage for the
/// proofs below.
pub proof fn lemma_spec_potentials_eval(es: Seq<Edge>, costs: Seq<Seq<i64>>, n: int, m: int)
    requires
        n >= 0,
        m >= 0,
    ensures
        spec_potentials(es, costs, n, m) == ({
            if n + m >= usize::MAX {
                Err::<(Seq<i64>, Seq<i64>), Error>(Error::NumericOverflow)
            } else if n + m == 0 {
                Ok::<(Seq<i64>, Seq<i64>), Error>((Seq::empty(), Seq::empty()))
            } else {
                let size = (n + m) as nat;
                let a0 = Seq::new(size, |r: int| Seq::new(size, |c: int| 0i64));
                let b0 = Seq::new(size, |r: int| 0i64);
                match assemble_system(es, costs, n, m, a0, b0, 0, 0) {
                    Err(e) => Err::<(Seq<i64>, Seq<i64>), Error>(e),
                    Ok(abl) => if abl.2 >= n + m {
                        Err::<(Seq<i64>, Seq<i64>), Error>(Error::SingularMatrix)
                    } else {
                        let a2 = abl.0.update(abl.2, abl.0[abl.2].update(0, 1i64));
                        let b2 = abl.1.update(abl.2, 0i64);
                        match crate::matrix::spec_solve(a2, b2) {
                            Err(e) => Err::<(Seq<i64>, Seq<i64>), Error>(e),
                            Ok(x) => Ok::<(Seq<i64>, Seq<i64>), Error>(
                                (x.subrange(0, n), x.subrange(n, n + m)),
                            ),
                        }
                    },
                }
            }
        }),
{
    reveal(spec_potentials);
}

/// Fill the reduced-cost grid cell by cell in row-major order from the
/// cursor `(i, j)`: each cell holds `costs[i][j] - (u[i] - v[j])`, and a
/// value that leaves the scalar range stops the computation.
pub open spec fn marginal_cells(
    costs: Seq<Seq<i64>>,
    u: Seq<i64>,
    v: Seq<i64>,
    n: int,
    m: int,
    out: Seq<Seq<i64>>,
    i: int,
    j: int,
) -> Result<Seq<Seq<i64>>, Error>
    decreases n - i, m - j,
{
    if i < 0 || i >= n {
        Ok(out)
    } else if j < 0 || j >= m {
        marginal_cells(costs, u, v, n, m, out, i + 1, 0)
    } else {
        let t = costs[i][j] - (u[i] - v[j]);
        if t < i64::MIN || t > i64::MAX {
            Err(Error::NumericOverflow)
        } else {
            marginal_cells(costs, u, v, n, m, out.update(i, out[i].update(j, t as i64)), i, j + 1)
        }
    }
}

/// The whole reduced-cost computation on a spanning tree, mirrored over
/// mathematical values: take the mirrored potentials and fill the grid.
#[verifier::opaque]
pub open spec fn spec_marginal(es: Seq<Edge>, costs: Seq<Seq<i64>>, n: int, m: int) -> Result<
    Seq<Seq<i64>>,
    Error,
> {
    match spec_potentials(es, costs, n, m) {
        Err(e) => Err(e),
        Ok(uv) => marginal_cells(
            costs,
            uv.0,
            uv.1,
            n,
            m,
            Seq::new(n as nat, |r: int| Seq::new(m as nat, |c: int| 0i64)),
            0,
            0,
        ),
    }
}

/// The mirrored reduced-cost computation, laid out for the proofs below.
pub proof fn lemma_spec_marginal_eval(es: Seq<Edge>, costs: Seq<Seq<i64>>, n: int, m: int)
    ensures
        spec_marginal(es, costs, n, m) == (match spec_potentials(es, costs, n, m) {
            Err(e) => Err::<Seq<Seq<i64>>, Error>(e),
            Ok(uv) => marginal_cells(
                costs,
                uv.0,
                uv.1,
                n,
                m,
                Seq::new(n as nat, |r: int| Seq::new(m as nat, |c: int| 0i64)),
                0,
                0,
            ),
        }),
{
    reveal(spec_marginal);
}

/// Row `r` of the linear system encodes the equation
/// `u[i] - v[j] == costs[i][j]`: a one in column `i`, a minus one in
/// column `n + j`, zeros elsewhere, and the cost on the right-hand side.
pub open spec fn row_encodes(
    arow: Seq<i64>,
    bval: i64,
    costs: Seq<Seq<i64>>,
    n: int,
    m: int,
    i: int,
    j: int,
) -> bool {
    &&& 0 <= i < n
    &&& 0 <= j < m
    &&& arow[i] == 1i64
    &&& arow[n + j] == (-1) as i64
    &&& forall|c: int| 0 <= c < arow.len() && c != i && c != n + j ==> arow[c] == 0i64
    &&& bval == costs[i][j]
}

/// The sum of the first `k` entries of `s`.
pub open spec fn sum_upto(s: Seq<i64>, k: int) -> int
    decreases k,
{
    if k <= 0 {
        0
    } else {
        sum_upto(s, k - 1) + s[k - 1]
    }
}

/// The sum of all entries of `s`.
pub open spec fn seq_sum(s: Seq<i64>) -> int {
    sum_upto(s, s.len() as int)
}

/// Updating one entry shifts the sum by the difference, if the entry lies
/// below `k`, and leaves it alone otherwise.
pub proof fn lemma_sum_update(s: Seq<i64>, k: int, p: int, v: i64)
    requires
        0 <= p < s.len(),
        k <= s.len(),
    ensures
        p < k ==> sum_upto(s.update(p, v), k) == sum_upto(s, k) + v - s[p],
        p >= k ==> sum_upto(s.update(p, v), k) == sum_upto(s, k),
    decreases k,
{
    if k > 0 {
        lemma_sum_update(s, k - 1, p, v);
    }
}

/// A sum of zeros is zero.
pub proof fn lemma_sum_zero(s: Seq<i64>, k: int)
    requires
        forall|t: int| 0 <= t < k ==> s[t] == 0i64,
    ensures
        sum_upto(s, k) == 0,
    decreases k,
{
    if k > 0 {
        lemma_sum_zero(s, k - 1);
    }
}

/// A sum of non-negative entries is at least each entry, so a zero sum
/// forces every entry to zero.
pub proof fn lemma_sum_nonneg_zero(s: Seq<i64>, k: int)
    requires
        forall|t: int| 0 <= t < k ==> s[t] >= 0i64,
        sum_upto(s, k) == 0,
        k <= s.len(),
    ensures
        forall|t: int| 0 <= t < k ==> s[t] == 0i64,
    decreases k,
{
    if k > 0 {
        assert(sum_upto(s, k - 1) >= 0) by {
            lemma_sum_nonneg(s, k - 1);
        }
        lemma_sum_nonneg_zero(s, k - 1);
    }
}

/// A sum of non-negative entries is non-negative.
pub proof fn lemma_sum_nonneg(s: Seq<i64>, k: int)
    requires
        forall|t: int| 0 <= t < k ==> s[t] >= 0i64,
    ensures
        sum_upto(s, k) >= 0,
    decreases k,
{
    if k > 0 {
        lemma_sum_nonneg(s, k - 1);
    }
}

/// The grand total of the first `i` rows of the cost-weighted transport
/// grid: each cell contributes `costs[r][c] * transport[r][c]`.
pub open spec fn total_cost_upto(costs: Seq<Seq<i64>>, transport: Seq<Seq<i64>>, i: int, m: int) -> int
    decreases i,
{
    if i <= 0 {
        0
    } else {
        total_cost_upto(costs, transport, i - 1, m) + row_dot(costs[i - 1], transport[i - 1], m)
    }
}

/// The transport grid that the North-West-Corner rule produces from the
/// working state `(t, s, d, i, j)`: allocate the smaller of `s[i]` and
/// `d[j]` at the cursor, subtract it on both sides, and advance whichever
/// cursor was exhausted.
pub open spec fn nwc_rec(t: Seq<Seq<i64>>, s: Seq<i64>, d: Seq<i64>, i: int, j: int) -> Seq<
    Seq<i64>,
>
    decreases s.len() + d.len() - i - j,
{
    if 0 <= i < s.len() && 0 <= j < d.len() {
        let amount = if s[i] <= d[j] {
            s[i]
        } else {
            d[j]
        };
        let t2 = t.update(i, t[i].update(j, amount));
        let s2 = s.update(i, (s[i] - amount) as i64);
        let d2 = d.update(j, (d[j] - amount) as i64);
        let i2 = if s[i] - amount == 0 {
            i + 1
        } else {
            i
        };
        let j2 = if d[j] - amount == 0 {
            j + 1
        } else {
            j
        };
        nwc_rec(t2, s2, d2, i2, j2)
    } else {
        t
    }
}

/// Feasibility of the North-West-Corner rule, generalised over a working
/// state: the rule adds exactly the remaining supply to each row and the
/// remaining demand to each column, and never writes a negative amount.
pub proof fn lemma_nwc_feasible(t: Seq<Seq<i64>>, s: Seq<i64>, d: Seq<i64>, i: int, j: int)
    requires
        t.len() == s.len(),
        forall|r: int| 0 <= r < t.len() ==> (#[trigger] t[r]).len() == d.len(),
        0 <= i <= s.len(),
        0 <= j <= d.len(),
        forall|r: int| 0 <= r < s.len() ==> s[r] >= 0i64,
        forall|c: int| 0 <= c < d.len() ==> d[c] >= 0i64,
        forall|r: int| 0 <= r < i ==> s[r] == 0i64,
        forall|c: int| 0 <= c < j ==> d[c] == 0i64,
        seq_sum(s) == seq_sum(d),
        forall|r: int, c: int|
            0 <= r < t.len() && 0 <= c < d.len() && #[trigger] t[r][c] != 0i64 ==> (r < i || c
                < j),
        forall|r: int, c: int| 0 <= r < t.len() && 0 <= c < d.len() ==> #[trigger] t[r][c] >= 0i64,
    ensures
        ({
            let t2 = nwc_rec(t, s, d, i, j);
            &&& t2.len() == t.len()
            &&& forall|r: int| 0 <= r < t2.len() ==> (#[trigger] t2[r]).len() == d.len()
            &&& forall|r: int|
                0 <= r < t.len() ==> sum_upto(#[trigger] t2[r], d.len() as int) == sum_upto(
                    t[r],
                    d.len() as int,
                ) + s[r]
            &&& forall|c: int|
                0 <= c < d.len() ==> sum_upto(
                    #[trigger] crate::matrix::column(t2, c),
                    s.len() as int,
                ) == sum_upto(crate::matrix::column(t, c), s.len() as int) + d[c]
            &&& forall|r: int, c: int|
                0 <= r < t.len() && 0 <= c < d.len() ==> #[trigger] t2[r][c] >= 0i64
        }),
    decreases s.len() + d.len() - i - j,
{
    let n = s.len() as int;
    let m = d.len() as int;
    if 0 <= i < n && 0 <= j < m {
        let amount = if s[i] <= d[j] {
            s[i]
        } else {
            d[j]
        };
        let t2 = t.update(i, t[i].update(j, amount));
        let s2 = s.update(i, (s[i] - amount) as i64);
        let d2 = d.update(j, (d[j] - amount) as i64);
        let i2 = if s[i] - amount == 0 {
            i + 1
        } else {
            i
        };
        let j2 = if d[j] - amount == 0 {
            j + 1
        } else {
            j
        };
        assert(0 <= amount <= s[i] && amount <= d[j]);
        assert(t[i][j] == 0i64);
        assert(s2[i] == s[i] - amount);
        assert(d2[j] == d[j] - amount);
        lemma_sum_update(s, n, i, (s[i] - amount) as i64);
        lemma_sum_update(d, m, j, (d[j] - amount) as i64);
        assert(seq_sum(s2) == seq_sum(s) - amount);
        assert(seq_sum(d2) == seq_sum(d) - amount);
        lemma_nwc_feasible(t2, s2, d2, i2, j2);
        let t3 = nwc_rec(t2, s2, d2, i2, j2);
        assert(nwc_rec(t, s, d, i, j) == t3);
        // Row sums: the write adds `amount` to row i and nothing elsewhere.
        lemma_sum_update(t[i as int], m, j, amount);
        assert(sum_upto(t2[i], m) == sum_upto(t[i], m) + amount);
        assert forall|r: int| 0 <= r < t.len() implies sum_upto(#[trigger] t3[r], m) == sum_upto(
            t[r],
            m,
        ) + s[r] by {
            assert(sum_upto(t3[r], m) == sum_upto(t2[r], m) + s2[r]);
            if r == i {
                assert(sum_upto(t2[r], m) == sum_upto(t[r], m) + amount);
            } else {
                assert(t2[r] == t[r]);
                assert(s2[r] == s[r]);
            }
        }
        // Column sums: the write adds `amount` to column j and nothing
        // elsewhere.
        assert forall|c: int| 0 <= c < m implies sum_upto(
            #[trigger] crate::matrix::column(t3, c),
            n,
        ) == sum_upto(crate::matrix::column(t, c), n) + d[c] by {
            assert(sum_upto(crate::matrix::column(t3, c), n) == sum_upto(
                crate::matrix::column(t2, c),
                n,
            ) + d2[c]);
            if c == j {
                assert(crate::matrix::column(t2, c) =~= crate::matrix::column(t, c).update(
                    i,
                    amount,
                ));
                assert(crate::matrix::column(t, c)[i] == 0i64);
                lemma_sum_update(crate::matrix::column(t, c), n, i, amount);
            } else {
                assert(crate::matrix::column(t2, c) =~= crate::matrix::column(t, c));
                assert(d2[c] == d[c]);
            }
        }
    } else {
        assert(nwc_rec(t, s, d, i, j) == t);
        // One side of the balance has run out, so by balance and
        // non-negativity the other side is exhausted as well.
        if i >= n {
            lemma_sum_zero(s, n);
            assert(seq_sum(d) == 0);
            lemma_sum_nonneg_zero(d, m);
        } else {
            lemma_sum_zero(d, m);
            assert(seq_sum(s) == 0);
            lemma_sum_nonneg_zero(s, n);
        }
        assert forall|r: int| 0 <= r < t.len() implies sum_upto(#[trigger] t[r], m) == sum_upto(
            t[r],
            m,
        ) + s[r] by {
            assert(s[r] == 0i64);
        }
        assert forall|c: int| 0 <= c < m implies sum_upto(
            #[trigger] crate::matrix::column(t, c),
            n,
        ) == sum_upto(crate::matrix::column(t, c), n) + d[c] by {
            assert(d[c] == 0i64);
        }
    }
}

/// The North-West-Corner rule is deterministic: no randomness enters it,
/// so tables with equal transport grids, supply vectors and demand
/// vectors are filled identically.
pub proof fn lemma_north_west_corner_deterministic(a: Table, b: Table)
    requires
        a.spec_transport()@ == b.spec_transport()@,
        a.spec_supply() == b.spec_supply(),
        a.spec_demand() == b.spec_demand(),
    ensures
        nwc_rec(a.spec_transport()@, a.spec_supply(), a.spec_demand(), 0, 0) == nwc_rec(
            b.spec_transport()@,
            b.spec_supply(),
            b.spec_demand(),
            0,
            0,
        ),
{
}

/// Potentials are determined only up to an additive constant: shifting
/// every `u` and every `v` by the same amount keeps every tree-edge
/// equation, and leaves every pairwise difference `u[i] - v[j]` unchanged.
pub proof fn lemma_potentials_shift(
    es: Seq<Edge>,
    u: Seq<i64>,
    v: Seq<i64>,
    u2: Seq<i64>,
    v2: Seq<i64>,
    costs: Seq<Seq<i64>>,
    n: int,
    m: int,
    c: int,
)
    requires
        potentials_consistent(es, u, v, costs, n, m),
        u.len() == n,
        v.len() == m,
        u2.len() == n,
        v2.len() == m,
        forall|i: int| 0 <= i < n ==> u2[i] as int == u[i] as int + c,
        forall|j: int| 0 <= j < m ==> v2[j] as int == v[j] as int + c,
    ensures
        potentials_consistent(es, u2, v2, costs, n, m),
        forall|i: int, j: int|
            0 <= i < n && 0 <= j < m ==> u2[i] - v2[j] == #[trigger] (u[i] - v[j]),
{
    assert forall|k: int, i: int, j: int|
        0 <= k < es.len() && 0 <= i < n && 0 <= j < m && #[trigger] edge_joins(es[k], i, j)
        implies u2[i] - v2[j] == costs[i][j] by {
        assert(u[i] - v[j] == costs[i][j]);
    }
}

/// The edge joins some supply label to some demand label, in that order.
pub open spec fn edge_is_bipartite(e: Edge, n: int, m: int) -> bool {
    exists|i: int, j: int| 0 <= i < n && 0 <= j < m && edge_joins(e, i, j)
}

/// Every edge joins a supply label to a demand label.
pub open spec fn edges_bipartite(es: Seq<Edge>, n: int, m: int) -> bool {
    forall|k: int| 0 <= k < es.len() ==> edge_is_bipartite(#[trigger] es[k], n, m)
}

/// The difference that two potential assignments show at the vertex
/// labelled `l`: at a supply label the difference of the `u`s, at a
/// demand label the difference of the `v`s.
pub open spec fn potentials_gap(
    l: Seq<char>,
    u1: Seq<i64>,
    v1: Seq<i64>,
    u2: Seq<i64>,
    v2: Seq<i64>,
    n: int,
    m: int,
) -> int {
    if exists|i: int| 0 <= i < n && is_supply_label(l, i) {
        let i = choose|i: int| 0 <= i < n && is_supply_label(l, i);
        u1[i] - u2[i]
    } else if exists|j: int| 0 <= j < m && is_demand_label(l, j) {
        let j = choose|j: int| 0 <= j < m && is_demand_label(l, j);
        v1[j] - v2[j]
    } else {
        0
    }
}

/// At the supply label of row `i`, the gap is the difference of the `u`s.
proof fn lemma_gap_at_supply(
    l: Seq<char>,
    u1: Seq<i64>,
    v1: Seq<i64>,
    u2: Seq<i64>,
    v2: Seq<i64>,
    n: int,
    m: int,
    i: int,
)
    requires
        0 <= i < n,
        is_supply_label(l, i),
    ensures
        potentials_gap(l, u1, v1, u2, v2, n, m) == u1[i] - u2[i],
{
    assert(exists|i2: int| 0 <= i2 < n && is_supply_label(l, i2));
    let i2 = choose|i2: int| 0 <= i2 < n && is_supply_label(l, i2);
    crate::labels::lemma_supply_label_injective((i2 + 1) as nat, (i + 1) as nat);
}

/// At the demand label of column `j`, the gap is the difference of the
/// `v`s.
proof fn lemma_gap_at_demand(
    l: Seq<char>,
    u1: Seq<i64>,
    v1: Seq<i64>,
    u2: Seq<i64>,
    v2: Seq<i64>,
    n: int,
    m: int,
    j: int,
)
    requires
        0 <= j < m,
        is_demand_label(l, j),
    ensures
        potentials_gap(l, u1, v1, u2, v2, n, m) == v1[j] - v2[j],
{
    if exists|i: int| 0 <= i < n && is_supply_label(l, i) {
        let i = choose|i: int| 0 <= i < n && is_supply_label(l, i);
        crate::labels::lemma_labels_distinct((i + 1) as nat, (j + 1) as nat);
    }
    assert(exists|j2: int| 0 <= j2 < m && is_demand_label(l, j2));
    let j2 = choose|j2: int| 0 <= j2 < m && is_demand_label(l, j2);
    crate::labels::lemma_demand_label_injective((j2 + 1) as nat, (j + 1) as nat);
}

/// Along any path of a bipartite graph whose edges all satisfy both
/// potential assignments, the gap between the assignments stays the same.
proof fn lemma_gap_along_path(
    es: Seq<Edge>,
    u1: Seq<i64>,
    v1: Seq<i64>,
    u2: Seq<i64>,
    v2: Seq<i64>,
    costs: Seq<Seq<i64>>,
    n: int,
    m: int,
    p: Seq<Seq<char>>,
)
    requires
        potentials_consistent(es, u1, v1, costs, n, m),
        potentials_consistent(es, u2, v2, costs, n, m),
        edges_bipartite(es, n, m),
        crate::graph::is_path(es, p),
        p.len() >= 1,
    ensures
        potentials_gap(p[0], u1, v1, u2, v2, n, m) == potentials_gap(
            p[p.len() - 1],
            u1,
            v1,
            u2,
            v2,
            n,
            m,
        ),
    decreases p.len(),
{
    if p.len() >= 2 {
        let q = p.drop_last();
        assert forall|k: int| 0 <= k < q.len() - 1 implies crate::graph::edge_between(
            es,
            #[trigger] q[k],
            q[k + 1],
        ) by {
            assert(q[k] == p[k] && q[k + 1] == p[k + 1]);
            assert(crate::graph::edge_between(es, p[k], p[k + 1]));
        }
        assert(crate::graph::is_path(es, q));
        lemma_gap_along_path(es, u1, v1, u2, v2, costs, n, m, q);
        // The last step crosses one edge, which joins a supply label to a
        // demand label and satisfies both assignments.
        let a = p[p.len() - 2];
        let b = p[p.len() - 1];
        assert(crate::graph::edge_between(es, a, b));
        let k = choose|k: int|
            0 <= k < es.len() && (((#[trigger] es[k]).from@ == a && es[k].to@ == b) || (
            es[k].from@ == b && es[k].to@ == a));
        assert(edge_is_bipartite(es[k], n, m));
        let (i, j) = choose|i: int, j: int| 0 <= i < n && 0 <= j < m && edge_joins(es[k], i, j);
        assert(edge_joins(es[k], i, j));
        assert(u1[i] - v1[j] == costs[i][j]);
        assert(u2[i] - v2[j] == costs[i][j]);
        if es[k].from@ == a {
            lemma_gap_at_supply(a, u1, v1, u2, v2, n, m, i);
            lemma_gap_at_demand(b, u1, v1, u2, v2, n, m, j);
        } else {
            lemma_gap_at_supply(b, u1, v1, u2, v2, n, m, i);
            lemma_gap_at_demand(a, u1, v1, u2, v2, n, m, j);
        }
    }
}

/// On a connected bipartite graph, potentials are unique up to one
/// additive constant: any two assignments that satisfy every edge
/// equation show the same gap at every supply row and every demand
/// column, so all pairwise differences `u[i] - v[j]` agree.
pub proof fn lemma_potentials_unique_up_to_constant(
    g: Graph,
    u1: Seq<i64>,
    v1: Seq<i64>,
    u2: Seq<i64>,
    v2: Seq<i64>,
    costs: Seq<Seq<i64>>,
    n: int,
    m: int,
)
    requires
        g.spec_connected_graph(),
        g.spec_vertices() == spec_table_vertices(n, m),
        edges_bipartite(g.spec_edges(), n, m),
        potentials_consistent(g.spec_edges(), u1, v1, costs, n, m),
        potentials_consistent(g.spec_edges(), u2, v2, costs, n, m),
        n >= 1,
        m >= 0,
    ensures
        forall|i: int| 0 <= i < n ==> #[trigger] (u1[i] - u2[i]) == u1[0] - u2[0],
        forall|j: int| 0 <= j < m ==> #[trigger] (v1[j] - v2[j]) == u1[0] - u2[0],
{
    let es = g.spec_edges();
    let vs = g.spec_vertices();
    let root = vs[0];
    assert(is_supply_label(root, 0)) by {
        assert(spec_table_vertices(n, m)[0] == spec_supply_label(1));
    }
    lemma_gap_at_supply(root, u1, v1, u2, v2, n, m, 0);
    assert forall|i: int| 0 <= i < n implies #[trigger] (u1[i] - u2[i]) == u1[0] - u2[0] by {
        assert(vs[i] == spec_table_vertices(n, m)[i]);
        assert(is_supply_label(vs[i], i));
        assert(crate::graph::connected(es, root, vs[i]));
        let p = choose|p: Seq<Seq<char>>|
            #[trigger] crate::graph::is_path(es, p) && p.len() >= 1 && p[0] == root && p[p.len()
                - 1] == vs[i];
        lemma_gap_along_path(es, u1, v1, u2, v2, costs, n, m, p);
        lemma_gap_at_supply(vs[i], u1, v1, u2, v2, n, m, i);
    }
    assert forall|j: int| 0 <= j < m implies #[trigger] (v1[j] - v2[j]) == u1[0] - u2[0] by {
        assert(vs[n + j] == spec_table_vertices(n, m)[n + j]);
        assert(is_demand_label(vs[n + j], j));
        assert(crate::graph::connected(es, root, vs[n + j]));
        let p = choose|p: Seq<Seq<char>>|
            #[trigger] crate::graph::is_path(es, p) && p.len() >= 1 && p[0] == root && p[p.len()
                - 1] == vs[n + j];
        lemma_gap_along_path(es, u1, v1, u2, v2, costs, n, m, p);
        lemma_gap_at_demand(vs[n + j], u1, v1, u2, v2, n, m, j);
    }
}

/// A transportation problem: a costs grid, the transport plan being built,
/// and the supply and demand vectors, all of agreeing dimensions, with
/// total supply equal to total demand.
pub struct Table {
    costs: Matrix,
    transport: Matrix,
    supply: Vec<i64>,
    demand: Vec<i64>,
    n: usize,
    m: usize,
}

impl Table {
    pub closed spec fn spec_costs(&self) -> Matrix {
        self.costs
    }

    pub closed spec fn spec_transport(&self) -> Matrix {
        self.transport
    }

    pub closed spec fn spec_supply(&self) -> Seq<i64> {
        self.supply@
    }

    pub closed spec fn spec_demand(&self) -> Seq<i64> {
        self.demand@
    }

    pub closed spec fn spec_n(&self) -> usize {
        self.n
    }

    pub closed spec fn spec_m(&self) -> usize {
        self.m
    }

    /// Dimensions agree and the problem is balanced.
    pub open spec fn wf(&self) -> bool {
        &&& self.spec_costs().wf()
        &&& self.spec_transport().wf()
        &&& self.spec_n() == self.spec_supply().len()
        &&& self.spec_m() == self.spec_demand().len()
        &&& self.spec_costs().spec_rows() == self.spec_n()
        &&& self.spec_costs().spec_cols() == self.spec_m()
        &&& self.spec_transport().spec_rows() == self.spec_n()
        &&& self.spec_transport().spec_cols() == self.spec_m()
        &&& seq_sum(self.spec_supply()) == seq_sum(self.spec_demand())
    }

    /// Validate dimensions and the balance invariant, then assemble a
    /// table.  Disagreeing sizes are refused with `DimensionMismatch`;
    /// a total supply different from total demand is refused with
    /// `UnbalancedProblem`.
    pub fn new(costs: Matrix, transport: Matrix, supply: Vec<i64>, demand: Vec<i64>) -> (r: Result<
        Table,
        Error,
    >)
        requires
            costs.wf(),
            transport.wf(),
        ensures
            !(costs.spec_rows() == supply@.len() && costs.spec_cols() == demand@.len()
                && transport.spec_rows() == supply@.len() && transport.spec_cols()
                == demand@.len()) <==> r == Err::<Table, Error>(Error::DimensionMismatch),
            (costs.spec_rows() == supply@.len() && costs.spec_cols() == demand@.len()
                && transport.spec_rows() == supply@.len() && transport.spec_cols() == demand@.len()
                && seq_sum(supply@) != seq_sum(demand@)) <==> r == Err::<Table, Error>(
                Error::UnbalancedProblem,
            ),
            (costs.spec_rows() == supply@.len() && costs.spec_cols() == demand@.len()
                && transport.spec_rows() == supply@.len() && transport.spec_cols() == demand@.len()
                && seq_sum(supply@) == seq_sum(demand@)) ==> r is Ok,
            r matches Ok(t) ==> {
                &&& t.wf()
                &&& t.spec_costs() == costs
                &&& t.spec_transport() == transport
                &&& t.spec_supply() == supply@
                &&& t.spec_demand() == demand@
                &&& t.spec_n() == supply@.len()
                &&& t.spec_m() == demand@.len()
            },
    {
        if !(costs.rows() == supply.len() && costs.cols() == demand.len() && transport.rows()
            == supply.len() && transport.cols() == demand.len()) {
            return Err(Error::DimensionMismatch);
        }
        let s_total = sum_i64(&supply);
        let d_total = sum_i64(&demand);
        if s_total != d_total {
            return Err(Error::UnbalancedProblem);
        }
        let n = supply.len();
        let m = demand.len();
        Ok(Table { costs, transport, supply, demand, n, m })
    }

    /// An `n` by `m` problem whose costs, plan, supplies and demands are
    /// all zero; trivially balanced.
    pub fn new_empty(n: usize, m: usize) -> (r: Table)
        ensures
            r.wf(),
            r.spec_n() == n,
            r.spec_m() == m,
            forall|i: int, j: int|
                0 <= i < n && 0 <= j < m ==> #[trigger] r.spec_costs()@[i][j] == 0i64,
            forall|i: int, j: int|
                0 <= i < n && 0 <= j < m ==> #[trigger] r.spec_transport()@[i][j] == 0i64,
            forall|i: int| 0 <= i < n ==> #[trigger] r.spec_supply()[i] == 0i64,
            forall|j: int| 0 <= j < m ==> #[trigger] r.spec_demand()[j] == 0i64,
    {
        let costs = Matrix::new_empty(n, m);
        let transport = Matrix::new_empty(n, m);
        let mut supply: Vec<i64> = Vec::new();
        let mut i: usize = 0;
        while i < n
            invariant
                i <= n,
                supply@.len() == i,
                forall|q: int| 0 <= q < i ==> supply@[q] == 0i64,
            decreases n - i,
        {
            supply.push(0);
            i += 1;
        }
        let mut demand: Vec<i64> = Vec::new();
        let mut j: usize = 0;
        while j < m
            invariant
                j <= m,
                demand@.len() == j,
                forall|q: int| 0 <= q < j ==> demand@[q] == 0i64,
            decreases m - j,
        {
            demand.push(0);
            j += 1;
        }
        proof {
            lemma_sum_zero(supply@, n as int);
            lemma_sum_zero(demand@, m as int);
            assert forall|i: int, j: int| 0 <= i < n && 0 <= j < m implies #[trigger] costs@[i][j]
                == 0i64 by {
                assert(costs.in_bounds(i, j));
            }
            assert forall|i: int, j: int|
                0 <= i < n && 0 <= j < m implies #[trigger] transport@[i][j] == 0i64 by {
                assert(transport.in_bounds(i, j));
            }
        }
        Table { costs, transport, supply, demand, n, m }
    }

    /// The costs grid.
    pub fn costs(&self) -> (r: &Matrix)
        ensures
            *r == self.spec_costs(),
    {
        &self.costs
    }

    /// The transport plan.
    pub fn transport(&self) -> (r: &Matrix)
        ensures
            *r == self.spec_transport(),
    {
        &self.transport
    }

    /// The supply vector.
    pub fn supply(&self) -> (r: &Vec<i64>)
        ensures
            r@ == self.spec_supply(),
    {
        &self.supply
    }

    /// The demand vector.
    pub fn demand(&self) -> (r: &Vec<i64>)
        ensures
            r@ == self.spec_demand(),
    {
        &self.demand
    }

    /// Fill the transport plan by the North-West-Corner rule: walk the
    /// grid from the top-left cell, allocate the smaller of the remaining
    /// supply and demand, and advance past each exhausted row or column.
    /// The supply and demand vectors themselves are not changed.  When the
    /// plan starts all-zero, the result is feasible: each row sums to its
    /// supply and each column to its demand.
    pub fn north_west_corner(&mut self)
        requires
            old(self).wf(),
            forall|r: int| 0 <= r < old(self).spec_supply().len() ==> old(self).spec_supply()[r]
                >= 0i64,
            forall|c: int| 0 <= c < old(self).spec_demand().len() ==> old(self).spec_demand()[c]
                >= 0i64,
        ensures
            final(self).wf(),
            final(self).spec_costs() == old(self).spec_costs(),
            final(self).spec_supply() == old(self).spec_supply(),
            final(self).spec_demand() == old(self).spec_demand(),
            final(self).spec_n() == old(self).spec_n(),
            final(self).spec_m() == old(self).spec_m(),
            final(self).spec_transport().spec_rows() == old(self).spec_transport().spec_rows(),
            final(self).spec_transport().spec_cols() == old(self).spec_transport().spec_cols(),
            final(self).spec_transport()@ == nwc_rec(
                old(self).spec_transport()@,
                old(self).spec_supply(),
                old(self).spec_demand(),
                0,
                0,
            ),
            (forall|r: int, c: int|
                0 <= r < old(self).spec_n() && 0 <= c < old(self).spec_m()
                    ==> #[trigger] old(self).spec_transport()@[r][c] == 0i64) ==> {
                &&& forall|r: int|
                    0 <= r < old(self).spec_n() ==> sum_upto(
                        #[trigger] final(self).spec_transport()@[r],
                        old(self).spec_m() as int,
                    ) == old(self).spec_supply()[r]
                &&& forall|c: int|
                    0 <= c < old(self).spec_m() ==> sum_upto(
                        #[trigger] crate::matrix::column(final(self).spec_transport()@, c),
                        old(self).spec_n() as int,
                    ) == old(self).spec_demand()[c]
                &&& forall|r: int, c: int|
                    0 <= r < old(self).spec_n() && 0 <= c < old(self).spec_m()
                        ==> #[trigger] final(self).spec_transport()@[r][c] >= 0i64
            },
    {
        let n = self.n;
        let m = self.m;
        let mut supply = self.supply.clone();
        let mut demand = self.demand.clone();
        proof {
            assert(supply@ =~= self.spec_supply());
            assert(demand@ =~= self.spec_demand());
        }
        let mut i: usize = 0;
        let mut j: usize = 0;
        while i < n && j < m
            invariant
                self.wf(),
                n == self.spec_n(),
                m == self.spec_m(),
                self.spec_costs() == old(self).spec_costs(),
                self.spec_supply() == old(self).spec_supply(),
                self.spec_demand() == old(self).spec_demand(),
                self.spec_n() == old(self).spec_n(),
                self.spec_m() == old(self).spec_m(),
                self.spec_transport().spec_rows() == old(self).spec_transport().spec_rows(),
                self.spec_transport().spec_cols() == old(self).spec_transport().spec_cols(),
                supply@.len() == n,
                demand@.len() == m,
                i <= n,
                j <= m,
                forall|r: int| 0 <= r < n ==> supply@[r] >= 0i64,
                forall|c: int| 0 <= c < m ==> demand@[c] >= 0i64,
                nwc_rec(
                    old(self).spec_transport()@,
                    old(self).spec_supply(),
                    old(self).spec_demand(),
                    0,
                    0,
                ) == nwc_rec(self.spec_transport()@, supply@, demand@, i as int, j as int),
            decreases n + m - i - j,
        {
            let s_i = supply[i];
            let d_j = demand[j];
            let amount = if s_i <= d_j {
                s_i
            } else {
                d_j
            };
            let ghost t_pre = self.spec_transport()@;
            let ghost s_pre = supply@;
            let ghost d_pre = demand@;
            self.transport.put(i, j, amount);
            supply[i] = s_i - amount;
            demand[j] = d_j - amount;
            let advance_i = supply[i] == 0;
            let advance_j = demand[j] == 0;
            proof {
                assert(supply@ =~= s_pre.update(i as int, (s_pre[i as int] - amount) as i64));
                assert(demand@ =~= d_pre.update(j as int, (d_pre[j as int] - amount) as i64));
                assert(nwc_rec(t_pre, s_pre, d_pre, i as int, j as int) == nwc_rec(
                    self.spec_transport()@,
                    supply@,
                    demand@,
                    if s_pre[i as int] - amount == 0 {
                        i as int + 1
                    } else {
                        i as int
                    },
                    if d_pre[j as int] - amount == 0 {
                        j as int + 1
                    } else {
                        j as int
                    },
                ));
            }
            if advance_i {
                i += 1;
            }
            if advance_j {
                j += 1;
            }
        }
        proof {
            assert(nwc_rec(self.spec_transport()@, supply@, demand@, i as int, j as int)
                == self.spec_transport()@);
            if forall|r: int, c: int|
                0 <= r < old(self).spec_n() && 0 <= c < old(self).spec_m()
                    ==> #[trigger] old(self).spec_transport()@[r][c] == 0i64 {
                old(self).spec_transport().lemma_wf_shape();
                lemma_nwc_feasible(
                    old(self).spec_transport()@,
                    old(self).spec_supply(),
                    old(self).spec_demand(),
                    0,
                    0,
                );
                let t0 = old(self).spec_transport()@;
                assert forall|r: int| 0 <= r < old(self).spec_n() implies sum_upto(
                    #[trigger] t0[r],
                    old(self).spec_m() as int,
                ) == 0 by {
                    lemma_sum_zero(t0[r], old(self).spec_m() as int);
                }
                assert forall|c: int| 0 <= c < old(self).spec_m() implies sum_upto(
                    #[trigger] crate::matrix::column(t0, c),
                    old(self).spec_n() as int,
                ) == 0 by {
                    lemma_sum_zero(crate::matrix::column(t0, c), old(self).spec_n() as int);
                }
            }
        }
    }

    /// The bipartite graph of the current plan: one vertex per supply row
    /// and per demand column, and one edge per nonzero transport cell,
    /// weighted by the allocated amount.
    pub fn get_graph(&self) -> (r: Graph)
        requires
            self.wf(),
        ensures
            r.wf(),
            r.spec_vertices() == spec_table_vertices(self.spec_n() as int, self.spec_m() as int),
            graph_edges_match(
                r.spec_edges(),
                self.spec_transport()@,
                self.spec_n() as int,
                self.spec_m() as int,
            ),
            graph_covers_cells(
                r.spec_edges(),
                self.spec_transport()@,
                self.spec_n() as int,
                self.spec_m() as int,
            ),
            edges_row_major(
                r.spec_edges(),
                self.spec_transport()@,
                self.spec_n() as int,
                self.spec_m() as int,
            ),
    {
        let n = self.n;
        let m = self.m;
        let ghost nn = n as int;
        let ghost mm = m as int;
        let ghost t = self.spec_transport()@;
        let mut graph = Graph::new();
        let mut i: usize = 0;
        while i < n
            invariant
                graph.wf(),
                i <= n,
                graph.spec_edges().len() == 0,
                graph.spec_vertices().len() == i,
                forall|k: int|
                    0 <= k < i ==> graph.spec_vertices()[k] == spec_supply_label((k + 1) as nat),
            decreases n - i,
        {
            let lbl = supply_label(i + 1);
            proof {
                assert forall|k: int| 0 <= k < i implies graph.spec_vertices()[k] != lbl@ by {
                    if graph.spec_vertices()[k] == lbl@ {
                        lemma_supply_label_injective((k + 1) as nat, (i + 1) as nat);
                    }
                }
            }
            let res = graph.add_node(lbl);
            proof {
                assert(res is Ok);
            }
            i += 1;
        }
        let mut j: usize = 0;
        while j < m
            invariant
                graph.wf(),
                j <= m,
                graph.spec_edges().len() == 0,
                graph.spec_vertices().len() == n + j,
                forall|k: int|
                    0 <= k < n ==> graph.spec_vertices()[k] == spec_supply_label((k + 1) as nat),
                forall|k: int|
                    n <= k < n + j ==> graph.spec_vertices()[k] == spec_demand_label(
                        (k - n + 1) as nat,
                    ),
            decreases m - j,
        {
            let lbl = demand_label(j + 1);
            proof {
                assert forall|k: int| 0 <= k < n + j implies graph.spec_vertices()[k] != lbl@ by {
                    if graph.spec_vertices()[k] == lbl@ {
                        if k < n {
                            lemma_labels_distinct((k + 1) as nat, (j + 1) as nat);
                        } else {
                            lemma_demand_label_injective((k - n + 1) as nat, (j + 1) as nat);
                        }
                    }
                }
            }
            let res = graph.add_node(lbl);
            proof {
                assert(res is Ok);
            }
            j += 1;
        }
        proof {
            assert(graph.spec_vertices() =~= spec_table_vertices(nn, mm));
        }
        let mut i: usize = 0;
        while i < n
            invariant
                self.wf(),
                n == self.spec_n(),
                m == self.spec_m(),
                nn == n as int,
                mm == m as int,
                t == self.spec_transport()@,
                graph.wf(),
                i <= n,
                graph.spec_vertices() == spec_table_vertices(nn, mm),
                edges_match_below(graph.spec_edges(), t, nn, mm, i as int, 0),
                cells_covered_below(graph.spec_edges(), t, nn, mm, i as int, 0),
                edges_row_major(graph.spec_edges(), t, nn, mm),
            decreases n - i,
        {
            let mut j: usize = 0;
            while j < m
                invariant
                    self.wf(),
                    n == self.spec_n(),
                    m == self.spec_m(),
                    nn == n as int,
                    mm == m as int,
                    t == self.spec_transport()@,
                    graph.wf(),
                    i < n,
                    j <= m,
                    graph.spec_vertices() == spec_table_vertices(nn, mm),
                    edges_match_below(graph.spec_edges(), t, nn, mm, i as int, j as int),
                    cells_covered_below(graph.spec_edges(), t, nn, mm, i as int, j as int),
                    edges_row_major(graph.spec_edges(), t, nn, mm),
                decreases m - j,
            {
                let w = self.transport.at(i, j);
                if w != 0 {
                    let from = supply_label(i + 1);
                    let to = demand_label(j + 1);
                    proof {
                        let il = i as int;
                        let jl = j as int;
                        assert(spec_table_vertices(nn, mm)[il] == spec_supply_label(
                            (il + 1) as nat,
                        ));
                        assert(spec_table_vertices(nn, mm)[nn + jl] == spec_demand_label(
                            (jl + 1) as nat,
                        ));
                        assert(graph.spec_vertices()[il] == from@);
                        assert(graph.spec_vertices()[nn + jl] == to@);
                        assert(graph.spec_has_vertex(from@));
                        assert(graph.spec_has_vertex(to@));
                        // No earlier edge joins this pair of labels, in
                        // either direction.
                        assert forall|k: int|
                            0 <= k < graph.spec_edges().len() implies !(((
                        #[trigger] graph.spec_edges()[k]).from@ == from@
                            && graph.spec_edges()[k].to@ == to@) || (graph.spec_edges()[k].from@
                            == to@ && graph.spec_edges()[k].to@ == from@)) by {
                            let e = graph.spec_edges()[k];
                            let (a, b) = choose|a: int, b: int|
                                edge_matches_cell(e, t, nn, mm, a, b) && (a < il || (a == il && b
                                    < jl));
                            if e.from@ == from@ && e.to@ == to@ {
                                lemma_supply_label_injective((a + 1) as nat, (il + 1) as nat);
                                lemma_demand_label_injective((b + 1) as nat, (jl + 1) as nat);
                            }
                            if e.from@ == to@ {
                                lemma_labels_distinct((a + 1) as nat, (jl + 1) as nat);
                            }
                        }
                        assert(!crate::graph::edge_between(graph.spec_edges(), from@, to@));
                    }
                    let ghost pre = graph.spec_edges();
                    let res = graph.add_edge(from, to, w);
                    proof {
                        assert(res is Ok);
                        let e_new = graph.spec_edges().last();
                        assert(edge_matches_cell(e_new, t, nn, mm, i as int, j as int));
                        assert(graph.spec_edges() == pre.push(e_new));
                        lemma_match_below_push(pre, e_new, t, nn, mm, i as int, j as int);
                        lemma_covered_push(pre, e_new, t, nn, mm, i as int, j as int);
                        // The new edge's cell comes after every earlier one.
                        let es2 = graph.spec_edges();
                        assert forall|k1: int, k2: int, i1: int, j1: int, i2: int, j2: int|
                            0 <= k1 < k2 < es2.len() && #[trigger] edge_matches_cell(
                            es2[k1],
                            t,
                            nn,
                            mm,
                            i1,
                            j1,
                        ) && #[trigger] edge_matches_cell(es2[k2], t, nn, mm, i2, j2) implies (i1
                            < i2 || (i1 == i2 && j1 < j2)) by {
                            if k2 < es2.len() - 1 {
                                assert(es2[k1] == pre[k1] && es2[k2] == pre[k2]);
                            } else {
                                assert(es2[k2] == e_new);
                                lemma_cell_match_unique(
                                    e_new,
                                    t,
                                    nn,
                                    mm,
                                    i2,
                                    j2,
                                    i as int,
                                    j as int,
                                );
                                assert(es2[k1] == pre[k1]);
                                assert(edge_matches_below_pos(pre[k1], t, nn, mm, i as int, j as int));
                                let (a, b) = choose|a: int, b: int|
                                    edge_matches_cell(pre[k1], t, nn, mm, a, b) && (a < i as int
                                        || (a == i as int && b < j as int));
                                lemma_cell_match_unique(pre[k1], t, nn, mm, i1, j1, a, b);
                            }
                        }
                    }
                } else {
                    proof {
                        lemma_covered_skip(graph.spec_edges(), t, nn, mm, i as int, j as int);
                        lemma_match_below_weaken(
                            graph.spec_edges(),
                            t,
                            nn,
                            mm,
                            i as int,
                            j as int,
                            i as int,
                            j as int + 1,
                        );
                    }
                }
                j += 1;
            }
            proof {
                lemma_match_below_weaken(
                    graph.spec_edges(),
                    t,
                    nn,
                    mm,
                    i as int,
                    m as int,
                    i as int + 1,
                    0,
                );
                lemma_covered_rowend(graph.spec_edges(), t, nn, mm, i as int);
            }
            i += 1;
        }
        proof {
            lemma_match_below_all(graph.spec_edges(), t, nn, mm, n as int, 0);
            lemma_covered_all(graph.spec_edges(), t, nn, mm, n as int, 0);
        }
        graph
    }

    /// One candidate edge per unused (zero-allocation) cell, weighted by
    /// that cell's cost.
    pub fn get_unused_edges(&self) -> (r: Vec<Edge>)
        requires
            self.wf(),
        ensures
            unused_edges_match(
                r@,
                self.spec_costs()@,
                self.spec_transport()@,
                self.spec_n() as int,
                self.spec_m() as int,
            ),
            unused_covers_cells(
                r@,
                self.spec_costs()@,
                self.spec_transport()@,
                self.spec_n() as int,
                self.spec_m() as int,
            ),
            unused_row_major(
                r@,
                self.spec_costs()@,
                self.spec_transport()@,
                self.spec_n() as int,
                self.spec_m() as int,
            ),
    {
        let n = self.n;
        let m = self.m;
        let ghost nn = n as int;
        let ghost mm = m as int;
        let ghost t = self.spec_transport()@;
        let ghost cg = self.spec_costs()@;
        let mut out: Vec<Edge> = Vec::new();
        let mut i: usize = 0;
        while i < n
            invariant
                self.wf(),
                n == self.spec_n(),
                m == self.spec_m(),
                nn == n as int,
                mm == m as int,
                t == self.spec_transport()@,
                cg == self.spec_costs()@,
                i <= n,
                unused_match_below(out@, cg, t, nn, mm, i as int, 0),
                unused_covered_below(out@, cg, t, nn, mm, i as int, 0),
                unused_row_major(out@, cg, t, nn, mm),
            decreases n - i,
        {
            let mut j: usize = 0;
            while j < m
                invariant
                    self.wf(),
                    n == self.spec_n(),
                    m == self.spec_m(),
                    nn == n as int,
                    mm == m as int,
                    t == self.spec_transport()@,
                    cg == self.spec_costs()@,
                    i < n,
                    j <= m,
                    unused_match_below(out@, cg, t, nn, mm, i as int, j as int),
                    unused_covered_below(out@, cg, t, nn, mm, i as int, j as int),
                    unused_row_major(out@, cg, t, nn, mm),
                decreases m - j,
            {
                if self.transport.at(i, j) == 0 {
                    let e = Edge::new(
                        supply_label(i + 1),
                        demand_label(j + 1),
                        self.costs.at(i, j),
                    );
                    let ghost pre = out@;
                    out.push(e);
                    proof {
                        let e_new = out@.last();
                        assert(edge_matches_unused(e_new, cg, t, nn, mm, i as int, j as int));
                        assert(out@ == pre.push(e_new));
                        lemma_unused_match_push(pre, e_new, cg, t, nn, mm, i as int, j as int);
                        lemma_unused_covered_push(pre, e_new, cg, t, nn, mm, i as int, j as int);
                        // The new candidate's cell comes after every
                        // earlier one.
                        let es2 = out@;
                        assert forall|k1: int, k2: int, i1: int, j1: int, i2: int, j2: int|
                            0 <= k1 < k2 < es2.len() && #[trigger] edge_matches_unused(
                            es2[k1],
                            cg,
                            t,
                            nn,
                            mm,
                            i1,
                            j1,
                        ) && #[trigger] edge_matches_unused(es2[k2], cg, t, nn, mm, i2, j2)
                            implies (i1 < i2 || (i1 == i2 && j1 < j2)) by {
                            if k2 < es2.len() - 1 {
                                assert(es2[k1] == pre[k1] && es2[k2] == pre[k2]);
                            } else {
                                assert(es2[k2] == e_new);
                                lemma_unused_match_unique(
                                    e_new,
                                    cg,
                                    t,
                                    nn,
                                    mm,
                                    i2,
                                    j2,
                                    i as int,
                                    j as int,
                                );
                                assert(es2[k1] == pre[k1]);
                                assert(unused_matches_below_pos(
                                    pre[k1],
                                    cg,
                                    t,
                                    nn,
                                    mm,
                                    i as int,
                                    j as int,
                                ));
                                let (a, b) = choose|a: int, b: int|
                                    edge_matches_unused(pre[k1], cg, t, nn, mm, a, b) && (a
                                        < i as int || (a == i as int && b < j as int));
                                lemma_unused_match_unique(pre[k1], cg, t, nn, mm, i1, j1, a, b);
                            }
                        }
                    }
                } else {
                    proof {
                        lemma_unused_covered_skip(out@, cg, t, nn, mm, i as int, j as int);
                        lemma_unused_match_weaken(
                            out@,
                            cg,
                            t,
                            nn,
                            mm,
                            i as int,
                            j as int,
                            i as int,
                            j as int + 1,
                        );
                    }
                }
                j += 1;
            }
            proof {
                lemma_unused_match_weaken(out@, cg, t, nn, mm, i as int, m as int, i as int + 1, 0);
                lemma_unused_covered_rowend(out@, cg, t, nn, mm, i as int);
            }
            i += 1;
        }
        proof {
            lemma_unused_match_all(out@, cg, t, nn, mm, n as int, 0);
            lemma_unused_covered_all(out@, cg, t, nn, mm, n as int, 0);
        }
        out
    }

    /// The dual potentials of the plan whose tree is `graph`: one value
    /// `u[i]` per supply row and one `v[j]` per demand column, such that
    /// `u[i] - v[j]` equals the cost on every tree edge, pinned down by
    /// `u[0] == 0`.  A graph that is not a spanning tree is refused.
    #[verifier::rlimit(100)]
    pub fn potentials(&self, graph: &Graph) -> (r: Result<(Vec<i64>, Vec<i64>), Error>)
        requires
            self.wf(),
            graph.wf(),
        ensures
            !graph.spec_is_tree() <==> r == Err::<(Vec<i64>, Vec<i64>), Error>(Error::NotATree),
            r matches Ok(uv) ==> {
                &&& graph.spec_is_tree()
                &&& uv.0@.len() == self.spec_n()
                &&& uv.1@.len() == self.spec_m()
                &&& (self.spec_n() > 0 ==> uv.0@[0] == 0i64)
                &&& potentials_consistent(
                    graph.spec_edges(),
                    uv.0@,
                    uv.1@,
                    self.spec_costs()@,
                    self.spec_n() as int,
                    self.spec_m() as int,
                )
            },
            r matches Err(e) ==> e == Error::NotATree || e == Error::SingularMatrix || e
                == Error::NumericOverflow,
            graph.spec_is_tree() ==> {
                &&& (r matches Ok(uv) ==> spec_potentials(
                    graph.spec_edges(),
                    self.spec_costs()@,
                    self.spec_n() as int,
                    self.spec_m() as int,
                ) == Ok::<(Seq<i64>, Seq<i64>), Error>((uv.0@, uv.1@)))
                &&& (r matches Err(e) ==> spec_potentials(
                    graph.spec_edges(),
                    self.spec_costs()@,
                    self.spec_n() as int,
                    self.spec_m() as int,
                ) == Err::<(Seq<i64>, Seq<i64>), Error>(e))
            },
    {
        if !graph.is_tree() {
            return Err(Error::NotATree);
        }
        let n = self.n;
        let m = self.m;
        let ghost nn = n as int;
        let ghost mm = m as int;
        let ghost cg = self.spec_costs()@;
        let ghost es = graph.spec_edges();
        let size_opt = n.checked_add(m);
        let size = match size_opt {
            Some(s) => s,
            None => {
                proof {
                    lemma_spec_potentials_eval(es, cg, nn, mm);
                }
                return Err(Error::NumericOverflow);
            },
        };
        if size == usize::MAX {
            proof {
                lemma_spec_potentials_eval(es, cg, nn, mm);
            }
            return Err(Error::NumericOverflow);
        }
        if size == 0 {
            let u0: Vec<i64> = Vec::new();
            let v0: Vec<i64> = Vec::new();
            proof {
                lemma_spec_potentials_eval(es, cg, nn, mm);
                assert(u0@ =~= Seq::<i64>::empty());
                assert(v0@ =~= Seq::<i64>::empty());
            }
            return Ok((u0, v0));
        }
        let edges_ref = graph.edges();
        let count = edges_ref.len();
        let ghost a0g = Seq::new((nn + mm) as nat, |r: int| Seq::new((nn + mm) as nat, |c: int| 0i64));
        let ghost b0g = Seq::new((nn + mm) as nat, |r: int| 0i64);
        let mut a = Matrix::new_empty(size, size);
        let mut b: Vec<i64> = Vec::new();
        let mut z: usize = 0;
        while z < size
            invariant
                z <= size,
                b@.len() == z,
                forall|r: int| 0 <= r < z ==> b@[r] == 0i64,
            decreases size - z,
        {
            b.push(0i64);
            z += 1;
        }
        proof {
            a.lemma_wf_shape();
            assert forall|r: int, c: int| 0 <= r < size && 0 <= c < size implies #[trigger] a@[r][c]
                == 0i64 by {
                assert(a.in_bounds(r, c));
            }
            assert forall|r: int| 0 <= r < size implies #[trigger] a@[r] =~= a0g[r] by {}
            assert(a@ =~~= a0g);
            assert(b@ =~= b0g);
        }
        let ghost asm_target = assemble_system(es, cg, nn, mm, a0g, b0g, 0, 0);
        let mut l: usize = 0;
        let ghost mut rows: Seq<(int, int)> = Seq::empty();
        let mut t: usize = 0;
        while t < count
            invariant
                self.wf(),
                graph.wf(),
                graph.spec_is_tree(),
                n == self.spec_n(),
                m == self.spec_m(),
                nn == n as int,
                mm == m as int,
                cg == self.spec_costs()@,
                size == n + m,
                size >= 1,
                edges_ref@ == es,
                es == graph.spec_edges(),
                count == es.len(),
                a.wf(),
                a.spec_rows() == size,
                a.spec_cols() == size,
                a@.len() == size,
                forall|r: int| 0 <= r < size ==> (#[trigger] a@[r]).len() == size,
                b@.len() == size,
                t <= count,
                l <= size,
                rows.len() == l,
                forall|r: int|
                    0 <= r < l ==> row_encodes(
                        #[trigger] a@[r],
                        b@[r],
                        cg,
                        nn,
                        mm,
                        rows[r].0,
                        rows[r].1,
                    ),
                forall|r: int, c: int|
                    l <= r < size && 0 <= c < size ==> #[trigger] a@[r][c] == 0i64,
                forall|r: int| l <= r < size ==> b@[r] == 0i64,
                forall|k: int, i: int, j: int|
                    0 <= k < t && 0 <= i < nn && 0 <= j < mm && #[trigger] edge_joins(es[k], i, j)
                        ==> exists|r: int| 0 <= r < l && rows[r] == (i, j),
                nn >= 0 && mm >= 0,
                size < usize::MAX,
                a0g == Seq::new(
                    (nn + mm) as nat,
                    |r: int| Seq::new((nn + mm) as nat, |c: int| 0i64),
                ),
                b0g == Seq::new((nn + mm) as nat, |r: int| 0i64),
                asm_target == assemble_system(es, cg, nn, mm, a0g, b0g, 0, 0),
                assemble_system(es, cg, nn, mm, a@, b@, l as int, t as int) == asm_target,
            decreases count - t,
        {
            let e = &edges_ref[t];
            let oi = find_supply_index(&e.from, n);
            let oj = find_demand_index(&e.to, m);
            match (oi, oj) {
                (Some(i), Some(j)) => {
                    proof {
                        assert(spec_supply_index(es[t as int].from@, nn) == Some(i as int)) by {
                            assert(is_supply_label(es[t as int].from@, i as int));
                            let i2 = choose|i2: int|
                                0 <= i2 < nn && is_supply_label(es[t as int].from@, i2);
                            lemma_supply_label_injective((i2 + 1) as nat, (i + 1) as nat);
                        }
                        assert(spec_demand_index(es[t as int].to@, mm) == Some(j as int)) by {
                            assert(is_demand_label(es[t as int].to@, j as int));
                            let j2 = choose|j2: int|
                                0 <= j2 < mm && is_demand_label(es[t as int].to@, j2);
                            lemma_demand_label_injective((j2 + 1) as nat, (j + 1) as nat);
                        }
                    }
                    if l >= size {
                        proof {
                            assert(assemble_system(es, cg, nn, mm, a@, b@, l as int, t as int)
                                == Err::<(Seq<Seq<i64>>, Seq<i64>, int), Error>(
                                Error::SingularMatrix,
                            )) by {
                                reveal(assemble_system);
                            }
                            lemma_spec_potentials_eval(es, cg, nn, mm);
                            assert(spec_potentials(es, cg, nn, mm) == Err::<
                                (Seq<i64>, Seq<i64>),
                                Error,
                            >(Error::SingularMatrix));
                        }
                        return Err(Error::SingularMatrix);
                    }
                    let ghost a_pre = a@;
                    let ghost b_pre = b@;
                    a.put(l, i, 1);
                    a.put(l, n + j, -1);
                    b[l] = self.costs.at(i, j);
                    proof {
                        assert(a@ =~~= a_pre.update(
                            l as int,
                            a_pre[l as int].update(i as int, 1i64).update(
                                nn + j as int,
                                (-1) as i64,
                            ),
                        ));
                        assert(b@ =~= b_pre.update(l as int, cg[i as int][j as int]));
                        assert(assemble_system(es, cg, nn, mm, a_pre, b_pre, l as int, t as int)
                            == assemble_system(es, cg, nn, mm, a@, b@, l as int + 1, t as int + 1))
                            by {
                            reveal(assemble_system);
                        }
                        let ghost rows_pre = rows;
                        rows = rows.push((i as int, j as int));
                        assert(a@[l as int] =~= a_pre[l as int].update(i as int, 1i64).update(
                            nn + j as int,
                            (-1) as i64,
                        ));
                        assert(row_encodes(
                            a@[l as int],
                            b@[l as int],
                            cg,
                            nn,
                            mm,
                            i as int,
                            j as int,
                        ));
                        assert forall|r: int| 0 <= r < l + 1 implies row_encodes(
                            #[trigger] a@[r],
                            b@[r],
                            cg,
                            nn,
                            mm,
                            rows[r].0,
                            rows[r].1,
                        ) by {
                            if r < l {
                                assert(a@[r] == a_pre[r]);
                                assert(b@[r] == b_pre[r]);
                                assert(rows[r] == rows_pre[r]);
                                assert(row_encodes(
                                    a_pre[r],
                                    b_pre[r],
                                    cg,
                                    nn,
                                    mm,
                                    rows_pre[r].0,
                                    rows_pre[r].1,
                                ));
                            }
                        }
                        assert forall|k: int, i2: int, j2: int|
                            0 <= k < t + 1 && 0 <= i2 < nn && 0 <= j2 < mm && #[trigger] edge_joins(
                            es[k],
                            i2,
                            j2,
                        ) implies exists|r: int| 0 <= r < l + 1 && rows[r] == (i2, j2) by {
                            if k < t {
                                let r = choose|r: int| 0 <= r < l && rows_pre[r] == (i2, j2);
                                assert(rows[r] == (i2, j2));
                            } else {
                                assert(is_supply_label(es[k].from@, i2));
                                assert(is_supply_label(es[k].from@, i as int));
                                lemma_supply_label_injective((i2 + 1) as nat, (i + 1) as nat);
                                assert(is_demand_label(es[k].to@, j2));
                                assert(is_demand_label(es[k].to@, j as int));
                                lemma_demand_label_injective((j2 + 1) as nat, (j + 1) as nat);
                                assert(rows[l as int] == (i2, j2));
                            }
                        }
                    }
                    l += 1;
                },
                _ => {
                    proof {
                        assert(match (
                            spec_supply_index(es[t as int].from@, nn),
                            spec_demand_index(es[t as int].to@, mm),
                        ) {
                            (Some(i2), Some(j2)) => false,
                            _ => true,
                        }) by {
                            if oi is Some && oj is Some {
                                assert(false);
                            }
                            if oi is None {
                                if exists|i2: int|
                                    0 <= i2 < nn && is_supply_label(es[t as int].from@, i2) {
                                    let i2 = choose|i2: int|
                                        0 <= i2 < nn && is_supply_label(es[t as int].from@, i2);
                                    assert(false);
                                }
                            } else {
                                if exists|j2: int|
                                    0 <= j2 < mm && is_demand_label(es[t as int].to@, j2) {
                                    let j2 = choose|j2: int|
                                        0 <= j2 < mm && is_demand_label(es[t as int].to@, j2);
                                    assert(false);
                                }
                            }
                        }
                        assert(assemble_system(es, cg, nn, mm, a@, b@, l as int, t as int)
                            == assemble_system(es, cg, nn, mm, a@, b@, l as int, t as int + 1)) by {
                            reveal(assemble_system);
                        }
                        assert forall|k: int, i2: int, j2: int|
                            0 <= k < t + 1 && 0 <= i2 < nn && 0 <= j2 < mm && #[trigger] edge_joins(
                            es[k],
                            i2,
                            j2,
                        ) implies exists|r: int| 0 <= r < l && rows[r] == (i2, j2) by {
                            if k == t {
                                assert(is_supply_label(es[k].from@, i2));
                                assert(is_demand_label(es[k].to@, j2));
                                assert(false);
                            }
                        }
                    }
                },
            }
            t += 1;
        }
        proof {
            assert(assemble_system(es, cg, nn, mm, a@, b@, l as int, count as int) == Ok::<
                (Seq<Seq<i64>>, Seq<i64>, int),
                Error,
            >((a@, b@, l as int))) by {
                reveal(assemble_system);
            }
            assert(asm_target == Ok::<(Seq<Seq<i64>>, Seq<i64>, int), Error>((
                a@,
                b@,
                l as int,
            )));
        }
        // The normalisation equation u[0] == 0 closes the system.
        if l >= size {
            proof {
                lemma_spec_potentials_eval(es, cg, nn, mm);
                assert(spec_potentials(es, cg, nn, mm) == Err::<(Seq<i64>, Seq<i64>), Error>(
                    Error::SingularMatrix,
                ));
            }
            return Err(Error::SingularMatrix);
        }
        let ghost a_pre = a@;
        let ghost b_pre = b@;
        proof {
            a.lemma_wf_shape();
        }
        a.put(l, 0, 1);
        b[l] = 0;
        let norm_row = l;
        proof {
            assert(a@ =~~= a_pre.update(l as int, a_pre[l as int].update(0, 1i64)));
            assert(b@ =~= b_pre.update(l as int, 0i64));
        }
        let x = match a.solve(&b) {
            Ok(x) => x,
            Err(e) => {
                proof {
                    assert(e == Error::SingularMatrix || e == Error::NumericOverflow);
                    assert(crate::matrix::spec_solve(a@, b@) == Err::<Seq<i64>, Error>(e));
                    lemma_spec_potentials_eval(es, cg, nn, mm);
                    assert(spec_potentials(es, cg, nn, mm) == Err::<(Seq<i64>, Seq<i64>), Error>(
                        e,
                    ));
                }
                return Err(e);
            },
        };
        proof {
            assert(crate::matrix::spec_solve(a@, b@) == Ok::<Seq<i64>, Error>(x@));
        }
        let mut u: Vec<i64> = Vec::new();
        let mut i: usize = 0;
        while i < n
            invariant
                i <= n,
                n <= x@.len(),
                u@.len() == i,
                forall|q: int| 0 <= q < i ==> u@[q] == x@[q],
            decreases n - i,
        {
            u.push(x[i]);
            i += 1;
        }
        let mut v: Vec<i64> = Vec::new();
        let mut j: usize = 0;
        while j < m
            invariant
                j <= m,
                size == n + m,
                size <= x@.len(),
                n == self.spec_n(),
                m == self.spec_m(),
                v@.len() == j,
                forall|q: int| 0 <= q < j ==> v@[q] == x@[n + q],
            decreases m - j,
        {
            v.push(x[n + j]);
            j += 1;
        }
        proof {
            // Each recorded row forces its edge's equation on the solution.
            assert forall|k: int, i2: int, j2: int|
                0 <= k < es.len() && 0 <= i2 < nn && 0 <= j2 < mm && #[trigger] edge_joins(
                es[k],
                i2,
                j2,
            ) implies u@[i2] - v@[j2] == cg[i2][j2] by {
                let r = choose|r: int| 0 <= r < norm_row && rows[r] == (i2, j2);
                assert(a@[r] == a_pre[r]);
                assert(row_encodes(a@[r], b@[r], cg, nn, mm, i2, j2));
                assert(row_dot(a@[r], x@, size as int) == b@[r]);
                crate::matrix::lemma_row_dot_two(a@[r], x@, size as int, i2, nn + j2);
                assert(u@[i2] == x@[i2]);
                assert(v@[j2] == x@[nn + j2]);
            }
            // The normalisation row forces u[0] == 0.
            if n > 0 {
                assert(a@[norm_row as int] =~= a_pre[norm_row as int].update(0, 1i64));
                assert(row_dot(a@[norm_row as int], x@, size as int) == b@[norm_row as int]);
                crate::matrix::lemma_row_dot_one(a@[norm_row as int], x@, size as int, 0);
                assert(u@[0] == x@[0]);
            }
            // The returned vectors are the two halves of the mirrored
            // solution.
            assert(u@ =~= x@.subrange(0, nn));
            assert(v@ =~= x@.subrange(nn, nn + mm));
            lemma_spec_potentials_eval(es, cg, nn, mm);
            assert(spec_potentials(es, cg, nn, mm) == Ok::<(Seq<i64>, Seq<i64>), Error>((
                u@,
                v@,
            )));
        }
        Ok((u, v))
    }

    /// The marginal (reduced) cost of every cell: `costs[i][j] - (u[i] -
    /// v[j])`, with the potentials taken from `potentials(graph)`.  On
    /// every tree edge the marginal cost is zero; the matrix's most
    /// negative cell names the best candidate for a later improvement
    /// step.
    pub fn marginal_cost(&self, graph: &Graph) -> (r: Result<Matrix, Error>)
        requires
            self.wf(),
            graph.wf(),
        ensures
            !graph.spec_is_tree() <==> r == Err::<Matrix, Error>(Error::NotATree),
            r matches Ok(mc) ==> {
                &&& graph.spec_is_tree()
                &&& mc.wf()
                &&& mc.spec_rows() == self.spec_n()
                &&& mc.spec_cols() == self.spec_m()
                &&& exists|u: Seq<i64>, v: Seq<i64>|
                    #[trigger] marginal_from_potentials(
                        mc@,
                        u,
                        v,
                        graph.spec_edges(),
                        self.spec_costs()@,
                        self.spec_n() as int,
                        self.spec_m() as int,
                    )
                &&& forall|k: int, i: int, j: int|
                    0 <= k < graph.spec_edges().len() && 0 <= i < self.spec_n() && 0 <= j
                        < self.spec_m() && #[trigger] edge_joins(graph.spec_edges()[k], i, j)
                        ==> mc@[i][j] == 0i64
            },
            r matches Err(e) ==> e == Error::NotATree || e == Error::SingularMatrix || e
                == Error::NumericOverflow,
            graph.spec_is_tree() ==> {
                &&& (r matches Ok(mc) ==> spec_marginal(
                    graph.spec_edges(),
                    self.spec_costs()@,
                    self.spec_n() as int,
                    self.spec_m() as int,
                ) == Ok::<Seq<Seq<i64>>, Error>(mc@))
                &&& (r matches Err(e) ==> spec_marginal(
                    graph.spec_edges(),
                    self.spec_costs()@,
                    self.spec_n() as int,
                    self.spec_m() as int,
                ) == Err::<Seq<Seq<i64>>, Error>(e))
            },
    {
        let n = self.n;
        let m = self.m;
        let ghost nn = n as int;
        let ghost mm = m as int;
        let ghost cg = self.spec_costs()@;
        let ghost es = graph.spec_edges();
        let (u, v) = match self.potentials(graph) {
            Ok(uv) => uv,
            Err(e) => {
                proof {
                    if graph.spec_is_tree() {
                        lemma_spec_marginal_eval(es, cg, nn, mm);
                    }
                }
                return Err(e);
            },
        };
        let ghost zg = Seq::new(nn as nat, |r: int| Seq::new(mm as nat, |c: int| 0i64));
        let mut out = Matrix::new_empty(n, m);
        proof {
            out.lemma_wf_shape();
            self.spec_costs().lemma_wf_shape();
            assert forall|r2: int, c2: int|
                0 <= r2 < n && 0 <= c2 < m implies #[trigger] out@[r2][c2] == 0i64 by {
                assert(out.in_bounds(r2, c2));
            }
            assert forall|r2: int| 0 <= r2 < n implies #[trigger] out@[r2] =~= zg[r2] by {}
            assert(out@ =~~= zg);
        }
        let ghost mtarget = marginal_cells(cg, u@, v@, nn, mm, zg, 0, 0);
        let mut i: usize = 0;
        while i < n
            invariant
                self.wf(),
                graph.wf(),
                graph.spec_is_tree(),
                n == self.spec_n(),
                m == self.spec_m(),
                nn == n as int,
                mm == m as int,
                cg == self.spec_costs()@,
                cg.len() == nn,
                forall|r: int| 0 <= r < cg.len() ==> (#[trigger] cg[r]).len() == mm,
                u@.len() == n,
                v@.len() == m,
                out.wf(),
                out.spec_rows() == n,
                out.spec_cols() == m,
                out@.len() == n,
                forall|r: int| 0 <= r < out@.len() ==> (#[trigger] out@[r]).len() == m,
                i <= n,
                forall|a: int, b: int|
                    0 <= a < i && 0 <= b < mm ==> #[trigger] out@[a][b] == cg[a][b] - (u@[a]
                        - v@[b]),
                es == graph.spec_edges(),
                spec_potentials(es, cg, nn, mm) == Ok::<(Seq<i64>, Seq<i64>), Error>((u@, v@)),
                zg == Seq::new(nn as nat, |r: int| Seq::new(mm as nat, |c: int| 0i64)),
                mtarget == marginal_cells(cg, u@, v@, nn, mm, zg, 0, 0),
                marginal_cells(cg, u@, v@, nn, mm, out@, i as int, 0) == mtarget,
            decreases n - i,
        {
            let mut j: usize = 0;
            while j < m
                invariant
                    self.wf(),
                    graph.wf(),
                    graph.spec_is_tree(),
                    n == self.spec_n(),
                    m == self.spec_m(),
                    nn == n as int,
                    mm == m as int,
                    cg == self.spec_costs()@,
                    cg.len() == nn,
                    forall|r: int| 0 <= r < cg.len() ==> (#[trigger] cg[r]).len() == mm,
                    u@.len() == n,
                    v@.len() == m,
                    out.wf(),
                    out.spec_rows() == n,
                    out.spec_cols() == m,
                    out@.len() == n,
                    forall|r: int| 0 <= r < out@.len() ==> (#[trigger] out@[r]).len() == m,
                    i < n,
                    j <= m,
                    forall|a: int, b: int|
                        0 <= a < i && 0 <= b < mm ==> #[trigger] out@[a][b] == cg[a][b] - (u@[a]
                            - v@[b]),
                    forall|b: int|
                        0 <= b < j ==> #[trigger] out@[i as int][b] == cg[i as int][b] - (u@[i as int]
                            - v@[b]),
                    es == graph.spec_edges(),
                    spec_potentials(es, cg, nn, mm) == Ok::<(Seq<i64>, Seq<i64>), Error>((u@, v@)),
                    zg == Seq::new(nn as nat, |r: int| Seq::new(mm as nat, |c: int| 0i64)),
                    mtarget == marginal_cells(cg, u@, v@, nn, mm, zg, 0, 0),
                    marginal_cells(cg, u@, v@, nn, mm, out@, i as int, j as int) == mtarget,
                decreases m - j,
            {
                let c = self.costs.at(i, j);
                let diff: i128 = u[i] as i128 - v[j] as i128;
                let val: i128 = c as i128 - diff;
                if val < i64::MIN as i128 || val > i64::MAX as i128 {
                    proof {
                        assert(marginal_cells(cg, u@, v@, nn, mm, out@, i as int, j as int)
                            == Err::<Seq<Seq<i64>>, Error>(Error::NumericOverflow));
                        lemma_spec_marginal_eval(es, cg, nn, mm);
                        assert(spec_marginal(es, cg, nn, mm) == Err::<Seq<Seq<i64>>, Error>(
                            Error::NumericOverflow,
                        ));
                    }
                    return Err(Error::NumericOverflow);
                }
                let ghost out_pre = out@;
                out.put(i, j, val as i64);
                proof {
                    assert(out@ =~~= out_pre.update(
                        i as int,
                        out_pre[i as int].update(j as int, val as i64),
                    ));
                    assert(marginal_cells(cg, u@, v@, nn, mm, out_pre, i as int, j as int)
                        == marginal_cells(cg, u@, v@, nn, mm, out@, i as int, j as int + 1));
                }
                j += 1;
            }
            proof {
                assert(marginal_cells(cg, u@, v@, nn, mm, out@, i as int, mm) == marginal_cells(
                    cg,
                    u@,
                    v@,
                    nn,
                    mm,
                    out@,
                    i as int + 1,
                    0,
                ));
            }
            i += 1;
        }
        proof {
            assert(marginal_cells(cg, u@, v@, nn, mm, out@, nn, 0) == Ok::<Seq<Seq<i64>>, Error>(
                out@,
            ));
            assert(mtarget == Ok::<Seq<Seq<i64>>, Error>(out@));
            lemma_spec_marginal_eval(es, cg, nn, mm);
            assert(spec_marginal(es, cg, nn, mm) == Ok::<Seq<Seq<i64>>, Error>(out@));
            assert(marginal_from_potentials(out@, u@, v@, es, cg, nn, mm));
            assert forall|k: int, i2: int, j2: int|
                0 <= k < es.len() && 0 <= i2 < nn && 0 <= j2 < mm && #[trigger] edge_joins(
                es[k],
                i2,
                j2,
            ) implies out@[i2][j2] == 0i64 by {
                assert(u@[i2] - v@[j2] == cg[i2][j2]);
            }
        }
        Ok(out)
    }

    /// The total shipping cost of the current plan: the sum of
    /// `costs[i][j] * transport[i][j]` over all cells.
    pub fn total_cost(&self) -> (r: i64)
        requires
            self.wf(),
            forall|i: int, j: int|
                0 <= i < self.spec_n() && 0 <= j <= self.spec_m() ==> i64::MIN <= total_cost_upto(
                    self.spec_costs()@,
                    self.spec_transport()@,
                    i,
                    self.spec_m() as int,
                ) + #[trigger] row_dot(
                    self.spec_costs()@[i],
                    self.spec_transport()@[i],
                    j,
                ) <= i64::MAX,
        ensures
            r == total_cost_upto(
                self.spec_costs()@,
                self.spec_transport()@,
                self.spec_n() as int,
                self.spec_m() as int,
            ),
    {
        let mut acc: i64 = 0;
        let mut i: usize = 0;
        while i < self.n
            invariant
                self.wf(),
                forall|a: int, b: int|
                    0 <= a < self.spec_n() && 0 <= b <= self.spec_m() ==> i64::MIN
                        <= total_cost_upto(
                        self.spec_costs()@,
                        self.spec_transport()@,
                        a,
                        self.spec_m() as int,
                    ) + #[trigger] row_dot(
                        self.spec_costs()@[a],
                        self.spec_transport()@[a],
                        b,
                    ) <= i64::MAX,
                i <= self.spec_n(),
                acc == total_cost_upto(
                    self.spec_costs()@,
                    self.spec_transport()@,
                    i as int,
                    self.spec_m() as int,
                ),
            decreases self.spec_n() - i,
        {
            let mut j: usize = 0;
            let ghost base = acc as int;
            while j < self.m
                invariant
                    self.wf(),
                    i < self.spec_n(),
                    j <= self.spec_m(),
                    base == total_cost_upto(
                        self.spec_costs()@,
                        self.spec_transport()@,
                        i as int,
                        self.spec_m() as int,
                    ),
                    forall|b: int|
                        0 <= b <= self.spec_m() ==> i64::MIN <= base + #[trigger] row_dot(
                            self.spec_costs()@[i as int],
                            self.spec_transport()@[i as int],
                            b,
                        ) <= i64::MAX,
                    acc == base + row_dot(
                        self.spec_costs()@[i as int],
                        self.spec_transport()@[i as int],
                        j as int,
                    ),
                decreases self.spec_m() - j,
            {
                let c = self.costs.at(i, j);
                let t = self.transport.at(i, j);
                proof {
                    crate::matrix::lemma_mul_i64_fits(c as int, t as int);
                }
                let s: i128 = acc as i128 + c as i128 * t as i128;
                acc = s as i64;
                j += 1;
            }
            i += 1;
        }
        acc
    }
}

/// The position of the supply row that `label` names, if any.
fn find_supply_index(label: &String, n: usize) -> (r: Option<usize>)
    ensures
        r matches Some(i) ==> i < n && is_supply_label(label@, i as int),
        r is None ==> forall|i: int| 0 <= i < n ==> !#[trigger] is_supply_label(label@, i),
{
    let mut i: usize = 0;
    while i < n
        invariant
            i <= n,
            forall|q: int| 0 <= q < i ==> !#[trigger] is_supply_label(label@, q),
        decreases n - i,
    {
        let cand = supply_label(i + 1);
        if cand.eq(label) {
            proof {
                assert(is_supply_label(label@, i as int));
            }
            return Some(i);
        }
        i += 1;
    }
    None
}

/// The position of the demand column that `label` names, if any.
fn find_demand_index(label: &String, m: usize) -> (r: Option<usize>)
    ensures
        r matches Some(j) ==> j < m && is_demand_label(label@, j as int),
        r is None ==> forall|j: int| 0 <= j < m ==> !#[trigger] is_demand_label(label@, j),
{
    let mut j: usize = 0;
    while j < m
        invariant
            j <= m,
            forall|q: int| 0 <= q < j ==> !#[trigger] is_demand_label(label@, q),
        decreases m - j,
    {
        let cand = demand_label(j + 1);
        if cand.eq(label) {
            proof {
                assert(is_demand_label(label@, j as int));
            }
            return Some(j);
        }
        j += 1;
    }
    None
}

/// The exact sum of the entries, which always fits a 128-bit value.
fn sum_i64(s: &Vec<i64>) -> (r: i128)
    ensures
        r == sum_upto(s@, s@.len() as int),
{
    let mut acc: i128 = 0;
    let mut i: usize = 0;
    while i < s.len()
        invariant
            i <= s@.len(),
            acc == sum_upto(s@, i as int),
            -0x8000000000000000 * (i as int) <= acc <= 0x8000000000000000 * (i as int),
        decreases s@.len() - i,
    {
        acc = acc + s[i] as i128;
        i += 1;
    }
    acc
}

} // verus!
