use vstd::prelude::*;

use crate::Error;
use vstd::multiset::Multiset;
use rand::seq::SliceRandom;
use rand::SeedableRng;

verus! {

/// An undirected weighted edge between two labelled vertices.  Two edges
/// are the same edge when they join the same pair of labels, in either
/// order.
pub struct Edge {
    pub from: String,
    pub to: String,
    pub weight: i64,
}

impl Edge {
    pub fn new(from: String, to: String, weight: i64) -> (r: Edge)
        ensures
            r.from@ == from@,
            r.to@ == to@,
            r.weight == weight,
    {
        Edge { from, to, weight }
    }
}

/// The edges `a` and `b` join the same unordered pair of labels.
pub open spec fn same_pair(a: Edge, b: Edge) -> bool {
    (a.from@ == b.from@ && a.to@ == b.to@) || (a.from@ == b.to@ && a.to@ == b.from@)
}

impl PartialEq for Edge {
    /// Two edges are equal when they join the same pair of labels, in
    /// either order; the weight does not enter.
    fn eq(&self, other: &Edge) -> (r: bool) {
        (self.from.eq(&other.from) && self.to.eq(&other.to)) || (self.from.eq(&other.to)
            && self.to.eq(&other.from))
    }
}

impl vstd::std_specs::cmp::PartialEqSpecImpl for Edge {
    open spec fn obeys_eq_spec() -> bool {
        true
    }

    open spec fn eq_spec(&self, other: &Edge) -> bool {
        same_pair(*self, *other)
    }
}

/// Some edge of `edges` joins the labels `a` and `b`, in either order.
pub open spec fn edge_between(edges: Seq<Edge>, a: Seq<char>, b: Seq<char>) -> bool {
    exists|k: int|
        0 <= k < edges.len() && (((#[trigger] edges[k]).from@ == a && edges[k].to@ == b) || (
        edges[k].from@ == b && edges[k].to@ == a))
}

/// Each consecutive pair of labels in `p` is joined by an edge.
pub open spec fn is_path(edges: Seq<Edge>, p: Seq<Seq<char>>) -> bool {
    forall|k: int| 0 <= k < p.len() - 1 ==> edge_between(edges, #[trigger] p[k], p[k + 1])
}

/// A path through `edges` leads from `a` to `b`.
pub open spec fn connected(edges: Seq<Edge>, a: Seq<char>, b: Seq<char>) -> bool {
    exists|p: Seq<Seq<char>>|
        #[trigger] is_path(edges, p) && p.len() >= 1 && p[0] == a && p[p.len() - 1] == b
}

/// The edge list builds a forest: taken in order, every edge joins two
/// distinct labels that the earlier edges leave disconnected, so the
/// edges never assemble a loop.
pub open spec fn is_forest(edges: Seq<Edge>) -> bool
    decreases edges.len(),
{
    if edges.len() == 0 {
        true
    } else {
        let e = edges.last();
        is_forest(edges.drop_last()) && e.from@ != e.to@ && !connected(
            edges.drop_last(),
            e.from@,
            e.to@,
        )
    }
}

/// No two labels of `p` coincide.
pub open spec fn distinct_labels(p: Seq<Seq<char>>) -> bool {
    forall|x: int, y: int| 0 <= x < y < p.len() ==> p[x] != p[y]
}

/// Steps `x` and `y` of the walk `p` cross the same unordered pair of
/// labels.
pub open spec fn same_step(p: Seq<Seq<char>>, x: int, y: int) -> bool {
    (p[x] == p[y] && p[x + 1] == p[y + 1]) || (p[x] == p[y + 1] && p[x + 1] == p[y])
}

/// The walk `p` is a cycle: it is closed, every step crosses an edge, and
/// no two steps cross the same unordered pair of labels.
pub open spec fn is_cycle(es: Seq<Edge>, p: Seq<Seq<char>>) -> bool {
    &&& p.len() >= 2
    &&& p[0] == p[p.len() - 1]
    &&& is_path(es, p)
    &&& forall|x: int, y: int| 0 <= x < y < p.len() - 1 ==> !same_step(p, x, y)
}

/// Some cycle runs through the edges.
pub open spec fn has_cycle(es: Seq<Edge>) -> bool {
    exists|p: Seq<Seq<char>>| #[trigger] is_cycle(es, p)
}

/// No two edges join the same unordered pair of labels.
pub open spec fn distinct_pairs(es: Seq<Edge>) -> bool {
    forall|k: int, l: int| 0 <= k < l < es.len() ==> !same_pair(es[k], es[l])
}

/// Some path with pairwise distinct labels leads from `a` to `b`.
pub open spec fn simply_connected(es: Seq<Edge>, a: Seq<char>, b: Seq<char>) -> bool {
    exists|q: Seq<Seq<char>>|
        #[trigger] is_path(es, q) && q.len() >= 1 && q[0] == a && q[q.len() - 1] == b
            && distinct_labels(q)
}

/// Every walk can be shortened to a path that repeats no label, with the
/// same endpoints: whenever a label recurs, the stretch between the two
/// occurrences can be cut out.
pub proof fn lemma_simplify_walk(es: Seq<Edge>, p: Seq<Seq<char>>)
    requires
        is_path(es, p),
        p.len() >= 1,
    ensures
        simply_connected(es, p[0], p[p.len() - 1]),
    decreases p.len(),
{
    if distinct_labels(p) {
        assert(is_path(es, p) && p.len() >= 1 && p[0] == p[0] && p[p.len() - 1] == p[p.len() - 1]
            && distinct_labels(p));
    } else {
        let (x, y) = choose|x: int, y: int| 0 <= x < y < p.len() && p[x] == p[y];
        let p2 = p.subrange(0, x) + p.subrange(y, p.len() as int);
        assert(p2.len() == p.len() - (y - x));
        assert(p2.len() >= 1);
        assert(p2[0] == p[0]) by {
            if x > 0 {
                assert(p2[0] == p[0]);
            } else {
                assert(p2[0] == p[y]);
                assert(p[y] == p[x]);
            }
        }
        assert(p2[p2.len() - 1] == p[p.len() - 1]);
        assert forall|k: int| 0 <= k < p2.len() - 1 implies edge_between(
            es,
            #[trigger] p2[k],
            p2[k + 1],
        ) by {
            if k < x - 1 {
                assert(p2[k] == p[k] && p2[k + 1] == p[k + 1]);
                assert(edge_between(es, p[k], p[k + 1]));
            } else if k == x - 1 {
                assert(p2[k] == p[x - 1]);
                assert(p2[k + 1] == p[y]);
                assert(p[y] == p[x]);
                assert(edge_between(es, p[x - 1], p[x]));
            } else {
                let t = k - x;
                assert(p2[k] == p[y + t] && p2[k + 1] == p[y + t + 1]);
                assert(edge_between(es, p[y + t], p[y + t + 1]));
            }
        }
        assert(is_path(es, p2));
        lemma_simplify_walk(es, p2);
    }
}

/// Adjacency only reads the labels, so edge lists whose entries join the
/// same labels in the same order agree on it.
pub proof fn lemma_edge_between_congruent(es1: Seq<Edge>, es2: Seq<Edge>, a: Seq<char>, b: Seq<char>)
    requires
        es1.len() == es2.len(),
        forall|k: int|
            0 <= k < es1.len() ==> (#[trigger] es1[k]).from@ == es2[k].from@ && es1[k].to@
                == es2[k].to@,
    ensures
        edge_between(es1, a, b) == edge_between(es2, a, b),
{
    if edge_between(es1, a, b) {
        let k = choose|k: int|
            0 <= k < es1.len() && (((#[trigger] es1[k]).from@ == a && es1[k].to@ == b) || (
            es1[k].from@ == b && es1[k].to@ == a));
        assert(((es2[k].from@ == a && es2[k].to@ == b) || (es2[k].from@ == b && es2[k].to@ == a)));
    }
    if edge_between(es2, a, b) {
        let k = choose|k: int|
            0 <= k < es2.len() && (((#[trigger] es2[k]).from@ == a && es2[k].to@ == b) || (
            es2[k].from@ == b && es2[k].to@ == a));
        assert(((es1[k].from@ == a && es1[k].to@ == b) || (es1[k].from@ == b && es1[k].to@ == a)));
    }
}

/// Batch element `t` joins the same pair of labels as an edge already
/// present once the elements before it are appended.
pub open spec fn batch_duplicate_at(es: Seq<Edge>, batch: Seq<Edge>, t: int) -> bool {
    edge_between(es + batch.subrange(0, t), batch[t].from@, batch[t].to@)
}

/// Every label is connected to itself.
pub proof fn lemma_connected_refl(edges: Seq<Edge>, a: Seq<char>)
    ensures
        connected(edges, a, a),
{
    let p = seq![a];
    assert(is_path(edges, p));
    assert(p.len() >= 1 && p[0] == a && p[p.len() - 1] == a);
}

/// Two adjacent labels are connected.
pub proof fn lemma_connected_step(edges: Seq<Edge>, a: Seq<char>, b: Seq<char>)
    requires
        edge_between(edges, a, b),
    ensures
        connected(edges, a, b),
{
    let p = seq![a, b];
    assert(edge_between(edges, p[0], p[1]));
    assert(is_path(edges, p));
}

/// Connectivity is transitive: paths concatenate.
pub proof fn lemma_connected_trans(edges: Seq<Edge>, a: Seq<char>, b: Seq<char>, c: Seq<char>)
    requires
        connected(edges, a, b),
        connected(edges, b, c),
    ensures
        connected(edges, a, c),
{
    let p = choose|p: Seq<Seq<char>>|
        #[trigger] is_path(edges, p) && p.len() >= 1 && p[0] == a && p[p.len() - 1] == b;
    let q = choose|q: Seq<Seq<char>>|
        #[trigger] is_path(edges, q) && q.len() >= 1 && q[0] == b && q[q.len() - 1] == c;
    let r = p + q.subrange(1, q.len() as int);
    assert(r.len() == p.len() + q.len() - 1);
    assert(r[0] == a);
    assert(r[r.len() - 1] == c);
    assert forall|k: int| 0 <= k < r.len() - 1 implies edge_between(edges, #[trigger] r[k], r[k + 1]) by {
        if k < p.len() - 1 {
            assert(r[k] == p[k] && r[k + 1] == p[k + 1]);
            assert(edge_between(edges, p[k], p[k + 1]));
        } else if k == p.len() - 1 {
            assert(r[k] == p[p.len() - 1]);
            assert(r[k + 1] == q[1]);
            assert(edge_between(edges, q[0], q[1]));
        } else {
            let k2 = k - p.len() + 1;
            assert(r[k] == q[k2] && r[k + 1] == q[k2 + 1]);
            assert(edge_between(edges, q[k2], q[k2 + 1]));
        }
    }
    assert(is_path(edges, r));
}

/// The far end of a path is connected back to its start.
proof fn lemma_path_rev(edges: Seq<Edge>, p: Seq<Seq<char>>)
    requires
        is_path(edges, p),
        p.len() >= 1,
    ensures
        connected(edges, p[p.len() - 1], p[0]),
    decreases p.len(),
{
    if p.len() == 1 {
        lemma_connected_refl(edges, p[0]);
    } else {
        let q = p.subrange(1, p.len() as int);
        assert forall|k: int| 0 <= k < q.len() - 1 implies edge_between(edges, #[trigger] q[k], q[k + 1]) by {
            assert(q[k] == p[k + 1] && q[k + 1] == p[k + 2]);
            assert(edge_between(edges, p[k + 1], p[k + 2]));
        }
        assert(is_path(edges, q));
        lemma_path_rev(edges, q);
        assert(connected(edges, p[p.len() - 1], p[1]));
        assert(edge_between(edges, p[0], p[1]));
        assert(edge_between(edges, p[1], p[0]));
        lemma_connected_step(edges, p[1], p[0]);
        lemma_connected_trans(edges, p[p.len() - 1], p[1], p[0]);
    }
}

/// Connectivity is symmetric: every path can be walked backwards.
pub proof fn lemma_connected_sym(edges: Seq<Edge>, a: Seq<char>, b: Seq<char>)
    requires
        connected(edges, a, b),
    ensures
        connected(edges, b, a),
{
    let p = choose|p: Seq<Seq<char>>|
        #[trigger] is_path(edges, p) && p.len() >= 1 && p[0] == a && p[p.len() - 1] == b;
    lemma_path_rev(edges, p);
}

/// An adjacency survives appending an edge.
pub proof fn lemma_edge_between_push(edges: Seq<Edge>, e: Edge, a: Seq<char>, b: Seq<char>)
    requires
        edge_between(edges, a, b),
    ensures
        edge_between(edges.push(e), a, b),
{
    let k = choose|k: int|
        0 <= k < edges.len() && (((#[trigger] edges[k]).from@ == a && edges[k].to@ == b) || (
        edges[k].from@ == b && edges[k].to@ == a));
    assert(edges.push(e)[k] == edges[k]);
}

/// A connection survives appending an edge.
pub proof fn lemma_connected_push(edges: Seq<Edge>, e: Edge, a: Seq<char>, b: Seq<char>)
    requires
        connected(edges, a, b),
    ensures
        connected(edges.push(e), a, b),
{
    let p = choose|p: Seq<Seq<char>>|
        #[trigger] is_path(edges, p) && p.len() >= 1 && p[0] == a && p[p.len() - 1] == b;
    assert forall|k: int| 0 <= k < p.len() - 1 implies edge_between(
        edges.push(e),
        #[trigger] p[k],
        p[k + 1],
    ) by {
        lemma_edge_between_push(edges, e, p[k], p[k + 1]);
    }
    assert(is_path(edges.push(e), p));
}

/// A path that may use the appended edge `e` decomposes: its endpoints are
/// already connected without `e`, or each endpoint reaches one end of `e`.
proof fn lemma_decompose_path(edges: Seq<Edge>, e: Edge, p: Seq<Seq<char>>)
    requires
        is_path(edges.push(e), p),
        p.len() >= 1,
    ensures
        connected(edges, p[0], p[p.len() - 1]) || (connected(edges, p[0], e.from@) && connected(
            edges,
            e.to@,
            p[p.len() - 1],
        )) || (connected(edges, p[0], e.to@) && connected(edges, e.from@, p[p.len() - 1])),
    decreases p.len(),
{
    let a = p[0];
    let b = p[p.len() - 1];
    if p.len() == 1 {
        lemma_connected_refl(edges, a);
    } else {
        let q = p.drop_last();
        let m = p[p.len() - 2];
        assert(q[0] == a && q[q.len() - 1] == m);
        assert forall|k: int| 0 <= k < q.len() - 1 implies edge_between(
            edges.push(e),
            #[trigger] q[k],
            q[k + 1],
        ) by {
            assert(q[k] == p[k] && q[k + 1] == p[k + 1]);
            assert(edge_between(edges.push(e), p[k], p[k + 1]));
        }
        assert(is_path(edges.push(e), q));
        lemma_decompose_path(edges, e, q);
        // The last step joins m and b, inside the original edges or via e.
        assert(edge_between(edges.push(e), p[p.len() - 2], p[p.len() - 1]));
        let k = choose|k: int|
            0 <= k < edges.push(e).len() && (((#[trigger] edges.push(e)[k]).from@ == m && edges.push(
                e,
            )[k].to@ == b) || (edges.push(e)[k].from@ == b && edges.push(e)[k].to@ == m));
        if k < edges.len() {
            assert(edges.push(e)[k] == edges[k]);
            assert(edge_between(edges, m, b));
            lemma_connected_step(edges, m, b);
            if connected(edges, a, m) {
                lemma_connected_trans(edges, a, m, b);
            } else if connected(edges, a, e.from@) && connected(edges, e.to@, m) {
                lemma_connected_trans(edges, e.to@, m, b);
            } else {
                lemma_connected_trans(edges, e.from@, m, b);
            }
        } else {
            assert(edges.push(e)[k] == e);
            if e.from@ == m && e.to@ == b {
                if connected(edges, a, m) {
                    lemma_connected_refl(edges, e.to@);
                    assert(connected(edges, a, e.from@) && connected(edges, e.to@, b));
                } else if connected(edges, a, e.from@) && connected(edges, e.to@, m) {
                    lemma_connected_refl(edges, e.to@);
                    assert(connected(edges, a, e.from@) && connected(edges, e.to@, b));
                } else {
                    // a reaches e.to, and e.from reaches m == e.from; b == e.to.
                    lemma_connected_sym(edges, e.from@, m);
                    assert(connected(edges, a, e.to@));
                    assert(connected(edges, a, b));
                }
            } else {
                assert(e.from@ == b && e.to@ == m);
                if connected(edges, a, m) {
                    lemma_connected_refl(edges, e.from@);
                    assert(connected(edges, a, e.to@) && connected(edges, e.from@, b));
                } else if connected(edges, a, e.from@) && connected(edges, e.to@, m) {
                    assert(connected(edges, a, b));
                } else {
                    lemma_connected_refl(edges, e.from@);
                    assert(connected(edges, a, e.to@) && connected(edges, e.from@, b));
                }
            }
        }
    }
}

/// A cycle survives appending an edge.
proof fn lemma_cycle_push(es: Seq<Edge>, e: Edge, p: Seq<Seq<char>>)
    requires
        is_cycle(es, p),
    ensures
        is_cycle(es.push(e), p),
{
    assert forall|k: int| 0 <= k < p.len() - 1 implies edge_between(
        es.push(e),
        #[trigger] p[k],
        p[k + 1],
    ) by {
        lemma_edge_between_push(es, e, p[k], p[k + 1]);
    }
    assert(is_path(es.push(e), p));
}

/// A step that does not cross the appended edge's pair of labels crosses
/// one of the earlier edges.
proof fn lemma_step_in_prefix(es: Seq<Edge>, e: Edge, a: Seq<char>, b: Seq<char>)
    requires
        edge_between(es.push(e), a, b),
        !((a == e.from@ && b == e.to@) || (a == e.to@ && b == e.from@)),
    ensures
        edge_between(es, a, b),
{
    let k = choose|k: int|
        0 <= k < es.push(e).len() && (((#[trigger] es.push(e)[k]).from@ == a && es.push(e)[k].to@
            == b) || (es.push(e)[k].from@ == b && es.push(e)[k].to@ == a));
    assert(k < es.len()) by {
        if k == es.len() {
            assert(es.push(e)[k] == e);
        }
    }
    assert(es[k] == es.push(e)[k]);
}

/// A list of edges with pairwise distinct label pairs that is not a forest
/// holds a cycle: the first edge to join two already connected labels
/// closes a simple path between them.
pub proof fn lemma_unforest_has_cycle(es: Seq<Edge>)
    requires
        !is_forest(es),
        distinct_pairs(es),
    ensures
        has_cycle(es),
    decreases es.len(),
{
    assert(es.len() > 0);
    let e = es.last();
    let prefix = es.drop_last();
    assert(distinct_pairs(prefix)) by {
        assert forall|k: int, l: int| 0 <= k < l < prefix.len() implies !same_pair(
            prefix[k],
            prefix[l],
        ) by {
            assert(prefix[k] == es[k] && prefix[l] == es[l]);
            assert(!same_pair(es[k], es[l]));
        }
    }
    assert(prefix.push(e) =~= es);
    if !is_forest(prefix) {
        lemma_unforest_has_cycle(prefix);
        let p = choose|p: Seq<Seq<char>>| #[trigger] is_cycle(prefix, p);
        lemma_cycle_push(prefix, e, p);
        assert(is_cycle(es, p));
    } else if e.from@ == e.to@ {
        let p = seq![e.from@, e.from@];
        assert(edge_between(es, p[0], p[1])) by {
            assert(es[es.len() - 1] == e);
        }
        assert(is_path(es, p));
        assert(is_cycle(es, p));
    } else {
        assert(connected(prefix, e.from@, e.to@));
        let w = choose|w: Seq<Seq<char>>|
            #[trigger] is_path(prefix, w) && w.len() >= 1 && w[0] == e.from@ && w[w.len() - 1]
                == e.to@;
        lemma_simplify_walk(prefix, w);
        let q = choose|q: Seq<Seq<char>>|
            #[trigger] is_path(prefix, q) && q.len() >= 1 && q[0] == e.from@ && q[q.len() - 1]
                == e.to@ && distinct_labels(q);
        assert(q.len() >= 2) by {
            if q.len() == 1 {
                assert(e.from@ == e.to@);
            }
        }
        let c = q.push(e.from@);
        assert(c[0] == e.from@ && c[c.len() - 1] == e.from@);
        assert forall|k: int| 0 <= k < c.len() - 1 implies edge_between(
            es,
            #[trigger] c[k],
            c[k + 1],
        ) by {
            if k < q.len() - 1 {
                assert(c[k] == q[k] && c[k + 1] == q[k + 1]);
                assert(edge_between(prefix, q[k], q[k + 1]));
                lemma_edge_between_push(prefix, e, q[k], q[k + 1]);
            } else {
                assert(c[k] == e.to@ && c[k + 1] == e.from@);
                assert(es[es.len() - 1] == e);
            }
        }
        assert(is_path(es, c));
        // No two steps of the closed walk cross the same pair: the simple
        // path repeats no label, and its steps cross pairs of the earlier
        // edges, never the closing edge's own pair.
        assert forall|x: int, y: int| 0 <= x < y < c.len() - 1 implies !same_step(c, x, y) by {
            if y < q.len() - 1 {
                assert(q[x] != q[y]);
                assert(q[x] != q[y + 1]);
            } else {
                // Step y crosses the closing pair; step x crosses a pair
                // of some earlier edge.
                assert(c[y] == e.to@ && c[y + 1] == e.from@);
                if same_step(c, x, y) {
                    assert(c[x] == q[x] && c[x + 1] == q[x + 1]);
                    assert(edge_between(prefix, q[x], q[x + 1]));
                    let k = choose|k: int|
                        0 <= k < prefix.len() && (((#[trigger] prefix[k]).from@ == q[x]
                            && prefix[k].to@ == q[x + 1]) || (prefix[k].from@ == q[x + 1]
                            && prefix[k].to@ == q[x]));
                    assert(same_pair(es[k], es[es.len() - 1]));
                    assert(false);
                }
            }
        }
        assert(is_cycle(es, c));
    }
}

/// A forest of edges with pairwise distinct label pairs holds no cycle:
/// any cycle would either avoid the last edge, contradicting the shorter
/// forest, or cross it once and leave a connection between its endpoints.
#[verifier::rlimit(60)]
pub proof fn lemma_forest_no_cycle(es: Seq<Edge>)
    requires
        is_forest(es),
        distinct_pairs(es),
    ensures
        !has_cycle(es),
    decreases es.len(),
{
    if has_cycle(es) {
        let p = choose|p: Seq<Seq<char>>| #[trigger] is_cycle(es, p);
        assert(es.len() > 0) by {
            assert(edge_between(es, p[0], p[1]));
        }
        let e = es.last();
        let prefix = es.drop_last();
        assert(prefix.push(e) =~= es);
        assert(is_forest(prefix) && e.from@ != e.to@ && !connected(prefix, e.from@, e.to@));
        assert(distinct_pairs(prefix)) by {
            assert forall|k: int, l: int| 0 <= k < l < prefix.len() implies !same_pair(
                prefix[k],
                prefix[l],
            ) by {
                assert(prefix[k] == es[k] && prefix[l] == es[l]);
                assert(!same_pair(es[k], es[l]));
            }
        }
        if forall|k: int|
            0 <= k < p.len() - 1 ==> !(((#[trigger] p[k]) == e.from@ && p[k + 1] == e.to@) || (
            p[k] == e.to@ && p[k + 1] == e.from@)) {
            // The cycle never crosses the last edge's pair, so it already
            // runs through the shorter forest.
            assert forall|k: int| 0 <= k < p.len() - 1 implies edge_between(
                prefix,
                #[trigger] p[k],
                p[k + 1],
            ) by {
                assert(edge_between(prefix.push(e), p[k], p[k + 1]));
                lemma_step_in_prefix(prefix, e, p[k], p[k + 1]);
            }
            assert(is_path(prefix, p));
            assert(is_cycle(prefix, p));
            lemma_forest_no_cycle(prefix);
            assert(false);
        } else {
            // Rotate the cycle so that the one step crossing the last
            // edge's pair is left out; what remains connects the last
            // edge's endpoints among the earlier edges.
            let x = choose|x: int|
                0 <= x < p.len() - 1 && (((#[trigger] p[x]) == e.from@ && p[x + 1] == e.to@) || (
                p[x] == e.to@ && p[x + 1] == e.from@));
            let w = p.subrange(x + 1, p.len() as int) + p.subrange(1, x + 1);
            assert(w.len() == p.len() - 1);
            assert(w[0] == p[x + 1]);
            assert(w[w.len() - 1] == p[x]) by {
                if x == 0 {
                    assert(w[w.len() - 1] == p[p.len() - 1]);
                    assert(p[p.len() - 1] == p[0]);
                }
            }
            assert forall|k: int| 0 <= k < w.len() - 1 implies edge_between(
                prefix,
                #[trigger] w[k],
                w[k + 1],
            ) by {
                let hi = p.len() - x - 2;
                if k < hi {
                    assert(w[k] == p[x + 1 + k] && w[k + 1] == p[x + 2 + k]);
                    assert(edge_between(es, p[x + 1 + k], p[x + 2 + k]));
                    assert(!same_step(p, x, x + 1 + k));
                    lemma_step_in_prefix(prefix, e, p[x + 1 + k], p[x + 2 + k]);
                } else if k == hi {
                    assert(w[k] == p[p.len() - 1] && w[k + 1] == p[1]);
                    assert(p[p.len() - 1] == p[0]);
                    assert(edge_between(es, p[0], p[1]));
                    assert(x >= 1);
                    assert(!same_step(p, 0, x));
                    lemma_step_in_prefix(prefix, e, p[0], p[1]);
                } else {
                    let t = k - hi;
                    assert(w[k] == p[t] && w[k + 1] == p[t + 1]);
                    assert(edge_between(es, p[t], p[t + 1]));
                    assert(1 <= t < x);
                    assert(!same_step(p, t, x));
                    lemma_step_in_prefix(prefix, e, p[t], p[t + 1]);
                }
            }
            assert(is_path(prefix, w));
            assert(connected(prefix, p[x + 1], p[x]));
            if p[x] == e.from@ {
                lemma_connected_sym(prefix, p[x + 1], p[x]);
                assert(connected(prefix, e.from@, e.to@));
            } else {
                assert(p[x + 1] == e.from@ && p[x] == e.to@);
                assert(connected(prefix, e.from@, e.to@));
            }
            assert(false);
        }
    }
}

/// The edge list `c` is exactly the edge sequence of one simple cycle,
/// walked along `p`: edge `k` crosses step `k` of the closed walk, the
/// walk repeats no label before closing, and the only closed walks of
/// fewer than three edges are self-loops.
pub open spec fn is_simple_cycle_of(c: Seq<Edge>, p: Seq<Seq<char>>) -> bool {
    &&& c.len() >= 1
    &&& p.len() == c.len() + 1
    &&& p[0] == p[p.len() - 1]
    &&& distinct_labels(p.drop_last())
    &&& forall|k: int|
        0 <= k < c.len() ==> (((#[trigger] c[k]).from@ == p[k] && c[k].to@ == p[k + 1]) || (
        c[k].from@ == p[k + 1] && c[k].to@ == p[k]))
    &&& (c.len() >= 3 || (c.len() == 1 && c[0].from@ == c[0].to@))
}

/// Some closed walk makes the edge list exactly one simple cycle.
pub open spec fn forms_simple_cycle(c: Seq<Edge>) -> bool {
    exists|p: Seq<Seq<char>>| #[trigger] is_simple_cycle_of(c, p)
}

/// The edge sequence of a simple cycle is a cycle: every step crosses one
/// of its edges, and no two steps cross the same pair of labels.
pub proof fn lemma_simple_cycle_is_cycle(c: Seq<Edge>, p: Seq<Seq<char>>)
    requires
        is_simple_cycle_of(c, p),
    ensures
        is_cycle(c, p),
{
    assert forall|k: int| 0 <= k < p.len() - 1 implies edge_between(c, #[trigger] p[k], p[k + 1]) by {
        assert(((c[k].from@ == p[k] && c[k].to@ == p[k + 1]) || (c[k].from@ == p[k + 1] && c[k].to@
            == p[k])));
    }
    assert(is_path(c, p));
    let interior = p.drop_last();
    assert forall|a: int, b: int| 0 <= a < b < p.len() - 1 implies !same_step(p, a, b) by {
        assert(c.len() >= 3);
        assert(interior.len() == p.len() - 1);
        assert(forall|x: int| 0 <= x < p.len() - 1 ==> #[trigger] p[x] == interior[x]);
        if same_step(p, a, b) {
            if p[a] == p[b] && p[a + 1] == p[b + 1] {
                if b + 1 == p.len() - 1 {
                    // The later step ends at the closing label, so the
                    // earlier one would have to start the walk over.
                    assert(p[a + 1] == p[0]);
                    assert(interior[a + 1] == interior[0]);
                    assert(a + 1 == 0 || !distinct_labels(interior));
                } else {
                    assert(interior[a + 1] == interior[b + 1]);
                }
                assert(interior[a] == interior[b]);
                assert(false);
            } else {
                assert(p[a] == p[b + 1] && p[a + 1] == p[b]);
                assert(interior[a + 1] == interior[b]);
                assert(a + 1 == b);
                if b + 1 == p.len() - 1 {
                    assert(p[a] == p[0]);
                    assert(interior[a] == interior[0]);
                    assert(a == 0);
                    assert(p.len() == 3);
                    assert(false);
                } else {
                    assert(interior[a] == interior[b + 1]);
                    assert(a == b + 1);
                    assert(false);
                }
            }
        }
    }
}

/// The predecessor records of a search from the root `iu`: every link
/// points at an already flagged vertex across one edge before position
/// `t`, strictly closer to the root, and only the root lacks a link.
spec fn parents_ok(
    g: Graph,
    t: int,
    iu: int,
    visited: Seq<bool>,
    parent: Seq<Option<(usize, usize)>>,
    depth: Seq<int>,
) -> bool {
    let es = g.spec_edges();
    let vs = g.spec_vertices();
    &&& visited.len() == vs.len()
    &&& parent.len() == vs.len()
    &&& depth.len() == vs.len()
    &&& 0 <= iu < vs.len()
    &&& visited[iu]
    &&& parent[iu] is None
    &&& forall|x: int| 0 <= x < vs.len() ==> #[trigger] depth[x] >= 0
    &&& forall|x: int|
        0 <= x < vs.len() ==> ((#[trigger] parent[x]) matches Some(pe) ==> pe.0 < vs.len() && pe.1
            < t && visited[x] && visited[pe.0 as int] && depth[pe.0 as int] < depth[x] && ((es[
        pe.1 as int].from@ == vs[x] && es[pe.1 as int].to@ == vs[pe.0 as int]) || (es[
        pe.1 as int].from@ == vs[pe.0 as int] && es[pe.1 as int].to@ == vs[x])))
    &&& forall|x: int| 0 <= x < vs.len() && #[trigger] visited[x] && x != iu ==> parent[x] is Some
}

/// The whole working state of the search: sound predecessor records, and
/// a queue that holds exactly the flagged vertices.
spec fn bfs_state_ok(
    g: Graph,
    t: int,
    iu: int,
    visited: Seq<bool>,
    parent: Seq<Option<(usize, usize)>>,
    depth: Seq<int>,
    queue: Seq<usize>,
    vc: int,
    vset: Set<int>,
) -> bool {
    let vs = g.spec_vertices();
    &&& parents_ok(g, t, iu, visited, parent, depth)
    &&& vc <= vs.len()
    &&& queue.len() == vc
    &&& vset.finite()
    &&& vset.len() == vc
    &&& forall|x: int| vset.contains(x) <==> (0 <= x < vs.len() && visited[x])
    &&& forall|q: int|
        0 <= q < queue.len() ==> #[trigger] queue[q] < vs.len() && visited[queue[q] as int]
    &&& forall|x: int|
        0 <= x < vs.len() && #[trigger] visited[x] ==> exists|q: int|
            0 <= q < queue.len() && queue[q] == x
}

/// Every edge before `t` incident to one of the first `qh` dequeued
/// vertices has both of its labels flagged.
spec fn bfs_processed(g: Graph, t: int, visited: Seq<bool>, queue: Seq<usize>, qh: int) -> bool {
    let es = g.spec_edges();
    let vs = g.spec_vertices();
    forall|q: int, e2: int|
        #![trigger queue[q], es[e2]]
        0 <= q < qh && q < queue.len() && 0 <= e2 < t && (es[e2].from@ == vs[queue[q] as int]
            || es[e2].to@ == vs[queue[q] as int]) ==> label_visited(vs, visited, es[e2].from@)
            && label_visited(vs, visited, es[e2].to@)
}

/// When the flagged region is closed under the edges before `t` and holds
/// the loop-closing edge's first endpoint, it holds the other endpoint.
proof fn lemma_far_endpoint_flagged(
    es: Seq<Edge>,
    vs: Seq<Seq<char>>,
    fl: Seq<bool>,
    t: int,
    iu: int,
    iv: int,
)
    requires
        forall|i: int, j: int| 0 <= i < j < vs.len() ==> vs[i] != vs[j],
        0 <= t < es.len(),
        0 <= iu < vs.len(),
        0 <= iv < vs.len(),
        vs[iu] == es[t].from@,
        vs[iv] == es[t].to@,
        fl.len() == vs.len(),
        fl[iu],
        forall|k: int|
            0 <= k < t ==> (label_visited(vs, fl, (#[trigger] es[k]).from@) <==> label_visited(
                vs,
                fl,
                es[k].to@,
            )),
        es[t].from@ == es[t].to@ || connected(es.subrange(0, t), es[t].from@, es[t].to@),
    ensures
        fl[iv],
{
    reveal(label_visited);
    let prefix = es.subrange(0, t);
    if es[t].from@ == es[t].to@ {
        assert(iu == iv) by {
            if iu != iv {
                assert(vs[iu] != vs[iv]);
            }
        }
    } else {
        assert forall|k: int|
            0 <= k < prefix.len() implies (label_visited(vs, fl, (#[trigger] prefix[k]).from@)
            <==> label_visited(vs, fl, prefix[k].to@)) by {
            assert(prefix[k] == es[k]);
        }
        assert(label_visited(vs, fl, vs[iu]));
        let p0 = choose|p0: Seq<Seq<char>>|
            #[trigger] is_path(prefix, p0) && p0.len() >= 1 && p0[0] == es[t].from@ && p0[p0.len()
                - 1] == es[t].to@;
        lemma_path_closure(prefix, vs, fl, p0);
        assert(label_visited(vs, fl, es[t].to@));
        let x = choose|x: int| 0 <= x < vs.len() && vs[x] == es[t].to@ && fl[x];
        assert(x == iv) by {
            if x != iv {
                assert(vs[x] != vs[iv]);
            }
        }
    }
}

/// A predecessor chain with strictly falling distances, closed by the
/// loop-closing edge, assembles into the edge sequence of one simple
/// cycle: the distances make the chain's labels distinct, the root label
/// only returns at the very end, and the graph's distinct pairs rule out
/// a two-edge loop.
proof fn lemma_assemble_simple_cycle(
    es: Seq<Edge>,
    vs: Seq<Seq<char>>,
    depth: Seq<int>,
    t: int,
    iu: int,
    c: Seq<Edge>,
    p: Seq<Seq<char>>,
    idxs: Seq<int>,
)
    requires
        forall|i: int, j: int| 0 <= i < j < vs.len() ==> vs[i] != vs[j],
        distinct_pairs(es),
        0 <= t < es.len(),
        0 <= iu < vs.len(),
        vs[iu] == es[t].from@,
        c.len() >= 1,
        p.len() == c.len() + 1,
        idxs.len() == c.len(),
        p[0] == es[t].from@,
        p[1] == es[t].to@,
        edge_like(es[t], c[0]),
        forall|k: int| 0 <= k < idxs.len() ==> 0 <= #[trigger] idxs[k] < vs.len(),
        forall|k: int| 0 <= k < idxs.len() ==> p[k + 1] == vs[#[trigger] idxs[k]],
        idxs[idxs.len() - 1] == iu,
        forall|k: int| 0 <= k < idxs.len() - 1 ==> #[trigger] idxs[k] != iu,
        forall|k1: int, k2: int|
            0 <= k1 < k2 < idxs.len() ==> depth[#[trigger] idxs[k2]] < depth[#[trigger] idxs[k1]],
        forall|k: int|
            0 <= k < c.len() ==> (((#[trigger] c[k]).from@ == p[k] && c[k].to@ == p[k + 1]) || (
            c[k].from@ == p[k + 1] && c[k].to@ == p[k])),
        forall|k: int|
            1 <= k < c.len() ==> from_candidates(es.subrange(0, t), #[trigger] c[k]),
    ensures
        is_simple_cycle_of(c, p),
        has_cycle(c),
{
    assert(p[p.len() - 1] == vs[iu]);
    assert(p[0] == p[p.len() - 1]);
    let interior = p.drop_last();
    assert forall|x: int, y: int| 0 <= x < y < interior.len() implies interior[x]
        != interior[y] by {
        if x == 0 {
            assert(interior[y] == vs[idxs[y - 1]]);
            assert(idxs[y - 1] != iu);
            assert(vs[idxs[y - 1]] != vs[iu]);
        } else {
            assert(interior[x] == vs[idxs[x - 1]]);
            assert(interior[y] == vs[idxs[y - 1]]);
            assert(depth[idxs[y - 1]] < depth[idxs[x - 1]]);
            assert(idxs[x - 1] != idxs[y - 1]);
            assert(vs[idxs[x - 1]] != vs[idxs[y - 1]]);
        }
    }
    assert(distinct_labels(interior));
    if c.len() == 1 {
        assert(p[1] == p[0]);
        assert(c[0].from@ == c[0].to@);
    }
    if c.len() == 2 {
        let prefix = es.subrange(0, t);
        assert(from_candidates(prefix, c[1]));
        let w = choose|w: int| 0 <= w < prefix.len() && edge_like(#[trigger] prefix[w], c[1]);
        assert(prefix[w] == es[w]);
        assert(p[2] == vs[iu]);
        assert(same_pair(es[w], es[t]));
        assert(false);
    }
    assert(is_simple_cycle_of(c, p));
    lemma_simple_cycle_is_cycle(c, p);
}

/// When every entry of the labelling agrees with the first one, exactly
/// one class label is left.
proof fn lemma_single_label_class(labels: Seq<usize>, image: Set<int>, n: int)
    requires
        n > 0,
        labels.len() == n,
        image.finite(),
        forall|x: int| 0 <= x < n ==> image.contains(#[trigger] labels[x] as int),
        forall|y: int|
            #[trigger] image.contains(y) ==> exists|x: int| 0 <= x < n && labels[x] as int == y,
        forall|x: int| 0 <= x < n ==> #[trigger] labels[x] == labels[0],
    ensures
        image.len() == 1,
{
    broadcast use vstd::set::group_set_axioms;

    assert(image =~= Set::empty().insert(labels[0] as int)) by {
        assert forall|y: int| #[trigger] image.contains(y) implies y == labels[0] as int by {
            let x = choose|x: int| 0 <= x < n && labels[x] as int == y;
            assert(labels[x] == labels[0]);
        }
        assert(image.contains(labels[0] as int));
    }
    assert(!Set::<int>::empty().contains(labels[0] as int));
    assert(Set::<int>::empty().insert(labels[0] as int).len() == 1);
}

/// The label `l` names a vertex whose flag is set.
#[verifier::opaque]
pub open spec fn label_visited(vs: Seq<Seq<char>>, fl: Seq<bool>, l: Seq<char>) -> bool {
    exists|x: int| 0 <= x < vs.len() && vs[x] == l && fl[x]
}

/// Walking a path cannot leave the visited region when every edge has
/// either both ends visited or neither.
proof fn lemma_path_closure(es: Seq<Edge>, vs: Seq<Seq<char>>, fl: Seq<bool>, p: Seq<Seq<char>>)
    requires
        is_path(es, p),
        p.len() >= 1,
        label_visited(vs, fl, p[0]),
        forall|k: int|
            0 <= k < es.len() ==> (label_visited(vs, fl, (#[trigger] es[k]).from@)
                <==> label_visited(vs, fl, es[k].to@)),
    ensures
        label_visited(vs, fl, p[p.len() - 1]),
    decreases p.len(),
{
    reveal(label_visited);
    if p.len() >= 2 {
        assert(edge_between(es, p[0], p[1]));
        let w = choose|w: int|
            0 <= w < es.len() && (((#[trigger] es[w]).from@ == p[0] && es[w].to@ == p[1]) || (
            es[w].from@ == p[1] && es[w].to@ == p[0]));
        assert(label_visited(vs, fl, p[1]));
        let q = p.drop_first();
        assert forall|k: int| 0 <= k < q.len() - 1 implies edge_between(es, #[trigger] q[k], q[k + 1]) by {
            assert(q[k] == p[k + 1] && q[k + 1] == p[k + 2]);
            assert(edge_between(es, p[k + 1], p[k + 2]));
        }
        assert(is_path(es, q));
        lemma_path_closure(es, vs, fl, q);
        assert(q[q.len() - 1] == p[p.len() - 1]);
    }
}

/// A cycle that runs through edges which all reappear, up to labels,
/// among the candidates also runs through the candidates.
pub proof fn lemma_has_cycle_transfer(src: Seq<Edge>, dst: Seq<Edge>)
    requires
        forall|k: int| 0 <= k < src.len() ==> from_candidates(dst, #[trigger] src[k]),
        has_cycle(src),
    ensures
        has_cycle(dst),
{
    let p = choose|p: Seq<Seq<char>>| #[trigger] is_cycle(src, p);
    assert forall|k: int| 0 <= k < p.len() - 1 implies edge_between(dst, #[trigger] p[k], p[k + 1]) by {
        let w = choose|w: int|
            0 <= w < src.len() && (((#[trigger] src[w]).from@ == p[k] && src[w].to@ == p[k + 1])
                || (src[w].from@ == p[k + 1] && src[w].to@ == p[k]));
        assert(from_candidates(dst, src[w]));
        let c = choose|c: int| 0 <= c < dst.len() && edge_like(#[trigger] dst[c], src[w]);
        assert(((dst[c].from@ == p[k] && dst[c].to@ == p[k + 1]) || (dst[c].from@ == p[k + 1]
            && dst[c].to@ == p[k])));
    }
    assert(is_path(dst, p));
    assert(is_cycle(dst, p));
}

/// Without edges, only a label itself is reachable from it.
pub proof fn lemma_connected_empty(edges: Seq<Edge>, a: Seq<char>, b: Seq<char>)
    requires
        edges.len() == 0,
        connected(edges, a, b),
    ensures
        a == b,
{
    let p = choose|p: Seq<Seq<char>>|
        #[trigger] is_path(edges, p) && p.len() >= 1 && p[0] == a && p[p.len() - 1] == b;
    if p.len() >= 2 {
        assert(edge_between(edges, p[0], p[1]));
        assert(false);
    }
}

/// A connection through `edges.push(e)` decomposes: the endpoints are
/// connected without `e`, or each reaches one end of `e` without it.
pub proof fn lemma_connected_decompose(edges: Seq<Edge>, e: Edge, a: Seq<char>, b: Seq<char>)
    requires
        connected(edges.push(e), a, b),
    ensures
        connected(edges, a, b) || (connected(edges, a, e.from@) && connected(edges, e.to@, b)) || (
        connected(edges, a, e.to@) && connected(edges, e.from@, b)),
{
    let p = choose|p: Seq<Seq<char>>|
        #[trigger] is_path(edges.push(e), p) && p.len() >= 1 && p[0] == a && p[p.len() - 1] == b;
    lemma_decompose_path(edges, e, p);
}

/// An undirected weighted graph over uniquely labelled vertices, with a
/// stored seed that only randomises tie-breaking during augmentation.
pub struct Graph {
    vertices: Vec<String>,
    edges: Vec<Edge>,
    seed: u64,
}

impl Graph {
    /// The vertex labels, as sequences of characters.
    pub closed spec fn spec_vertices(&self) -> Seq<Seq<char>> {
        Seq::new(self.vertices@.len(), |i: int| self.vertices@[i]@)
    }

    /// The edge list.
    pub closed spec fn spec_edges(&self) -> Seq<Edge> {
        self.edges@
    }

    /// The stored random seed.
    pub closed spec fn spec_seed(&self) -> u64 {
        self.seed
    }

    /// The label `l` names a vertex of the graph.
    pub open spec fn spec_has_vertex(&self, l: Seq<char>) -> bool {
        exists|i: int| 0 <= i < self.spec_vertices().len() && self.spec_vertices()[i] == l
    }

    /// No duplicate vertex label, no duplicate (undirected) edge, and every
    /// edge joins two labels that name vertices.
    pub open spec fn wf(&self) -> bool {
        &&& forall|i: int, j: int|
            0 <= i < j < self.spec_vertices().len() ==> self.spec_vertices()[i]
                != self.spec_vertices()[j]
        &&& forall|k: int|
            0 <= k < self.spec_edges().len() ==> self.spec_has_vertex(
                (#[trigger] self.spec_edges()[k]).from@,
            ) && self.spec_has_vertex(self.spec_edges()[k].to@)
        &&& forall|k: int, l: int|
            0 <= k < l < self.spec_edges().len() ==> !same_pair(
                self.spec_edges()[k],
                self.spec_edges()[l],
            )
    }

    /// Every vertex is reachable from the first-added vertex; an empty
    /// vertex set is not connected.
    pub open spec fn spec_connected_graph(&self) -> bool {
        &&& self.spec_vertices().len() > 0
        &&& forall|i: int|
            0 <= i < self.spec_vertices().len() ==> connected(
                self.spec_edges(),
                self.spec_vertices()[0],
                #[trigger] self.spec_vertices()[i],
            )
    }

    /// A spanning tree: connected and free of cycles.
    pub open spec fn spec_is_tree(&self) -> bool {
        self.spec_connected_graph() && is_forest(self.spec_edges())
    }

    /// A fresh graph without vertices or edges, seeded from the clock.
    pub fn new() -> (r: Graph)
        ensures
            r.wf(),
            r.spec_vertices().len() == 0,
            r.spec_edges().len() == 0,
    {
        Graph { vertices: Vec::new(), edges: Vec::new(), seed: now_secs() }
    }

    /// A fresh graph without vertices or edges, with an injected seed for
    /// reproducible augmentation.
    pub fn new_with_seed(seed: u64) -> (r: Graph)
        ensures
            r.wf(),
            r.spec_vertices().len() == 0,
            r.spec_edges().len() == 0,
            r.spec_seed() == seed,
    {
        Graph { vertices: Vec::new(), edges: Vec::new(), seed }
    }

    /// Replace the stored seed with one taken from the clock.
    pub fn update_seed(&mut self)
        ensures
            final(self).spec_vertices() == old(self).spec_vertices(),
            final(self).spec_edges() == old(self).spec_edges(),
    {
        self.seed = now_secs();
    }

    /// The vertex labels, for inspection or rendering.
    pub fn vertices(&self) -> (r: &Vec<String>)
        ensures
            r@.len() == self.spec_vertices().len(),
            forall|i: int| 0 <= i < r@.len() ==> (#[trigger] r@[i])@ == self.spec_vertices()[i],
    {
        &self.vertices
    }

    /// The edges, for inspection or rendering.
    pub fn edges(&self) -> (r: &Vec<Edge>)
        ensures
            r@ == self.spec_edges(),
    {
        &self.edges
    }

    /// Whether some vertex carries the label `node`.
    pub fn contains_vertex(&self, node: &String) -> (r: bool)
        ensures
            r == self.spec_has_vertex(node@),
    {
        let n = self.vertices.len();
        let mut i: usize = 0;
        while i < n
            invariant
                n == self.spec_vertices().len(),
                i <= n,
                forall|k: int| 0 <= k < i ==> self.spec_vertices()[k] != node@,
            decreases n - i,
        {
            if self.vertices[i].eq(node) {
                proof {
                    assert(self.spec_vertices()[i as int] == node@);
                }
                return true;
            }
            i += 1;
        }
        false
    }

    /// The position of the vertex labelled `node`.
    fn index_of_vertex(&self, node: &String) -> (r: usize)
        requires
            self.spec_has_vertex(node@),
        ensures
            r < self.spec_vertices().len(),
            self.spec_vertices()[r as int] == node@,
    {
        let n = self.vertices.len();
        let mut i: usize = 0;
        while i < n
            invariant
                self.spec_has_vertex(node@),
                n == self.spec_vertices().len(),
                i <= n,
                forall|k: int| 0 <= k < i ==> self.spec_vertices()[k] != node@,
            decreases n - i,
        {
            if self.vertices[i].eq(node) {
                proof {
                    assert(self.spec_vertices()[i as int] == node@);
                }
                return i;
            }
            i += 1;
        }
        proof {
            assert(false);
        }
        0
    }

    /// Whether an equal (undirected) edge between `from` and `to` is
    /// already present.
    pub fn contains_edge(&self, from: &String, to: &String) -> (r: bool)
        ensures
            r == edge_between(self.spec_edges(), from@, to@),
    {
        let n = self.edges.len();
        let mut k: usize = 0;
        while k < n
            invariant
                n == self.spec_edges().len(),
                k <= n,
                forall|t: int|
                    0 <= t < k ==> !(((#[trigger] self.spec_edges()[t]).from@ == from@
                        && self.spec_edges()[t].to@ == to@) || (self.spec_edges()[t].from@ == to@
                        && self.spec_edges()[t].to@ == from@)),
            decreases n - k,
        {
            let e = &self.edges[k];
            if (e.from.eq(from) && e.to.eq(to)) || (e.from.eq(to) && e.to.eq(from)) {
                return true;
            }
            k += 1;
        }
        false
    }

    /// Add a vertex labelled `node`; an existing equal label is refused.
    pub fn add_node(&mut self, node: String) -> (r: Result<(), Error>)
        requires
            old(self).wf(),
        ensures
            final(self).wf(),
            final(self).spec_edges() == old(self).spec_edges(),
            final(self).spec_seed() == old(self).spec_seed(),
            old(self).spec_has_vertex(node@) ==> r == Err::<(), Error>(Error::DuplicateVertex)
                && final(self).spec_vertices() == old(self).spec_vertices(),
            !old(self).spec_has_vertex(node@) ==> r == Ok::<(), Error>(())
                && final(self).spec_vertices() == old(self).spec_vertices().push(node@),
    {
        if self.contains_vertex(&node) {
            return Err(Error::DuplicateVertex);
        }
        self.vertices.push(node);
        proof {
            assert(final(self).spec_vertices() =~= old(self).spec_vertices().push(node@));
            let vs = final(self).spec_vertices();
            assert forall|i: int, j: int| 0 <= i < j < vs.len() implies vs[i] != vs[j] by {
                if j == vs.len() - 1 {
                    assert(vs[i] == old(self).spec_vertices()[i]);
                    assert(!old(self).spec_has_vertex(node@));
                    assert(old(self).spec_vertices()[i] != node@);
                }
            }
            assert forall|k: int, l: int|
                0 <= k < l < final(self).spec_edges().len() implies !same_pair(
                final(self).spec_edges()[k],
                final(self).spec_edges()[l],
            ) by {
                assert(final(self).spec_edges()[k] == old(self).spec_edges()[k]);
                assert(final(self).spec_edges()[l] == old(self).spec_edges()[l]);
                assert(!same_pair(old(self).spec_edges()[k], old(self).spec_edges()[l]));
            }
            assert forall|k: int|
                0 <= k < final(self).spec_edges().len() implies final(self).spec_has_vertex(
                (#[trigger] final(self).spec_edges()[k]).from@,
            ) && final(self).spec_has_vertex(final(self).spec_edges()[k].to@) by {
                let vf = old(self).spec_edges()[k].from@;
                let vt = old(self).spec_edges()[k].to@;
                let wi = choose|i: int|
                    0 <= i < old(self).spec_vertices().len() && old(self).spec_vertices()[i] == vf;
                assert(final(self).spec_vertices()[wi] == vf);
                let wj = choose|i: int|
                    0 <= i < old(self).spec_vertices().len() && old(self).spec_vertices()[i] == vt;
                assert(final(self).spec_vertices()[wj] == vt);
            }
        }
        Ok(())
    }

    /// Add an edge between two existing vertices; an equal (undirected)
    /// edge is refused.
    pub fn add_edge(&mut self, from: String, to: String, weight: i64) -> (r: Result<(), Error>)
        requires
            old(self).wf(),
            old(self).spec_has_vertex(from@),
            old(self).spec_has_vertex(to@),
        ensures
            final(self).wf(),
            final(self).spec_vertices() == old(self).spec_vertices(),
            final(self).spec_seed() == old(self).spec_seed(),
            edge_between(old(self).spec_edges(), from@, to@) ==> r == Err::<(), Error>(
                Error::DuplicateEdge,
            ) && final(self).spec_edges() == old(self).spec_edges(),
            !edge_between(old(self).spec_edges(), from@, to@) ==> r == Ok::<(), Error>(())
                && final(self).spec_edges().len() == old(self).spec_edges().len() + 1
                && final(self).spec_edges() == old(self).spec_edges().push(
                final(self).spec_edges().last(),
            ) && final(self).spec_edges().last().from@ == from@
                && final(self).spec_edges().last().to@ == to@
                && final(self).spec_edges().last().weight == weight,
    {
        if self.contains_edge(&from, &to) {
            return Err(Error::DuplicateEdge);
        }
        let e = Edge::new(from, to, weight);
        self.edges.push(e);
        proof {
            assert(final(self).spec_edges() =~= old(self).spec_edges().push(
                final(self).spec_edges().last(),
            ));
            let es = final(self).spec_edges();
            let new_e = es.last();
            assert(final(self).spec_vertices() =~= old(self).spec_vertices());
            assert forall|k: int, l: int| 0 <= k < l < es.len() implies !same_pair(es[k], es[l]) by {
                if l == es.len() - 1 {
                    assert(es[k] == old(self).spec_edges()[k]);
                    assert(!edge_between(old(self).spec_edges(), from@, to@));
                    assert(!same_pair(es[k], new_e));
                }
            }
            assert forall|k: int| 0 <= k < es.len() implies final(self).spec_has_vertex(
                (#[trigger] es[k]).from@,
            ) && final(self).spec_has_vertex(es[k].to@) by {
                if k < es.len() - 1 {
                    assert(old(self).spec_has_vertex(es[k].from@));
                    assert(old(self).spec_has_vertex(es[k].to@));
                }
            }
        }
        Ok(())
    }
}

impl Graph {
    /// Label every vertex with a component representative by scanning the
    /// edges in order; the second component holds the position of the
    /// first edge that closed a loop, if any did.  Two vertices get equal
    /// labels exactly when they are connected.
    #[verifier::rlimit(100)]
    #[verifier::spinoff_prover]
    fn scan_components(&self) -> (r: (Vec<usize>, Option<usize>))
        requires
            self.wf(),
        ensures
            r.0@.len() == self.spec_vertices().len(),
            forall|x: int, y: int|
                #![trigger r.0@[x], r.0@[y]]
                0 <= x < self.spec_vertices().len() && 0 <= y < self.spec_vertices().len() ==> ((
                r.0@[x] == r.0@[y]) <==> connected(
                    self.spec_edges(),
                    self.spec_vertices()[x],
                    self.spec_vertices()[y],
                )),
            r.1 is None <==> is_forest(self.spec_edges()),
            r.1 matches Some(t) ==> t < self.spec_edges().len() && is_forest(
                self.spec_edges().subrange(0, t as int),
            ) && (self.spec_edges()[t as int].from@ == self.spec_edges()[t as int].to@ || connected(
                self.spec_edges().subrange(0, t as int),
                self.spec_edges()[t as int].from@,
                self.spec_edges()[t as int].to@,
            )),
            (r.1 is None && self.spec_vertices().len() > 0 && (forall|x: int|
                0 <= x < self.spec_vertices().len() ==> #[trigger] r.0@[x] == r.0@[0]))
                ==> self.spec_edges().len() + 1 == self.spec_vertices().len(),
    {
        let n = self.vertices.len();
        let m = self.edges.len();
        let mut labels: Vec<usize> = Vec::new();
        let mut i: usize = 0;
        while i < n
            invariant
                i <= n,
                labels@.len() == i,
                forall|k: int| 0 <= k < i ==> labels@[k] == k,
            decreases n - i,
        {
            labels.push(i);
            i += 1;
        }
        proof {
            let prefix = self.spec_edges().subrange(0, 0);
            assert(prefix.len() == 0);
            assert forall|x: int, y: int|
                #![trigger labels@[x], labels@[y]]
                0 <= x < n && 0 <= y < n implies ((labels@[x] == labels@[y]) <==> connected(
                prefix,
                self.spec_vertices()[x],
                self.spec_vertices()[y],
            )) by {
                if labels@[x] == labels@[y] {
                    assert(x == y);
                    lemma_connected_refl(prefix, self.spec_vertices()[x]);
                }
                if connected(prefix, self.spec_vertices()[x], self.spec_vertices()[y]) {
                    lemma_connected_empty(
                        prefix,
                        self.spec_vertices()[x],
                        self.spec_vertices()[y],
                    );
                    assert(x == y);
                }
            }
        }
        let ghost mut image: Set<int> = vstd::set_lib::set_int_range(0, n as int);
        let ghost mut classes: int = n as int;
        proof {
            vstd::set_lib::lemma_int_range(0, n as int);
            assert forall|y: int| #[trigger] image.contains(y) implies exists|x: int|
                0 <= x < n && labels@[x] as int == y by {
                assert(0 <= y < n);
                assert(labels@[y] as int == y);
            }
        }
        let mut cyclic: Option<usize> = None;
        let mut t: usize = 0;
        while t < m
            invariant
                self.wf(),
                n == self.spec_vertices().len(),
                m == self.spec_edges().len(),
                labels@.len() == n,
                t <= m,
                image.finite(),
                image.len() == classes,
                forall|x: int| 0 <= x < n ==> image.contains(#[trigger] labels@[x] as int),
                forall|y: int|
                    #[trigger] image.contains(y) ==> exists|x: int|
                        0 <= x < n && labels@[x] as int == y,
                cyclic is None ==> classes == n - t,
                forall|x: int, y: int|
                    #![trigger labels@[x], labels@[y]]
                    0 <= x < n && 0 <= y < n ==> ((labels@[x] == labels@[y]) <==> connected(
                        self.spec_edges().subrange(0, t as int),
                        self.spec_vertices()[x],
                        self.spec_vertices()[y],
                    )),
                cyclic is None <==> is_forest(self.spec_edges().subrange(0, t as int)),
                cyclic matches Some(t0) ==> t0 < t && is_forest(
                    self.spec_edges().subrange(0, t0 as int),
                ) && (self.spec_edges()[t0 as int].from@ == self.spec_edges()[t0 as int].to@
                    || connected(
                    self.spec_edges().subrange(0, t0 as int),
                    self.spec_edges()[t0 as int].from@,
                    self.spec_edges()[t0 as int].to@,
                )),
            decreases m - t,
        {
            let ghost prefix = self.spec_edges().subrange(0, t as int);
            let ghost e_spec = self.spec_edges()[t as int];
            let ghost prefix2 = self.spec_edges().subrange(0, t as int + 1);
            proof {
                assert(prefix2 =~= prefix.push(e_spec));
                assert(prefix2.last() == e_spec);
                assert(prefix2.drop_last() =~= prefix);
            }
            let iu = self.index_of_vertex(&self.edges[t].from);
            let iv = self.index_of_vertex(&self.edges[t].to);
            let ghost u = self.spec_vertices()[iu as int];
            let ghost v = self.spec_vertices()[iv as int];
            proof {
                assert(u == e_spec.from@);
                assert(v == e_spec.to@);
                assert(edge_between(prefix2, u, v)) by {
                    assert(prefix2[t as int] == e_spec);
                }
                if e_spec.from@ == e_spec.to@ {
                    assert(iu == iv) by {
                        if iu != iv {
                            assert(self.spec_vertices()[iu as int]
                                != self.spec_vertices()[iv as int]);
                        }
                    }
                }
            }
            let lu = labels[iu];
            let lv = labels[iv];
            if lu == lv {
                proof {
                    // The prefix with this edge is no longer a forest.
                    if e_spec.from@ != e_spec.to@ {
                        assert(connected(prefix, u, v));
                        assert(!is_forest(prefix2));
                    } else {
                        assert(!is_forest(prefix2));
                    }
                    // The labelling still matches connectivity.
                    assert forall|x: int, y: int|
                        #![trigger labels@[x], labels@[y]]
                        0 <= x < n && 0 <= y < n implies ((labels@[x] == labels@[y])
                        <==> connected(
                        prefix2,
                        self.spec_vertices()[x],
                        self.spec_vertices()[y],
                    )) by {
                        let vx = self.spec_vertices()[x];
                        let vy = self.spec_vertices()[y];
                        if labels@[x] == labels@[y] {
                            assert(connected(prefix, vx, vy));
                            lemma_connected_push(prefix, e_spec, vx, vy);
                        }
                        if connected(prefix2, vx, vy) {
                            lemma_connected_decompose(prefix, e_spec, vx, vy);
                            if connected(prefix, vx, vy) {
                                assert(labels@[x] == labels@[y]);
                            } else if connected(prefix, vx, u) && connected(prefix, v, vy) {
                                assert(labels@[x] == labels@[iu as int]);
                                assert(labels@[iv as int] == labels@[y]);
                                assert(labels@[x] == labels@[y]);
                            } else {
                                assert(connected(prefix, vx, v) && connected(prefix, u, vy));
                                assert(labels@[x] == labels@[iv as int]);
                                assert(labels@[iu as int] == labels@[y]);
                                assert(labels@[x] == labels@[y]);
                            }
                        }
                    }
                }
                if cyclic.is_none() {
                    proof {
                        if e_spec.from@ != e_spec.to@ {
                            assert(connected(prefix, e_spec.from@, e_spec.to@));
                        }
                    }
                    cyclic = Some(t);
                }
                proof {
                    let t0 = cyclic->Some_0;
                    if t0 < t {
                        assert(self.spec_edges().subrange(0, t0 as int) =~= prefix2.subrange(
                            0,
                            t0 as int,
                        ));
                    }
                }
            } else {
                proof {
                    // Distinct labels mean the endpoints were disconnected,
                    // so the edge extends the forest.
                    assert(e_spec.from@ != e_spec.to@);
                    assert(!connected(prefix, u, v));
                    assert(is_forest(prefix2) == is_forest(prefix));
                }
                let ghost labels0 = labels@;
                let mut x: usize = 0;
                while x < n
                    invariant
                        labels@.len() == n,
                        labels0.len() == n,
                        x <= n,
                        forall|k: int|
                            0 <= k < x ==> labels@[k] == (if labels0[k] == lv as usize {
                                lu as usize
                            } else {
                                labels0[k]
                            }),
                        forall|k: int| x <= k < n ==> labels@[k] == labels0[k],
                    decreases n - x,
                {
                    if labels[x] == lv {
                        labels[x] = lu;
                    }
                    x += 1;
                }
                proof {
                    broadcast use vstd::set::group_set_axioms;

                    // One component label disappears: the absorbed class's
                    // representative is relabelled everywhere.
                    assert(image.contains(lv as int)) by {
                        assert(labels0[iv as int] == lv);
                    }
                    let image2 = image.remove(lv as int);
                    assert(image2.len() == image.len() - 1);
                    assert forall|x: int|
                        0 <= x < n implies image2.contains(#[trigger] labels@[x] as int) by {
                        if labels0[x] == lv as usize {
                            assert(labels@[x] == lu);
                            assert(labels0[iu as int] == lu);
                            assert(image.contains(lu as int));
                        } else {
                            assert(labels@[x] == labels0[x]);
                            assert(image.contains(labels0[x] as int));
                        }
                    }
                    assert forall|y: int| #[trigger] image2.contains(y) implies exists|x: int|
                        0 <= x < n && labels@[x] as int == y by {
                        assert(image.contains(y));
                        let x = choose|x: int| 0 <= x < n && labels0[x] as int == y;
                        assert(labels0[x] != lv as usize);
                        assert(labels@[x] as int == y);
                    }
                    image = image2;
                    classes = classes - 1;
                    assert forall|a: int, b: int|
                        #![trigger labels@[a], labels@[b]]
                        0 <= a < n && 0 <= b < n implies ((labels@[a] == labels@[b])
                        <==> connected(
                        prefix2,
                        self.spec_vertices()[a],
                        self.spec_vertices()[b],
                    )) by {
                        let va = self.spec_vertices()[a];
                        let vb = self.spec_vertices()[b];
                        assert(labels0[iu as int] == lu && labels0[iv as int] == lv);
                        if labels@[a] == labels@[b] {
                            if labels0[a] == labels0[b] {
                                assert(connected(prefix, va, vb));
                                lemma_connected_push(prefix, e_spec, va, vb);
                            } else if labels0[a] == lv as usize {
                                // a sat in the absorbed class, b in the
                                // absorbing one: walk a -> v -> u -> b.
                                assert(labels0[b] == lu as usize);
                                assert(connected(prefix, va, v));
                                assert(connected(prefix, u, vb));
                                lemma_connected_push(prefix, e_spec, va, v);
                                lemma_connected_step(prefix2, v, u);
                                lemma_connected_push(prefix, e_spec, u, vb);
                                lemma_connected_trans(prefix2, va, v, u);
                                lemma_connected_trans(prefix2, va, u, vb);
                            } else {
                                assert(labels0[b] == lv as usize && labels0[a] == lu as usize);
                                assert(connected(prefix, va, u));
                                assert(connected(prefix, v, vb));
                                lemma_connected_push(prefix, e_spec, va, u);
                                lemma_connected_step(prefix2, u, v);
                                lemma_connected_push(prefix, e_spec, v, vb);
                                lemma_connected_trans(prefix2, va, u, v);
                                lemma_connected_trans(prefix2, va, v, vb);
                            }
                        }
                        if connected(prefix2, va, vb) {
                            lemma_connected_decompose(prefix, e_spec, va, vb);
                            if connected(prefix, va, vb) {
                                assert(labels0[a] == labels0[b]);
                                assert(labels@[a] == labels@[b]);
                            } else if connected(prefix, va, u) && connected(prefix, v, vb) {
                                assert(labels0[a] == labels0[iu as int]);
                                assert(labels0[iv as int] == labels0[b]);
                                assert(labels@[a] == labels@[b]);
                            } else {
                                assert(connected(prefix, va, v) && connected(prefix, u, vb));
                                assert(labels0[a] == labels0[iv as int]);
                                assert(labels0[iu as int] == labels0[b]);
                                assert(labels@[a] == labels@[b]);
                            }
                        }
                    }
                }
            }
            t += 1;
        }
        proof {
            broadcast use vstd::set::group_set_axioms;

            assert(self.spec_edges().subrange(0, m as int) =~= self.spec_edges());
            if cyclic is None && n > 0 && (forall|x: int|
                0 <= x < n ==> #[trigger] labels@[x] == labels@[0]) {
                // With every vertex in one class, exactly one label is
                // left, so every edge merged two classes: a spanning tree.
                lemma_single_label_class(labels@, image, n as int);
                assert(classes == 1);
            }
        }
        (labels, cyclic)
    }

    /// Every vertex is reachable from the first-added vertex; an empty
    /// graph counts as not connected.
    pub fn is_connected(&self) -> (r: bool)
        requires
            self.wf(),
        ensures
            r == self.spec_connected_graph(),
    {
        let n = self.vertices.len();
        if n == 0 {
            return false;
        }
        let (labels, _first_loop) = self.scan_components();
        let first = labels[0];
        let mut i: usize = 1;
        while i < n
            invariant
                self.wf(),
                n == self.spec_vertices().len(),
                labels@.len() == n,
                n > 0,
                first == labels@[0],
                1 <= i <= n,
                forall|x: int, y: int|
                    #![trigger labels@[x], labels@[y]]
                    0 <= x < n && 0 <= y < n ==> ((labels@[x] == labels@[y]) <==> connected(
                        self.spec_edges(),
                        self.spec_vertices()[x],
                        self.spec_vertices()[y],
                    )),
                forall|k: int|
                    0 <= k < i ==> connected(
                        self.spec_edges(),
                        self.spec_vertices()[0],
                        #[trigger] self.spec_vertices()[k],
                    ),
            decreases n - i,
        {
            if labels[i] != first {
                proof {
                    assert(!connected(
                        self.spec_edges(),
                        self.spec_vertices()[0],
                        self.spec_vertices()[i as int],
                    ));
                }
                return false;
            }
            i += 1;
        }
        true
    }

    /// Whether some set of edges closes a loop.
    pub fn is_cyclic(&self) -> (r: bool)
        requires
            self.wf(),
        ensures
            r == !is_forest(self.spec_edges()),
            r == has_cycle(self.spec_edges()),
    {
        let (_labels, first_loop) = self.scan_components();
        proof {
            assert(distinct_pairs(self.spec_edges()));
            if first_loop is Some {
                lemma_unforest_has_cycle(self.spec_edges());
            } else {
                lemma_forest_no_cycle(self.spec_edges());
            }
        }
        first_loop.is_some()
    }

    /// One simple cycle's edges, if the graph holds a cycle at all: the
    /// edge that first closed a loop, followed by the simple path between
    /// its endpoints found among the earlier edges.  The returned edges
    /// are exactly the edge sequence of one simple cycle, and each joins
    /// the same labels with the same weight as an edge of the graph.
    #[verifier::rlimit(100)]
    pub fn find_cycle(&self) -> (r: Option<Vec<Edge>>)
        requires
            self.wf(),
        ensures
            r is None <==> is_forest(self.spec_edges()),
            r matches Some(c) ==> c@.len() >= 1 && forms_simple_cycle(c@) && has_cycle(c@)
                && forall|k: int|
                0 <= k < c@.len() ==> from_candidates(self.spec_edges(), #[trigger] c@[k]),
    {
        let ghost es = self.spec_edges();
        let ghost vs = self.spec_vertices();
        let (_labels, first_loop) = self.scan_components();
        let t = match first_loop {
            None => {
                return None;
            },
            Some(t) => t,
        };
        let ghost prefix = es.subrange(0, t as int);
        let nv = self.vertices.len();
        let iu = self.index_of_vertex(&self.edges[t].from);
        let iv = self.index_of_vertex(&self.edges[t].to);
        let (visited, parent, depth_g) = self.bfs_parents(t, iu);
        let ghost depth = depth_g@;
        proof {
            // The flagged region holds everything connected to the
            // loop-closing edge's first endpoint, so its far endpoint is
            // flagged too.
            lemma_far_endpoint_flagged(es, vs, visited@, t as int, iu as int, iv as int);
        }
        // Walk the predecessor chain from the closing edge's far endpoint
        // back to its near one; depths strictly decrease, so the chain
        // repeats no vertex and must end at the root.
        let mut cycle: Vec<Edge> = Vec::new();
        cycle.push(Edge::new(
            self.edges[t].from.clone(),
            self.edges[t].to.clone(),
            self.edges[t].weight,
        ));
        let ghost mut p: Seq<Seq<char>> = seq![es[t as int].from@, es[t as int].to@];
        let ghost mut idxs: Seq<int> = seq![iv as int];
        proof {
            assert(edge_like(es[t as int], cycle@[0]));
            assert(from_candidates(es, cycle@[0]));
        }
        let mut cur = iv;
        while cur != iu
            invariant
                self.wf(),
                es == self.spec_edges(),
                vs == self.spec_vertices(),
                nv == vs.len(),
                t < es.len(),
                iu < nv,
                cur < nv,
                vs[iu as int] == es[t as int].from@,
                parents_ok(*self, t as int, iu as int, visited@, parent@, depth),
                visited@[cur as int],
                cycle@.len() >= 1,
                p.len() == cycle@.len() + 1,
                idxs.len() == cycle@.len(),
                p[0] == es[t as int].from@,
                p[1] == es[t as int].to@,
                edge_like(es[t as int], cycle@[0]),
                forall|k: int| 0 <= k < idxs.len() ==> 0 <= #[trigger] idxs[k] < nv,
                forall|k: int| 0 <= k < idxs.len() ==> p[k + 1] == vs[#[trigger] idxs[k]],
                idxs[idxs.len() - 1] == cur as int,
                forall|k: int| 0 <= k < idxs.len() - 1 ==> #[trigger] idxs[k] != iu as int,
                forall|k1: int, k2: int|
                    0 <= k1 < k2 < idxs.len() ==> depth[#[trigger] idxs[k2]] < depth[#[trigger] idxs[k1]],
                forall|k: int|
                    0 <= k < cycle@.len() ==> (((#[trigger] cycle@[k]).from@ == p[k] && cycle@[k].to@
                        == p[k + 1]) || (cycle@[k].from@ == p[k + 1] && cycle@[k].to@ == p[k])),
                prefix == es.subrange(0, t as int),
                forall|k: int| 1 <= k < cycle@.len() ==> from_candidates(prefix, #[trigger] cycle@[k]),
                forall|k: int| 0 <= k < cycle@.len() ==> from_candidates(es, #[trigger] cycle@[k]),
            decreases depth[cur as int],
        {
            match parent[cur] {
                Some(pe) => {
                    let e = &self.edges[pe.1];
                    cycle.push(Edge::new(e.from.clone(), e.to.clone(), e.weight));
                    proof {
                        let k = cycle@.len() - 1;
                        assert(edge_like(es[pe.1 as int], cycle@[k]));
                        assert(prefix[pe.1 as int] == es[pe.1 as int]);
                        assert(from_candidates(prefix, cycle@[k]));
                        assert(from_candidates(es, cycle@[k]));
                        p = p.push(vs[pe.0 as int]);
                        idxs = idxs.push(pe.0 as int);
                    }
                    cur = pe.0;
                },
                None => {
                    proof {
                        assert(false);
                    }
                },
            }
        }
        proof {
            // The chain closed at the root, so the collected edges are
            // exactly the edges of one simple cycle along `p`.
            assert(distinct_pairs(es));
            lemma_assemble_simple_cycle(es, vs, depth, t as int, iu as int, cycle@, p, idxs);
            assert(forms_simple_cycle(cycle@));
        }
        Some(cycle)
    }

    /// Breadth-first search among the edges before position `t`, from the
    /// root `iu`: flags every reachable vertex, records each reached
    /// vertex's predecessor and the edge used, tracks distances as ghost
    /// state, and leaves the flagged region closed under those edges.
    #[verifier::rlimit(100)]
    fn bfs_parents(&self, t: usize, iu: usize) -> (r: (
        Vec<bool>,
        Vec<Option<(usize, usize)>>,
        Ghost<Seq<int>>,
    ))
        requires
            self.wf(),
            t < self.spec_edges().len(),
            iu < self.spec_vertices().len(),
        ensures
            parents_ok(*self, t as int, iu as int, r.0@, r.1@, r.2@),
            forall|k: int|
                0 <= k < t ==> (label_visited(
                    self.spec_vertices(),
                    r.0@,
                    (#[trigger] self.spec_edges()[k]).from@,
                ) <==> label_visited(self.spec_vertices(), r.0@, self.spec_edges()[k].to@)),
    {
        let ghost es = self.spec_edges();
        let ghost vs = self.spec_vertices();
        let nv = self.vertices.len();
        let mut visited: Vec<bool> = Vec::new();
        let mut parent: Vec<Option<(usize, usize)>> = Vec::new();
        let mut z: usize = 0;
        while z < nv
            invariant
                z <= nv,
                visited@.len() == z,
                parent@.len() == z,
                forall|x: int| 0 <= x < z ==> (#[trigger] parent@[x]) is None,
                forall|x: int| 0 <= x < z ==> !(#[trigger] visited@[x]),
            decreases nv - z,
        {
            visited.push(false);
            parent.push(None);
            z += 1;
        }
        let ghost mut depth: Seq<int> = Seq::new(nv as nat, |x: int| 0);
        visited[iu] = true;
        let mut queue: Vec<usize> = Vec::new();
        queue.push(iu);
        let mut vc: usize = 1;
        let ghost mut vset: Set<int> = Set::empty().insert(iu as int);
        proof {
            broadcast use vstd::set::group_set_axioms;

            assert(vset.len() == 1);
            assert(queue@[0] == iu);
            assert forall|x: int| 0 <= x < nv && #[trigger] visited@[x] implies exists|q: int|
                0 <= q < queue@.len() && queue@[q] == x by {
                assert(x == iu as int);
                assert(queue@[0] == iu);
            }
            assert(bfs_state_ok(
                *self,
                t as int,
                iu as int,
                visited@,
                parent@,
                depth,
                queue@,
                vc as int,
                vset,
            ));
        }
        let mut qh: usize = 0;
        while qh < queue.len()
            invariant
                self.wf(),
                t < self.spec_edges().len(),
                iu < self.spec_vertices().len(),
                nv == self.spec_vertices().len(),
                qh <= queue@.len(),
                bfs_state_ok(
                    *self,
                    t as int,
                    iu as int,
                    visited@,
                    parent@,
                    depth,
                    queue@,
                    vc as int,
                    vset,
                ),
                bfs_processed(*self, t as int, visited@, queue@, qh as int),
            decreases nv - vc, queue@.len() - qh,
        {
            let v = queue[qh];
            qh += 1;
            let ghost queue_pre = queue@;
            let ghost vc_pre = vc;
            let (dg, vg) = self.bfs_expand(
                t,
                iu,
                v,
                qh,
                &mut visited,
                &mut parent,
                &mut queue,
                &mut vc,
                Ghost(depth),
                Ghost(vset),
            );
            proof {
                depth = dg@;
                vset = vg@;
            }
        }
        proof {
            // With the queue exhausted, the flagged region is closed under
            // the edges before `t`.
            reveal(label_visited);
            assert forall|k: int|
                0 <= k < t implies (label_visited(vs, visited@, (#[trigger] es[k]).from@)
                <==> label_visited(vs, visited@, es[k].to@)) by {
                if label_visited(vs, visited@, es[k].from@) {
                    let x = choose|x: int|
                        0 <= x < vs.len() && vs[x] == es[k].from@ && visited@[x];
                    let q = choose|q: int| 0 <= q < queue@.len() && queue@[q] == x;
                    assert(es[k].from@ == vs[queue@[q] as int]);
                    assert(label_visited(vs, visited@, es[k].to@));
                }
                if label_visited(vs, visited@, es[k].to@) {
                    let x = choose|x: int| 0 <= x < vs.len() && vs[x] == es[k].to@ && visited@[x];
                    let q = choose|q: int| 0 <= q < queue@.len() && queue@[q] == x;
                    assert(es[k].to@ == vs[queue@[q] as int]);
                    assert(label_visited(vs, visited@, es[k].from@));
                }
            }
        }
        (visited, parent, Ghost(depth))
    }

    /// Expand one dequeued vertex: scan the edges before `t` and flag,
    /// link and enqueue every unflagged neighbour.
    #[verifier::rlimit(100)]
    fn bfs_expand(
        &self,
        t: usize,
        iu: usize,
        v: usize,
        qh: usize,
        visited: &mut Vec<bool>,
        parent: &mut Vec<Option<(usize, usize)>>,
        queue: &mut Vec<usize>,
        vc: &mut usize,
        Ghost(depth0): Ghost<Seq<int>>,
        Ghost(vset0): Ghost<Set<int>>,
    ) -> (g2: (Ghost<Seq<int>>, Ghost<Set<int>>))
        requires
            self.wf(),
            t < self.spec_edges().len(),
            iu < self.spec_vertices().len(),
            v < self.spec_vertices().len(),
            1 <= qh <= old(queue)@.len(),
            v == old(queue)@[qh - 1],
            bfs_state_ok(
                *self,
                t as int,
                iu as int,
                old(visited)@,
                old(parent)@,
                depth0,
                old(queue)@,
                *old(vc) as int,
                vset0,
            ),
            bfs_processed(*self, t as int, old(visited)@, old(queue)@, qh as int - 1),
        ensures
            bfs_state_ok(
                *self,
                t as int,
                iu as int,
                final(visited)@,
                final(parent)@,
                g2.0@,
                final(queue)@,
                *final(vc) as int,
                g2.1@,
            ),
            bfs_processed(*self, t as int, final(visited)@, final(queue)@, qh as int),
            *final(vc) >= *old(vc),
            final(queue)@.len() >= old(queue)@.len(),
            forall|q: int| 0 <= q < old(queue)@.len() ==> final(queue)@[q] == old(queue)@[q],
    {
        let ghost es = self.spec_edges();
        let ghost vs = self.spec_vertices();
        let nv = self.vertices.len();
        let ghost mut depth = depth0;
        let ghost mut vset = vset0;
        let ghost vc0 = *vc as int;
        let mut e2: usize = 0;
        while e2 < t
            invariant
                self.wf(),
                es == self.spec_edges(),
                vs == self.spec_vertices(),
                nv == vs.len(),
                t < es.len(),
                iu < nv,
                v < nv,
                e2 <= t,
                vc0 <= *vc as int,
                1 <= qh <= queue@.len(),
                v == queue@[qh - 1],
                visited@[v as int],
                queue@.len() >= old(queue)@.len(),
                forall|q: int| 0 <= q < old(queue)@.len() ==> queue@[q] == old(queue)@[q],
                *vc >= *old(vc),
                bfs_state_ok(
                    *self,
                    t as int,
                    iu as int,
                    visited@,
                    parent@,
                    depth,
                    queue@,
                    *vc as int,
                    vset,
                ),
                bfs_processed(*self, t as int, visited@, queue@, qh as int - 1),
                forall|e3: int|
                    0 <= e3 < e2 && ((#[trigger] es[e3]).from@ == vs[v as int] || es[e3].to@
                        == vs[v as int]) ==> label_visited(vs, visited@, es[e3].from@)
                        && label_visited(vs, visited@, es[e3].to@),
            decreases t - e2,
        {
            let a = self.index_of_vertex(&self.edges[e2].from);
            let b = self.index_of_vertex(&self.edges[e2].to);
            let ghost visited_pre = visited@;
            if a == v && !visited[b] {
                proof {
                    broadcast use vstd::set::group_set_axioms;

                    assert(!vset.contains(b as int));
                    assert(vset.insert(b as int).subset_of(
                        vstd::set_lib::set_int_range(0, nv as int),
                    ));
                    vstd::set_lib::lemma_int_range(0, nv as int);
                    vstd::set_lib::lemma_len_subset(
                        vset.insert(b as int),
                        vstd::set_lib::set_int_range(0, nv as int),
                    );
                    assert(vset.insert(b as int).len() == *vc + 1);
                }
                let ghost queue_pre = queue@;
                visited[b] = true;
                parent[b] = Some((v, e2));
                queue.push(b);
                *vc += 1;
                proof {
                    broadcast use vstd::set::group_set_axioms;

                    depth = depth.update(b as int, depth[v as int] + 1);
                    vset = vset.insert(b as int);
                    assert forall|x: int|
                        0 <= x < nv && #[trigger] visited@[x] implies exists|q: int|
                        0 <= q < queue@.len() && queue@[q] == x by {
                        if x == b as int {
                            assert(queue@[queue@.len() - 1] == b);
                        } else {
                            assert(visited_pre[x]);
                            let q = choose|q: int| 0 <= q < queue_pre.len() && queue_pre[q] == x;
                            assert(queue@[q] == x);
                        }
                    }
                }
            } else if b == v && !visited[a] {
                proof {
                    broadcast use vstd::set::group_set_axioms;

                    assert(!vset.contains(a as int));
                    assert(vset.insert(a as int).subset_of(
                        vstd::set_lib::set_int_range(0, nv as int),
                    ));
                    vstd::set_lib::lemma_int_range(0, nv as int);
                    vstd::set_lib::lemma_len_subset(
                        vset.insert(a as int),
                        vstd::set_lib::set_int_range(0, nv as int),
                    );
                    assert(vset.insert(a as int).len() == *vc + 1);
                }
                let ghost queue_pre = queue@;
                visited[a] = true;
                parent[a] = Some((v, e2));
                queue.push(a);
                *vc += 1;
                proof {
                    broadcast use vstd::set::group_set_axioms;

                    depth = depth.update(a as int, depth[v as int] + 1);
                    vset = vset.insert(a as int);
                    assert forall|x: int|
                        0 <= x < nv && #[trigger] visited@[x] implies exists|q: int|
                        0 <= q < queue@.len() && queue@[q] == x by {
                        if x == a as int {
                            assert(queue@[queue@.len() - 1] == a);
                        } else {
                            assert(visited_pre[x]);
                            let q = choose|q: int| 0 <= q < queue_pre.len() && queue_pre[q] == x;
                            assert(queue@[q] == x);
                        }
                    }
                }
            }
            proof {
                reveal(label_visited);
                // Flags only gain, so earlier visited labels stay visited.
                assert forall|l: Seq<char>|
                    label_visited(vs, visited_pre, l) implies label_visited(vs, visited@, l) by {
                    let x = choose|x: int| 0 <= x < vs.len() && vs[x] == l && visited_pre[x];
                    assert(visited@[x]);
                }
                // The edge just scanned has both ends visited when it
                // touches the vertex being expanded.
                if es[e2 as int].from@ == vs[v as int] || es[e2 as int].to@ == vs[v as int] {
                    assert(vs[a as int] == es[e2 as int].from@);
                    assert(vs[b as int] == es[e2 as int].to@);
                    if es[e2 as int].from@ == vs[v as int] {
                        assert(a == v);
                    } else {
                        assert(b == v);
                    }
                    assert(visited@[a as int] && visited@[b as int]);
                    assert(label_visited(vs, visited@, es[e2 as int].from@));
                    assert(label_visited(vs, visited@, es[e2 as int].to@));
                }
            }
            e2 += 1;
        }
        proof {
            reveal(label_visited);
            // The vertex just expanded joins the processed region: every
            // incident earlier edge now has both ends flagged.
            assert forall|q: int, e3: int|
                #![trigger queue@[q], es[e3]]
                0 <= q < qh && 0 <= e3 < t && (es[e3].from@ == vs[queue@[q] as int] || es[e3].to@
                    == vs[queue@[q] as int]) implies label_visited(vs, visited@, es[e3].from@)
                && label_visited(vs, visited@, es[e3].to@) by {
                if q == qh - 1 {
                    assert(queue@[q] == v);
                }
            }
        }
        (Ghost(depth), Ghost(vset))
    }


    /// Remove the edge added last; used to roll back an addition that
    /// closed a loop.
    fn pop_edge(&mut self)
        requires
            old(self).wf(),
            old(self).spec_edges().len() > 0,
        ensures
            final(self).wf(),
            final(self).spec_vertices() == old(self).spec_vertices(),
            final(self).spec_seed() == old(self).spec_seed(),
            final(self).spec_edges() == old(self).spec_edges().drop_last(),
    {
        self.edges.pop();
        proof {
            assert(final(self).spec_edges() =~= old(self).spec_edges().drop_last());
            assert(final(self).spec_vertices() =~= old(self).spec_vertices());
            let es = final(self).spec_edges();
            assert forall|k: int, l: int| 0 <= k < l < es.len() implies !same_pair(es[k], es[l]) by {
                assert(es[k] == old(self).spec_edges()[k]);
                assert(es[l] == old(self).spec_edges()[l]);
                assert(!same_pair(old(self).spec_edges()[k], old(self).spec_edges()[l]));
            }
            assert forall|k: int| 0 <= k < es.len() implies final(self).spec_has_vertex(
                (#[trigger] es[k]).from@,
            ) && final(self).spec_has_vertex(es[k].to@) by {
                assert(es[k] == old(self).spec_edges()[k]);
                assert(old(self).spec_has_vertex(es[k].from@));
                assert(old(self).spec_has_vertex(es[k].to@));
            }
        }
    }

    /// Add a batch of edges, in order.  The batch stops at the first
    /// element that joins the same (undirected) pair of labels as an edge
    /// already present or as an earlier element of the batch: that element
    /// is refused, and the elements before it stay added.
    pub fn add_edges(&mut self, edges: Vec<Edge>) -> (r: Result<(), Error>)
        requires
            old(self).wf(),
            endpoints_in(*old(self), edges@),
        ensures
            final(self).wf(),
            final(self).spec_vertices() == old(self).spec_vertices(),
            final(self).spec_seed() == old(self).spec_seed(),
            final(self).spec_edges().subrange(0, old(self).spec_edges().len() as int)
                == old(self).spec_edges(),
            (forall|t: int|
                0 <= t < edges@.len() ==> !batch_duplicate_at(
                    old(self).spec_edges(),
                    edges@,
                    t,
                )) <==> r == Ok::<(), Error>(()),
            r == Ok::<(), Error>(()) ==> {
                &&& final(self).spec_edges().len() == old(self).spec_edges().len() + edges@.len()
                &&& forall|t: int|
                    0 <= t < edges@.len() ==> edge_like(
                        #[trigger] edges@[t],
                        final(self).spec_edges()[old(self).spec_edges().len() + t],
                    )
            },
            r matches Err(e) ==> e == Error::DuplicateEdge && exists|t: int|
                {
                    &&& 0 <= t < edges@.len()
                    &&& #[trigger] batch_duplicate_at(old(self).spec_edges(), edges@, t)
                    &&& forall|u: int|
                        0 <= u < t ==> !batch_duplicate_at(old(self).spec_edges(), edges@, u)
                    &&& final(self).spec_edges().len() == old(self).spec_edges().len() + t
                    &&& forall|u: int|
                        0 <= u < t ==> edge_like(
                            #[trigger] edges@[u],
                            final(self).spec_edges()[old(self).spec_edges().len() + u],
                        )
                },
    {
        let n = edges.len();
        let ghost old_len = self.spec_edges().len();
        let mut i: usize = 0;
        while i < n
            invariant
                self.wf(),
                n == edges@.len(),
                i <= n,
                self.spec_vertices() == old(self).spec_vertices(),
                self.spec_seed() == old(self).spec_seed(),
                endpoints_in(*old(self), edges@),
                old_len == old(self).spec_edges().len(),
                self.spec_edges().len() == old_len + i,
                self.spec_edges().subrange(0, old_len as int) == old(self).spec_edges(),
                forall|u: int|
                    0 <= u < i ==> edge_like(
                        #[trigger] edges@[u],
                        self.spec_edges()[old_len + u],
                    ),
                forall|u: int|
                    0 <= u < i ==> !batch_duplicate_at(old(self).spec_edges(), edges@, u),
            decreases n - i,
        {
            let e = &edges[i];
            let ghost pre = self.spec_edges();
            let ghost mirror = old(self).spec_edges() + edges@.subrange(0, i as int);
            proof {
                assert(mirror.len() == pre.len());
                assert forall|k: int|
                    0 <= k < pre.len() implies (#[trigger] pre[k]).from@ == mirror[k].from@
                    && pre[k].to@ == mirror[k].to@ by {
                    if k < old_len {
                        assert(pre[k] == old(self).spec_edges()[k]);
                        assert(mirror[k] == old(self).spec_edges()[k]);
                    } else {
                        assert(mirror[k] == edges@[k - old_len]);
                        assert(edge_like(edges@[k - old_len], pre[k]));
                    }
                }
                lemma_edge_between_congruent(pre, mirror, edges@[i as int].from@, edges@[i as int].to@);
            }
            if self.contains_edge(&e.from, &e.to) {
                proof {
                    assert(batch_duplicate_at(old(self).spec_edges(), edges@, i as int));
                }
                return Err(Error::DuplicateEdge);
            }
            proof {
                assert(!batch_duplicate_at(old(self).spec_edges(), edges@, i as int));
            }
            let res = self.add_edge(e.from.clone(), e.to.clone(), e.weight);
            proof {
                assert(res is Ok);
                assert(self.spec_edges().subrange(0, old_len as int) =~= pre.subrange(
                    0,
                    old_len as int,
                ));
                assert(edge_like(edges@[i as int], self.spec_edges().last()));
                assert forall|u: int|
                    0 <= u < i + 1 implies edge_like(
                    #[trigger] edges@[u],
                    self.spec_edges()[old_len + u],
                ) by {
                    if u < i {
                        assert(self.spec_edges()[old_len + u] == pre[old_len + u]);
                    }
                }
            }
            i += 1;
        }
        Ok(())
    }


    /// Repair a disconnected forest toward a spanning tree: shuffle the
    /// candidate edges with the stored seed, sort them ascending by
    /// weight, and greedily add each candidate that is not already present
    /// and does not close a loop, until `k` edges have been added or the
    /// candidates run out.  On success the graph gained exactly `k` edges
    /// and is still a forest; every added edge came from the candidates.
    pub fn k_edge_augmentation(&mut self, k: usize, edges: Vec<Edge>) -> (r: Result<(), Error>)
        requires
            old(self).wf(),
            k >= 1,
            endpoints_in(*old(self), edges@),
        ensures
            final(self).wf(),
            final(self).spec_vertices() == old(self).spec_vertices(),
            final(self).spec_seed() == old(self).spec_seed(),
            old(self).spec_connected_graph() ==> r == Err::<(), Error>(Error::AlreadyConnected)
                && *final(self) == *old(self),
            !old(self).spec_connected_graph() && !is_forest(old(self).spec_edges()) ==> r
                == Err::<(), Error>(Error::ContainsCycle) && *final(self) == *old(self),
            !old(self).spec_connected_graph() && is_forest(old(self).spec_edges()) ==> {
                &&& (r == Ok::<(), Error>(()) || r == Err::<(), Error>(Error::InsufficientEdges))
                &&& is_forest(final(self).spec_edges())
                &&& final(self).spec_edges().subrange(0, old(self).spec_edges().len() as int)
                    == old(self).spec_edges()
                &&& forall|i: int|
                    old(self).spec_edges().len() <= i < final(self).spec_edges().len()
                        ==> from_candidates(edges@, #[trigger] final(self).spec_edges()[i])
                &&& r == Ok::<(), Error>(()) ==> final(self).spec_edges().len()
                    == old(self).spec_edges().len() + k
                &&& r == Err::<(), Error>(Error::InsufficientEdges)
                    ==> final(self).spec_edges().len() < old(self).spec_edges().len() + k
                &&& r == Err::<(), Error>(Error::InsufficientEdges) ==> all_candidates_connected(
                    final(self).spec_edges(),
                    edges@,
                )
            },
    {
        if self.is_connected() {
            return Err(Error::AlreadyConnected);
        }
        if self.is_cyclic() {
            return Err(Error::ContainsCycle);
        }
        let ghost cand0 = edges@;
        let mut cand = edges;
        shuffle_with_seed(&mut cand, self.seed());
        proof {
            broadcast use vstd::seq_lib::group_to_multiset_ensures;

            assert forall|i: int| 0 <= i < cand@.len() implies value_among(
                cand0,
                #[trigger] cand@[i],
            ) by {
                let x = cand@[i];
                assert(cand@.contains(x));
                assert(cand@.to_multiset().count(x) > 0);
                assert(cand0.to_multiset().count(x) > 0);
                assert(cand0.contains(x));
                let w = choose|w: int| 0 <= w < cand0.len() && cand0[w] == x;
                assert(0 <= w < cand0.len() && cand0[w] == x);
            }
        }
        let ghost cand1 = cand@;
        let cand = sort_edges_by_weight(cand);
        proof {
            broadcast use vstd::seq_lib::group_to_multiset_ensures;

            assert forall|i: int| 0 <= i < cand@.len() implies value_among(
                cand0,
                #[trigger] cand@[i],
            ) by {
                let x = cand@[i];
                assert(cand@.contains(x));
                assert(cand@.to_multiset().count(x) > 0);
                assert(cand1.to_multiset().count(x) > 0);
                assert(cand1.contains(x));
                let w = choose|w: int| 0 <= w < cand1.len() && cand1[w] == x;
                assert(value_among(cand0, cand1[w]));
            }
        }
        let n = cand.len();
        let mut remaining: usize = k;
        let mut idx: usize = 0;
        while idx < n && remaining > 0
            invariant
                self.wf(),
                self.spec_vertices() == old(self).spec_vertices(),
                self.spec_seed() == old(self).spec_seed(),
                endpoints_in(*old(self), cand0),
                n == cand@.len(),
                idx <= n,
                remaining <= k,
                is_forest(self.spec_edges()),
                self.spec_edges().len() == old(self).spec_edges().len() + (k - remaining),
                self.spec_edges().subrange(0, old(self).spec_edges().len() as int)
                    == old(self).spec_edges(),
                forall|i: int| 0 <= i < cand@.len() ==> value_among(cand0, #[trigger] cand@[i]),
                forall|i: int|
                    old(self).spec_edges().len() <= i < self.spec_edges().len()
                        ==> from_candidates(cand0, #[trigger] self.spec_edges()[i]),
                candidates_connected_below(self.spec_edges(), cand@, idx as int),
            decreases n - idx,
        {
            let e = &cand[idx];
            proof {
                assert(value_among(cand0, cand@[idx as int]));
                let c = choose|c: int| 0 <= c < cand0.len() && cand0[c] == cand@[idx as int];
                assert(old(self).spec_has_vertex(cand0[c].from@));
                assert(old(self).spec_has_vertex(cand0[c].to@));
                assert(self.spec_has_vertex(cand@[idx as int].from@));
                assert(self.spec_has_vertex(cand@[idx as int].to@));
            }
            if !self.contains_edge(&e.from, &e.to) {
                let ghost pre = self.spec_edges();
                let res = self.add_edge(e.from.clone(), e.to.clone(), e.weight);
                proof {
                    assert(res is Ok);
                }
                if self.is_cyclic() {
                    self.pop_edge();
                    proof {
                        assert(self.spec_edges() =~= pre);
                        // The addition closed a loop, so the candidate's
                        // labels were already connected.
                        assert(candidates_connected_below(self.spec_edges(), cand@, idx as int
                            + 1)) by {
                            let ef = cand@[idx as int].from@;
                            let et = cand@[idx as int].to@;
                            if ef == et {
                                lemma_connected_refl(self.spec_edges(), ef);
                            } else {
                                assert(connected(self.spec_edges(), ef, et));
                            }
                            assert forall|c: int|
                                0 <= c < idx as int + 1 implies connected(
                                self.spec_edges(),
                                (#[trigger] cand@[c]).from@,
                                cand@[c].to@,
                            ) by {
                            }
                        }
                    }
                } else {
                    remaining -= 1;
                    proof {
                        assert(self.spec_edges().subrange(
                            0,
                            old(self).spec_edges().len() as int,
                        ) =~= pre.subrange(0, old(self).spec_edges().len() as int));
                        assert(edge_like(cand@[idx as int], self.spec_edges().last()));
                        assert forall|i: int|
                            old(self).spec_edges().len() <= i < self.spec_edges().len() implies
                            from_candidates(cand0, #[trigger] self.spec_edges()[i]) by {
                            if i < self.spec_edges().len() - 1 {
                                assert(self.spec_edges()[i] == pre[i]);
                                assert(from_candidates(cand0, pre[i]));
                            } else {
                                let c = choose|c: int|
                                    0 <= c < cand0.len() && cand0[c] == cand@[idx as int];
                                assert(edge_like(cand0[c], self.spec_edges()[i]));
                            }
                        }
                        // Earlier candidates stay connected over the grown
                        // edge list, and the new edge connects this one.
                        assert(candidates_connected_below(self.spec_edges(), cand@, idx as int
                            + 1)) by {
                            assert forall|c: int|
                                0 <= c < idx as int + 1 implies connected(
                                self.spec_edges(),
                                (#[trigger] cand@[c]).from@,
                                cand@[c].to@,
                            ) by {
                                if c < idx as int {
                                    assert(connected(pre, cand@[c].from@, cand@[c].to@));
                                    lemma_connected_prefix(
                                        pre,
                                        self.spec_edges(),
                                        cand@[c].from@,
                                        cand@[c].to@,
                                    );
                                } else {
                                    let last = self.spec_edges().len() - 1;
                                    assert(self.spec_edges()[last].from@ == cand@[c].from@
                                        && self.spec_edges()[last].to@ == cand@[c].to@);
                                    assert(edge_between(
                                        self.spec_edges(),
                                        cand@[c].from@,
                                        cand@[c].to@,
                                    ));
                                    lemma_connected_step(
                                        self.spec_edges(),
                                        cand@[c].from@,
                                        cand@[c].to@,
                                    );
                                }
                            }
                        }
                    }
                }
            } else {
                proof {
                    // The candidate's pair is already an edge, so its
                    // labels are connected.
                    assert(edge_between(self.spec_edges(), cand@[idx as int].from@, cand@[
                        idx as int].to@));
                    lemma_connected_step(
                        self.spec_edges(),
                        cand@[idx as int].from@,
                        cand@[idx as int].to@,
                    );
                    assert(candidates_connected_below(self.spec_edges(), cand@, idx as int + 1));
                }
            }
            idx += 1;
        }
        proof {
            assert forall|i: int|
                old(self).spec_edges().len() <= i < self.spec_edges().len() implies
                from_candidates(cand0, #[trigger] self.spec_edges()[i]) by {
            }
        }
        if remaining > 0 {
            proof {
                broadcast use vstd::seq_lib::group_to_multiset_ensures;

                // The loop ran out of candidates: every candidate's labels
                // are connected in the graph as it stands.
                assert(idx == n);
                assert forall|c: int|
                    0 <= c < cand0.len() implies connected(
                    self.spec_edges(),
                    (#[trigger] cand0[c]).from@,
                    cand0[c].to@,
                ) by {
                    let x = cand0[c];
                    assert(cand0.contains(x));
                    assert(cand0.to_multiset().count(x) > 0);
                    assert(cand1.to_multiset().count(x) > 0);
                    assert(cand@.to_multiset().count(x) > 0);
                    assert(cand@.contains(x));
                    let w = choose|w: int| 0 <= w < cand@.len() && cand@[w] == x;
                    assert(connected(self.spec_edges(), cand@[w].from@, cand@[w].to@));
                }
                assert(all_candidates_connected(self.spec_edges(), cand0));
            }
            return Err(Error::InsufficientEdges);
        }
        Ok(())
    }


    /// The stored seed.
    pub fn seed(&self) -> (r: u64)
        ensures
            r == self.spec_seed(),
    {
        self.seed
    }

    /// Connected and free of cycles: a spanning tree over its vertices,
    /// which therefore holds exactly one edge fewer than it has vertices.
    pub fn is_tree(&self) -> (r: bool)
        requires
            self.wf(),
        ensures
            r == self.spec_is_tree(),
            r == (self.spec_connected_graph() && !has_cycle(self.spec_edges())),
            r ==> self.spec_edges().len() + 1 == self.spec_vertices().len(),
    {
        let n = self.vertices.len();
        if n == 0 {
            return false;
        }
        let (labels, first_loop) = self.scan_components();
        if first_loop.is_some() {
            proof {
                assert(distinct_pairs(self.spec_edges()));
                lemma_unforest_has_cycle(self.spec_edges());
            }
            return false;
        }
        let first = labels[0];
        let mut i: usize = 1;
        while i < n
            invariant
                self.wf(),
                n == self.spec_vertices().len(),
                labels@.len() == n,
                n > 0,
                first == labels@[0],
                1 <= i <= n,
                forall|x: int, y: int|
                    #![trigger labels@[x], labels@[y]]
                    0 <= x < n && 0 <= y < n ==> ((labels@[x] == labels@[y]) <==> connected(
                        self.spec_edges(),
                        self.spec_vertices()[x],
                        self.spec_vertices()[y],
                    )),
                forall|k: int|
                    0 <= k < i ==> connected(
                        self.spec_edges(),
                        self.spec_vertices()[0],
                        #[trigger] self.spec_vertices()[k],
                    ),
                forall|k: int| 0 <= k < i ==> #[trigger] labels@[k] == labels@[0],
            decreases n - i,
        {
            if labels[i] != first {
                proof {
                    assert(!connected(
                        self.spec_edges(),
                        self.spec_vertices()[0],
                        self.spec_vertices()[i as int],
                    ));
                }
                return false;
            }
            i += 1;
        }
        proof {
            assert(self.spec_connected_graph());
            assert(self.spec_edges().len() + 1 == self.spec_vertices().len());
            assert(distinct_pairs(self.spec_edges()));
            lemma_forest_no_cycle(self.spec_edges());
        }
        true
    }
}

/// The edges join the same labels in the same direction with equal weight.
pub open spec fn edge_like(a: Edge, b: Edge) -> bool {
    a.from@ == b.from@ && a.to@ == b.to@ && a.weight == b.weight
}

/// Every one of the first `upto` candidates joins two labels that the
/// edges already connect.
pub open spec fn candidates_connected_below(es: Seq<Edge>, cands: Seq<Edge>, upto: int) -> bool {
    forall|c: int|
        0 <= c < upto ==> connected(es, (#[trigger] cands[c]).from@, cands[c].to@)
}

/// Every candidate joins two labels that the edges already connect.
pub open spec fn all_candidates_connected(es: Seq<Edge>, cands: Seq<Edge>) -> bool {
    forall|c: int|
        0 <= c < cands.len() ==> connected(es, (#[trigger] cands[c]).from@, cands[c].to@)
}

/// A connection survives extending the edge list at its end.
pub proof fn lemma_connected_prefix(es: Seq<Edge>, es2: Seq<Edge>, a: Seq<char>, b: Seq<char>)
    requires
        es.len() <= es2.len(),
        forall|k: int| 0 <= k < es.len() ==> es2[k] == es[k],
        connected(es, a, b),
    ensures
        connected(es2, a, b),
{
    let p = choose|p: Seq<Seq<char>>|
        #[trigger] is_path(es, p) && p.len() >= 1 && p[0] == a && p[p.len() - 1] == b;
    assert forall|k: int| 0 <= k < p.len() - 1 implies edge_between(
        es2,
        #[trigger] p[k],
        p[k + 1],
    ) by {
        let w = choose|w: int|
            0 <= w < es.len() && (((#[trigger] es[w]).from@ == p[k] && es[w].to@ == p[k + 1]) || (
            es[w].from@ == p[k + 1] && es[w].to@ == p[k]));
        assert(es2[w] == es[w]);
    }
    assert(is_path(es2, p));
}

/// Both labels of every candidate edge name vertices of `g`.
pub open spec fn endpoints_in(g: Graph, cands: Seq<Edge>) -> bool {
    forall|i: int|
        0 <= i < cands.len() ==> g.spec_has_vertex((#[trigger] cands[i]).from@)
            && g.spec_has_vertex(cands[i].to@)
}

/// Some candidate equals `e` as a value.
pub open spec fn value_among(cands: Seq<Edge>, e: Edge) -> bool {
    exists|c: int| 0 <= c < cands.len() && cands[c] == e
}

/// Some candidate joins the same labels as `e` with the same weight.
pub open spec fn from_candidates(cands: Seq<Edge>, e: Edge) -> bool {
    exists|c: int| 0 <= c < cands.len() && edge_like(#[trigger] cands[c], e)
}

/// The permutation that the seeded generator deals a list of edges: a
/// function of the contents and the seed alone, so equal-seed runs are
/// reproducible.
pub uninterp spec fn shuffled_of(contents: Seq<Edge>, seed: u64) -> Seq<Edge>;

/// Relies on rand::rngs::StdRng::seed_from_u64 and
/// rand::seq::SliceRandom::shuffle: a Fisher-Yates shuffle driven by a
/// generator seeded from `seed` alone permutes the slice in place, so its
/// contents as a multiset are unchanged and the outcome depends only on
/// the contents and the seed.
#[verifier::external_body]
fn shuffle_with_seed(edges: &mut Vec<Edge>, seed: u64)
    ensures
        final(edges)@ == shuffled_of(old(edges)@, seed),
        final(edges)@.len() == old(edges)@.len(),
        final(edges)@.to_multiset() == old(edges)@.to_multiset(),
{
    let mut rng = rand::rngs::StdRng::seed_from_u64(seed);
    edges.shuffle(&mut rng);
}

/// Sort candidate edges ascending by weight; the result holds exactly the
/// given edges.
fn sort_edges_by_weight(input: Vec<Edge>) -> (r: Vec<Edge>)
    ensures
        r@.len() == input@.len(),
        r@.to_multiset() == input@.to_multiset(),
        forall|a: int, b: int| 0 <= a < b < r@.len() ==> r@[a].weight <= r@[b].weight,
{
    let mut work = input;
    let mut out: Vec<Edge> = Vec::new();
    proof {
        broadcast use vstd::seq_lib::group_to_multiset_ensures;
        broadcast use vstd::multiset::group_multiset_axioms;

        assert(out@.to_multiset() =~= Multiset::<Edge>::empty());
        assert(out@.to_multiset().add(work@.to_multiset()) =~= input@.to_multiset());
    }
    while work.len() > 0
        invariant
            out@.to_multiset().add(work@.to_multiset()) == input@.to_multiset(),
            out@.len() + work@.len() == input@.len(),
            forall|a: int, b: int| 0 <= a < b < out@.len() ==> out@[a].weight <= out@[b].weight,
            forall|a: int, b: int|
                0 <= a < out@.len() && 0 <= b < work@.len() ==> out@[a].weight <= work@[b].weight,
        decreases work@.len(),
    {
        let mut jmin: usize = 0;
        let mut j: usize = 1;
        while j < work.len()
            invariant
                work@.len() > 0,
                jmin < work@.len(),
                j <= work@.len(),
                forall|t: int| 0 <= t < j ==> work@[jmin as int].weight <= work@[t].weight,
            decreases work@.len() - j,
        {
            if work[j].weight < work[jmin].weight {
                jmin = j;
            }
            j += 1;
        }
        let ghost out_old = out@;
        let ghost work_old = work@;
        let e = work.remove(jmin);
        out.push(e);
        proof {
            broadcast use vstd::seq_lib::group_to_multiset_ensures;
            broadcast use vstd::multiset::group_multiset_axioms;

            assert(work_old.contains(e)) by {
                assert(work_old[jmin as int] == e);
            }
            assert(work_old.to_multiset().count(e) > 0);
            assert(out@.to_multiset() =~= out_old.to_multiset().insert(e));
            assert(work@.to_multiset() =~= work_old.to_multiset().remove(e));
            assert(out@.to_multiset().add(work@.to_multiset()) =~= out_old.to_multiset().add(
                work_old.to_multiset(),
            ));
            assert forall|a: int, b: int|
                0 <= a < out@.len() && 0 <= b < work@.len() implies out@[a].weight
                <= work@[b].weight by {
                if b < jmin {
                    assert(work@[b] == work_old[b]);
                } else {
                    assert(work@[b] == work_old[b + 1]);
                }
            }
        }
    }
    proof {
        broadcast use vstd::multiset::group_multiset_axioms;
        broadcast use vstd::seq_lib::group_to_multiset_ensures;

        assert(out@.to_multiset().add(work@.to_multiset()) =~= out@.to_multiset());
        assert(out@.len() == out@.to_multiset().len());
        assert(input@.len() == input@.to_multiset().len());
    }
    out
}

/// Repairing a forest one edge at a time never leaves a cycle behind, so
/// the first moment the repair loop sees the graph connected, it holds a
/// spanning tree.
pub proof fn lemma_connected_forest_is_tree(g: Graph)
    requires
        g.spec_connected_graph(),
        is_forest(g.spec_edges()),
    ensures
        g.spec_is_tree(),
{
}

/// Relies on std::time::SystemTime: the seconds since the epoch, or zero
/// if the clock reads earlier than the epoch.  Nothing is promised of the
/// value.
#[verifier::external_body]
fn now_secs() -> u64 {
    std::time::SystemTime::now()
        .duration_since(std::time::UNIX_EPOCH)
        .map(|d| d.as_secs())
        .unwrap_or(0)
}

} // verus!
