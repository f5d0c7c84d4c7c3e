use transportation::graph::{Edge, Graph};
use transportation::Error;

fn named(labels: &[&str], seed: u64) -> Graph {
    let mut g = Graph::new_with_seed(seed);
    for l in labels {
        g.add_node(l.to_string()).unwrap();
    }
    g
}

fn edge(a: &str, b: &str, w: i64) -> Edge {
    Edge::new(a.to_string(), b.to_string(), w)
}

fn same_undirected(e: &Edge, a: &str, b: &str) -> bool {
    (e.from == a && e.to == b) || (e.from == b && e.to == a)
}

#[test]
fn edge_equality_is_undirected() {
    assert!(edge("A", "B", 1) == edge("B", "A", 9));
    assert!(edge("A", "B", 1) == edge("A", "B", 2));
    assert!(edge("A", "B", 1) != edge("A", "C", 1));
}

#[test]
fn duplicate_vertex_is_refused() {
    let mut g = named(&["A"], 1);
    assert_eq!(g.add_node("A".to_string()), Err(Error::DuplicateVertex));
    assert_eq!(g.vertices().len(), 1);
}

#[test]
fn duplicate_edge_is_refused_in_either_direction() {
    let mut g = named(&["A", "B"], 1);
    g.add_edge("A".to_string(), "B".to_string(), 3).unwrap();
    assert_eq!(
        g.add_edge("A".to_string(), "B".to_string(), 5),
        Err(Error::DuplicateEdge)
    );
    assert_eq!(
        g.add_edge("B".to_string(), "A".to_string(), 5),
        Err(Error::DuplicateEdge)
    );
    assert_eq!(g.edges().len(), 1);
}

#[test]
fn add_edges_appends_the_batch_in_order() {
    let mut g = named(&["A", "B", "C"], 1);
    g.add_edge("A".to_string(), "B".to_string(), 1).unwrap();
    let batch = vec![edge("B", "C", 2), edge("A", "C", 3)];
    assert_eq!(g.add_edges(batch), Ok(()));
    let es = g.edges();
    assert_eq!(es.len(), 3);
    assert_eq!((es[1].from.as_str(), es[1].to.as_str(), es[1].weight), ("B", "C", 2));
    assert_eq!((es[2].from.as_str(), es[2].to.as_str(), es[2].weight), ("A", "C", 3));
}

#[test]
fn add_edges_stops_at_first_duplicate() {
    let mut g = named(&["A", "B", "C"], 1);
    let batch = vec![edge("A", "B", 1), edge("B", "A", 2), edge("B", "C", 3)];
    assert_eq!(g.add_edges(batch), Err(Error::DuplicateEdge));
    assert_eq!(g.edges().len(), 1);
}

#[test]
fn connectivity_of_small_graphs() {
    let g = named(&[], 1);
    assert!(!g.is_connected());
    let g = named(&["A"], 1);
    assert!(g.is_connected());
    let mut g = named(&["A", "B", "C"], 1);
    g.add_edge("A".to_string(), "B".to_string(), 1).unwrap();
    assert!(!g.is_connected());
    g.add_edge("B".to_string(), "C".to_string(), 1).unwrap();
    assert!(g.is_connected());
}

#[test]
fn cycle_detection() {
    let mut g = named(&["A", "B", "C"], 1);
    g.add_edge("A".to_string(), "B".to_string(), 1).unwrap();
    g.add_edge("B".to_string(), "C".to_string(), 1).unwrap();
    assert!(!g.is_cyclic());
    assert!(g.is_tree());
    g.add_edge("C".to_string(), "A".to_string(), 1).unwrap();
    assert!(g.is_cyclic());
    assert!(!g.is_tree());
}

#[test]
fn self_loop_is_a_cycle() {
    let mut g = named(&["A"], 1);
    g.add_edge("A".to_string(), "A".to_string(), 1).unwrap();
    assert!(g.is_cyclic());
}

#[test]
fn find_cycle_reports_one_cycle() {
    let mut g = named(&["A", "B", "C"], 1);
    g.add_edge("A".to_string(), "B".to_string(), 1).unwrap();
    g.add_edge("B".to_string(), "C".to_string(), 1).unwrap();
    assert!(g.find_cycle().is_none());
    g.add_edge("C".to_string(), "A".to_string(), 1).unwrap();
    let cycle = g.find_cycle().expect("a triangle holds a cycle");
    assert!(cycle.len() >= 3);
    for e in &cycle {
        assert!(g
            .edges()
            .iter()
            .any(|ge| same_undirected(ge, &e.from, &e.to) && ge.weight == e.weight));
    }
    // The returned edges really close a loop: rebuilt as a graph of their
    // own, they are cyclic.
    let mut check = Graph::new_with_seed(0);
    for e in &cycle {
        if !check.vertices().iter().any(|v| v == &e.from) {
            check.add_node(e.from.clone()).unwrap();
        }
        if !check.vertices().iter().any(|v| v == &e.to) {
            check.add_node(e.to.clone()).unwrap();
        }
        check
            .add_edge(e.from.clone(), e.to.clone(), e.weight)
            .unwrap();
    }
    assert!(check.is_cyclic());
}

#[test]
fn augmentation_rejects_connected_and_cyclic_graphs() {
    let mut g = named(&["A", "B"], 1);
    g.add_edge("A".to_string(), "B".to_string(), 1).unwrap();
    assert_eq!(
        g.k_edge_augmentation(1, vec![edge("A", "B", 1)]),
        Err(Error::AlreadyConnected)
    );
    let mut g = named(&["A", "B", "C", "D"], 1);
    g.add_edge("A".to_string(), "B".to_string(), 1).unwrap();
    g.add_edge("B".to_string(), "C".to_string(), 1).unwrap();
    g.add_edge("C".to_string(), "A".to_string(), 1).unwrap();
    assert_eq!(
        g.k_edge_augmentation(1, vec![edge("C", "D", 1)]),
        Err(Error::ContainsCycle)
    );
}

#[test]
fn augmentation_reports_insufficient_edges() {
    let mut g = named(&["A", "B", "C"], 7);
    assert_eq!(
        g.k_edge_augmentation(2, vec![edge("A", "B", 1)]),
        Err(Error::InsufficientEdges)
    );
}

#[test]
fn three_vertices_two_candidate_edges_always_succeed() {
    // Whatever the seed shuffles, two of the three candidates always fit
    // without closing a loop: a tree on three vertices has two edges.
    for seed in 0..16u64 {
        let mut g = named(&["A", "B", "C"], seed);
        let cands = vec![edge("A", "B", 1), edge("B", "C", 2), edge("A", "C", 3)];
        assert_eq!(g.k_edge_augmentation(2, cands), Ok(()));
        assert_eq!(g.edges().len(), 2);
        assert!(g.is_connected());
        assert!(!g.is_cyclic());
        assert!(g.is_tree());
    }
}

#[test]
fn augmentation_never_duplicates_edges() {
    for seed in 0..8u64 {
        let mut g = named(&["A", "B", "C", "D"], seed);
        g.add_edge("A".to_string(), "B".to_string(), 1).unwrap();
        let cands = vec![
            edge("A", "B", 1),
            edge("B", "A", 9),
            edge("B", "C", 2),
            edge("C", "D", 3),
            edge("A", "C", 4),
            edge("B", "D", 5),
        ];
        assert_eq!(g.k_edge_augmentation(2, cands), Ok(()));
        let es = g.edges();
        assert_eq!(es.len(), 3);
        for i in 0..es.len() {
            for j in (i + 1)..es.len() {
                assert!(!same_undirected(&es[i], &es[j].from, &es[j].to));
            }
        }
        assert!(!g.is_cyclic());
    }
}

#[test]
fn augmentation_is_reproducible_for_a_fixed_seed() {
    let run = |seed: u64| -> Vec<(String, String, i64)> {
        let mut g = named(&["A", "B", "C", "D", "E"], seed);
        let cands = vec![
            edge("A", "B", 2),
            edge("B", "C", 2),
            edge("C", "D", 2),
            edge("D", "E", 2),
            edge("A", "C", 2),
            edge("B", "D", 2),
        ];
        g.k_edge_augmentation(4, cands).unwrap();
        g.edges()
            .iter()
            .map(|e| (e.from.clone(), e.to.clone(), e.weight))
            .collect()
    };
    assert_eq!(run(42), run(42));
}

#[test]
fn update_seed_keeps_the_graph() {
    let mut g = named(&["A", "B"], 3);
    g.add_edge("A".to_string(), "B".to_string(), 1).unwrap();
    g.update_seed();
    assert_eq!(g.vertices().len(), 2);
    assert_eq!(g.edges().len(), 1);
}
