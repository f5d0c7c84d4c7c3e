use transportation::graph::Graph;
use transportation::matrix::Matrix;
use transportation::table::Table;
use transportation::Error;

fn grid(rows: &[&[i64]]) -> Matrix {
    Matrix::new(rows.iter().map(|r| r.to_vec()).collect())
}

fn sample_table() -> Table {
    // The worked example: 2 x 2, costs [[1,2],[3,4]], supply [5,5],
    // demand [6,4].
    Table::new(
        grid(&[&[1, 2], &[3, 4]]),
        Matrix::new_empty(2, 2),
        vec![5, 5],
        vec![6, 4],
    )
    .unwrap()
}

fn cell(m: &Matrix, i: usize, j: usize) -> i64 {
    m.get(i, j).unwrap()
}

#[test]
fn unbalanced_problem_is_refused() {
    let r = Table::new(
        grid(&[&[1, 2], &[3, 4]]),
        Matrix::new_empty(2, 2),
        vec![5, 5],
        vec![6, 5],
    );
    assert!(matches!(r, Err(Error::UnbalancedProblem)));
    let r = Table::new(
        grid(&[&[1]]),
        Matrix::new_empty(1, 1),
        vec![-3],
        vec![3],
    );
    assert!(matches!(r, Err(Error::UnbalancedProblem)));
}

#[test]
fn dimension_mismatch_is_refused() {
    let r = Table::new(
        grid(&[&[1, 2], &[3, 4]]),
        Matrix::new_empty(2, 2),
        vec![5, 5, 5],
        vec![6, 4],
    );
    assert!(matches!(r, Err(Error::DimensionMismatch)));
    let r = Table::new(
        grid(&[&[1, 2], &[3, 4]]),
        Matrix::new_empty(2, 3),
        vec![5, 5],
        vec![6, 4],
    );
    assert!(matches!(r, Err(Error::DimensionMismatch)));
}

#[test]
fn accessors_hand_back_the_problem() {
    let t = sample_table();
    assert_eq!(t.supply(), &vec![5, 5]);
    assert_eq!(t.demand(), &vec![6, 4]);
    assert_eq!(cell(t.costs(), 1, 0), 3);
    assert_eq!(cell(t.transport(), 0, 0), 0);
}

#[test]
fn north_west_corner_worked_example() {
    let mut t = sample_table();
    t.north_west_corner();
    assert_eq!(cell(t.transport(), 0, 0), 5);
    assert_eq!(cell(t.transport(), 0, 1), 0);
    assert_eq!(cell(t.transport(), 1, 0), 1);
    assert_eq!(cell(t.transport(), 1, 1), 4);
    assert_eq!(t.total_cost(), 24);
}

#[test]
fn north_west_corner_is_feasible() {
    let mut t = Table::new(
        grid(&[&[3, 1, 7], &[2, 6, 5], &[8, 3, 3]]),
        Matrix::new_empty(3, 3),
        vec![10, 25, 15],
        vec![20, 10, 20],
    )
    .unwrap();
    t.north_west_corner();
    for i in 0..3 {
        let row_sum: i64 = (0..3).map(|j| cell(t.transport(), i, j)).sum();
        assert_eq!(row_sum, t.supply()[i]);
    }
    for j in 0..3 {
        let col_sum: i64 = (0..3).map(|i| cell(t.transport(), i, j)).sum();
        assert_eq!(col_sum, t.demand()[j]);
    }
}

#[test]
fn north_west_corner_is_deterministic() {
    let mut a = sample_table();
    let mut b = sample_table();
    a.north_west_corner();
    b.north_west_corner();
    for i in 0..2 {
        for j in 0..2 {
            assert_eq!(cell(a.transport(), i, j), cell(b.transport(), i, j));
        }
    }
}

#[test]
fn graph_of_the_plan_names_rows_and_columns() {
    let mut t = sample_table();
    t.north_west_corner();
    let g = t.get_graph();
    let labels: Vec<&str> = g.vertices().iter().map(|s| s.as_str()).collect();
    assert_eq!(labels, vec!["S1", "S2", "D1", "D2"]);
    let es = g.edges();
    assert_eq!(es.len(), 3);
    // Row-major order of the nonzero cells.
    assert!(es[0].from == "S1" && es[0].to == "D1" && es[0].weight == 5);
    assert!(es[1].from == "S2" && es[1].to == "D1" && es[1].weight == 1);
    assert!(es[2].from == "S2" && es[2].to == "D2" && es[2].weight == 4);
}

#[test]
fn unused_edges_carry_costs() {
    let mut t = sample_table();
    t.north_west_corner();
    let unused = t.get_unused_edges();
    assert_eq!(unused.len(), 1);
    assert_eq!(unused[0].from, "S1");
    assert_eq!(unused[0].to, "D2");
    assert_eq!(unused[0].weight, 2);
}

#[test]
fn potentials_of_the_worked_example() {
    let mut t = sample_table();
    t.north_west_corner();
    let g = t.get_graph();
    assert!(g.is_tree());
    let (u, v) = t.potentials(&g).unwrap();
    assert_eq!(u, vec![0, 2]);
    assert_eq!(v, vec![-1, -2]);
    // Every tree edge satisfies u[i] - v[j] == cost[i][j].
    assert_eq!(u[0] - v[0], 1);
    assert_eq!(u[1] - v[0], 3);
    assert_eq!(u[1] - v[1], 4);
}

#[test]
fn marginal_cost_vanishes_on_tree_edges() {
    let mut t = sample_table();
    t.north_west_corner();
    let g = t.get_graph();
    let mc = t.marginal_cost(&g).unwrap();
    assert_eq!(cell(&mc, 0, 0), 0);
    assert_eq!(cell(&mc, 1, 0), 0);
    assert_eq!(cell(&mc, 1, 1), 0);
    // The unused cell's reduced cost here happens to vanish as well.
    assert_eq!(cell(&mc, 0, 1), 0);
    assert_eq!(mc.min(), Some(0));
    assert_eq!(mc.index_of(0), Some((0, 0)));
}

#[test]
fn potentials_reject_a_cyclic_graph() {
    let t = sample_table();
    let mut g = Graph::new_with_seed(5);
    for l in ["A", "B", "C"] {
        g.add_node(l.to_string()).unwrap();
    }
    g.add_edge("A".to_string(), "B".to_string(), 1).unwrap();
    g.add_edge("B".to_string(), "C".to_string(), 1).unwrap();
    g.add_edge("C".to_string(), "A".to_string(), 1).unwrap();
    assert!(g.is_connected());
    assert!(g.is_cyclic());
    assert_eq!(t.potentials(&g).map(|_| ()), Err(Error::NotATree));
    assert!(matches!(t.marginal_cost(&g), Err(Error::NotATree)));
}

#[test]
fn degenerate_plan_is_repaired_into_a_tree() {
    // Supply and demand exhaust together halfway, so the initial plan has
    // fewer than n + m - 1 occupied cells and its graph is disconnected.
    let mut t = Table::new(
        grid(&[&[1, 4], &[2, 3]]),
        Matrix::new_empty(2, 2),
        vec![5, 5],
        vec![5, 5],
    )
    .unwrap();
    t.north_west_corner();
    let mut g = t.get_graph();
    assert!(!g.is_connected());
    while !g.is_connected() {
        g.k_edge_augmentation(1, t.get_unused_edges()).unwrap();
    }
    assert!(g.is_tree());
    let (u, v) = t.potentials(&g).unwrap();
    assert_eq!(u.len(), 2);
    assert_eq!(v.len(), 2);
    assert_eq!(u[0], 0);
    // The tree equations hold on every edge of the repaired graph.
    for e in g.edges() {
        let i: usize = e.from[1..].parse::<usize>().unwrap() - 1;
        let j: usize = e.to[1..].parse::<usize>().unwrap() - 1;
        assert_eq!(u[i] - v[j], cell(t.costs(), i, j));
    }
    let mc = t.marginal_cost(&g).unwrap();
    for e in g.edges() {
        let i: usize = e.from[1..].parse::<usize>().unwrap() - 1;
        let j: usize = e.to[1..].parse::<usize>().unwrap() - 1;
        assert_eq!(cell(&mc, i, j), 0);
    }
}

#[test]
fn new_empty_is_balanced_and_zero() {
    let t = Table::new_empty(2, 3);
    assert_eq!(t.supply(), &vec![0, 0]);
    assert_eq!(t.demand(), &vec![0, 0, 0]);
    assert_eq!(cell(t.costs(), 1, 2), 0);
    assert_eq!(cell(t.transport(), 0, 0), 0);
    assert_eq!(t.total_cost(), 0);
}

#[test]
fn empty_problem_is_accepted() {
    let t = Table::new(
        Matrix::new_empty(0, 0),
        Matrix::new_empty(0, 0),
        Vec::new(),
        Vec::new(),
    );
    assert!(t.is_ok());
    let mut t = t.unwrap();
    t.north_west_corner();
    assert_eq!(t.total_cost(), 0);
}
