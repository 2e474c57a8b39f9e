use graph_traversal::{dfs_recursive, Coverage, Graph, User, VisitedSet};

#[test]
fn add_edge_is_symmetric() {
    let mut g = Graph::new();
    g.add_edge(1, 2);
    assert_eq!(g.neighbors(1), vec![2]);
    assert_eq!(g.neighbors(2), vec![1]);
}

#[test]
fn add_edge_is_idempotent() {
    let mut g = Graph::new();
    g.add_edge(1, 2);
    g.add_edge(1, 2);
    g.add_edge(2, 1);
    assert_eq!(g.neighbors(1), vec![2]);
    assert_eq!(g.neighbors(2), vec![1]);
}

#[test]
fn self_loop_recorded_once() {
    let mut g = Graph::new();
    g.add_edge(7, 7);
    assert_eq!(g.neighbors(7), vec![7]);
}

#[test]
fn new_store_displays_nothing() {
    let g = Graph::new();
    assert!(g.display().is_empty());
}

#[test]
fn unknown_node_has_no_neighbors() {
    let g = Graph::new();
    assert_eq!(g.neighbors(42), Vec::<i32>::new());
}

#[test]
fn display_lists_every_node_once() {
    let mut g = Graph::new();
    g.add_edge(1, 2);
    g.add_edge(2, 3);
    let pairs = g.display();
    assert_eq!(pairs.len(), 3);
    for (node, neighbors) in &pairs {
        let expected = g.neighbors(*node);
        assert_eq!(neighbors, &expected);
    }
}

#[test]
fn recursive_traversal_visits_reachable_component() {
    let mut g = Graph::new();
    g.add_edge(1, 2);
    g.add_edge(2, 3);
    g.add_edge(4, 5);
    let visited = dfs_recursive(&g, 1);
    assert!(visited.is_visited(1));
    assert!(visited.is_visited(2));
    assert!(visited.is_visited(3));
    assert!(!visited.is_visited(4));
    assert!(!visited.is_visited(5));
}

#[test]
fn recursive_traversal_handles_cycle() {
    let mut g = Graph::new();
    g.add_edge(1, 2);
    g.add_edge(2, 1);
    let visited = dfs_recursive(&g, 1);
    assert!(visited.is_visited(1));
    assert!(visited.is_visited(2));
    assert!(!visited.is_visited(3));
}

#[test]
fn recursive_traversal_of_unknown_start() {
    let g = Graph::new();
    let visited = dfs_recursive(&g, 9);
    assert!(visited.is_visited(9));
    assert!(!visited.is_visited(1));
}

#[test]
fn visited_set_marks_monotonically() {
    let mut v = VisitedSet::new();
    assert!(!v.is_visited(5));
    v.mark(5);
    assert!(v.is_visited(5));
    v.mark(5);
    assert!(v.is_visited(5));
    assert!(!v.is_visited(6));
}

#[test]
fn shift_random_returns_a_listed_shift() {
    let coverage = Coverage {
        id: "c1".to_string(),
        staff_groups: vec!["nurses".to_string()],
        shift: vec!["early".to_string(), "late".to_string(), "night".to_string()],
        desire_value: 1,
        day: 3,
        day_type: "weekday".to_string(),
        priority: 2,
        penalty: 5,
        types: vec!["regular".to_string()],
    };
    for _ in 0..20 {
        let drawn = coverage.shift_random();
        assert!(coverage.shift.contains(&drawn));
    }
}

#[test]
fn user_record_roundtrips() {
    let u = User { id: 1, username: "ada".to_string(), password: "pw123".to_string() };
    let copy = u.clone();
    assert_eq!(u, copy);
    assert_eq!(copy.username, "ada");
}
