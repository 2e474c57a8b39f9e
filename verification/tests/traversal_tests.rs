use graph_traversal::{dfs, Adjacency};

fn s(x: &str) -> String {
    x.to_string()
}

fn entry(adj: &mut Adjacency, node: &str, neighbors: &[&str]) {
    let ns: Vec<String> = neighbors.iter().map(|n| s(n)).collect();
    adj.insert(s(node), ns);
}

#[test]
fn branching_graph_left_to_right_order() {
    let mut adj = Adjacency::new();
    entry(&mut adj, "A", &["B", "C"]);
    entry(&mut adj, "B", &["D"]);
    entry(&mut adj, "C", &[]);
    entry(&mut adj, "D", &[]);
    let result = dfs(&adj, &s("A"));
    assert_eq!(result, vec![s("A"), s("B"), s("D"), s("C")]);
}

#[test]
fn cycle_terminates() {
    let mut adj = Adjacency::new();
    entry(&mut adj, "A", &["B"]);
    entry(&mut adj, "B", &["A"]);
    let result = dfs(&adj, &s("A"));
    assert_eq!(result, vec![s("A"), s("B")]);
}

#[test]
fn empty_mapping_yields_start_alone() {
    let adj = Adjacency::new();
    let result = dfs(&adj, &s("X"));
    assert_eq!(result, vec![s("X")]);
}

#[test]
fn self_loop_yields_start_alone() {
    let mut adj = Adjacency::new();
    entry(&mut adj, "A", &["A"]);
    let result = dfs(&adj, &s("A"));
    assert_eq!(result, vec![s("A")]);
}

#[test]
fn isolated_start_with_entry() {
    let mut adj = Adjacency::new();
    entry(&mut adj, "A", &[]);
    entry(&mut adj, "B", &["A"]);
    let result = dfs(&adj, &s("A"));
    assert_eq!(result, vec![s("A")]);
}

#[test]
fn unreachable_nodes_excluded() {
    let mut adj = Adjacency::new();
    entry(&mut adj, "A", &["B"]);
    entry(&mut adj, "B", &[]);
    entry(&mut adj, "C", &["D"]);
    entry(&mut adj, "D", &[]);
    let result = dfs(&adj, &s("A"));
    assert_eq!(result, vec![s("A"), s("B")]);
    assert!(!result.contains(&s("C")));
    assert!(!result.contains(&s("D")));
}

#[test]
fn completeness_all_reachable_once() {
    let mut adj = Adjacency::new();
    entry(&mut adj, "A", &["B", "C"]);
    entry(&mut adj, "B", &["C", "A"]);
    entry(&mut adj, "C", &["A"]);
    let result = dfs(&adj, &s("A"));
    for node in ["A", "B", "C"] {
        assert_eq!(result.iter().filter(|r| **r == s(node)).count(), 1);
    }
    assert_eq!(result.len(), 3);
}

#[test]
fn duplicate_neighbors_revisit_is_noop() {
    let mut adj = Adjacency::new();
    entry(&mut adj, "A", &["B", "B"]);
    entry(&mut adj, "B", &[]);
    let result = dfs(&adj, &s("A"));
    assert_eq!(result, vec![s("A"), s("B")]);
}

#[test]
fn neighbor_absent_from_mapping_is_leaf() {
    let mut adj = Adjacency::new();
    entry(&mut adj, "A", &["GHOST"]);
    let result = dfs(&adj, &s("A"));
    assert_eq!(result, vec![s("A"), s("GHOST")]);
}

#[test]
fn deterministic_on_identical_input() {
    let mut adj = Adjacency::new();
    entry(&mut adj, "A", &["C", "B"]);
    entry(&mut adj, "B", &["D", "A"]);
    entry(&mut adj, "C", &["D"]);
    entry(&mut adj, "D", &[]);
    let first = dfs(&adj, &s("A"));
    let second = dfs(&adj, &s("A"));
    assert_eq!(first, second);
    assert_eq!(first, vec![s("A"), s("C"), s("D"), s("B")]);
}

#[test]
fn later_insertion_shadows_earlier() {
    let mut adj = Adjacency::new();
    entry(&mut adj, "A", &["B"]);
    entry(&mut adj, "B", &[]);
    entry(&mut adj, "C", &[]);
    entry(&mut adj, "A", &["C"]);
    let result = dfs(&adj, &s("A"));
    assert_eq!(result, vec![s("A"), s("C")]);
}

#[test]
fn neighbors_lookup_reports_bound_sequence() {
    let mut adj = Adjacency::new();
    entry(&mut adj, "A", &["B", "C"]);
    assert_eq!(adj.neighbors(&s("A")), Some(&vec![s("B"), s("C")]));
    assert_eq!(adj.neighbors(&s("Z")), None);
}
