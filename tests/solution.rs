use std::collections::hash_map::DefaultHasher;
use std::collections::HashSet;
use std::hash::{Hash, Hasher};

use valence_puzzle::graph::{Edge, EdgeSet, NodeId, Solution};

fn hash_of(s: &Solution) -> u64 {
    let mut h = DefaultHasher::new();
    s.hash(&mut h);
    h.finish()
}

#[test]
fn test_solution_equality_order_independent() {
    let mut sol1 = Solution::new();
    sol1.add_edge(Edge::new(NodeId(0), NodeId(1)));
    sol1.add_edge(Edge::new(NodeId(1), NodeId(2)));
    sol1.add_edge(Edge::new(NodeId(2), NodeId(0)));

    let mut sol2 = Solution::new();
    sol2.add_edge(Edge::new(NodeId(2), NodeId(0)));
    sol2.add_edge(Edge::new(NodeId(0), NodeId(1)));
    sol2.add_edge(Edge::new(NodeId(1), NodeId(2)));

    assert_eq!(sol1, sol2, "Solutions with same edges in different order should be equal");
}

#[test]
fn test_solution_hashing() {
    let mut sol1 = Solution::new();
    sol1.add_edge(Edge::new(NodeId(0), NodeId(1)));
    sol1.add_edge(Edge::new(NodeId(1), NodeId(2)));

    let mut sol2 = Solution::new();
    sol2.add_edge(Edge::new(NodeId(1), NodeId(2)));
    sol2.add_edge(Edge::new(NodeId(0), NodeId(1)));

    let mut solutions = HashSet::new();
    solutions.insert(sol1);

    assert!(solutions.contains(&sol2), "HashSet should find equivalent solution");
    assert_eq!(solutions.len(), 1, "Should only have one unique solution");
}

#[test]
fn test_solution_checking() {
    let mut known = HashSet::new();

    let mut sol1 = Solution::new();
    sol1.add_edge(Edge::new(NodeId(0), NodeId(1)));
    sol1.add_edge(Edge::new(NodeId(1), NodeId(2)));
    known.insert(sol1);

    let mut player_solution = Solution::new();
    player_solution.add_edge(Edge::new(NodeId(1), NodeId(2)));
    player_solution.add_edge(Edge::new(NodeId(0), NodeId(1)));

    assert!(known.contains(&player_solution), "Should recognize player found known solution");

    let mut new_solution = Solution::new();
    new_solution.add_edge(Edge::new(NodeId(0), NodeId(3)));
    new_solution.add_edge(Edge::new(NodeId(3), NodeId(1)));

    assert!(!known.contains(&new_solution), "Should recognize this is a new solution");
}

#[test]
fn solutions_from_edge_sets_in_different_orders_are_equal_and_hash_alike() {
    let e1 = Edge::new(NodeId(0), NodeId(1));
    let e2 = Edge::new(NodeId(1), NodeId(3));
    let e3 = Edge::new(NodeId(3), NodeId(0));

    let mut first = EdgeSet::new();
    first.add(e1);
    first.add(e2);
    first.add(e3);
    let mut second = EdgeSet::new();
    second.add(e3);
    second.add(e1);
    second.add(e2);

    let a = Solution::from_edge_set(&first);
    let b = Solution::from_edge_set(&second);
    assert_eq!(a, b);
    assert!(a.matches(&b));
    assert_eq!(hash_of(&a), hash_of(&b));
    assert_eq!(a.edges(), b.edges());
}

#[test]
fn canonical_string_lists_sorted_edges() {
    let mut sol = Solution::new();
    sol.add_edge(Edge::new(NodeId(3), NodeId(2)));
    sol.add_edge(Edge::new(NodeId(1), NodeId(0)));
    sol.add_edge(Edge::new(NodeId(2), NodeId(1)));
    assert_eq!(sol.canonical_string(), "0-1,1-2,2-3");
    assert_eq!(Solution::new().canonical_string(), "");

    let mut wide = Solution::new();
    wide.add_edge(Edge::new(NodeId(12), NodeId(105)));
    assert_eq!(wide.canonical_string(), "12-105");
}

#[test]
fn adding_an_edge_twice_keeps_one_copy() {
    let mut sol = Solution::default();
    assert!(sol.is_empty());
    sol.add_edge(Edge::new(NodeId(4), NodeId(5)));
    sol.add_edge(Edge::new(NodeId(5), NodeId(4)));
    assert_eq!(sol.len(), 1);
    assert!(sol.contains(&Edge::new(NodeId(4), NodeId(5))));
    assert!(!sol.contains(&Edge::new(NodeId(4), NodeId(6))));
    assert!(!sol.is_empty());
}

#[test]
fn solutions_with_different_edges_differ() {
    let mut a = Solution::new();
    a.add_edge(Edge::new(NodeId(0), NodeId(1)));
    let mut b = Solution::new();
    b.add_edge(Edge::new(NodeId(0), NodeId(4)));
    assert_ne!(a, b);
    assert!(!a.matches(&b));
}
