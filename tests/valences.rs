use valence_puzzle::graph::{NodeId, Valences};

#[test]
fn test_valences_creation() {
    let v = Valences::new(vec![1, 2, 3, 4, 5, 6, 7, 8, 9]);
    assert_eq!(v.get(NodeId(0)), 1);
    assert_eq!(v.get(NodeId(8)), 9);
}

#[test]
fn test_valences_modification() {
    let mut v = Valences::zeros();
    v.set(NodeId(4), 5);
    assert_eq!(v.get(NodeId(4)), 5);

    v.decrement(NodeId(4));
    assert_eq!(v.get(NodeId(4)), 4);
}

#[test]
fn test_all_zero() {
    let v = Valences::zeros();
    assert!(v.all_zero());

    let mut v2 = Valences::zeros();
    v2.set(NodeId(0), 1);
    assert!(!v2.all_zero());
}

#[test]
fn test_odd_nodes() {
    let v = Valences::new(vec![1, 2, 3, 4, 5, 6, 7, 8, 9]);
    let odd = v.odd_nodes();
    assert_eq!(odd.len(), 5);
    assert!(odd.contains(&NodeId(0)));
    assert!(odd.contains(&NodeId(2)));
}

#[test]
fn odd_nodes_are_in_increasing_order() {
    let v = Valences::from_array([3, 0, 0, 0, 2, 1, 0, 0, 7]);
    assert_eq!(v.odd_nodes(), vec![NodeId(0), NodeId(5), NodeId(8)]);
}

#[test]
fn totals() {
    let v = Valences::new(vec![1, 2, 3, 4, 5, 6, 7, 8, 9]);
    assert_eq!(v.total(), 45);
    assert!(v.total_is(45));
    assert!(!v.total_is(2));
    assert_eq!(v.checked_total(), Some(45));

    let big = Valences::from_array([usize::MAX, 1, 0, 0, 0, 0, 0, 0, 0]);
    assert_eq!(big.checked_total(), None);
    assert!(!big.total_is(2));
}

#[test]
fn increment_gives_back_a_connection() {
    let mut v = Valences::zeros();
    v.increment(NodeId(3));
    v.increment(NodeId(3));
    assert_eq!(v.get(NodeId(3)), 2);
    assert_eq!(v.total(), 2);
}
