use valence_puzzle::graph::{Edge, GameState, MoveResult, NodeId, ValidationError, Valences};

#[test]
fn test_simple_game() {
    let valences = Valences::new(vec![2, 2, 0, 2, 0, 0, 0, 0, 0]);
    let mut state = GameState::new(valences);

    assert_eq!(state.add_node(NodeId(0)), MoveResult::FirstNode(NodeId(0)));
    assert!(matches!(state.add_node(NodeId(1)), MoveResult::EdgeAdded(_)));
    assert!(matches!(state.add_node(NodeId(3)), MoveResult::EdgeAdded(_)));
    assert_eq!(state.add_node(NodeId(0)), MoveResult::PuzzleComplete);

    assert!(state.is_complete());
}

#[test]
fn test_reset() {
    let valences = Valences::new(vec![1, 1, 0, 0, 0, 0, 0, 0, 0]);
    let mut state = GameState::new(valences.clone());

    state.add_node(NodeId(0));
    state.add_node(NodeId(1));

    state.reset();

    assert_eq!(state.valences(), &valences);
    assert!(state.current_trail().is_empty());
    assert!(state.edges().is_empty());
}

#[test]
fn triangle_reports_each_edge() {
    let mut state = GameState::new(Valences::new(vec![2, 2, 0, 2, 0, 0, 0, 0, 0]));
    assert_eq!(state.add_node(NodeId(0)), MoveResult::FirstNode(NodeId(0)));
    assert_eq!(
        state.add_node(NodeId(1)),
        MoveResult::EdgeAdded(Edge::new(NodeId(0), NodeId(1)))
    );
    assert_eq!(
        state.add_node(NodeId(3)),
        MoveResult::EdgeAdded(Edge::new(NodeId(1), NodeId(3)))
    );
    assert_eq!(state.add_node(NodeId(0)), MoveResult::PuzzleComplete);
    assert_eq!(
        state.edges().edges_in_order(),
        &[
            Edge::new(NodeId(0), NodeId(1)),
            Edge::new(NodeId(1), NodeId(3)),
            Edge::new(NodeId(0), NodeId(3))
        ]
    );
    assert_eq!(state.current_trail(), &[NodeId(0), NodeId(1), NodeId(3), NodeId(0)]);
}

#[test]
fn valence_one_cells_may_close_the_last_edge() {
    let mut state = GameState::new(Valences::new(vec![1, 1, 0, 0, 0, 0, 0, 0, 0]));
    assert!(state.is_last_edge());
    assert_eq!(state.add_node(NodeId(0)), MoveResult::FirstNode(NodeId(0)));
    assert_eq!(state.add_node(NodeId(1)), MoveResult::PuzzleComplete);
    assert!(state.valences().all_zero());
}

#[test]
fn premature_valence_one_closure_is_rejected_without_change() {
    let mut state = GameState::new(Valences::new(vec![2, 1, 0, 1, 0, 0, 0, 0, 0]));
    assert_eq!(state.total_remaining_valence(), 4);
    assert_eq!(state.add_node(NodeId(0)), MoveResult::FirstNode(NodeId(0)));
    let before_valences = *state.valences();
    let before_trail = state.current_trail().to_vec();
    assert_eq!(
        state.add_node(NodeId(1)),
        MoveResult::Invalid(ValidationError::CannotAddValenceOne(NodeId(1)))
    );
    assert_eq!(state.valences(), &before_valences);
    assert_eq!(state.current_trail(), before_trail.as_slice());
    assert!(state.edges().is_empty());
}

#[test]
fn each_rejection_reason() {
    let mut state = GameState::new(Valences::new(vec![2, 2, 0, 2, 0, 0, 0, 0, 2]));
    assert_eq!(
        state.can_add_node(NodeId(2)),
        Err(ValidationError::NodeHasNoValence(NodeId(2)))
    );
    state.add_node(NodeId(0));
    assert_eq!(state.can_add_node(NodeId(0)), Err(ValidationError::SameNodeTwice(NodeId(0))));
    assert_eq!(
        state.can_add_node(NodeId(8)),
        Err(ValidationError::NodesNotAdjacent(NodeId(0), NodeId(8)))
    );
    let mut again = GameState::new(Valences::new(vec![3, 3, 0, 0, 0, 0, 0, 0, 0]));
    again.add_node(NodeId(0));
    again.add_node(NodeId(1));
    assert_eq!(
        again.add_node(NodeId(0)),
        MoveResult::Invalid(ValidationError::EdgeAlreadyExists(Edge::new(NodeId(0), NodeId(1))))
    );
}

#[test]
fn valences_sum_to_target_less_two_per_edge() {
    let mut state = GameState::new(Valences::new(vec![2, 4, 2, 4, 8, 4, 2, 5, 3]));
    let target = state.puzzle_valences().total();
    for node in [4, 0, 1, 4, 2, 5, 4, 8, 7] {
        state.add_node(NodeId(node));
        assert_eq!(
            state.total_remaining_valence() + 2 * state.edges().len(),
            target
        );
    }
    assert_eq!(state.edges().len(), 8);
}

#[test]
fn undo_restores_the_state_before_the_move() {
    let mut state = GameState::new(Valences::new(vec![2, 4, 2, 4, 8, 4, 2, 5, 3]));
    state.add_node(NodeId(4));
    state.add_node(NodeId(0));
    let valences = *state.valences();
    let edges = state.edges().edges_in_order().to_vec();
    let trail = state.current_trail().to_vec();
    assert!(matches!(state.add_node(NodeId(1)), MoveResult::EdgeAdded(_)));
    assert_eq!(state.pop_node(), Some(NodeId(1)));
    assert_eq!(state.valences(), &valences);
    assert_eq!(state.edges().edges_in_order(), edges.as_slice());
    assert_eq!(state.current_trail(), trail.as_slice());
}

#[test]
fn undo_of_a_lone_cell_clears_the_trail() {
    let mut state = GameState::new(Valences::new(vec![1, 1, 0, 0, 0, 0, 0, 0, 0]));
    assert_eq!(state.pop_node(), None);
    state.add_node(NodeId(0));
    assert_eq!(state.pop_node(), None);
    assert!(state.current_trail().is_empty());
    assert_eq!(state.valence(NodeId(0)), 1);
}

#[test]
fn valid_and_fleeing_cells() {
    let mut state = GameState::new(Valences::new(vec![2, 2, 0, 2, 0, 0, 0, 0, 1]));
    assert_eq!(
        state.valid_next_nodes(),
        vec![NodeId(0), NodeId(1), NodeId(3), NodeId(8)]
    );
    assert_eq!(
        state.nodes_that_should_flee(),
        vec![NodeId(2), NodeId(4), NodeId(5), NodeId(6), NodeId(7)]
    );
    state.add_node(NodeId(0));
    assert_eq!(state.valid_next_nodes(), vec![NodeId(1), NodeId(3)]);
    assert_eq!(
        state.nodes_that_should_flee(),
        vec![NodeId(1), NodeId(2), NodeId(3), NodeId(4), NodeId(5), NodeId(6), NodeId(7), NodeId(8)]
            .into_iter()
            .filter(|n| *n != NodeId(1) && *n != NodeId(3))
            .collect::<Vec<_>>()
    );
}

#[test]
fn degenerate_when_a_cell_lacks_viable_neighbours() {
    let corner_alone = GameState::new(Valences::new(vec![1, 0, 0, 0, 0, 0, 0, 0, 1]));
    assert!(corner_alone.is_degenerate());

    let too_greedy = GameState::new(Valences::new(vec![4, 1, 0, 1, 1, 0, 0, 0, 0]));
    assert!(too_greedy.is_degenerate());

    let triangle = GameState::new(Valences::new(vec![2, 2, 0, 2, 0, 0, 0, 0, 0]));
    assert!(!triangle.is_degenerate());
}

#[test]
fn drawn_edges_stop_counting_as_viable() {
    let mut state = GameState::new(Valences::new(vec![2, 2, 0, 0, 0, 0, 0, 0, 0]));
    assert!(state.is_degenerate());
    let mut ok = GameState::new(Valences::new(vec![2, 2, 0, 2, 0, 0, 0, 0, 0]));
    ok.add_node(NodeId(0));
    ok.add_node(NodeId(1));
    assert!(!ok.is_degenerate());
    state.add_node(NodeId(0));
    assert!(state.is_degenerate());
}
