use valence_puzzle::game::session::{ProgressInfo, PuzzleSession, SessionResult};
use valence_puzzle::graph::{Edge, NodeId, Solution, ValidationError, Valences};

#[test]
fn test_session_tracks_solutions() {
    let valences = Valences::new(vec![2, 2, 0, 2, 0, 0, 0, 0, 0]);
    let mut session = PuzzleSession::new(valences, 1);

    session.add_node(NodeId(0));
    session.add_node(NodeId(1));
    session.add_node(NodeId(3));
    let result = session.add_node(NodeId(0));

    assert!(matches!(result, SessionResult::Complete { is_new: true, .. }));
    assert_eq!(session.found_solutions().len(), 1);

    session.reset();
    session.add_node(NodeId(0));
    session.add_node(NodeId(1));
    session.add_node(NodeId(3));
    let result = session.add_node(NodeId(0));

    assert!(matches!(result, SessionResult::Complete { is_new: false, .. }));
    assert_eq!(session.found_solutions().len(), 1);
}

#[test]
fn test_progress_info() {
    let valences = Valences::new(vec![1, 1, 0, 0, 0, 0, 0, 0, 0]);
    let mut session = PuzzleSession::new(valences, 1);

    let progress = session.progress();
    assert_eq!(progress.solutions_found, 0);
    assert_eq!(progress.display_string(), "0/1 solutions");
    assert!(!progress.is_complete());

    session.add_node(NodeId(0));
    session.add_node(NodeId(1));

    let progress = session.progress();
    assert_eq!(progress.solutions_found, 1);
    assert!(progress.is_complete());
}

#[test]
fn test_new_puzzle_clears_solutions() {
    let valences1 = Valences::new(vec![1, 1, 0, 0, 0, 0, 0, 0, 0]);
    let mut session = PuzzleSession::new(valences1, 1);

    session.add_node(NodeId(0));
    session.add_node(NodeId(1));
    assert_eq!(session.found_solutions().len(), 1);

    let valences2 = Valences::new(vec![2, 2, 0, 2, 0, 0, 0, 0, 0]);
    session.new_puzzle(valences2, 1);

    assert_eq!(session.found_solutions().len(), 0);
    assert_eq!(session.puzzle_valences().get(NodeId(0)), 2);
}

#[test]
fn triangle_puzzle_scenario() {
    let mut session = PuzzleSession::new(Valences::new(vec![2, 2, 0, 2, 0, 0, 0, 0, 0]), 2);
    assert!(matches!(session.add_node(NodeId(0)), SessionResult::FirstNode(NodeId(0))));
    match session.add_node(NodeId(1)) {
        SessionResult::EdgeAdded(e) => assert_eq!(e, Edge::new(NodeId(0), NodeId(1))),
        other => panic!("unexpected {:?}", other),
    }
    match session.add_node(NodeId(3)) {
        SessionResult::EdgeAdded(e) => assert_eq!(e, Edge::new(NodeId(1), NodeId(3))),
        other => panic!("unexpected {:?}", other),
    }
    match session.add_node(NodeId(0)) {
        SessionResult::Complete { solution, is_new } => {
            assert!(is_new);
            let mut expected = Solution::new();
            expected.add_edge(Edge::new(NodeId(0), NodeId(1)));
            expected.add_edge(Edge::new(NodeId(1), NodeId(3)));
            expected.add_edge(Edge::new(NodeId(0), NodeId(3)));
            assert_eq!(solution, expected);
            assert!(session.is_solution_known(&expected));
        }
        other => panic!("unexpected {:?}", other),
    }
    assert!(session.is_complete());

    session.reset();
    assert!(!session.is_complete());
    session.add_node(NodeId(0));
    session.add_node(NodeId(1));
    session.add_node(NodeId(3));
    assert!(matches!(
        session.add_node(NodeId(0)),
        SessionResult::Complete { is_new: false, .. }
    ));
    assert_eq!(session.progress().solutions_found, 1);
    assert!(!session.progress().is_complete());
}

#[test]
fn same_triangle_drawn_the_other_way_is_not_new() {
    let mut session = PuzzleSession::new(Valences::new(vec![2, 2, 0, 2, 0, 0, 0, 0, 0]), 1);
    for n in [0, 1, 3, 0] {
        session.add_node(NodeId(n));
    }
    session.reset();
    for n in [3, 1, 0] {
        session.add_node(NodeId(n));
    }
    assert!(matches!(
        session.add_node(NodeId(3)),
        SessionResult::Complete { is_new: false, .. }
    ));
}

#[test]
fn session_rejections_and_queries() {
    let mut session = PuzzleSession::new(Valences::new(vec![2, 1, 0, 1, 0, 0, 0, 0, 0]), 1);
    session.add_node(NodeId(0));
    assert!(matches!(
        session.add_node(NodeId(1)),
        SessionResult::Invalid(ValidationError::CannotAddValenceOne(NodeId(1)))
    ));
    assert_eq!(session.current_trail(), &[NodeId(0)]);
    assert_eq!(session.can_add_node(NodeId(4)), Err(ValidationError::NodeHasNoValence(NodeId(4))));
    assert!(session.valid_nodes().is_empty());
    assert_eq!(session.nodes_to_flee().len(), 8);
    assert!(session.edges().is_empty());
    assert_eq!(session.current_valences().get(NodeId(0)), 2);
    assert!(!session.is_degenerate());
}

#[test]
fn undo_in_a_session() {
    let mut session = PuzzleSession::new(Valences::new(vec![2, 2, 0, 2, 0, 0, 0, 0, 0]), 1);
    session.add_node(NodeId(0));
    session.add_node(NodeId(1));
    assert_eq!(session.progress().current_edges, 1);
    assert_eq!(session.undo(), Some(NodeId(1)));
    assert_eq!(session.progress().current_edges, 0);
    assert_eq!(session.current_valences().get(NodeId(1)), 2);
    assert_eq!(session.undo(), None);
    assert!(session.current_trail().is_empty());
}

#[test]
fn progress_text_without_a_total() {
    let p = ProgressInfo { solutions_found: 12, total_solutions: None, current_edges: 0 };
    assert_eq!(p.display_string(), "12 solutions");
    assert!(!p.is_complete());
    let q = ProgressInfo { solutions_found: 3, total_solutions: Some(3), current_edges: 4 };
    assert_eq!(q.display_string(), "3/3 solutions");
    assert!(q.is_complete());
}
