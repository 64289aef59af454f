use valence_puzzle::game::puzzle::{apply_symmetry, CorpusError, PuzzleLibrary, Symmetry};
use valence_puzzle::graph::Valences;

const TEST_CSV: &str = "\
0,0,0,0,0,0,0,1,1,1
0,0,0,0,0,1,0,1,0,1
0,0,0,0,1,0,0,0,1,1
0,0,0,0,0,0,1,2,1,2
0,0,0,0,0,1,0,1,2,2";

#[test]
fn test_load_from_csv() {
    let library = PuzzleLibrary::from_csv(TEST_CSV).unwrap();

    assert_eq!(library.puzzle_count(1), 3);
    assert_eq!(library.puzzle_count(2), 2);
    assert_eq!(library.total_puzzle_count(), 5);
}

#[test]
fn test_available_complexities() {
    let library = PuzzleLibrary::from_csv(TEST_CSV).unwrap();
    let complexities = library.available_complexities();

    assert_eq!(complexities, vec![1, 2]);
}

#[test]
fn test_random_puzzle() {
    let library = PuzzleLibrary::from_csv(TEST_CSV).unwrap();

    assert!(library.random_puzzle(1).is_some());
    assert!(library.random_puzzle(2).is_some());

    assert!(library.random_puzzle(999).is_none());
}

#[test]
fn test_untried_puzzle() {
    let library = PuzzleLibrary::from_csv(TEST_CSV).unwrap();

    let (config1, idx1) = library.untried_puzzle(1, &[]).unwrap();
    assert_eq!(config1.complexity, 1);

    let (_, idx2) = library.untried_puzzle(1, &[idx1]).unwrap();
    assert_ne!(idx1, idx2);

    let (_, idx3) = library.untried_puzzle(1, &[idx1, idx2]).unwrap();
    assert_ne!(idx3, idx1);
    assert_ne!(idx3, idx2);

    assert!(library.untried_puzzle(1, &[idx1, idx2, idx3]).is_none());
}

#[test]
fn test_invalid_csv() {
    let bad_csv = "0,0,0,0,0,1";
    assert!(PuzzleLibrary::from_csv(bad_csv).is_err());

    let bad_csv2 = "0,0,0,x,0,0,0,1,1,1";
    assert!(PuzzleLibrary::from_csv(bad_csv2).is_err());
}

#[test]
fn test_empty_csv() {
    assert!(PuzzleLibrary::from_csv("").is_err());
}

#[test]
fn library_selection_scenario() {
    let library = PuzzleLibrary::from_csv(TEST_CSV).unwrap();
    assert_eq!(library.puzzle_count(1), 3);
    assert_eq!(library.available_complexities(), vec![1, 2]);
    let mut tried = Vec::new();
    for _ in 0..3 {
        let (config, idx) = library.untried_puzzle(1, &tried).unwrap();
        assert_eq!(config.complexity, 1);
        assert!(idx < 3);
        assert!(!tried.contains(&idx));
        tried.push(idx);
    }
    tried.sort();
    assert_eq!(tried, vec![0, 1, 2]);
    assert!(library.untried_puzzle(1, &tried).is_none());
    assert!(library.untried_puzzle(7, &[]).is_none());
}

#[test]
fn errors_name_the_line_and_reason() {
    assert_eq!(
        PuzzleLibrary::from_csv("0,0,0,0,0,0,0,1,1,1\n\n0,0,0,0,0,1").err(),
        Some(CorpusError::WrongFieldCount { line: 3, count: 6 })
    );
    assert_eq!(
        PuzzleLibrary::from_csv("0,0,0,x,0,0,0,1,1,1").err(),
        Some(CorpusError::BadNumber { line: 1 })
    );
    assert_eq!(
        PuzzleLibrary::from_csv("0,0,0,0,0,0,0,1,1,1\n0,0,0,0,0,0,0,1,1,99999999999999999999999").err(),
        Some(CorpusError::BadNumber { line: 2 })
    );
    assert_eq!(
        PuzzleLibrary::from_csv("0,0,0,-1,0,0,0,1,1,1").err(),
        Some(CorpusError::BadNumber { line: 1 })
    );
    assert_eq!(PuzzleLibrary::from_csv("\n  \n").err(), Some(CorpusError::Empty));
}

#[test]
fn blanks_around_fields_and_lines_are_ignored() {
    let library =
        PuzzleLibrary::from_csv("\n 0, 0,0,0,0,0,0 ,1,1,+3\r\n\t\n0,0,0,0,0,0,0,2,2,3\n").unwrap();
    assert_eq!(library.total_puzzle_count(), 2);
    assert_eq!(library.puzzle_count(3), 2);
    assert_eq!(library.available_complexities(), vec![3]);
}

#[test]
fn variants_move_the_record_and_estimate_solutions() {
    let library = PuzzleLibrary::from_csv("0,0,0,0,0,0,1,2,1,8\n1,0,0,0,0,0,0,0,0,8\n0,1,0,0,0,0,0,0,1,3").unwrap();
    assert!(library.is_estimable(8) == false);
    assert!(library.is_estimable(3));
    let config = library.puzzle_variant(3, 0, Symmetry::Rot180).unwrap();
    assert_eq!(config.valences, Valences::from_array([1, 0, 0, 0, 0, 0, 0, 1, 0]));
    assert_eq!(config.complexity, 3);
    assert_eq!(config.total_solutions, 3);
    assert!(library.puzzle_variant(3, 1, Symmetry::Identity).is_none());

    let wide = PuzzleLibrary::from_csv("0,0,0,0,0,0,1,2,1,9\n1,1,1,1,1,1,1,1,0,9").unwrap();
    let second = wide.puzzle_variant(9, 1, Symmetry::Identity).unwrap();
    assert_eq!(second.total_solutions, 2);
    let first = wide.puzzle_variant(9, 0, Symmetry::FlipVertical).unwrap();
    assert_eq!(first.valences, Valences::from_array([1, 2, 1, 0, 0, 0, 0, 0, 0]));
    assert_eq!(first.total_solutions, 4);
}

#[test]
fn solution_estimate() {
    let v = Valences::from_array([2, 2, 0, 2, 0, 0, 0, 0, 0]);
    assert_eq!(PuzzleLibrary::solution_count_for_puzzle(&v, 10), 3);
    assert_eq!(PuzzleLibrary::solution_count_for_puzzle(&v, 2), 0);
}

#[test]
fn a_single_record_is_always_the_one_drawn() {
    let library = PuzzleLibrary::from_csv("0,0,0,0,0,0,1,2,1,4").unwrap();
    let base = Valences::from_array([0, 0, 0, 0, 0, 0, 1, 2, 1]);
    for _ in 0..50 {
        let config = library.random_puzzle(4).unwrap();
        assert!(Symmetry::all().iter().any(|s| apply_symmetry(&base, *s) == config.valences));
        assert_eq!(config.total_solutions, 2);
        let (untried, idx) = library.untried_puzzle(4, &[]).unwrap();
        assert_eq!(idx, 0);
        assert!(Symmetry::all().iter().any(|s| apply_symmetry(&base, *s) == untried.valences));
    }
}
