use std::collections::HashSet;

use valence_puzzle::game::puzzle::{apply_symmetry, Symmetry};
use valence_puzzle::graph::{NodeId, Valences};

#[test]
fn test_all_symmetries_are_unique() {
    let valences = Valences::new(vec![1, 2, 3, 4, 5, 6, 7, 8, 9]);

    let mut results = Vec::new();
    for symmetry in Symmetry::all() {
        let result = apply_symmetry(&valences, symmetry);
        let result_vec: Vec<_> = (0..9).map(|i| result.get(NodeId(i))).collect();
        assert!(
            !results.contains(&result_vec),
            "Symmetry {:?} produced duplicate result",
            symmetry
        );
        results.push(result_vec);
    }

    assert_eq!(results.len(), 8);
}

#[test]
fn test_identity() {
    let valences = Valences::new(vec![1, 2, 3, 4, 5, 6, 7, 8, 9]);
    let result = apply_symmetry(&valences, Symmetry::Identity);

    for i in 0..9 {
        assert_eq!(result.get(NodeId(i)), valences.get(NodeId(i)));
    }
}

#[test]
fn test_symmetric_puzzle_has_fewer_unique_transforms() {
    let symmetric = Valences::new(vec![1, 2, 1, 2, 5, 2, 1, 2, 1]);

    let mut unique_results = HashSet::new();
    for symmetry in Symmetry::all() {
        let result = apply_symmetry(&symmetric, symmetry);
        let result_vec: Vec<_> = (0..9).map(|i| result.get(NodeId(i))).collect();
        unique_results.insert(result_vec);
    }

    assert!(unique_results.len() < 8);
}

#[test]
fn test_rot90_composition() {
    let valences = Valences::new(vec![1, 2, 3, 4, 5, 6, 7, 8, 9]);

    let mut result = valences.clone();
    for _ in 0..4 {
        result = apply_symmetry(&result, Symmetry::Rot90);
    }

    for i in 0..9 {
        assert_eq!(result.get(NodeId(i)), valences.get(NodeId(i)));
    }
}

#[test]
fn each_symmetry_moves_cells_as_expected() {
    let v = Valences::from_array([0, 1, 2, 3, 4, 5, 6, 7, 8]);
    let expect = |s: Symmetry, want: [usize; 9]| {
        assert_eq!(apply_symmetry(&v, s), Valences::from_array(want), "{:?}", s);
    };
    expect(Symmetry::Identity, [0, 1, 2, 3, 4, 5, 6, 7, 8]);
    expect(Symmetry::Rot90, [6, 3, 0, 7, 4, 1, 8, 5, 2]);
    expect(Symmetry::Rot180, [8, 7, 6, 5, 4, 3, 2, 1, 0]);
    expect(Symmetry::Rot270, [2, 5, 8, 1, 4, 7, 0, 3, 6]);
    expect(Symmetry::FlipHorizontal, [2, 1, 0, 5, 4, 3, 8, 7, 6]);
    expect(Symmetry::FlipVertical, [6, 7, 8, 3, 4, 5, 0, 1, 2]);
    expect(Symmetry::FlipMainDiag, [0, 3, 6, 1, 4, 7, 2, 5, 8]);
    expect(Symmetry::FlipAntiDiag, [8, 5, 2, 7, 4, 1, 6, 3, 0]);
}

#[test]
fn random_symmetry_is_one_of_the_eight() {
    let all = Symmetry::all();
    let mut seen = HashSet::new();
    for _ in 0..400 {
        let s = Symmetry::random();
        assert!(all.contains(&s));
        seen.insert(format!("{:?}", s));
    }
    assert!(seen.len() > 1);
}

#[test]
fn symmetries_by_index_follow_the_listed_order() {
    let all = Symmetry::all();
    for k in 0..8 {
        assert_eq!(Symmetry::from_index(k), all[k]);
    }
    assert_eq!(Symmetry::from_index(3), Symmetry::Rot270);
}
