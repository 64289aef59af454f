use vstd::prelude::*;

use crate::game::chance::random_below;
use crate::graph::kings_graph::{col_of, row_of, NodeId};
use crate::graph::valences::{lemma_valences_len, seq_sum, Valences};

verus! {

broadcast use lemma_valences_len;

/// The eight symmetries of the square.
#[derive(Debug, Clone, Copy, PartialEq, Eq, Structural)]
pub enum Symmetry {
    Identity,
    Rot90,
    Rot180,
    Rot270,
    FlipHorizontal,
    FlipVertical,
    FlipMainDiag,
    FlipAntiDiag,
}

/// The symmetry numbered `k`, in the order identity, the three rotations,
/// the horizontal and vertical flips, then the two diagonal flips.
pub open spec fn symmetry_at(k: int) -> Symmetry {
    if k == 0 {
        Symmetry::Identity
    } else if k == 1 {
        Symmetry::Rot90
    } else if k == 2 {
        Symmetry::Rot180
    } else if k == 3 {
        Symmetry::Rot270
    } else if k == 4 {
        Symmetry::FlipHorizontal
    } else if k == 5 {
        Symmetry::FlipVertical
    } else if k == 6 {
        Symmetry::FlipMainDiag
    } else {
        Symmetry::FlipAntiDiag
    }
}

/// The cell whose value lands on cell `i` under `s`, from the row and
/// column transform of the symmetry.
pub open spec fn source_cell(s: Symmetry, i: int) -> int {
    let r = row_of(i);
    let c = col_of(i);
    let (sr, sc) = match s {
        Symmetry::Identity => (r, c),
        Symmetry::Rot90 => (2 - c, r),
        Symmetry::Rot180 => (2 - r, 2 - c),
        Symmetry::Rot270 => (c, 2 - r),
        Symmetry::FlipHorizontal => (r, 2 - c),
        Symmetry::FlipVertical => (2 - r, c),
        Symmetry::FlipMainDiag => (c, r),
        Symmetry::FlipAntiDiag => (2 - c, 2 - r),
    };
    sr * 3 + sc
}

/// The nine values moved by `s`.
pub open spec fn transformed(v: Seq<usize>, s: Symmetry) -> Seq<usize> {
    Seq::new(9, |i: int| v[source_cell(s, i)])
}

impl Symmetry {
    /// All eight symmetries, the identity first.
    pub fn all() -> (r: [Symmetry; 8])
        ensures
            r@ == seq![
                Symmetry::Identity,
                Symmetry::Rot90,
                Symmetry::Rot180,
                Symmetry::Rot270,
                Symmetry::FlipHorizontal,
                Symmetry::FlipVertical,
                Symmetry::FlipMainDiag,
                Symmetry::FlipAntiDiag,
            ],
    {
        let r = [
            Symmetry::Identity,
            Symmetry::Rot90,
            Symmetry::Rot180,
            Symmetry::Rot270,
            Symmetry::FlipHorizontal,
            Symmetry::FlipVertical,
            Symmetry::FlipMainDiag,
            Symmetry::FlipAntiDiag,
        ];
        assert(r@ =~= seq![
            Symmetry::Identity,
            Symmetry::Rot90,
            Symmetry::Rot180,
            Symmetry::Rot270,
            Symmetry::FlipHorizontal,
            Symmetry::FlipVertical,
            Symmetry::FlipMainDiag,
            Symmetry::FlipAntiDiag,
        ]);
        r
    }

    /// The symmetry numbered `k` in the order of `all`.
    pub fn from_index(k: usize) -> (r: Symmetry)
        requires
            k < 8,
        ensures
            r == symmetry_at(k as int),
    {
        match k {
            0 => Symmetry::Identity,
            1 => Symmetry::Rot90,
            2 => Symmetry::Rot180,
            3 => Symmetry::Rot270,
            4 => Symmetry::FlipHorizontal,
            5 => Symmetry::FlipVertical,
            6 => Symmetry::FlipMainDiag,
            _ => Symmetry::FlipAntiDiag,
        }
    }

    /// One of the eight symmetries, drawn uniformly.
    pub fn random() -> (r: Symmetry)
        ensures
            exists|k: int| 0 <= k < 8 && r == #[trigger] symmetry_at(k),
    {
        let k = random_below(8);
        let r = Symmetry::from_index(k);
        assert(r == symmetry_at(k as int));
        r
    }
}

/// Moves the nine values of `valences` by the symmetry.
pub fn apply_symmetry(valences: &Valences, symmetry: Symmetry) -> (r: Valences)
    ensures
        r@ == transformed(valences@, symmetry),
{
    let a = [
        valences.get(NodeId(0)),
        valences.get(NodeId(1)),
        valences.get(NodeId(2)),
        valences.get(NodeId(3)),
        valences.get(NodeId(4)),
        valences.get(NodeId(5)),
        valences.get(NodeId(6)),
        valences.get(NodeId(7)),
        valences.get(NodeId(8)),
    ];
    let moved = match symmetry {
        Symmetry::Identity => a,
        // 0 1 2    6 3 0
        // 3 4 5 -> 7 4 1
        // 6 7 8    8 5 2
        Symmetry::Rot90 => [a[6], a[3], a[0], a[7], a[4], a[1], a[8], a[5], a[2]],
        Symmetry::Rot180 => [a[8], a[7], a[6], a[5], a[4], a[3], a[2], a[1], a[0]],
        Symmetry::Rot270 => [a[2], a[5], a[8], a[1], a[4], a[7], a[0], a[3], a[6]],
        Symmetry::FlipHorizontal => [a[2], a[1], a[0], a[5], a[4], a[3], a[8], a[7], a[6]],
        Symmetry::FlipVertical => [a[6], a[7], a[8], a[3], a[4], a[5], a[0], a[1], a[2]],
        Symmetry::FlipMainDiag => [a[0], a[3], a[6], a[1], a[4], a[7], a[2], a[5], a[8]],
        Symmetry::FlipAntiDiag => [a[8], a[5], a[2], a[7], a[4], a[1], a[6], a[3], a[0]],
    };
    let r = Valences::from_array(moved);
    assert(r@ =~= transformed(valences@, symmetry));
    r
}

/// The identity symmetry leaves every value in place.
pub proof fn lemma_identity_is_no_op(v: Seq<usize>)
    requires
        v.len() == 9,
    ensures
        transformed(v, Symmetry::Identity) == v,
{
    assert(transformed(v, Symmetry::Identity) =~= v);
}

/// Symmetry closure: on nine pairwise-distinct values, two different
/// symmetries always give different results, so the eight symmetries give
/// eight distinct vectors.
pub proof fn lemma_symmetries_distinct(v: Seq<usize>, s1: Symmetry, s2: Symmetry)
    requires
        v.len() == 9,
        v.no_duplicates(),
        s1 != s2,
    ensures
        transformed(v, s1) != transformed(v, s2),
{
    let t1 = transformed(v, s1);
    let t2 = transformed(v, s2);
    assert(t1[0] == v[source_cell(s1, 0)] && t2[0] == v[source_cell(s2, 0)]);
    assert(t1[1] == v[source_cell(s1, 1)] && t2[1] == v[source_cell(s2, 1)]);
    assert(source_cell(s1, 0) != source_cell(s2, 0) || source_cell(s1, 1) != source_cell(s2, 1));
}

/// Moving the values around keeps their sum.
pub proof fn lemma_transformed_sum(v: Seq<usize>, s: Symmetry)
    requires
        v.len() == 9,
    ensures
        seq_sum(transformed(v, s)) == seq_sum(v),
{
    let t = transformed(v, s);
    reveal_with_fuel(seq_sum, 10);
    assert(t.drop_last().drop_last().drop_last().drop_last().drop_last().drop_last().drop_last().drop_last().drop_last() =~= Seq::<usize>::empty());
    assert(v.drop_last().drop_last().drop_last().drop_last().drop_last().drop_last().drop_last().drop_last().drop_last() =~= Seq::<usize>::empty());
    assert(seq_sum(t) == t[0] + t[1] + t[2] + t[3] + t[4] + t[5] + t[6] + t[7] + t[8]);
    assert(seq_sum(v) == v[0] + v[1] + v[2] + v[3] + v[4] + v[5] + v[6] + v[7] + v[8]);
    assert(t[0] == v[source_cell(s, 0)]);
    assert(t[1] == v[source_cell(s, 1)]);
    assert(t[2] == v[source_cell(s, 2)]);
    assert(t[3] == v[source_cell(s, 3)]);
    assert(t[4] == v[source_cell(s, 4)]);
    assert(t[5] == v[source_cell(s, 5)]);
    assert(t[6] == v[source_cell(s, 6)]);
    assert(t[7] == v[source_cell(s, 7)]);
    assert(t[8] == v[source_cell(s, 8)]);
}

} // verus!
