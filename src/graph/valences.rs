use vstd::prelude::*;

use super::kings_graph::{cells_where, NodeId, NODE_COUNT};

verus! {

/// Sum of a sequence of counters.
pub open spec fn seq_sum(s: Seq<usize>) -> int
    decreases s.len(),
{
    if s.len() == 0 {
        0
    } else {
        seq_sum(s.drop_last()) + s.last()
    }
}

/// Replacing one entry changes the sum by the difference.
pub proof fn lemma_sum_update(s: Seq<usize>, i: int, v: usize)
    requires
        0 <= i < s.len(),
    ensures
        seq_sum(s.update(i, v)) == seq_sum(s) - s[i] + v,
    decreases s.len(),
{
    let t = s.update(i, v);
    if i == s.len() - 1 {
        assert(t.drop_last() =~= s.drop_last());
    } else {
        lemma_sum_update(s.drop_last(), i, v);
        assert(t.drop_last() =~= s.drop_last().update(i, v));
    }
}

/// A prefix sums to no more than the whole.
pub proof fn lemma_sum_prefix(s: Seq<usize>, i: int)
    requires
        0 <= i <= s.len(),
    ensures
        seq_sum(s.take(i)) <= seq_sum(s),
    decreases s.len(),
{
    if i < s.len() {
        lemma_sum_prefix(s.drop_last(), i);
        assert(s.drop_last().take(i) =~= s.take(i));
    } else {
        assert(s.take(i) =~= s);
    }
}

/// Adding the next entry extends a prefix sum.
pub proof fn lemma_sum_take_next(s: Seq<usize>, i: int)
    requires
        0 <= i < s.len(),
    ensures
        seq_sum(s.take(i + 1)) == seq_sum(s.take(i)) + s[i],
{
    assert(s.take(i + 1).drop_last() =~= s.take(i));
}

/// Remaining valence of each of the nine cells.
#[derive(Debug, Clone, Copy, PartialEq, Eq, Hash)]
pub struct Valences([usize; 9]);

impl View for Valences {
    type V = Seq<usize>;

    closed spec fn view(&self) -> Seq<usize> {
        self.0@
    }
}

/// There are exactly nine counters.
pub broadcast proof fn lemma_valences_len(v: Valences)
    ensures
        #[trigger] v@.len() == 9,
{
}

impl Valences {
    /// Built from exactly nine values.
    pub fn new(values: Vec<usize>) -> (r: Valences)
        requires
            values@.len() == 9,
        ensures
            r@ == values@,
    {
        let mut arr: [usize; 9] = [0; 9];
        for i in 0..NODE_COUNT
            invariant
                values@.len() == 9,
                forall|k: int| 0 <= k < i ==> arr@[k] == values@[k],
        {
            arr[i] = values[i];
        }
        assert(arr@ =~= values@);
        Valences(arr)
    }

    pub fn from_array(values: [usize; 9]) -> (r: Valences)
        ensures
            r@ == values@,
    {
        Valences(values)
    }

    /// Every cell at zero: the solved state.
    pub fn zeros() -> (r: Valences)
        ensures
            r@ == Seq::new(9, |i: int| 0usize),
    {
        let r = Valences([0; 9]);
        assert(r@ =~= Seq::new(9, |i: int| 0usize));
        r
    }

    pub fn get(&self, node: NodeId) -> (r: usize)
        requires
            node.0 < 9,
        ensures
            r == self@[node.0 as int],
    {
        self.0[node.0]
    }

    pub fn set(&mut self, node: NodeId, value: usize)
        requires
            node.0 < 9,
        ensures
            final(self)@ == old(self)@.update(node.0 as int, value),
    {
        self.0[node.0] = value;
    }

    /// One fewer connection left at `node`; it must have one left.
    pub fn decrement(&mut self, node: NodeId)
        requires
            node.0 < 9,
            old(self)@[node.0 as int] > 0,
        ensures
            final(self)@ == old(self)@.update(node.0 as int, (old(self)@[node.0 as int] - 1) as usize),
    {
        self.0[node.0] = self.0[node.0] - 1;
    }

    /// One more connection left at `node`.
    pub fn increment(&mut self, node: NodeId)
        requires
            node.0 < 9,
            old(self)@[node.0 as int] < usize::MAX,
        ensures
            final(self)@ == old(self)@.update(node.0 as int, (old(self)@[node.0 as int] + 1) as usize),
    {
        self.0[node.0] = self.0[node.0] + 1;
    }

    /// Whether every cell is at zero.
    pub fn all_zero(&self) -> (r: bool)
        ensures
            r == (forall|i: int| 0 <= i < 9 ==> #[trigger] self@[i] == 0),
    {
        for i in 0..NODE_COUNT
            invariant
                forall|k: int| 0 <= k < i ==> #[trigger] self@[k] == 0,
        {
            if self.0[i] != 0 {
                assert(self@[i as int] != 0);
                return false;
            }
        }
        true
    }

    /// The cells whose valence is odd, in increasing order.
    pub fn odd_nodes(&self) -> (r: Vec<NodeId>)
        ensures
            r@ == cells_where(|i: int| self@[i] % 2 == 1, 9),
    {
        let mut r: Vec<NodeId> = Vec::new();
        for i in 0..NODE_COUNT
            invariant
                r@ == cells_where(|k: int| self@[k] % 2 == 1, i as int),
        {
            if self.0[i] % 2 == 1 {
                r.push(NodeId(i));
            }
        }
        r
    }

    /// Sum of all nine counters, where it fits in a `usize`.
    pub fn total(&self) -> (r: usize)
        requires
            seq_sum(self@) <= usize::MAX,
        ensures
            r == seq_sum(self@),
    {
        let mut acc: usize = 0;
        for i in 0..NODE_COUNT
            invariant
                seq_sum(self@) <= usize::MAX,
                acc == seq_sum(self@.take(i as int)),
        {
            proof {
                lemma_sum_take_next(self@, i as int);
                lemma_sum_prefix(self@, i as int + 1);
            }
            acc = acc + self.0[i];
        }
        assert(self@.take(9) =~= self@);
        acc
    }

    /// Sum of all nine counters, or none where it exceeds `usize::MAX`.
    pub fn checked_total(&self) -> (r: Option<usize>)
        ensures
            match r {
                Some(t) => t == seq_sum(self@),
                None => seq_sum(self@) > usize::MAX,
            },
    {
        let mut acc: usize = 0;
        for i in 0..NODE_COUNT
            invariant
                acc == seq_sum(self@.take(i as int)),
        {
            proof {
                lemma_sum_take_next(self@, i as int);
            }
            match acc.checked_add(self.0[i]) {
                Some(s) => {
                    acc = s;
                },
                None => {
                    proof {
                        lemma_sum_prefix(self@, i as int + 1);
                    }
                    return None;
                },
            }
        }
        assert(self@.take(9) =~= self@);
        Some(acc)
    }

    /// Whether the counters sum to exactly `k`, for any counters.
    pub fn total_is(&self, k: usize) -> (r: bool)
        ensures
            r == (seq_sum(self@) == k),
    {
        let mut acc: usize = 0;
        for i in 0..NODE_COUNT
            invariant
                acc == seq_sum(self@.take(i as int)),
                acc <= k,
        {
            proof {
                lemma_sum_take_next(self@, i as int);
            }
            if self.0[i] > k - acc {
                proof {
                    lemma_sum_prefix(self@, i as int + 1);
                }
                return false;
            }
            acc = acc + self.0[i];
        }
        assert(self@.take(9) =~= self@);
        acc == k
    }
}

} // verus!
