use vstd::prelude::*;

use super::edge::{degree_in, edge_of, touches, Edge, EdgeSet};
use super::kings_graph::{cells_where, kings_adjacent, neighbor_seq, lemma_cells_where, KingsGraph, NodeId, NODE_COUNT};
use crate::seqs::{lemma_drop_last_no_duplicates, lemma_push_no_duplicates};
use super::valences::{lemma_sum_prefix, lemma_sum_update, lemma_valences_len, seq_sum, Valences};

verus! {

broadcast use lemma_valences_len;

/// Why a cell cannot be added to the trail.
#[derive(Debug, Clone, Copy, PartialEq, Eq, Structural)]
pub enum ValidationError {
    NodeHasNoValence(NodeId),
    NodesNotAdjacent(NodeId, NodeId),
    EdgeAlreadyExists(Edge),
    CannotAddValenceOne(NodeId),
    SameNodeTwice(NodeId),
}

/// Outcome of an attempt to add a cell.
#[derive(Debug, Clone, Copy, PartialEq, Eq, Structural)]
pub enum MoveResult {
    EdgeAdded(Edge),
    FirstNode(NodeId),
    Invalid(ValidationError),
    PuzzleComplete,
}

/// The mathematical content of a game: the puzzle's valences, the
/// remaining valences, the edges in draw order and the trail.
pub struct GameStateView {
    pub target: Seq<usize>,
    pub current: Seq<usize>,
    pub edges: Seq<Edge>,
    pub trail: Seq<NodeId>,
}

/// Exactly one edge's worth of valence remains on the board.
pub open spec fn on_last_edge(v: GameStateView) -> bool {
    seq_sum(v.current) == 2
}

/// Every cell has made all its connections.
pub open spec fn all_done(v: GameStateView) -> bool {
    forall|i: int| 0 <= i < 9 ==> #[trigger] v.current[i] == 0
}

/// The checks of a move, in order of precedence.
pub open spec fn validate(v: GameStateView, node: NodeId) -> Result<(), ValidationError> {
    if v.current[node.0 as int] == 0 {
        Err(ValidationError::NodeHasNoValence(node))
    } else if v.trail.len() == 0 {
        Ok(())
    } else {
        let last = v.trail.last();
        if node == last {
            Err(ValidationError::SameNodeTwice(node))
        } else if !kings_adjacent(node.0 as int, last.0 as int) {
            Err(ValidationError::NodesNotAdjacent(last, node))
        } else if v.edges.contains(edge_of(node, last)) {
            Err(ValidationError::EdgeAlreadyExists(edge_of(node, last)))
        } else if v.current[node.0 as int] == 1 && !on_last_edge(v) {
            Err(ValidationError::CannotAddValenceOne(node))
        } else {
            Ok(())
        }
    }
}

/// The game after a move that passed validation.
pub open spec fn after_add(v: GameStateView, node: NodeId) -> GameStateView {
    if v.trail.len() == 0 {
        GameStateView { trail: seq![node], ..v }
    } else {
        let last = v.trail.last();
        let c1 = v.current.update(node.0 as int, (v.current[node.0 as int] - 1) as usize);
        let c2 = c1.update(last.0 as int, (c1[last.0 as int] - 1) as usize);
        GameStateView {
            current: c2,
            edges: v.edges.push(edge_of(node, last)),
            trail: v.trail.push(node),
            ..v
        }
    }
}

/// What a move that passed validation reports.
pub open spec fn add_result(v: GameStateView, node: NodeId) -> MoveResult {
    if v.trail.len() == 0 {
        MoveResult::FirstNode(node)
    } else if all_done(after_add(v, node)) {
        MoveResult::PuzzleComplete
    } else {
        MoveResult::EdgeAdded(edge_of(node, v.trail.last()))
    }
}

/// The game after undoing the last step of the trail.
pub open spec fn after_pop(v: GameStateView) -> GameStateView {
    if v.trail.len() <= 1 {
        GameStateView { trail: Seq::empty(), ..v }
    } else {
        let node = v.trail.last();
        let prev = v.trail[v.trail.len() - 2];
        let c1 = v.current.update(node.0 as int, (v.current[node.0 as int] + 1) as usize);
        let c2 = c1.update(prev.0 as int, (c1[prev.0 as int] + 1) as usize);
        GameStateView {
            current: c2,
            edges: v.edges.drop_last(),
            trail: v.trail.drop_last(),
            ..v
        }
    }
}

/// Number of entries of `s` that satisfy `p`.
pub open spec fn count_where(s: Seq<NodeId>, p: spec_fn(NodeId) -> bool) -> nat
    decreases s.len(),
{
    if s.len() == 0 {
        0
    } else {
        count_where(s.drop_last(), p) + if p(s.last()) {
            1nat
        } else {
            0nat
        }
    }
}

/// A neighbour `m` of `n` through which `n` can still make a connection.
pub open spec fn viable_partner(v: GameStateView, n: NodeId, m: NodeId) -> bool {
    !v.edges.contains(edge_of(n, m)) && v.current[m.0 as int] > 0
}

/// How many neighbours of `n` can still be connected to it.
pub open spec fn viable_neighbors(v: GameStateView, n: NodeId) -> nat {
    count_where(neighbor_seq(n.0 as int), |m: NodeId| viable_partner(v, n, m))
}

/// Some cell needs more connections than it has viable neighbours.
pub open spec fn degenerate(v: GameStateView) -> bool {
    exists|i: int|
        0 <= i < 9 && #[trigger] v.current[i] > 0 && v.current[i] > viable_neighbors(v, NodeId(i as usize))
}

/// The invariant of every game reachable from a fresh puzzle.
pub open spec fn state_inv(v: GameStateView) -> bool {
    &&& v.target.len() == 9
    &&& v.current.len() == 9
    &&& forall|k: int| 0 <= k < v.trail.len() ==> (#[trigger] v.trail[k]).0 < 9
    &&& forall|k: int|
        0 <= k < v.trail.len() - 1 ==> kings_adjacent(
            (#[trigger] v.trail[k]).0 as int,
            v.trail[k + 1].0 as int,
        )
    &&& v.edges.no_duplicates()
    &&& v.edges.len() == if v.trail.len() == 0 {
        0
    } else {
        v.trail.len() - 1
    }
    &&& forall|k: int|
        0 <= k < v.edges.len() ==> #[trigger] v.edges[k] == edge_of(v.trail[k], v.trail[k + 1])
    &&& forall|i: int|
        0 <= i < 9 ==> #[trigger] v.current[i] + degree_in(v.edges, NodeId(i as usize))
            == v.target[i]
    &&& seq_sum(v.current) == seq_sum(v.target) - 2 * v.edges.len()
    &&& v.trail.len() > 0 ==> v.current[v.trail.last().0 as int] > 0 || all_done(v)
}

/// A single counter never exceeds the sum.
proof fn lemma_entry_le_sum(s: Seq<usize>, i: int)
    requires
        0 <= i < s.len(),
    ensures
        s[i] <= seq_sum(s),
    decreases s.len(),
{
    if i < s.len() - 1 {
        lemma_entry_le_sum(s.drop_last(), i);
    } else {
        lemma_sum_prefix(s.drop_last(), 0);
        assert(s.drop_last().take(0) =~= Seq::<usize>::empty());
    }
}

/// Counters that sum to zero are all zero.
proof fn lemma_sum_zero(s: Seq<usize>)
    requires
        seq_sum(s) == 0,
    ensures
        forall|i: int| 0 <= i < s.len() ==> #[trigger] s[i] == 0,
{
    assert forall|i: int| 0 <= i < s.len() implies #[trigger] s[i] == 0 by {
        lemma_entry_le_sum(s, i);
    }
}

/// Appending an edge raises the degree of exactly its endpoints.
proof fn lemma_degree_push(s: Seq<Edge>, e: Edge, n: NodeId)
    ensures
        degree_in(s.push(e), n) == degree_in(s, n) + if touches(e, n) {
            1nat
        } else {
            0nat
        },
{
    assert(s.push(e).drop_last() =~= s);
}

/// A valid move keeps the invariant.
proof fn lemma_add_keeps_inv(v: GameStateView, node: NodeId)
    requires
        state_inv(v),
        node.0 < 9,
        validate(v, node) is Ok,
    ensures
        state_inv(after_add(v, node)),
{
    let w = after_add(v, node);
    if v.trail.len() == 0 {
        assert(v.edges.len() == 0);
        assert(w.trail.last() == node);
    } else {
        let last = v.trail.last();
        let e = edge_of(node, last);
        assert(v.current[last.0 as int] > 0) by {
            if !(v.current[last.0 as int] > 0) {
                assert(v.current[node.0 as int] != 0);
            }
        }
        let c1 = v.current.update(node.0 as int, (v.current[node.0 as int] - 1) as usize);
        lemma_sum_update(v.current, node.0 as int, (v.current[node.0 as int] - 1) as usize);
        lemma_sum_update(c1, last.0 as int, (c1[last.0 as int] - 1) as usize);
        assert forall|i: int|
            0 <= i < 9 implies #[trigger] w.current[i] + degree_in(w.edges, NodeId(i as usize))
            == w.target[i] by {
            lemma_degree_push(v.edges, e, NodeId(i as usize));
        }
        assert forall|k: int| 0 <= k < w.edges.len() implies #[trigger] w.edges[k] == edge_of(
            w.trail[k],
            w.trail[k + 1],
        ) by {
            if k < v.edges.len() {
                assert(w.trail[k] == v.trail[k] && w.trail[k + 1] == v.trail[k + 1]);
            } else {
                assert(w.trail[k] == last && w.trail[k + 1] == node);
            }
        }
        assert forall|k: int| 0 <= k < w.trail.len() - 1 implies kings_adjacent(
            (#[trigger] w.trail[k]).0 as int,
            w.trail[k + 1].0 as int,
        ) by {
            if k < v.trail.len() - 1 {
                assert(w.trail[k] == v.trail[k] && w.trail[k + 1] == v.trail[k + 1]);
            }
        }
        lemma_push_no_duplicates(v.edges, e);
        assert(w.trail.last() == node);
        if w.current[node.0 as int] == 0 {
            assert(v.current[node.0 as int] == 1);
            assert(on_last_edge(v));
            lemma_sum_zero(w.current);
        }
    }
}

/// Undoing a step keeps the invariant.
proof fn lemma_pop_keeps_inv(v: GameStateView)
    requires
        state_inv(v),
    ensures
        state_inv(after_pop(v)),
        v.trail.len() > 1 ==> v.edges.len() > 0 && v.edges.last() == edge_of(
            v.trail[v.trail.len() - 2],
            v.trail.last(),
        ),
        v.trail.len() > 1 ==> v.current[v.trail.last().0 as int] < v.target[v.trail.last().0 as int],
        v.trail.len() > 1 ==> v.current[v.trail[v.trail.len() - 2].0 as int] < v.target[v.trail[v.trail.len() - 2].0 as int],
{
    let w = after_pop(v);
    if v.trail.len() <= 1 {
        assert(v.edges.len() == 0);
    } else {
        let node = v.trail.last();
        let prev = v.trail[v.trail.len() - 2];
        let e = v.edges.last();
        assert(v.edges =~= w.edges.push(e));
        assert(e == edge_of(v.trail[v.edges.len() - 1], v.trail[v.edges.len() as int]));
        assert(kings_adjacent(prev.0 as int, node.0 as int));
        lemma_degree_push(w.edges, e, node);
        lemma_degree_push(w.edges, e, prev);
        let c1 = v.current.update(node.0 as int, (v.current[node.0 as int] + 1) as usize);
        lemma_sum_update(v.current, node.0 as int, (v.current[node.0 as int] + 1) as usize);
        lemma_sum_update(c1, prev.0 as int, (c1[prev.0 as int] + 1) as usize);
        assert forall|i: int|
            0 <= i < 9 implies #[trigger] w.current[i] + degree_in(w.edges, NodeId(i as usize))
            == w.target[i] by {
            lemma_degree_push(w.edges, e, NodeId(i as usize));
        }
        assert forall|k: int| 0 <= k < w.edges.len() implies #[trigger] w.edges[k] == edge_of(
            w.trail[k],
            w.trail[k + 1],
        ) by {
            assert(w.edges[k] == v.edges[k]);
        }
        assert forall|k: int| 0 <= k < w.trail.len() - 1 implies kings_adjacent(
            (#[trigger] w.trail[k]).0 as int,
            w.trail[k + 1].0 as int,
        ) by {
            assert(w.trail[k] == v.trail[k] && w.trail[k + 1] == v.trail[k + 1]);
        }
        lemma_drop_last_no_duplicates(v.edges);
        assert(w.trail.last() == prev);
    }
}

/// A game of the valence puzzle: the puzzle, the remaining valences,
/// the edges drawn and the trail of cells visited.
#[derive(Debug, Clone)]
pub struct GameState {
    graph: KingsGraph,
    puzzle_valences: Valences,
    current_valences: Valences,
    edges: EdgeSet,
    current_trail: Vec<NodeId>,
}

impl View for GameState {
    type V = GameStateView;

    closed spec fn view(&self) -> GameStateView {
        GameStateView {
            target: self.puzzle_valences@,
            current: self.current_valences@,
            edges: self.edges@,
            trail: self.current_trail@,
        }
    }
}

impl GameState {
    pub closed spec fn wf(&self) -> bool {
        &&& self.graph.wf()
        &&& state_inv(self@)
    }

    /// The well-formed state satisfies the game invariant.
    pub proof fn lemma_wf(&self)
        requires
            self.wf(),
        ensures
            state_inv(self@),
    {
    }

    /// A fresh game of the given puzzle: nothing drawn yet.
    pub fn new(puzzle_valences: Valences) -> (r: GameState)
        ensures
            r.wf(),
            r@.target == puzzle_valences@,
            r@.current == puzzle_valences@,
            r@.edges == Seq::<Edge>::empty(),
            r@.trail == Seq::<NodeId>::empty(),
    {
        GameState {
            graph: KingsGraph::new_3x3(),
            puzzle_valences,
            current_valences: puzzle_valences,
            edges: EdgeSet::new(),
            current_trail: Vec::new(),
        }
    }

    /// Remaining valence of a cell.
    pub fn valence(&self, node: NodeId) -> (r: usize)
        requires
            node.0 < 9,
        ensures
            r == self@.current[node.0 as int],
    {
        self.current_valences.get(node)
    }

    /// The remaining valences.
    pub fn valences(&self) -> (r: &Valences)
        ensures
            r@ == self@.current,
    {
        &self.current_valences
    }

    /// The puzzle being played.
    pub fn puzzle_valences(&self) -> (r: &Valences)
        ensures
            r@ == self@.target,
    {
        &self.puzzle_valences
    }

    /// The cells visited in the current attempt, in order.
    pub fn current_trail(&self) -> (r: &[NodeId])
        ensures
            r@ == self@.trail,
    {
        self.current_trail.as_slice()
    }

    /// The edges drawn, in draw order.
    pub fn edges(&self) -> (r: &EdgeSet)
        ensures
            r@ == self@.edges,
    {
        &self.edges
    }

    /// Sum of the remaining valences, where it fits in a `usize`.
    pub fn total_remaining_valence(&self) -> (r: usize)
        requires
            seq_sum(self@.current) <= usize::MAX,
        ensures
            r == seq_sum(self@.current),
    {
        self.current_valences.total()
    }

    /// Whether exactly one edge's worth of valence remains.
    pub fn is_last_edge(&self) -> (r: bool)
        ensures
            r == on_last_edge(self@),
    {
        self.current_valences.total_is(2)
    }

    /// Whether every cell has made all its connections.
    pub fn is_complete(&self) -> (r: bool)
        ensures
            r == all_done(self@),
    {
        let r = self.current_valences.all_zero();
        assert(r == all_done(self@)) by {
            if r {
                assert forall|i: int| 0 <= i < 9 implies #[trigger] self@.current[i] == 0 by {
                    assert(self.current_valences@[i] == 0);
                }
            } else {
                let i = choose|i: int| 0 <= i < 9 && #[trigger] self.current_valences@[i] != 0;
                assert(self@.current[i] != 0);
            }
        }
        r
    }

    /// Checks whether `node` can extend the trail, reporting the first rule it breaks.
    pub fn can_add_node(&self, node: NodeId) -> (r: Result<(), ValidationError>)
        requires
            self.wf(),
            node.0 < 9,
        ensures
            r == validate(self@, node),
    {
        if self.valence(node) == 0 {
            return Err(ValidationError::NodeHasNoValence(node));
        }
        if self.current_trail.len() == 0 {
            return Ok(());
        }
        let last_node = self.current_trail[self.current_trail.len() - 1];
        if node == last_node {
            return Err(ValidationError::SameNodeTwice(node));
        }
        if !self.graph.are_adjacent(node, last_node) {
            return Err(ValidationError::NodesNotAdjacent(last_node, node));
        }
        let edge = Edge::new(node, last_node);
        if self.edges.contains(&edge) {
            return Err(ValidationError::EdgeAlreadyExists(edge));
        }
        if self.valence(node) == 1 && !self.is_last_edge() {
            return Err(ValidationError::CannotAddValenceOne(node));
        }
        Ok(())
    }

    /// Extends the trail by `node` if the move is valid, drawing the edge
    /// from the previous cell and consuming one valence at each end.
    pub fn add_node(&mut self, node: NodeId) -> (r: MoveResult)
        requires
            old(self).wf(),
            node.0 < 9,
        ensures
            final(self).wf(),
            match validate(old(self)@, node) {
                Err(e) => r == MoveResult::Invalid(e) && final(self)@ == old(self)@,
                Ok(_) => r == add_result(old(self)@, node) && final(self)@ == after_add(
                    old(self)@,
                    node,
                ),
            },
    {
        if let Err(e) = self.can_add_node(node) {
            return MoveResult::Invalid(e);
        }
        proof {
            lemma_add_keeps_inv(self@, node);
        }
        if self.current_trail.len() == 0 {
            self.current_trail.push(node);
            assert(self@.trail =~= seq![node]);
            return MoveResult::FirstNode(node);
        }
        let ghost v = self@;
        let last_node = self.current_trail[self.current_trail.len() - 1];
        assert(v.current[last_node.0 as int] > 0) by {
            assert(v.current[node.0 as int] != 0);
        }
        let edge = Edge::new(node, last_node);
        self.edges.add(edge);
        self.current_valences.decrement(node);
        self.current_valences.decrement(last_node);
        self.current_trail.push(node);
        assert(self@.current =~= after_add(v, node).current);
        assert(self@ == after_add(v, node));
        if self.is_complete() {
            MoveResult::PuzzleComplete
        } else {
            MoveResult::EdgeAdded(edge)
        }
    }

    /// Undoes the last step: removes the last cell of the trail and its edge,
    /// giving back one valence at each end. With one cell or none the trail
    /// is just cleared.
    pub fn pop_node(&mut self) -> (r: Option<NodeId>)
        requires
            old(self).wf(),
        ensures
            final(self).wf(),
            final(self)@ == after_pop(old(self)@),
            r == (if old(self)@.trail.len() <= 1 {
                None
            } else {
                Some(old(self)@.trail.last())
            }),
    {
        proof {
            lemma_pop_keeps_inv(self@);
        }
        let ghost v = self@;
        if self.current_trail.len() <= 1 {
            self.current_trail.clear();
            assert(self@ == after_pop(v));
            return None;
        }
        let node = self.current_trail.pop().unwrap();
        let prev_node = self.current_trail[self.current_trail.len() - 1];
        assert(prev_node == v.trail[v.trail.len() - 2]);
        if let Some(_edge) = self.edges.pop() {
            self.current_valences.increment(node);
            self.current_valences.increment(prev_node);
        }
        assert(self@.trail =~= after_pop(v).trail);
        assert(self@.current =~= after_pop(v).current);
        assert(self@ == after_pop(v));
        Some(node)
    }

    /// Back to the start of the puzzle: all valences restored, nothing drawn.
    pub fn reset(&mut self)
        requires
            old(self).wf(),
        ensures
            final(self).wf(),
            final(self)@.target == old(self)@.target,
            final(self)@.current == old(self)@.target,
            final(self)@.edges == Seq::<Edge>::empty(),
            final(self)@.trail == Seq::<NodeId>::empty(),
    {
        self.current_valences = self.puzzle_valences;
        self.edges.clear();
        self.current_trail.clear();
    }

    /// Every cell that could be added now, in increasing order.
    pub fn valid_next_nodes(&self) -> (r: Vec<NodeId>)
        requires
            self.wf(),
        ensures
            r@ == cells_where(|i: int| validate(self@, NodeId(i as usize)) is Ok, 9),
    {
        let mut r: Vec<NodeId> = Vec::new();
        for i in 0..NODE_COUNT
            invariant
                self.wf(),
                r@ == cells_where(|k: int| validate(self@, NodeId(k as usize)) is Ok, i as int),
        {
            if self.can_add_node(NodeId(i)).is_ok() {
                r.push(NodeId(i));
            }
        }
        r
    }

    /// Every cell that cannot be added now, other than the end of the trail
    /// when there is one, in increasing order.
    pub fn nodes_that_should_flee(&self) -> (r: Vec<NodeId>)
        requires
            self.wf(),
        ensures
            r@ == cells_where(
                |i: int|
                    (self@.trail.len() == 0 || NodeId(i as usize) != self@.trail.last())
                        && validate(self@, NodeId(i as usize)) is Err,
                9,
            ),
    {
        let has_last = self.current_trail.len() > 0;
        let last_node = if has_last {
            self.current_trail[self.current_trail.len() - 1]
        } else {
            NodeId(0)
        };
        let mut r: Vec<NodeId> = Vec::new();
        for i in 0..NODE_COUNT
            invariant
                self.wf(),
                has_last == (self@.trail.len() > 0),
                has_last ==> last_node == self@.trail.last(),
                r@ == cells_where(
                    |k: int|
                        (self@.trail.len() == 0 || NodeId(k as usize) != self@.trail.last())
                            && validate(self@, NodeId(k as usize)) is Err,
                    i as int,
                ),
        {
            if (!has_last || NodeId(i) != last_node) && self.can_add_node(NodeId(i)).is_err() {
                r.push(NodeId(i));
            }
        }
        r
    }

    /// How many neighbours of `node` can still be connected to it.
    fn count_available_edges(&self, node: NodeId) -> (r: usize)
        requires
            self.wf(),
            node.0 < 9,
        ensures
            r == viable_neighbors(self@, node),
    {
        let neighbors = self.graph.neighbors(node);
        let ghost p = |m: NodeId| viable_partner(self@, node, m);
        proof {
            lemma_cells_where(|j: int| kings_adjacent(node.0 as int, j), 9);
        }
        let mut count: usize = 0;
        let mut k: usize = 0;
        while k < neighbors.len()
            invariant
                self.wf(),
                node.0 < 9,
                neighbors@ == neighbor_seq(node.0 as int),
                forall|j: int| 0 <= j < neighbors@.len() ==> #[trigger] neighbors@[j].0 < 9,
                k <= neighbors@.len(),
                p == (|m: NodeId| viable_partner(self@, node, m)),
                count == count_where(neighbors@.take(k as int), p),
                count <= k,
            decreases neighbors@.len() - k,
        {
            let neighbor = neighbors[k];
            assert(neighbors@.take(k + 1).drop_last() =~= neighbors@.take(k as int));
            let edge = Edge::new(node, neighbor);
            let viable = !self.edges.contains(&edge) && self.valence(neighbor) > 0;
            assert(viable == p(neighbor));
            if viable {
                count += 1;
            }
            k += 1;
        }
        assert(neighbors@.take(k as int) =~= neighbors@);
        count
    }

    /// Whether some cell needs more connections than it has viable
    /// neighbours, in which case the puzzle cannot be completed from here.
    /// The converse does not hold: a state that passes may still be a dead end.
    pub fn is_degenerate(&self) -> (r: bool)
        requires
            self.wf(),
        ensures
            r == degenerate(self@),
    {
        for i in 0..NODE_COUNT
            invariant
                self.wf(),
                forall|k: int|
                    0 <= k < i ==> !(#[trigger] self@.current[k] > 0 && self@.current[k]
                        > viable_neighbors(self@, NodeId(k as usize))),
        {
            let node = NodeId(i);
            let valence = self.valence(node);
            if valence != 0 {
                let available = self.count_available_edges(node);
                if valence > available {
                    assert(self@.current[i as int] > 0);
                    return true;
                }
            }
        }
        false
    }
}

/// Valence conservation: in every game reached from a fresh puzzle by
/// `add_node`, `pop_node` and `reset`, the remaining valences sum to the
/// puzzle's total less two for each edge drawn.
pub proof fn lemma_valence_conservation(g: &GameState)
    requires
        g.wf(),
    ensures
        seq_sum(g@.current) == seq_sum(g@.target) - 2 * g@.edges.len(),
{
}

/// Undo inverts add: undoing a move that succeeded gives back exactly the
/// valences, edges and trail from before it.
pub proof fn lemma_undo_inverts_add(v: GameStateView, node: NodeId)
    requires
        state_inv(v),
        node.0 < 9,
        validate(v, node) is Ok,
    ensures
        after_pop(after_add(v, node)) == v,
{
    let w = after_add(v, node);
    let u = after_pop(w);
    if v.trail.len() == 0 {
        assert(u.trail =~= v.trail);
    } else {
        let last = v.trail.last();
        assert(w.trail.last() == node);
        assert(w.trail[w.trail.len() - 2] == last);
        assert(u.trail =~= v.trail);
        assert(u.edges =~= v.edges);
        assert(u.current =~= v.current);
    }
}

/// Degenerate detection is conservative: a cell that needs more
/// connections than it has viable neighbours makes the game degenerate.
pub proof fn lemma_degenerate_detected(v: GameStateView, i: int)
    requires
        0 <= i < 9,
        v.current[i] > viable_neighbors(v, NodeId(i as usize)),
    ensures
        degenerate(v),
{
    assert(v.current[i] > 0);
}

} // verus!
