use vstd::prelude::*;

use crate::graph::edge::{Edge, EdgeSet};
use crate::graph::kings_graph::{cells_where, NodeId};
use crate::graph::solution::Solution;
use crate::graph::state::{
    add_result, after_add, after_pop, all_done, degenerate, validate, GameState, GameStateView,
    MoveResult, ValidationError,
};
use crate::graph::valences::Valences;
use crate::seqs::lemma_push_no_duplicates;
use crate::text::{decimal, push_decimal};

verus! {

/// One puzzle being played: the game, the distinct solutions found so far
/// and how many solutions the puzzle is expected to have.
#[derive(Debug, Clone)]
pub struct PuzzleSession {
    state: GameState,
    found_solutions: Vec<Solution>,
    total_solutions: usize,
}

/// Outcome of an attempt to add a cell during a session.
#[derive(Debug, Clone)]
pub enum SessionResult {
    /// The first cell of a trail was placed; no edge yet.
    FirstNode(NodeId),
    /// An edge was drawn.
    EdgeAdded(Edge),
    /// The puzzle was completed; `is_new` tells whether this set of edges
    /// had not been found before in this session.
    Complete { solution: Solution, is_new: bool },
    /// The move was refused.
    Invalid(ValidationError),
}

/// Progress figures for display.
#[derive(Debug, Clone, Copy)]
pub struct ProgressInfo {
    pub solutions_found: usize,
    pub total_solutions: Option<usize>,
    pub current_edges: usize,
}

/// The text shown for a progress summary: `found/total solutions`, or
/// `found solutions` when the total is unknown.
pub open spec fn progress_text(p: ProgressInfo) -> Seq<char> {
    match p.total_solutions {
        Some(total) => decimal(p.solutions_found as nat) + seq!['/'] + decimal(total as nat)
            + " solutions"@,
        None => decimal(p.solutions_found as nat) + " solutions"@,
    }
}

impl ProgressInfo {
    /// For instance `2/5 solutions`.
    pub fn display_string(&self) -> (r: String)
        ensures
            r@ == progress_text(*self),
    {
        let mut out = String::new();
        push_decimal(&mut out, self.solutions_found);
        proof {
            reveal_strlit("/");
        }
        match self.total_solutions {
            Some(total) => {
                out.append("/");
                push_decimal(&mut out, total);
            },
            None => {},
        }
        out.append(" solutions");
        out
    }

    /// Whether as many solutions were found as the puzzle is known to have.
    pub fn is_complete(&self) -> (r: bool)
        ensures
            r == match self.total_solutions {
                Some(total) => self.solutions_found >= total,
                None => false,
            },
    {
        match self.total_solutions {
            Some(total) => self.solutions_found >= total,
            None => false,
        }
    }
}

impl PuzzleSession {
    /// The game being played.
    pub closed spec fn game(&self) -> GameStateView {
        self.state@
    }

    /// The edge sets of the solutions found, in the order they were found.
    pub closed spec fn found(&self) -> Seq<Set<Edge>> {
        self.found_solutions@.map_values(|s: Solution| s.edge_set())
    }

    /// The expected number of solutions.
    pub closed spec fn total(&self) -> usize {
        self.total_solutions
    }

    pub closed spec fn wf(&self) -> bool {
        &&& self.state.wf()
        &&& forall|i: int| 0 <= i < self.found_solutions@.len() ==> (#[trigger] self.found_solutions@[i]).wf()
        &&& self.found().no_duplicates()
    }

    /// A fresh session on the given puzzle.
    pub fn new(puzzle_valences: Valences, total_solutions: usize) -> (r: PuzzleSession)
        ensures
            r.wf(),
            r.game().target == puzzle_valences@,
            r.game().current == puzzle_valences@,
            r.game().edges == Seq::<Edge>::empty(),
            r.game().trail == Seq::<NodeId>::empty(),
            r.found() == Seq::<Set<Edge>>::empty(),
            r.total() == total_solutions,
    {
        let r = PuzzleSession {
            state: GameState::new(puzzle_valences),
            found_solutions: Vec::new(),
            total_solutions,
        };
        assert(r.found() =~= Seq::<Set<Edge>>::empty());
        r
    }

    /// Whether the current attempt has completed the puzzle.
    pub fn is_complete(&self) -> (r: bool)
        ensures
            r == all_done(self.game()),
    {
        self.state.is_complete()
    }

    pub fn current_valences(&self) -> (r: &Valences)
        ensures
            r@ == self.game().current,
    {
        self.state.valences()
    }

    pub fn puzzle_valences(&self) -> (r: &Valences)
        ensures
            r@ == self.game().target,
    {
        self.state.puzzle_valences()
    }

    pub fn current_trail(&self) -> (r: &[NodeId])
        ensures
            r@ == self.game().trail,
    {
        self.state.current_trail()
    }

    pub fn edges(&self) -> (r: &EdgeSet)
        ensures
            r@ == self.game().edges,
    {
        self.state.edges()
    }

    /// Cells that cannot be added now, other than the end of the trail when
    /// there is one.
    pub fn nodes_to_flee(&self) -> (r: Vec<NodeId>)
        requires
            self.wf(),
        ensures
            r@ == cells_where(
                |i: int|
                    (self.game().trail.len() == 0 || NodeId(i as usize) != self.game().trail.last())
                        && validate(self.game(), NodeId(i as usize)) is Err,
                9,
            ),
    {
        self.state.nodes_that_should_flee()
    }

    /// Cells that can be added now.
    pub fn valid_nodes(&self) -> (r: Vec<NodeId>)
        requires
            self.wf(),
        ensures
            r@ == cells_where(|i: int| validate(self.game(), NodeId(i as usize)) is Ok, 9),
    {
        self.state.valid_next_nodes()
    }

    pub fn can_add_node(&self, node: NodeId) -> (r: Result<(), ValidationError>)
        requires
            self.wf(),
            node.0 < 9,
        ensures
            r == validate(self.game(), node),
    {
        self.state.can_add_node(node)
    }

    /// Solutions found, the expected total and the number of edges drawn.
    pub fn progress(&self) -> (r: ProgressInfo)
        ensures
            r.solutions_found == self.found().len(),
            r.total_solutions == Some(self.total()),
            r.current_edges == self.game().edges.len(),
    {
        ProgressInfo {
            solutions_found: self.found_solutions.len(),
            total_solutions: Some(self.total_solutions),
            current_edges: self.state.edges().len(),
        }
    }

    pub fn is_degenerate(&self) -> (r: bool)
        requires
            self.wf(),
        ensures
            r == degenerate(self.game()),
    {
        self.state.is_degenerate()
    }

    /// Whether a solution with the same edges was found before.
    pub fn is_solution_known(&self, solution: &Solution) -> (r: bool)
        requires
            self.wf(),
            solution.wf(),
        ensures
            r == self.found().contains(solution.edge_set()),
    {
        let mut k: usize = 0;
        while k < self.found_solutions.len()
            invariant
                self.wf(),
                solution.wf(),
                k <= self.found_solutions@.len(),
                forall|m: int| 0 <= m < k ==> self.found()[m] != solution.edge_set(),
            decreases self.found_solutions@.len() - k,
        {
            if self.found_solutions[k].matches(solution) {
                assert(self.found()[k as int] == solution.edge_set());
                return true;
            }
            k += 1;
        }
        false
    }

    /// The distinct solutions found, in the order they were found.
    pub fn found_solutions(&self) -> (r: &[Solution])
        ensures
            r@.map_values(|s: Solution| s.edge_set()) == self.found(),
    {
        self.found_solutions.as_slice()
    }

    /// Tries to extend the trail by `node`. A move that completes the puzzle
    /// reports the solution, which is recorded if it is new to the session.
    pub fn add_node(&mut self, node: NodeId) -> (r: SessionResult)
        requires
            old(self).wf(),
            node.0 < 9,
        ensures
            final(self).wf(),
            final(self).total() == old(self).total(),
            match validate(old(self).game(), node) {
                Err(e) => {
                    &&& r == SessionResult::Invalid(e)
                    &&& final(self).game() == old(self).game()
                    &&& final(self).found() == old(self).found()
                },
                Ok(_) => {
                    &&& final(self).game() == after_add(old(self).game(), node)
                    &&& match add_result(old(self).game(), node) {
                        MoveResult::FirstNode(n) => r == SessionResult::FirstNode(n)
                            && final(self).found() == old(self).found(),
                        MoveResult::EdgeAdded(e) => r == SessionResult::EdgeAdded(e)
                            && final(self).found() == old(self).found(),
                        MoveResult::PuzzleComplete => match r {
                            SessionResult::Complete { solution, is_new } => {
                                &&& solution.wf()
                                &&& solution.edge_set() == final(self).game().edges.to_set()
                                &&& is_new == !old(self).found().contains(solution.edge_set())
                                &&& final(self).found() == if is_new {
                                    old(self).found().push(solution.edge_set())
                                } else {
                                    old(self).found()
                                }
                            },
                            _ => false,
                        },
                        MoveResult::Invalid(_) => false,
                    }
                },
            },
    {
        match self.state.add_node(node) {
            MoveResult::PuzzleComplete => {
                let solution = Solution::from_edge_set(self.state.edges());
                let is_new = !self.is_solution_known(&solution);
                if is_new {
                    let record = Solution::from_edge_set(self.state.edges());
                    let ghost before = self.found();
                    self.found_solutions.push(record);
                    proof {
                        assert(self.found() =~= before.push(solution.edge_set()));
                        lemma_push_no_duplicates(before, solution.edge_set());
                    }
                }
                SessionResult::Complete { solution, is_new }
            },
            MoveResult::EdgeAdded(edge) => SessionResult::EdgeAdded(edge),
            MoveResult::FirstNode(node) => SessionResult::FirstNode(node),
            MoveResult::Invalid(err) => SessionResult::Invalid(err),
        }
    }

    /// Undoes the last step of the trail; see `GameState::pop_node`.
    pub fn undo(&mut self) -> (r: Option<NodeId>)
        requires
            old(self).wf(),
        ensures
            final(self).wf(),
            final(self).game() == after_pop(old(self).game()),
            final(self).found() == old(self).found(),
            final(self).total() == old(self).total(),
            r == (if old(self).game().trail.len() <= 1 {
                None
            } else {
                Some(old(self).game().trail.last())
            }),
    {
        self.state.pop_node()
    }

    /// Restarts the current attempt; the solutions found are kept.
    pub fn reset(&mut self)
        requires
            old(self).wf(),
        ensures
            final(self).wf(),
            final(self).game().target == old(self).game().target,
            final(self).game().current == old(self).game().target,
            final(self).game().edges == Seq::<Edge>::empty(),
            final(self).game().trail == Seq::<NodeId>::empty(),
            final(self).found() == old(self).found(),
            final(self).total() == old(self).total(),
    {
        self.state.reset();
    }

    /// Replaces the puzzle and forgets the solutions found.
    pub fn new_puzzle(&mut self, puzzle_valences: Valences, total_solutions: usize)
        ensures
            final(self).wf(),
            final(self).game().target == puzzle_valences@,
            final(self).game().current == puzzle_valences@,
            final(self).game().edges == Seq::<Edge>::empty(),
            final(self).game().trail == Seq::<NodeId>::empty(),
            final(self).found() == Seq::<Set<Edge>>::empty(),
            final(self).total() == total_solutions,
    {
        self.state = GameState::new(puzzle_valences);
        self.found_solutions.clear();
        self.total_solutions = total_solutions;
        assert(self.found() =~= Seq::<Set<Edge>>::empty());
    }
}

} // verus!
