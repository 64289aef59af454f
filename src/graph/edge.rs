use vstd::prelude::*;

use super::kings_graph::NodeId;
use crate::seqs::{lemma_drop_last_no_duplicates, lemma_push_no_duplicates};

verus! {

/// A connection between two cells, stored with the smaller id first.
#[derive(Debug, Clone, Copy, PartialEq, Eq, Structural, Hash)]
pub struct Edge {
    pub from: NodeId,
    pub to: NodeId,
}

/// The canonical edge between `a` and `b`.
pub open spec fn edge_of(a: NodeId, b: NodeId) -> Edge {
    if a.0 <= b.0 {
        Edge { from: a, to: b }
    } else {
        Edge { from: b, to: a }
    }
}

/// Whether `e` has `n` as an endpoint.
pub open spec fn touches(e: Edge, n: NodeId) -> bool {
    e.from == n || e.to == n
}

/// Number of edges of `s` that have `n` as an endpoint.
pub open spec fn degree_in(s: Seq<Edge>, n: NodeId) -> nat
    decreases s.len(),
{
    if s.len() == 0 {
        0
    } else {
        degree_in(s.drop_last(), n) + if touches(s.last(), n) {
            1nat
        } else {
            0nat
        }
    }
}

/// The edge between two cells does not depend on the order in which they are named.
pub proof fn lemma_edge_symmetric(a: NodeId, b: NodeId)
    ensures
        edge_of(a, b) == edge_of(b, a),
{
}

impl Edge {
    /// The edge between `a` and `b`, with the smaller id first.
    pub fn new(a: NodeId, b: NodeId) -> (r: Edge)
        ensures
            r == edge_of(a, b),
    {
        if a.0 <= b.0 {
            Edge { from: a, to: b }
        } else {
            Edge { from: b, to: a }
        }
    }

    pub fn contains_node(&self, node: NodeId) -> (r: bool)
        ensures
            r == touches(*self, node),
    {
        self.from == node || self.to == node
    }

    /// The endpoint opposite `node`, if `node` is an endpoint.
    pub fn other_node(&self, node: NodeId) -> (r: Option<NodeId>)
        ensures
            r == (if self.from == node {
                Some(self.to)
            } else if self.to == node {
                Some(self.from)
            } else {
                None
            }),
    {
        if self.from == node {
            Some(self.to)
        } else if self.to == node {
            Some(self.from)
        } else {
            None
        }
    }
}

/// The edges drawn so far, each once, in the order they were drawn.
#[derive(Debug, Clone)]
pub struct EdgeSet {
    draw_order: Vec<Edge>,
}

impl View for EdgeSet {
    type V = Seq<Edge>;

    closed spec fn view(&self) -> Seq<Edge> {
        self.draw_order@
    }
}

impl EdgeSet {
    /// No edge is listed twice.
    pub open spec fn wf(&self) -> bool {
        self@.no_duplicates()
    }

    pub fn new() -> (r: EdgeSet)
        ensures
            r@ == Seq::<Edge>::empty(),
            r.wf(),
    {
        EdgeSet { draw_order: Vec::new() }
    }

    /// Appends `edge` unless it is already present; reports whether it was appended.
    pub fn add(&mut self, edge: Edge) -> (r: bool)
        requires
            old(self).wf(),
        ensures
            final(self).wf(),
            r == !old(self)@.contains(edge),
            final(self)@ == (if r {
                old(self)@.push(edge)
            } else {
                old(self)@
            }),
    {
        if self.contains(&edge) {
            false
        } else {
            self.draw_order.push(edge);
            proof {
                lemma_push_no_duplicates(old(self)@, edge);
            }
            true
        }
    }

    pub fn contains(&self, edge: &Edge) -> (r: bool)
        ensures
            r == self@.contains(*edge),
    {
        let mut k: usize = 0;
        while k < self.draw_order.len()
            invariant
                k <= self@.len(),
                forall|m: int| 0 <= m < k ==> self@[m] != *edge,
            decreases self@.len() - k,
        {
            if self.draw_order[k] == *edge {
                assert(self@[k as int] == *edge);
                return true;
            }
            k += 1;
        }
        false
    }

    /// Removes and returns the most recently drawn edge.
    pub fn pop(&mut self) -> (r: Option<Edge>)
        requires
            old(self).wf(),
        ensures
            final(self).wf(),
            old(self)@.len() == 0 ==> r is None && final(self)@ == old(self)@,
            old(self)@.len() > 0 ==> r == Some(old(self)@.last()) && final(self)@
                == old(self)@.drop_last(),
    {
        let r = self.draw_order.pop();
        proof {
            let s = old(self)@;
            if s.len() > 0 {
                assert(self@ =~= s.drop_last());
                lemma_drop_last_no_duplicates(s);
            }
        }
        r
    }

    pub fn len(&self) -> (r: usize)
        ensures
            r == self@.len(),
    {
        self.draw_order.len()
    }

    pub fn is_empty(&self) -> (r: bool)
        ensures
            r == (self@.len() == 0),
    {
        self.draw_order.len() == 0
    }

    /// The edges in the order they were drawn.
    pub fn edges_in_order(&self) -> (r: &[Edge])
        ensures
            r@ == self@,
    {
        self.draw_order.as_slice()
    }

    /// The most recently drawn edge.
    pub fn last(&self) -> (r: Option<Edge>)
        ensures
            r == (if self@.len() == 0 {
                None
            } else {
                Some(self@.last())
            }),
    {
        if self.draw_order.len() == 0 {
            None
        } else {
            Some(self.draw_order[self.draw_order.len() - 1])
        }
    }

    pub fn clear(&mut self)
        ensures
            final(self)@ == Seq::<Edge>::empty(),
            final(self).wf(),
    {
        self.draw_order.clear();
    }

    /// Number of edges that have `node` as an endpoint.
    pub fn degree(&self, node: NodeId) -> (r: usize)
        ensures
            r == degree_in(self@, node),
    {
        let mut count: usize = 0;
        let mut k: usize = 0;
        while k < self.draw_order.len()
            invariant
                k <= self@.len(),
                count == degree_in(self@.take(k as int), node),
                count <= k,
            decreases self@.len() - k,
        {
            assert(self@.take(k + 1).drop_last() =~= self@.take(k as int));
            if self.draw_order[k].contains_node(node) {
                count += 1;
            }
            k += 1;
        }
        assert(self@.take(k as int) =~= self@);
        count
    }
}

impl Default for EdgeSet {
    fn default() -> (r: EdgeSet)
        ensures
            r@ == Seq::<Edge>::empty(),
    {
        EdgeSet::new()
    }
}

} // verus!
