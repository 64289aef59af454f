use vstd::prelude::*;

use super::edge::{Edge, EdgeSet};
use crate::text::{decimal, push_decimal};

verus! {

/// The order in which a solution lists its edges: by first endpoint, then by second.
pub open spec fn edge_lt(a: Edge, b: Edge) -> bool {
    a.from.0 < b.from.0 || (a.from.0 == b.from.0 && a.to.0 < b.to.0)
}

/// Each edge comes strictly before the next.
pub open spec fn sorted_edges(s: Seq<Edge>) -> bool {
    forall|i: int, j: int| 0 <= i < j < s.len() ==> edge_lt(#[trigger] s[i], #[trigger] s[j])
}

/// Two strictly sorted lists with the same members are the same list.
pub proof fn lemma_sorted_unique(a: Seq<Edge>, b: Seq<Edge>)
    requires
        sorted_edges(a),
        sorted_edges(b),
        a.to_set() == b.to_set(),
    ensures
        a == b,
    decreases a.len() + b.len(),
{
    if a.len() == 0 {
        if b.len() > 0 {
            assert(b.to_set().contains(b[0]));
        }
        assert(a =~= b);
    } else if b.len() == 0 {
        assert(a.to_set().contains(a[0]));
    } else {
        assert(a.to_set().contains(a[0]));
        assert(b.to_set().contains(b[0]));
        assert(b.contains(a[0]));
        assert(a.contains(b[0]));
        let m = choose|m: int| 0 <= m < b.len() && b[m] == a[0];
        let n = choose|n: int| 0 <= n < a.len() && a[n] == b[0];
        if m > 0 && n > 0 {
            assert(edge_lt(b[0], b[m]));
            assert(edge_lt(a[0], a[n]));
        }
        assert(a[0] == b[0]);
        let a1 = a.drop_first();
        let b1 = b.drop_first();
        assert forall|x: Edge| a1.to_set().contains(x) <==> b1.to_set().contains(x) by {
            if a1.to_set().contains(x) {
                let k = choose|k: int| 0 <= k < a1.len() && a1[k] == x;
                assert(a[k + 1] == x);
                assert(edge_lt(a[0], a[k + 1]));
                assert(a.to_set().contains(x));
                assert(b.contains(x));
                let j = choose|j: int| 0 <= j < b.len() && b[j] == x;
                assert(j != 0);
                assert(b1[j - 1] == x);
                assert(b1.contains(x));
            }
            if b1.to_set().contains(x) {
                let k = choose|k: int| 0 <= k < b1.len() && b1[k] == x;
                assert(b[k + 1] == x);
                assert(edge_lt(b[0], b[k + 1]));
                assert(b.to_set().contains(x));
                assert(a.contains(x));
                let j = choose|j: int| 0 <= j < a.len() && a[j] == x;
                assert(j != 0);
                assert(a1[j - 1] == x);
                assert(a1.contains(x));
            }
        }
        assert(a1.to_set() =~= b1.to_set());
        lemma_sorted_unique(a1, b1);
        assert forall|i: int| 0 <= i < a.len() implies a[i] == b[i] by {
            if i > 0 {
                assert(a[i] == a1[i - 1] && b[i] == b1[i - 1]);
            }
        }
        assert(a =~= b);
    }
}

/// An edge written as `from-to`.
pub open spec fn edge_text(e: Edge) -> Seq<char> {
    decimal(e.from.0 as nat) + seq!['-'] + decimal(e.to.0 as nat)
}

/// Edges written one after another, separated by commas.
pub open spec fn edges_text(s: Seq<Edge>) -> Seq<char>
    decreases s.len(),
{
    if s.len() == 0 {
        Seq::empty()
    } else if s.len() == 1 {
        edge_text(s[0])
    } else {
        edges_text(s.drop_last()) + seq![','] + edge_text(s.last())
    }
}

/// A set of edges that completed the puzzle once. Its edges are kept
/// sorted, so two solutions with the same edges have the same
/// representation, compare equal and hash alike.
#[derive(Debug, Clone, Eq, Hash)]
pub struct Solution {
    edges: Vec<Edge>,
}

impl Solution {
    /// The edges in their canonical order.
    pub closed spec fn edge_list(&self) -> Seq<Edge> {
        self.edges@
    }

    pub open spec fn wf(&self) -> bool {
        sorted_edges(self.edge_list())
    }

    /// The edges, as a set.
    pub open spec fn edge_set(&self) -> Set<Edge> {
        self.edge_list().to_set()
    }

    pub fn new() -> (r: Solution)
        ensures
            r.wf(),
            r.edge_list() == Seq::<Edge>::empty(),
            r.edge_set() == Set::<Edge>::empty(),
    {
        let r = Solution { edges: Vec::new() };
        assert(r.edge_set() =~= Set::<Edge>::empty());
        r
    }

    /// The edges of `edge_set`, whatever the order they were drawn in.
    pub fn from_edge_set(edge_set: &EdgeSet) -> (r: Solution)
        ensures
            r.wf(),
            r.edge_set() == edge_set@.to_set(),
    {
        let edges = edge_set.edges_in_order();
        let mut r = Solution::new();
        let mut k: usize = 0;
        while k < edges.len()
            invariant
                edges@ == edge_set@,
                k <= edges@.len(),
                r.wf(),
                r.edge_set() == edges@.take(k as int).to_set(),
            decreases edges@.len() - k,
        {
            r.add_edge(edges[k]);
            assert(edges@.take(k + 1) =~= edges@.take(k as int).push(edges@[k as int]));
            proof {
                edges@.take(k as int).lemma_push_to_set_commute(edges@[k as int]);
            }
            k += 1;
        }
        assert(edges@.take(k as int) =~= edges@);
        r
    }

    /// Adds `edge` if it is not already there.
    pub fn add_edge(&mut self, edge: Edge)
        requires
            old(self).wf(),
        ensures
            final(self).wf(),
            final(self).edge_set() == old(self).edge_set().insert(edge),
    {
        let mut k: usize = 0;
        while k < self.edges.len() && edge_before(&self.edges[k], &edge)
            invariant
                k <= self.edges@.len(),
                forall|i: int| 0 <= i < k ==> edge_lt(#[trigger] self.edges@[i], edge),
            decreases self.edges@.len() - k,
        {
            k += 1;
        }
        if k < self.edges.len() && self.edges[k] == edge {
            assert(self.edge_list().contains(edge));
            assert(self.edge_set() =~= old(self).edge_set().insert(edge));
            return;
        }
        let ghost s = self.edges@;
        self.edges.insert(k, edge);
        proof {
            let t = self.edges@;
            assert(t =~= s.take(k as int).push(edge) + s.skip(k as int));
            assert forall|i: int, j: int| 0 <= i < j < t.len() implies edge_lt(
                #[trigger] t[i],
                #[trigger] t[j],
            ) by {
                if j < k {
                    assert(t[i] == s[i] && t[j] == s[j]);
                } else if j == k {
                    assert(t[i] == s[i]);
                } else if i == k {
                    assert(t[j] == s[j - 1]);
                    assert(!edge_lt(s[k as int], edge));
                    if j - 1 > k {
                        assert(edge_lt(s[k as int], s[j - 1]));
                    }
                } else if i < k {
                    assert(t[i] == s[i] && t[j] == s[j - 1]);
                    assert(edge_lt(s[i], edge));
                    assert(!edge_lt(s[k as int], edge));
                    if j - 1 > k {
                        assert(edge_lt(s[k as int], s[j - 1]));
                    }
                } else {
                    assert(t[i] == s[i - 1] && t[j] == s[j - 1]);
                }
            }
            assert forall|x: Edge| t.to_set().contains(x) <==> s.to_set().insert(edge).contains(x) by {
                if t.to_set().contains(x) {
                    let i = choose|i: int| 0 <= i < t.len() && t[i] == x;
                    if i < k {
                        assert(s[i] == x);
                    } else if i > k {
                        assert(s[i - 1] == x);
                    }
                }
                if s.to_set().contains(x) {
                    let i = choose|i: int| 0 <= i < s.len() && s[i] == x;
                    if i < k {
                        assert(t[i] == x);
                    } else {
                        assert(t[i + 1] == x);
                    }
                }
                if x == edge {
                    assert(t[k as int] == x);
                }
            }
            assert(t.to_set() =~= s.to_set().insert(edge));
        }
    }

    pub fn contains(&self, edge: &Edge) -> (r: bool)
        ensures
            r == self.edge_set().contains(*edge),
    {
        let mut k: usize = 0;
        while k < self.edges.len()
            invariant
                k <= self.edges@.len(),
                forall|m: int| 0 <= m < k ==> self.edges@[m] != *edge,
            decreases self.edges@.len() - k,
        {
            if self.edges[k] == *edge {
                assert(self.edges@[k as int] == *edge);
                return true;
            }
            k += 1;
        }
        false
    }

    /// Number of edges.
    pub fn len(&self) -> (r: usize)
        requires
            self.wf(),
        ensures
            r == self.edge_set().len(),
    {
        proof {
            self.lemma_no_duplicates();
            self.edge_list().unique_seq_to_set();
        }
        self.edges.len()
    }

    /// Whether the two solutions have the same edges, in whatever order they were found.
    pub fn matches(&self, other: &Solution) -> (r: bool)
        requires
            self.wf(),
            other.wf(),
        ensures
            r == (self.edge_set() == other.edge_set()),
    {
        let r = self.same_edges(other);
        proof {
            if self.edge_set() == other.edge_set() {
                lemma_sorted_unique(self.edge_list(), other.edge_list());
            }
        }
        r
    }

    /// The edges, sorted by first endpoint and then by second.
    pub fn edges(&self) -> (r: &[Edge])
        ensures
            r@ == self.edge_list(),
    {
        self.edges.as_slice()
    }

    pub fn is_empty(&self) -> (r: bool)
        requires
            self.wf(),
        ensures
            r == (self.edge_set().len() == 0),
    {
        proof {
            self.lemma_no_duplicates();
            self.edge_list().unique_seq_to_set();
        }
        self.edges.len() == 0
    }

    /// The edges in canonical order, as `from-to` separated by commas,
    /// for instance `0-1,1-2,2-3`.
    pub fn canonical_string(&self) -> (r: String)
        ensures
            r@ == edges_text(self.edge_list()),
    {
        let mut out = String::new();
        let mut k: usize = 0;
        while k < self.edges.len()
            invariant
                k <= self.edges@.len(),
                out@ == edges_text(self.edges@.take(k as int)),
            decreases self.edges@.len() - k,
        {
            let e = self.edges[k];
            let ghost before = out@;
            proof {
                reveal_strlit(",");
                reveal_strlit("-");
            }
            if k > 0 {
                out.append(",");
            }
            push_decimal(&mut out, e.from.0);
            out.append("-");
            push_decimal(&mut out, e.to.0);
            proof {
                let t = self.edges@.take(k + 1);
                assert(t.drop_last() =~= self.edges@.take(k as int));
                assert(t.last() == e);
                if k == 0 {
                    assert(before == Seq::<char>::empty());
                    assert(t[0] == e);
                    assert(out@ =~= edge_text(e));
                } else {
                    assert(out@ =~= before + seq![','] + edge_text(e));
                }
            }
            k += 1;
        }
        assert(self.edges@.take(k as int) =~= self.edges@);
        out
    }

    /// A sorted list has no repeated edge.
    proof fn lemma_no_duplicates(&self)
        requires
            self.wf(),
        ensures
            self.edge_list().no_duplicates(),
    {
        let s = self.edge_list();
        assert forall|i: int, j: int| 0 <= i < s.len() && 0 <= j < s.len() && i != j implies s[i]
            != s[j] by {
            if i < j {
                assert(edge_lt(s[i], s[j]));
            } else {
                assert(edge_lt(s[j], s[i]));
            }
        }
    }

    /// Representation equality, which for well-formed solutions is equality of edge sets.
    fn same_edges(&self, other: &Solution) -> (r: bool)
        ensures
            r == (self.edge_list() == other.edge_list()),
    {
        if self.edges.len() != other.edges.len() {
            return false;
        }
        let mut k: usize = 0;
        while k < self.edges.len()
            invariant
                self.edges@.len() == other.edges@.len(),
                k <= self.edges@.len(),
                forall|m: int| 0 <= m < k ==> self.edges@[m] == other.edges@[m],
            decreases self.edges@.len() - k,
        {
            if self.edges[k] != other.edges[k] {
                return false;
            }
            k += 1;
        }
        assert(self.edges@ =~= other.edges@);
        true
    }
}

/// `edge_lt` on two edges.
fn edge_before(a: &Edge, b: &Edge) -> (r: bool)
    ensures
        r == edge_lt(*a, *b),
{
    a.from.0 < b.from.0 || (a.from.0 == b.from.0 && a.to.0 < b.to.0)
}

impl PartialEq for Solution {
    fn eq(&self, other: &Solution) -> (r: bool) {
        self.same_edges(other)
    }
}

impl vstd::std_specs::cmp::PartialEqSpecImpl for Solution {
    open spec fn obeys_eq_spec() -> bool {
        true
    }

    open spec fn eq_spec(&self, other: &Solution) -> bool {
        self.edge_list() == other.edge_list()
    }
}

impl Default for Solution {
    fn default() -> (r: Solution)
        ensures
            r.wf(),
            r.edge_set() == Set::<Edge>::empty(),
    {
        Solution::new()
    }
}

/// A solution does not depend on the order its edges were found in: two
/// well-formed solutions with the same edges have the same representation,
/// so they compare equal and hash alike.
pub proof fn lemma_solution_order_independent(a: Solution, b: Solution)
    requires
        a.wf(),
        b.wf(),
        a.edge_set() == b.edge_set(),
    ensures
        a.edge_list() == b.edge_list(),
{
    lemma_sorted_unique(a.edge_list(), b.edge_list());
}

} // verus!
