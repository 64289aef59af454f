use vstd::prelude::*;

verus! {

/// Number of cells on the board.
pub const NODE_COUNT: usize = 9;

/// Identifier of one of the nine grid cells, numbered row by row.
#[derive(Debug, Clone, Copy, PartialEq, Eq, Structural, Hash, PartialOrd, Ord)]
pub struct NodeId(pub usize);

/// Row of a cell in the 3x3 layout.
pub open spec fn row_of(n: int) -> int {
    n / 3
}

/// Column of a cell in the 3x3 layout.
pub open spec fn col_of(n: int) -> int {
    n % 3
}

/// Two (row, col) positions are one king's move apart.
pub open spec fn grid_adjacent(r1: int, c1: int, r2: int, c2: int) -> bool {
    !(r1 == r2 && c1 == c2) && -1 <= r1 - r2 <= 1 && -1 <= c1 - c2 <= 1
}

/// Two cells of the board are one king's move apart.
pub open spec fn kings_adjacent(a: int, b: int) -> bool {
    0 <= a < 9 && 0 <= b < 9 && grid_adjacent(row_of(a), col_of(a), row_of(b), col_of(b))
}

/// The cells `0..n` that satisfy `p`, in increasing order.
pub open spec fn cells_where(p: spec_fn(int) -> bool, n: int) -> Seq<NodeId>
    decreases n,
{
    if n <= 0 {
        Seq::empty()
    } else if p(n - 1) {
        cells_where(p, n - 1).push(NodeId((n - 1) as usize))
    } else {
        cells_where(p, n - 1)
    }
}

/// The neighbours of cell `i` under king's moves, in increasing order.
pub open spec fn neighbor_seq(i: int) -> Seq<NodeId> {
    cells_where(|j: int| kings_adjacent(i, j), 9)
}

/// `cells_where` holds exactly the cells below `n` that satisfy `p`, in strictly increasing order.
pub proof fn lemma_cells_where(p: spec_fn(int) -> bool, n: int)
    requires
        0 <= n <= usize::MAX + 1,
    ensures
        forall|j: int| 0 <= j < cells_where(p, n).len() ==> cells_where(p, n)[j].0 < n,
        forall|j: int, k: int|
            0 <= j < k < cells_where(p, n).len() ==> cells_where(p, n)[j].0
                < cells_where(p, n)[k].0,
        forall|c: NodeId| #[trigger]
            cells_where(p, n).contains(c) <==> (c.0 < n && p(c.0 as int)),
        cells_where(p, n).len() <= n,
    decreases n,
{
    if n > 0 {
        lemma_cells_where(p, n - 1);
        let s = cells_where(p, n - 1);
        if p(n - 1) {
            let t = s.push(NodeId((n - 1) as usize));
            assert forall|c: NodeId| #[trigger] t.contains(c) <==> (c.0 < n && p(c.0 as int)) by {
                if c.0 == n - 1 {
                    assert(t[t.len() - 1] == c);
                    assert(t.contains(c));
                } else {
                    if t.contains(c) {
                        let k = choose|k: int| 0 <= k < t.len() && t[k] == c;
                        assert(k < s.len());
                        assert(s[k] == c);
                        assert(s.contains(c));
                    }
                    if c.0 < n && p(c.0 as int) {
                        assert(s.contains(c));
                        let k = choose|k: int| 0 <= k < s.len() && s[k] == c;
                        assert(t[k] == c);
                        assert(t.contains(c));
                    }
                }
            }
        }
    }
}

impl NodeId {
    pub fn new(id: usize) -> (r: NodeId)
        ensures
            r.0 == id,
    {
        NodeId(id)
    }

    pub fn index(&self) -> (r: usize)
        ensures
            r == self.0,
    {
        self.0
    }

    /// Whether this names a cell of the 3x3 board.
    pub fn is_valid(&self) -> (r: bool)
        ensures
            r == (self.0 < 9),
    {
        self.0 < NODE_COUNT
    }
}

/// Grid position (row, col).
#[derive(Debug, Clone, Copy, PartialEq, Eq, Structural, Hash)]
pub struct GridPos {
    pub row: usize,
    pub col: usize,
}

/// `|a - b| <= 1`, computed without leaving `usize`.
fn within_one(a: usize, b: usize) -> (r: bool)
    ensures
        r == (-1 <= a - b <= 1),
{
    if a >= b {
        a - b <= 1
    } else {
        b - a <= 1
    }
}

impl GridPos {
    pub fn new(row: usize, col: usize) -> (r: GridPos)
        ensures
            r.row == row,
            r.col == col,
    {
        GridPos { row, col }
    }

    /// Whether the two positions are one king's move apart.
    pub fn is_adjacent(&self, other: &GridPos) -> (r: bool)
        ensures
            r == grid_adjacent(self.row as int, self.col as int, other.row as int, other.col as int),
    {
        if *self == *other {
            return false;
        }
        within_one(self.row, other.row) && within_one(self.col, other.col)
    }

    /// The cell at this position, numbered row by row:
    /// ```text
    /// 0 1 2
    /// 3 4 5
    /// 6 7 8
    /// ```
    pub fn to_node_id(&self) -> (r: NodeId)
        requires
            self.row * 3 + self.col < 9,
        ensures
            r.0 == self.row * 3 + self.col,
    {
        NodeId(self.row * 3 + self.col)
    }

    /// The position of a cell of the board.
    pub fn from_node_id(node: NodeId) -> (r: GridPos)
        requires
            node.0 < 9,
        ensures
            r.row == row_of(node.0 as int),
            r.col == col_of(node.0 as int),
    {
        GridPos { row: node.0 / 3, col: node.0 % 3 }
    }
}

/// Adjacency of the 3x3 board under king's moves.
#[derive(Debug, Clone)]
pub struct KingsGraph {
    adjacency: Vec<Vec<NodeId>>,
}

impl KingsGraph {
    /// Row `i` of the table lists the neighbours of cell `i` in increasing order.
    pub closed spec fn wf(&self) -> bool {
        &&& self.adjacency@.len() == 9
        &&& forall|i: int| 0 <= i < 9 ==> #[trigger] self.adjacency@[i]@ == neighbor_seq(i)
    }

    pub fn new_3x3() -> (r: KingsGraph)
        ensures
            r.wf(),
    {
        let mut adjacency: Vec<Vec<NodeId>> = Vec::new();
        for i in 0..NODE_COUNT
            invariant
                adjacency@.len() == i,
                forall|k: int| 0 <= k < i ==> #[trigger] adjacency@[k]@ == neighbor_seq(k),
        {
            let pos = GridPos::from_node_id(NodeId(i));
            let mut row: Vec<NodeId> = Vec::new();
            for j in 0..NODE_COUNT
                invariant
                    i < 9,
                    pos.row == row_of(i as int),
                    pos.col == col_of(i as int),
                    row@ == cells_where(|m: int| kings_adjacent(i as int, m), j as int),
            {
                if i != j {
                    let other_pos = GridPos::from_node_id(NodeId(j));
                    if pos.is_adjacent(&other_pos) {
                        row.push(NodeId(j));
                    }
                }
            }
            adjacency.push(row);
        }
        KingsGraph { adjacency }
    }

    /// Whether `a` and `b` are cells of the board one king's move apart.
    pub fn are_adjacent(&self, a: NodeId, b: NodeId) -> (r: bool)
        requires
            self.wf(),
        ensures
            r == kings_adjacent(a.0 as int, b.0 as int),
    {
        if a.index() >= self.adjacency.len() || b.index() >= self.adjacency.len() {
            return false;
        }
        let row = &self.adjacency[a.index()];
        proof {
            lemma_cells_where(|j: int| kings_adjacent(a.0 as int, j), 9);
        }
        assert(row@.contains(b) == kings_adjacent(a.0 as int, b.0 as int));
        let mut k: usize = 0;
        while k < row.len()
            invariant
                row@ == neighbor_seq(a.0 as int),
                k <= row@.len(),
                forall|m: int| 0 <= m < k ==> row@[m] != b,
                row@.contains(b) == kings_adjacent(a.0 as int, b.0 as int),
            decreases row@.len() - k,
        {
            if row[k] == b {
                assert(row@[k as int] == b);
                return true;
            }
            k += 1;
        }
        false
    }

    /// The neighbours of a cell, in increasing order.
    pub fn neighbors(&self, node: NodeId) -> (r: &[NodeId])
        requires
            self.wf(),
            node.0 < 9,
        ensures
            r@ == neighbor_seq(node.0 as int),
    {
        self.adjacency[node.index()].as_slice()
    }
}

impl Default for KingsGraph {
    fn default() -> (r: KingsGraph)
        ensures
            r.wf(),
    {
        KingsGraph::new_3x3()
    }
}

} // verus!
