use vstd::prelude::*;
use std::collections::HashMap;
use vstd::set_lib::{lemma_int_range, lemma_len_subset, lemma_subset_equality, set_int_range};
use vstd::string::StringSliceAdditionalSpecFns;

pub mod corpus;
pub mod transforms;

pub use corpus::CorpusError;
pub use transforms::{apply_symmetry, Symmetry};

use crate::game::chance::random_below;
use crate::graph::valences::{lemma_valences_len, seq_sum, Valences};
use corpus::{
    corpus_records, field_values, parse_number, pieces, records_of_lines, split_bytes, trim_bytes,
};
use transforms::{lemma_transformed_sum, transformed};

verus! {

broadcast use {lemma_valences_len, vstd::std_specs::hash::group_hash_axioms};

/// The valences of the records with complexity `c`, in corpus order.
pub open spec fn records_at(rows: Seq<(Seq<usize>, usize)>, c: usize) -> Seq<Seq<usize>>
    decreases rows.len(),
{
    if rows.len() == 0 {
        Seq::empty()
    } else {
        let p = records_at(rows.drop_last(), c);
        if rows.last().1 == c {
            p.push(rows.last().0)
        } else {
            p
        }
    }
}

/// `cfg` is the record `base` of complexity `c`, moved by `s`, with the
/// solution estimate `c / (sum of its valences / 2)`.
pub open spec fn is_variant(cfg: PuzzleConfig, base: Seq<usize>, c: usize, s: Symmetry) -> bool {
    &&& cfg.valences@ == transformed(base, s)
    &&& cfg.complexity == c
    &&& cfg.total_solutions == c as int / (seq_sum(cfg.valences@) / 2)
}

/// The indices below `n` that are not listed in `tried`, in increasing order.
pub open spec fn untried_indices(n: int, tried: Seq<usize>) -> Seq<usize>
    decreases n,
{
    if n <= 0 {
        Seq::empty()
    } else if tried.contains((n - 1) as usize) {
        untried_indices(n - 1, tried)
    } else {
        untried_indices(n - 1, tried).push((n - 1) as usize)
    }
}

/// The base puzzles of the corpus, grouped by complexity, each group in
/// corpus order, with the complexities present kept in ascending order.
#[derive(Clone)]
pub struct PuzzleLibrary {
    puzzles_by_complexity: HashMap<usize, Vec<Valences>>,
    complexities: Vec<usize>,
    count: usize,
    rows: Ghost<Seq<(Seq<usize>, usize)>>,
}

/// One puzzle instance to play.
#[derive(Debug, Clone, Copy)]
pub struct PuzzleConfig {
    pub valences: Valences,
    pub complexity: usize,
    pub total_solutions: usize,
}

/// Once a prefix of the fields fails to parse, all of them fail.
proof fn lemma_field_values_prefix_none(fs: Seq<Seq<u8>>, j: int)
    requires
        0 <= j <= fs.len(),
        field_values(fs.take(j)) is None,
    ensures
        field_values(fs) is None,
    decreases fs.len(),
{
    if j < fs.len() {
        assert(fs.drop_last().take(j) =~= fs.take(j));
        lemma_field_values_prefix_none(fs.drop_last(), j);
    } else {
        assert(fs.take(j) =~= fs);
    }
}

/// The first bad line decides the error of the whole corpus.
proof fn lemma_records_prefix_err(lines: Seq<Seq<u8>>, i: int, e: CorpusError)
    requires
        0 <= i <= lines.len(),
        records_of_lines(lines.take(i)) == Err::<Seq<(Seq<usize>, usize)>, CorpusError>(e),
    ensures
        records_of_lines(lines) == Err::<Seq<(Seq<usize>, usize)>, CorpusError>(e),
    decreases lines.len(),
{
    if i < lines.len() {
        assert(lines.drop_last().take(i) =~= lines.take(i));
        lemma_records_prefix_err(lines.drop_last(), i, e);
    } else {
        assert(lines.take(i) =~= lines);
    }
}

/// The records of a prefix of the corpus come first among all records.
proof fn lemma_records_at_prefix(rows: Seq<(Seq<usize>, usize)>, k: int, c: usize)
    requires
        0 <= k <= rows.len(),
    ensures
        records_at(rows.take(k), c).len() <= records_at(rows, c).len(),
        forall|i: int|
            0 <= i < records_at(rows.take(k), c).len() ==> #[trigger] records_at(rows.take(k), c)[i]
                == records_at(rows, c)[i],
    decreases rows.len(),
{
    if k < rows.len() {
        assert(rows.drop_last().take(k) =~= rows.take(k));
        lemma_records_at_prefix(rows.drop_last(), k, c);
    } else {
        assert(rows.take(k) =~= rows);
    }
}

proof fn lemma_untried_indices(n: int, tried: Seq<usize>)
    requires
        0 <= n <= usize::MAX + 1,
    ensures
        forall|x: usize| #[trigger]
            untried_indices(n, tried).contains(x) <==> (x < n && !tried.contains(x)),
    decreases n,
{
    if n > 0 {
        lemma_untried_indices(n - 1, tried);
        let s = untried_indices(n - 1, tried);
        if !tried.contains((n - 1) as usize) {
            let t = s.push((n - 1) as usize);
            assert forall|x: usize| #[trigger] t.contains(x) <==> (x < n && !tried.contains(x)) by {
                if x == n - 1 {
                    assert(t[t.len() - 1] == x);
                    assert(t.contains(x));
                } else {
                    if t.contains(x) {
                        let k = choose|k: int| 0 <= k < t.len() && t[k] == x;
                        assert(k < s.len());
                        assert(s[k] == x);
                        assert(s.contains(x));
                    }
                    if x < n && !tried.contains(x) {
                        assert(s.contains(x));
                        let k = choose|k: int| 0 <= k < s.len() && s[k] == x;
                        assert(t[k] == x);
                        assert(t.contains(x));
                    }
                }
            }
        }
    }
}

/// Whether `x` is listed in `xs`.
fn listed(xs: &[usize], x: usize) -> (r: bool)
    ensures
        r == xs@.contains(x),
{
    let mut k: usize = 0;
    while k < xs.len()
        invariant
            k <= xs@.len(),
            forall|m: int| 0 <= m < k ==> xs@[m] != x,
        decreases xs@.len() - k,
    {
        if xs[k] == x {
            assert(xs@[k as int] == x);
            return true;
        }
        k += 1;
    }
    false
}

/// Adds `c` to a strictly ascending list unless it is already there.
fn insert_sorted(r: &mut Vec<usize>, c: usize)
    requires
        forall|i: int, j: int| 0 <= i < j < old(r)@.len() ==> old(r)@[i] < old(r)@[j],
    ensures
        forall|i: int, j: int| 0 <= i < j < final(r)@.len() ==> final(r)@[i] < final(r)@[j],
        forall|x: usize| #[trigger] final(r)@.contains(x) <==> (old(r)@.contains(x) || x == c),
{
    let mut p: usize = 0;
    while p < r.len() && r[p] < c
        invariant
            p <= r@.len(),
            forall|i: int| 0 <= i < p ==> r@[i] < c,
        decreases r@.len() - p,
    {
        p += 1;
    }
    if p < r.len() && r[p] == c {
        assert(r@.contains(c));
        return;
    }
    let ghost s = r@;
    r.insert(p, c);
    proof {
        let t = r@;
        assert forall|i: int, j: int| 0 <= i < j < t.len() implies t[i] < t[j] by {
            if j < p {
                assert(t[i] == s[i] && t[j] == s[j]);
            } else if j == p {
                assert(t[i] == s[i]);
            } else if i == p {
                assert(t[j] == s[j - 1]);
                if j - 1 > p {
                    assert(s[p as int] < s[j - 1]);
                }
            } else if i < p {
                assert(t[i] == s[i] && t[j] == s[j - 1]);
                if j - 1 > p {
                    assert(s[p as int] < s[j - 1]);
                }
            } else {
                assert(t[i] == s[i - 1] && t[j] == s[j - 1]);
            }
        }
        assert forall|x: usize| #[trigger] t.contains(x) <==> (s.contains(x) || x == c) by {
            if t.contains(x) {
                let i = choose|i: int| 0 <= i < t.len() && t[i] == x;
                if i < p {
                    assert(s[i] == x);
                } else if i > p {
                    assert(s[i - 1] == x);
                }
            }
            if s.contains(x) {
                let i = choose|i: int| 0 <= i < s.len() && s[i] == x;
                if i < p {
                    assert(t[i] == x);
                } else {
                    assert(t[i + 1] == x);
                }
            }
            if x == c {
                assert(t[p as int] == x);
            }
        }
    }
}

impl PuzzleLibrary {
    /// The records of the corpus, in order: nine valences and a complexity each.
    pub closed spec fn rows(&self) -> Seq<(Seq<usize>, usize)> {
        self.rows@
    }

    /// The groups hold exactly the records of each complexity, in corpus
    /// order; the complexity list holds the keys in ascending order; the
    /// count is the number of records.
    pub closed spec fn wf(&self) -> bool {
        &&& forall|i: int| 0 <= i < self.rows@.len() ==> (#[trigger] self.rows@[i]).0.len() == 9
        &&& forall|c: usize| #[trigger]
            self.puzzles_by_complexity@.contains_key(c) <==> records_at(self.rows@, c).len() > 0
        &&& forall|c: usize|
            self.puzzles_by_complexity@.contains_key(c) ==> (
            #[trigger] self.puzzles_by_complexity@[c])@.map_values(|v: Valences| v@) == records_at(
                self.rows@,
                c,
            )
        &&& forall|i: int, j: int|
            0 <= i < j < self.complexities@.len() ==> self.complexities@[i] < self.complexities@[j]
        &&& forall|c: usize| #[trigger]
            self.complexities@.contains(c) <==> self.puzzles_by_complexity@.contains_key(c)
        &&& self.count == self.rows@.len()
    }

    /// Every record of the corpus holds nine valences.
    pub proof fn lemma_rows_have_nine_valences(&self)
        requires
            self.wf(),
        ensures
            forall|i: int| 0 <= i < self.rows().len() ==> (#[trigger] self.rows()[i]).0.len() == 9,
    {
    }

    /// A library with no record yet.
    fn empty() -> (r: PuzzleLibrary)
        ensures
            r.wf(),
            r.rows() == Seq::<(Seq<usize>, usize)>::empty(),
    {
        PuzzleLibrary {
            puzzles_by_complexity: HashMap::new(),
            complexities: Vec::new(),
            count: 0,
            rows: Ghost(Seq::empty()),
        }
    }

    /// Adds a record at the end of the corpus.
    fn insert_record(&mut self, valences: Valences, complexity: usize)
        requires
            old(self).wf(),
            old(self).rows().len() < usize::MAX,
        ensures
            final(self).wf(),
            final(self).rows() == old(self).rows().push((valences@, complexity)),
    {
        let ghost old_rows = self.rows@;
        let ghost old_map = self.puzzles_by_complexity@;
        let mut list = match self.puzzles_by_complexity.remove(&complexity) {
            Some(l) => l,
            None => {
                insert_sorted(&mut self.complexities, complexity);
                Vec::new()
            },
        };
        let ghost old_list = list@;
        list.push(valences);
        self.puzzles_by_complexity.insert(complexity, list);
        self.count = self.count + 1;
        self.rows = Ghost(old_rows.push((valences@, complexity)));
        proof {
            let new_rows = self.rows@;
            assert(new_rows.drop_last() =~= old_rows);
            if old_map.contains_key(complexity) {
                assert(old_list == old_map[complexity]@);
            } else {
                assert(records_at(old_rows, complexity).len() == 0);
                assert(old_list.map_values(|v: Valences| v@) =~= records_at(old_rows, complexity));
            }
            assert(records_at(new_rows, complexity) == records_at(old_rows, complexity).push(valences@));
            assert(self.puzzles_by_complexity@[complexity]@.map_values(|v: Valences| v@) =~= records_at(
                new_rows,
                complexity,
            ));
            assert forall|c: usize| #[trigger]
                self.puzzles_by_complexity@.contains_key(c) <==> records_at(new_rows, c).len()
                    > 0 by {
                if c != complexity {
                    assert(records_at(new_rows, c) == records_at(old_rows, c));
                }
            }
            assert forall|c: usize|
                self.puzzles_by_complexity@.contains_key(c) implies (
                #[trigger] self.puzzles_by_complexity@[c])@.map_values(|v: Valences| v@)
                == records_at(new_rows, c) by {
                if c != complexity {
                    assert(records_at(new_rows, c) == records_at(old_rows, c));
                    assert(self.puzzles_by_complexity@[c] == old_map[c]);
                }
            }
            assert forall|i: int| 0 <= i < new_rows.len() implies (#[trigger] new_rows[i]).0.len()
                == 9 by {
                if i < old_rows.len() {
                    assert(new_rows[i] == old_rows[i]);
                }
            }
        }
    }

    /// Every record of complexity `c` has a valence sum from 2 up to `usize::MAX`,
    /// so that its solution estimate is defined.
    pub open spec fn estimable(&self, c: usize) -> bool {
        forall|i: int|
            0 <= i < records_at(self.rows(), c).len() ==> 2 <= #[trigger] seq_sum(
                records_at(self.rows(), c)[i],
            ) <= usize::MAX
    }

    /// Reads a corpus: one record per non-blank line, each ten comma-separated
    /// non-negative integers, nine valences then the complexity. Fails on the
    /// first malformed line, or when there is no record at all.
    #[verifier::loop_isolation(false)]
    pub fn from_csv(csv_data: &str) -> (r: Result<PuzzleLibrary, CorpusError>)
        ensures
            match corpus_records(csv_data.spec_bytes()) {
                Err(e) => r == Err::<PuzzleLibrary, CorpusError>(e),
                Ok(rows) => if rows.len() == 0 {
                    r == Err::<PuzzleLibrary, CorpusError>(CorpusError::Empty)
                } else {
                    r is Ok && r->Ok_0.wf() && r->Ok_0.rows() == rows
                },
            },
    {
        let bytes = csv_data.as_bytes();
        let lines = split_bytes(bytes, 10);
        let ghost lv = lines@.map_values(|v: Vec<u8>| v@);
        let mut library = PuzzleLibrary::empty();
        let mut i: usize = 0;
        assert(lv.take(0) =~= Seq::<Seq<u8>>::empty());
        while i < lines.len()
            invariant
                lv == lines@.map_values(|v: Vec<u8>| v@),
                lv == pieces(bytes@, 10),
                bytes@ == csv_data.spec_bytes(),
                i <= lines@.len(),
                library.wf(),
                library.rows().len() <= i,
                records_of_lines(lv.take(i as int)) == Ok::<Seq<(Seq<usize>, usize)>, CorpusError>(
                    library.rows(),
                ),
            decreases lines@.len() - i,
        {
            let line = &lines[i];
            let ghost prev = library.rows();
            assert(lv.take(i + 1).drop_last() =~= lv.take(i as int));
            assert(lv[i as int] == line@);
            let t = trim_bytes(line.as_slice());
            if t.len() != 0 {
                let fields = split_bytes(line.as_slice(), 44);
                let ghost fv = fields@.map_values(|v: Vec<u8>| v@);
                let mut values: Vec<usize> = Vec::new();
                let mut j: usize = 0;
                assert(fv.take(0) =~= Seq::<Seq<u8>>::empty());
                while j < fields.len()
                    invariant
                        fv == fields@.map_values(|v: Vec<u8>| v@),
                        j <= fields@.len(),
                        field_values(fv.take(j as int)) == Some(values@),
                        values@.len() == j,
                    decreases fields@.len() - j,
                {
                    assert(fv.take(j + 1).drop_last() =~= fv.take(j as int));
                    assert(fv[j as int] == fields@[j as int]@);
                    match parse_number(fields[j].as_slice()) {
                        Some(n) => {
                            values.push(n);
                        },
                        None => {
                            proof {
                                lemma_field_values_prefix_none(fv, j + 1);
                                lemma_records_prefix_err(
                                    lv,
                                    i + 1,
                                    CorpusError::BadNumber { line: (i + 1) as usize },
                                );
                            }
                            return Err(CorpusError::BadNumber { line: i + 1 });
                        },
                    }
                    j += 1;
                }
                assert(fv.take(j as int) =~= fv);
                if values.len() != 10 {
                    proof {
                        lemma_records_prefix_err(
                            lv,
                            i + 1,
                            CorpusError::WrongFieldCount { line: (i + 1) as usize, count: values@.len() as usize },
                        );
                    }
                    return Err(CorpusError::WrongFieldCount { line: i + 1, count: values.len() });
                }
                let mut nine: Vec<usize> = Vec::new();
                for m in 0..9
                    invariant
                        values@.len() == 10,
                        nine@ == values@.take(m as int),
                {
                    nine.push(values[m]);
                    assert(nine@ =~= values@.take(m + 1));
                }
                library.insert_record(Valences::new(nine), values[9]);
            }
            i += 1;
        }
        assert(lv.take(i as int) =~= lv);
        if library.count == 0 {
            return Err(CorpusError::Empty);
        }
        Ok(library)
    }

    /// Number of base puzzles of complexity `complexity`.
    pub fn puzzle_count(&self, complexity: usize) -> (r: usize)
        requires
            self.wf(),
        ensures
            r == records_at(self.rows(), complexity).len(),
    {
        match self.puzzles_by_complexity.get(&complexity) {
            Some(list) => {
                assert(list@.map_values(|v: Valences| v@).len() == list@.len());
                list.len()
            },
            None => 0,
        }
    }

    /// The complexities present in the corpus, ascending, each once.
    pub fn available_complexities(&self) -> (r: Vec<usize>)
        requires
            self.wf(),
        ensures
            forall|i: int, j: int| 0 <= i < j < r@.len() ==> r@[i] < r@[j],
            forall|c: usize| #[trigger] r@.contains(c) <==> records_at(self.rows(), c).len() > 0,
    {
        let mut r: Vec<usize> = Vec::new();
        let mut k: usize = 0;
        while k < self.complexities.len()
            invariant
                k <= self.complexities@.len(),
                r@ == self.complexities@.take(k as int),
            decreases self.complexities@.len() - k,
        {
            r.push(self.complexities[k]);
            assert(r@ =~= self.complexities@.take(k + 1));
            k += 1;
        }
        assert(r@ =~= self.complexities@);
        r
    }

    /// Number of base puzzles in the whole corpus.
    pub fn total_puzzle_count(&self) -> (r: usize)
        requires
            self.wf(),
        ensures
            r == self.rows().len(),
    {
        self.count
    }

    /// The `index`-th record of complexity `complexity`, in corpus order.
    fn record_at(&self, complexity: usize, index: usize) -> (r: Option<Valences>)
        requires
            self.wf(),
        ensures
            index < records_at(self.rows(), complexity).len() ==> r is Some && r->Some_0@
                == records_at(self.rows(), complexity)[index as int],
            index >= records_at(self.rows(), complexity).len() ==> r is None,
    {
        match self.puzzles_by_complexity.get(&complexity) {
            Some(list) => {
                let ghost view = list@.map_values(|v: Valences| v@);
                assert(view.len() == list@.len());
                if index < list.len() {
                    assert(view[index as int] == list@[index as int]@);
                    Some(list[index])
                } else {
                    None
                }
            },
            None => None,
        }
    }

    /// The solution estimate of a puzzle: its complexity divided by its
    /// number of edges, half the sum of its valences.
    pub fn solution_count_for_puzzle(valences: &Valences, complexity: usize) -> (r: usize)
        requires
            2 <= seq_sum(valences@) <= usize::MAX,
        ensures
            r == complexity as int / (seq_sum(valences@) / 2),
    {
        let num_edges = valences.total() / 2;
        complexity / num_edges
    }

    /// Whether every record of complexity `complexity` has an estimate.
    pub fn is_estimable(&self, complexity: usize) -> (r: bool)
        requires
            self.wf(),
        ensures
            r == self.estimable(complexity),
    {
        let n = self.puzzle_count(complexity);
        let mut i: usize = 0;
        while i < n
            invariant
                self.wf(),
                n == records_at(self.rows(), complexity).len(),
                i <= n,
                forall|m: int|
                    0 <= m < i ==> 2 <= #[trigger] seq_sum(records_at(self.rows(), complexity)[m])
                        <= usize::MAX,
            decreases n - i,
        {
            let v = match self.record_at(complexity, i) {
                Some(v) => v,
                None => {
                    return false;
                },
            };
            assert(v@ == records_at(self.rows(), complexity)[i as int]);
            match v.checked_total() {
                Some(t) => {
                    if t < 2 {
                        return false;
                    }
                    assert(2 <= seq_sum(records_at(self.rows(), complexity)[i as int]) <= usize::MAX);
                },
                None => {
                    return false;
                },
            }
            i += 1;
        }
        true
    }

    /// The `index`-th base puzzle of complexity `complexity`, moved by
    /// `symmetry`, with its solution estimate; none if there is no such record.
    pub fn puzzle_variant(&self, complexity: usize, index: usize, symmetry: Symmetry) -> (r: Option<
        PuzzleConfig,
    >)
        requires
            self.wf(),
            self.estimable(complexity),
        ensures
            index >= records_at(self.rows(), complexity).len() ==> r is None,
            index < records_at(self.rows(), complexity).len() ==> r is Some && is_variant(
                r->Some_0,
                records_at(self.rows(), complexity)[index as int],
                complexity,
                symmetry,
            ),
    {
        match self.record_at(complexity, index) {
            None => None,
            Some(base) => {
                let valences = apply_symmetry(&base, symmetry);
                proof {
                    lemma_transformed_sum(base@, symmetry);
                }
                let total_solutions = Self::solution_count_for_puzzle(&valences, complexity);
                Some(PuzzleConfig { valences, complexity, total_solutions })
            },
        }
    }

    /// A uniformly drawn base puzzle of complexity `complexity`, moved by a
    /// uniformly drawn symmetry; none if the corpus has no such puzzle.
    pub fn random_puzzle(&self, complexity: usize) -> (r: Option<PuzzleConfig>)
        requires
            self.wf(),
            self.estimable(complexity),
        ensures
            r is None <==> records_at(self.rows(), complexity).len() == 0,
            r is Some ==> exists|i: int, s: Symmetry|
                0 <= i < records_at(self.rows(), complexity).len() && #[trigger] is_variant(
                    r->Some_0,
                    records_at(self.rows(), complexity)[i],
                    complexity,
                    s,
                ),
    {
        let n = self.puzzle_count(complexity);
        if n == 0 {
            return None;
        }
        let index = random_below(n);
        let symmetry = Symmetry::random();
        self.puzzle_variant(complexity, index, symmetry)
    }

    /// Like `random_puzzle`, but drawn among the base puzzles whose index
    /// (among those of this complexity) is not in `tried_indices`; returns
    /// that index too. None once every one has been tried.
    pub fn untried_puzzle(&self, complexity: usize, tried_indices: &[usize]) -> (r: Option<
        (PuzzleConfig, usize),
    >)
        requires
            self.wf(),
            self.estimable(complexity),
        ensures
            r is None <==> forall|i: usize|
                i < records_at(self.rows(), complexity).len() ==> #[trigger] tried_indices@.contains(i),
            r is Some ==> {
                let (cfg, idx) = r->Some_0;
                &&& idx < records_at(self.rows(), complexity).len()
                &&& !tried_indices@.contains(idx)
                &&& exists|s: Symmetry|
                    is_variant(cfg, records_at(self.rows(), complexity)[idx as int], complexity, s)
            },
    {
        let n = self.puzzle_count(complexity);
        let mut untried: Vec<usize> = Vec::new();
        let mut i: usize = 0;
        while i < n
            invariant
                i <= n,
                untried@ == untried_indices(i as int, tried_indices@),
            decreases n - i,
        {
            if !listed(tried_indices, i) {
                untried.push(i);
            }
            i += 1;
        }
        proof {
            lemma_untried_indices(n as int, tried_indices@);
        }
        if untried.len() == 0 {
            assert forall|i: usize|
                i < records_at(self.rows(), complexity).len() implies #[trigger] tried_indices@.contains(i) by {
                if !tried_indices@.contains(i) {
                    assert(untried@.contains(i));
                }
            }
            return None;
        }
        let k = random_below(untried.len());
        let index = untried[k];
        assert(untried@.contains(index));
        assert(index < n);
        assert(!tried_indices@.contains(index));
        let symmetry = Symmetry::random();
        match self.puzzle_variant(complexity, index, symmetry) {
            Some(config) => {
                assert(is_variant(config, records_at(self.rows(), complexity)[index as int], complexity, symmetry));
                let r = Some((config, index));
                assert(r->Some_0.0 == config && r->Some_0.1 == index);
                r
            },
            None => None,
        }
    }
}

/// Trying every base puzzle once: when the indices returned so far are
/// listed without repeats and each is below the count `n`, every index below
/// `n` is listed exactly when `n` of them are. So feeding back each index
/// that `untried_puzzle` returns (never one already listed, always below the
/// count) gives `n` distinct indices, and only then none.
pub proof fn lemma_untried_walk(n: nat, tried: Seq<usize>)
    requires
        n <= usize::MAX,
        tried.no_duplicates(),
        forall|k: int| 0 <= k < tried.len() ==> tried[k] < n,
    ensures
        (forall|i: usize| i < n ==> #[trigger] tried.contains(i)) <==> tried.len() == n,
{
    let t = tried.map_values(|x: usize| x as int);
    assert forall|a: int, b: int| 0 <= a < t.len() && 0 <= b < t.len() && a != b implies t[a]
        != t[b] by {
        assert(tried[a] != tried[b]);
    }
    t.unique_seq_to_set();
    lemma_int_range(0, n as int);
    let r = set_int_range(0, n as int);
    let ts = t.to_set();
    assert forall|x: int| ts.contains(x) implies r.contains(x) by {
        let k = choose|k: int| 0 <= k < t.len() && t[k] == x;
        assert(tried[k] < n);
    }
    assert(ts.subset_of(r));
    lemma_len_subset(ts, r);
    if forall|i: usize| i < n ==> #[trigger] tried.contains(i) {
        assert forall|x: int| r.contains(x) implies ts.contains(x) by {
            assert(tried.contains(x as usize));
            let k = choose|k: int| 0 <= k < tried.len() && tried[k] == x as usize;
            assert(t[k] == x);
        }
        assert(r.subset_of(ts));
        lemma_len_subset(r, ts);
    }
    if tried.len() == n {
        lemma_subset_equality(ts, r);
        assert forall|i: usize| i < n implies #[trigger] tried.contains(i) by {
            assert(r.contains(i as int));
            assert(ts.contains(i as int));
            let k = choose|k: int| 0 <= k < t.len() && t[k] == i as int;
            assert(tried[k] == i);
        }
    }
}

} // verus!
