use vstd::prelude::*;

verus! {

/// Why a corpus could not be loaded. Line numbers count from 1.
#[derive(Debug, Clone, Copy, PartialEq, Eq, Structural)]
pub enum CorpusError {
    /// A field of the line is not a non-negative integer that fits a `usize`.
    BadNumber { line: usize },
    /// The line does not hold exactly ten fields.
    WrongFieldCount { line: usize, count: usize },
    /// No puzzle at all.
    Empty,
}

/// Blank characters around fields: space, tab, line feed, vertical tab,
/// form feed and carriage return.
pub open spec fn is_space(b: u8) -> bool {
    b == 32 || (9 <= b && b <= 13)
}

pub open spec fn trim_start(s: Seq<u8>) -> Seq<u8>
    decreases s.len(),
{
    if s.len() > 0 && is_space(s[0]) {
        trim_start(s.drop_first())
    } else {
        s
    }
}

pub open spec fn trim_end(s: Seq<u8>) -> Seq<u8>
    decreases s.len(),
{
    if s.len() > 0 && is_space(s.last()) {
        trim_end(s.drop_last())
    } else {
        s
    }
}

/// `s` without blanks at either end.
pub open spec fn trimmed(s: Seq<u8>) -> Seq<u8> {
    trim_end(trim_start(s))
}

/// `s` cut at every occurrence of `sep`; `n` separators give `n + 1` pieces.
pub open spec fn pieces(s: Seq<u8>, sep: u8) -> Seq<Seq<u8>>
    decreases s.len(),
{
    if s.len() == 0 {
        seq![Seq::<u8>::empty()]
    } else {
        let p = pieces(s.drop_last(), sep);
        if s.last() == sep {
            p.push(Seq::<u8>::empty())
        } else {
            p.update(p.len() - 1, p.last().push(s.last()))
        }
    }
}

pub open spec fn is_digit(b: u8) -> bool {
    48 <= b && b <= 57
}

pub open spec fn all_digits(s: Seq<u8>) -> bool {
    forall|i: int| 0 <= i < s.len() ==> is_digit(#[trigger] s[i])
}

/// The value of a string of decimal digits.
pub open spec fn digits_value(s: Seq<u8>) -> nat
    decreases s.len(),
{
    if s.len() == 0 {
        0
    } else {
        digits_value(s.drop_last()) * 10 + (s.last() - 48) as nat
    }
}

/// The number a field holds: after trimming, an optional `+` and one or
/// more decimal digits whose value fits in a `usize`.
pub open spec fn number_of(field: Seq<u8>) -> Option<usize> {
    let t = trimmed(field);
    let d = if t.len() > 0 && t[0] == 43 {
        t.drop_first()
    } else {
        t
    };
    if d.len() > 0 && all_digits(d) && digits_value(d) <= usize::MAX {
        Some(digits_value(d) as usize)
    } else {
        None
    }
}

/// The numbers of all fields, if every field holds one.
pub open spec fn field_values(fields: Seq<Seq<u8>>) -> Option<Seq<usize>>
    decreases fields.len(),
{
    if fields.len() == 0 {
        Some(Seq::empty())
    } else {
        match (field_values(fields.drop_last()), number_of(fields.last())) {
            (Some(vs), Some(n)) => Some(vs.push(n)),
            _ => None,
        }
    }
}

/// What line number `line_no` contributes: nothing if blank, else nine
/// valences and a complexity.
pub open spec fn line_record(line: Seq<u8>, line_no: usize) -> Result<
    Option<(Seq<usize>, usize)>,
    CorpusError,
> {
    if trimmed(line).len() == 0 {
        Ok(None)
    } else {
        match field_values(pieces(line, 44)) {
            None => Err(CorpusError::BadNumber { line: line_no }),
            Some(vs) => if vs.len() != 10 {
                Err(CorpusError::WrongFieldCount { line: line_no, count: vs.len() as usize })
            } else {
                Ok(Some((vs.take(9), vs[9])))
            },
        }
    }
}

/// The records of the lines, in order, or the error of the first bad line.
pub open spec fn records_of_lines(lines: Seq<Seq<u8>>) -> Result<Seq<(Seq<usize>, usize)>, CorpusError>
    decreases lines.len(),
{
    if lines.len() == 0 {
        Ok(Seq::empty())
    } else {
        match records_of_lines(lines.drop_last()) {
            Err(e) => Err(e),
            Ok(rows) => match line_record(lines.last(), lines.len() as usize) {
                Err(e) => Err(e),
                Ok(None) => Ok(rows),
                Ok(Some(row)) => Ok(rows.push(row)),
            },
        }
    }
}

/// The records of a corpus text, one line per record, or the first error.
pub open spec fn corpus_records(text: Seq<u8>) -> Result<Seq<(Seq<usize>, usize)>, CorpusError> {
    records_of_lines(pieces(text, 10))
}

proof fn lemma_pieces_nonempty(s: Seq<u8>, sep: u8)
    ensures
        pieces(s, sep).len() >= 1,
    decreases s.len(),
{
    if s.len() > 0 {
        lemma_pieces_nonempty(s.drop_last(), sep);
    }
}

/// Cuts `s` at every `sep`.
pub fn split_bytes(s: &[u8], sep: u8) -> (r: Vec<Vec<u8>>)
    ensures
        r@.map_values(|v: Vec<u8>| v@) == pieces(s@, sep),
{
    let mut done: Vec<Vec<u8>> = Vec::new();
    let mut cur: Vec<u8> = Vec::new();
    let mut i: usize = 0;
    assert(s@.take(0) =~= Seq::<u8>::empty());
    assert(done@.map_values(|v: Vec<u8>| v@).push(cur@) =~= pieces(s@.take(0), sep));
    while i < s.len()
        invariant
            i <= s@.len(),
            done@.map_values(|v: Vec<u8>| v@).push(cur@) == pieces(s@.take(i as int), sep),
        decreases s@.len() - i,
    {
        let b = s[i];
        let ghost before = done@.map_values(|v: Vec<u8>| v@);
        let ghost old_cur = cur@;
        proof {
            assert(s@.take(i + 1).drop_last() =~= s@.take(i as int));
            lemma_pieces_nonempty(s@.take(i as int), sep);
        }
        if b == sep {
            let piece = cur;
            done.push(piece);
            cur = Vec::new();
            assert(done@.map_values(|v: Vec<u8>| v@) =~= before.push(old_cur));
            assert(done@.map_values(|v: Vec<u8>| v@).push(cur@) =~= pieces(s@.take(i + 1), sep));
        } else {
            cur.push(b);
            assert(done@.map_values(|v: Vec<u8>| v@) =~= before);
            assert(done@.map_values(|v: Vec<u8>| v@).push(cur@) =~= pieces(s@.take(i + 1), sep));
        }
        i += 1;
    }
    assert(s@.take(i as int) =~= s@);
    done.push(cur);
    assert(done@.map_values(|v: Vec<u8>| v@) =~= pieces(s@, sep));
    done
}

fn is_space_byte(b: u8) -> (r: bool)
    ensures
        r == is_space(b),
{
    b == 32 || (9 <= b && b <= 13)
}

/// `s` without blanks at either end.
pub fn trim_bytes(s: &[u8]) -> (r: Vec<u8>)
    ensures
        r@ == trimmed(s@),
{
    let mut lo: usize = 0;
    assert(s@.subrange(0, s@.len() as int) =~= s@);
    while lo < s.len() && is_space_byte(s[lo as usize])
        invariant
            lo <= s@.len(),
            trim_start(s@) == trim_start(s@.subrange(lo as int, s@.len() as int)),
        decreases s@.len() - lo,
    {
        assert(s@.subrange(lo as int, s@.len() as int).drop_first() =~= s@.subrange(lo + 1, s@.len() as int));
        lo += 1;
    }
    let ghost t = s@.subrange(lo as int, s@.len() as int);
    assert(trim_start(s@) == t);
    let mut hi: usize = s.len();
    while hi > lo && is_space_byte(s[hi - 1])
        invariant
            lo <= hi <= s@.len(),
            t == s@.subrange(lo as int, s@.len() as int),
            trim_end(t) == trim_end(s@.subrange(lo as int, hi as int)),
        decreases hi,
    {
        assert(s@.subrange(lo as int, hi as int).drop_last() =~= s@.subrange(lo as int, hi - 1));
        hi -= 1;
    }
    let mut r: Vec<u8> = Vec::new();
    let mut k: usize = lo;
    while k < hi
        invariant
            lo <= k <= hi <= s@.len(),
            r@ == s@.subrange(lo as int, k as int),
        decreases hi - k,
    {
        r.push(s[k]);
        assert(r@ =~= s@.subrange(lo as int, k + 1));
        k += 1;
    }
    r
}

proof fn lemma_digits_prefix(d: Seq<u8>, k: int)
    requires
        0 <= k <= d.len(),
    ensures
        digits_value(d.take(k)) <= digits_value(d),
    decreases d.len(),
{
    if k < d.len() {
        lemma_digits_prefix(d.drop_last(), k);
        assert(d.drop_last().take(k) =~= d.take(k));
    } else {
        assert(d.take(k) =~= d);
    }
}

/// The number a field holds, if any.
pub fn parse_number(field: &[u8]) -> (r: Option<usize>)
    ensures
        r == number_of(field@),
{
    let t = trim_bytes(field);
    let start: usize = if t.len() > 0 && t[0] == 43 {
        1
    } else {
        0
    };
    let ghost d = if t@.len() > 0 && t@[0] == 43 {
        t@.drop_first()
    } else {
        t@
    };
    assert(d =~= t@.subrange(start as int, t@.len() as int));
    if start == t.len() {
        return None;
    }
    let mut acc: usize = 0;
    let mut k: usize = start;
    while k < t.len()
        invariant
            start <= k <= t@.len(),
            t@ == trimmed(field@),
            d == (if t@.len() > 0 && t@[0] == 43 {
                t@.drop_first()
            } else {
                t@
            }),
            d == t@.subrange(start as int, t@.len() as int),
            all_digits(d.take(k - start)),
            acc == digits_value(d.take(k - start)),
        decreases t@.len() - k,
    {
        let b = t[k];
        let ghost j = k - start;
        assert(d[j] == b);
        assert(d.take(j + 1).drop_last() =~= d.take(j));
        if b < 48 || b > 57 {
            assert(!all_digits(d));
            return None;
        }
        let digit = (b - 48) as usize;
        if acc > (usize::MAX - digit) / 10 {
            proof {
                assert(acc * 10 + digit > usize::MAX) by (nonlinear_arith)
                    requires
                        acc > (usize::MAX - digit) / 10,
                        digit <= 9,
                ;
                lemma_digits_prefix(d, j + 1);
            }
            return None;
        }
        assert(acc * 10 + digit <= usize::MAX) by (nonlinear_arith)
            requires
                acc <= (usize::MAX - digit) / 10,
                digit <= 9,
        ;
        acc = acc * 10 + digit;
        k += 1;
    }
    assert(d.take(k - start) =~= d);
    Some(acc)
}

} // verus!
