//! How often each symbol follows each other symbol in a list of words.

use vstd::prelude::*;
use ndarray::Array2;
use crate::vocab::{Vocab, adjacent_pairs};

verus! {

/// A table of counts held in an `ndarray` matrix.
#[verifier::external_body]
pub struct CountTable {
    cells: Array2<usize>,
}

/// What a table holds, row by row.
pub uninterp spec fn table_rows(t: CountTable) -> Seq<Seq<usize>>;

/// `rows` rows of `cols` zeros.
pub open spec fn zero_rows(rows: nat, cols: nat) -> Seq<Seq<usize>> {
    Seq::new(rows, |i: int| Seq::new(cols, |j: int| 0usize))
}

impl CountTable {
    /// A table of `rows` rows of `cols` zeros.
    ///
    /// Calls `Array2::zeros`, which fills the matrix with zeros and panics
    /// when the product of the non-zero lengths overflows `isize`; the
    /// `requires` leaves that out.
    #[verifier::external_body]
    fn zeros(rows: usize, cols: usize) -> (t: CountTable)
        requires
            rows <= isize::MAX,
            cols <= isize::MAX,
            rows * cols <= isize::MAX,
        ensures
            table_rows(t) == zero_rows(rows as nat, cols as nat),
    {
        CountTable { cells: Array2::zeros((rows, cols)) }
    }

    /// The count in row `i`, column `j`.
    ///
    /// Indexes the matrix with `[[i, j]]`, which returns that element and
    /// panics out of bounds; the `requires` leaves that out.
    #[verifier::external_body]
    fn get(&self, i: usize, j: usize) -> (v: usize)
        requires
            i < table_rows(*self).len(),
            j < table_rows(*self)[i as int].len(),
        ensures
            v == table_rows(*self)[i as int][j as int],
    {
        self.cells[[i, j]]
    }

    /// Replaces the count in row `i`, column `j`.
    ///
    /// Assigns through `[[i, j]]`, which writes that element alone and
    /// panics out of bounds; the `requires` leaves that out.
    #[verifier::external_body]
    fn set(&mut self, i: usize, j: usize, v: usize)
        requires
            i < table_rows(*old(self)).len(),
            j < table_rows(*old(self))[i as int].len(),
        ensures
            table_rows(*final(self)) == table_rows(*old(self)).update(
                i as int,
                table_rows(*old(self))[i as int].update(j as int, v),
            ),
    {
        self.cells[[i, j]] = v;
    }
}

/// How many times `i` is directly followed by `j` in `s`.
pub open spec fn pair_count(s: Seq<usize>, i: usize, j: usize) -> nat
    decreases s.len(),
{
    if s.len() < 2 {
        0
    } else {
        pair_count(s.drop_last(), i, j) + if s[s.len() - 2] == i && s.last() == j {
            1nat
        } else {
            0nat
        }
    }
}

/// How many times `i` is directly followed by `j` within the sequences of `ws`.
pub open spec fn corpus_count(ws: Seq<Seq<usize>>, i: usize, j: usize) -> nat
    decreases ws.len(),
{
    if ws.len() == 0 {
        0
    } else {
        corpus_count(ws.drop_last(), i, j) + pair_count(ws.last(), i, j)
    }
}

/// How many adjacent pairs `s` holds.
pub open spec fn pairs_in(s: Seq<usize>) -> int {
    if s.len() >= 1 {
        s.len() - 1
    } else {
        0
    }
}

/// How many adjacent pairs the sequences of `ws` hold in all.
pub open spec fn corpus_pairs(ws: Seq<Seq<usize>>) -> int
    decreases ws.len(),
{
    if ws.len() == 0 {
        0
    } else {
        corpus_pairs(ws.drop_last()) + pairs_in(ws.last())
    }
}

/// How many times `p` occurs in `s`.
pub open spec fn occurrences(s: Seq<(usize, usize)>, p: (usize, usize)) -> nat
    decreases s.len(),
{
    if s.len() == 0 {
        0
    } else {
        occurrences(s.drop_last(), p) + if s.last() == p {
            1nat
        } else {
            0nat
        }
    }
}

/// Law: the number of times a table counts `i` followed by `j` in a
/// sequence is the number of times `(i, j)` is among its bigrams, the
/// factors of the probability of the sequence.
pub proof fn lemma_pair_count_is_bigram_occurrences(e: Seq<usize>, i: usize, j: usize)
    ensures
        pair_count(e, i, j) == occurrences(adjacent_pairs(e), (i, j)),
    decreases e.len(),
{
    if e.len() < 2 {
        assert(adjacent_pairs(e) =~= Seq::<(usize, usize)>::empty());
    } else {
        lemma_pair_count_is_bigram_occurrences(e.drop_last(), i, j);
        assert(adjacent_pairs(e).drop_last() =~= adjacent_pairs(e.drop_last()));
        assert(adjacent_pairs(e).last() == (e[e.len() - 2], e.last()));
    }
}

proof fn lemma_pair_count_bound(s: Seq<usize>, i: usize, j: usize)
    ensures
        pair_count(s, i, j) <= pairs_in(s),
    decreases s.len(),
{
    if s.len() >= 2 {
        lemma_pair_count_bound(s.drop_last(), i, j);
    }
}

proof fn lemma_corpus_count_bound(ws: Seq<Seq<usize>>, i: usize, j: usize)
    ensures
        corpus_count(ws, i, j) <= corpus_pairs(ws),
    decreases ws.len(),
{
    if ws.len() > 0 {
        lemma_corpus_count_bound(ws.drop_last(), i, j);
        lemma_pair_count_bound(ws.last(), i, j);
    }
}

proof fn lemma_corpus_pairs_prefix(ws: Seq<Seq<usize>>, k: int)
    requires
        0 <= k < ws.len(),
    ensures
        corpus_pairs(ws.subrange(0, k + 1)) == corpus_pairs(ws.subrange(0, k)) + pairs_in(ws[k]),
        corpus_pairs(ws.subrange(0, k + 1)) <= corpus_pairs(ws),
        0 <= corpus_pairs(ws.subrange(0, k)),
    decreases ws.len(),
{
    assert(ws.subrange(0, k + 1).drop_last() =~= ws.subrange(0, k));
    if k + 1 < ws.len() {
        lemma_corpus_pairs_prefix(ws.drop_last(), k);
        assert(ws.drop_last().subrange(0, k + 1) =~= ws.subrange(0, k + 1));
        assert(ws.drop_last().subrange(0, k) =~= ws.subrange(0, k));
        lemma_corpus_pairs_nonneg(ws.drop_last());
    } else {
        assert(ws.subrange(0, k + 1) =~= ws);
    }
    lemma_corpus_pairs_nonneg(ws.subrange(0, k));
}

proof fn lemma_corpus_pairs_nonneg(ws: Seq<Seq<usize>>)
    ensures
        0 <= corpus_pairs(ws),
    decreases ws.len(),
{
    if ws.len() > 0 {
        lemma_corpus_pairs_nonneg(ws.drop_last());
    }
}

/// The encodings of the words, in order.
pub open spec fn encodings(v: Vocab, words: Seq<String>) -> Seq<Seq<usize>> {
    words.map_values(|w: String| v.encoding(w@))
}

/// The cells of `row` (row number `i`) among its first `m` that hold zero,
/// in column order.
pub open spec fn zeros_in_row(row: Seq<usize>, i: int, m: int) -> Seq<(usize, usize)>
    decreases m,
{
    if m <= 0 {
        Seq::empty()
    } else {
        zeros_in_row(row, i, m - 1) + if row[m - 1] == 0 {
            seq![(i as usize, (m - 1) as usize)]
        } else {
            Seq::empty()
        }
    }
}

/// The cells among the first `r` rows that hold zero, row after row.
pub open spec fn zero_cells(rows: Seq<Seq<usize>>, r: int) -> Seq<(usize, usize)>
    decreases r,
{
    if r <= 0 {
        Seq::empty()
    } else {
        zero_cells(rows, r - 1) + zeros_in_row(rows[r - 1], r - 1, rows[r - 1].len() as int)
    }
}

/// A square table of bigram counts over the symbols of a model.
pub struct BigramCounts {
    table: CountTable,
    n: usize,
}

impl View for BigramCounts {
    type V = Seq<Seq<usize>>;

    closed spec fn view(&self) -> Seq<Seq<usize>> {
        table_rows(self.table)
    }
}

impl BigramCounts {
    /// The number of symbols, which is the number of rows and of columns.
    pub closed spec fn dim(&self) -> nat {
        self.n as nat
    }

    /// The table is square with `dim()` rows.
    pub open spec fn wf(&self) -> bool {
        &&& self@.len() == self.dim()
        &&& forall|i: int| 0 <= i < self@.len() ==> (#[trigger] self@[i]).len() == self.dim()
    }

    /// An `n` by `n` table of zeros.
    pub fn new(n: usize) -> (c: BigramCounts)
        requires
            n * n <= isize::MAX,
        ensures
            c.wf(),
            c.dim() == n,
            c@ == zero_rows(n as nat, n as nat),
    {
        proof {
            if n > 1 {
                assert(n <= n * n) by (nonlinear_arith)
                    requires
                        n > 1,
                ;
            }
        }
        BigramCounts { table: CountTable::zeros(n, n), n }
    }

    /// The number of rows and of columns.
    pub fn size(&self) -> (n: usize)
        ensures
            n == self.dim(),
    {
        self.n
    }

    /// How many times symbol `j` follows symbol `i`.
    pub fn get(&self, i: usize, j: usize) -> (v: usize)
        requires
            self.wf(),
            i < self.dim(),
            j < self.dim(),
        ensures
            v == self@[i as int][j as int],
    {
        self.table.get(i, j)
    }

    /// Sets how many times symbol `j` follows symbol `i`.
    pub fn set(&mut self, i: usize, j: usize, v: usize)
        requires
            old(self).wf(),
            i < old(self).dim(),
            j < old(self).dim(),
        ensures
            final(self).wf(),
            final(self).dim() == old(self).dim(),
            final(self)@ == old(self)@.update(i as int, old(self)@[i as int].update(j as int, v)),
    {
        self.table.set(i, j, v);
    }

    /// Counts one more time that symbol `j` follows symbol `i`.
    pub fn increment(&mut self, i: usize, j: usize)
        requires
            old(self).wf(),
            i < old(self).dim(),
            j < old(self).dim(),
            old(self)@[i as int][j as int] < usize::MAX,
        ensures
            final(self).wf(),
            final(self).dim() == old(self).dim(),
            final(self)@ == old(self)@.update(
                i as int,
                old(self)@[i as int].update(j as int, (old(self)@[i as int][j as int] + 1) as usize),
            ),
    {
        let v = self.table.get(i, j);
        self.table.set(i, j, v + 1);
    }

    /// Counts every pair of adjacent symbols of `e`.
    pub fn add_sequence(&mut self, e: &Vec<usize>)
        requires
            old(self).wf(),
            forall|k: int| 0 <= k < e@.len() ==> #[trigger] e@[k] < old(self).dim(),
            forall|i: int, j: int|
                0 <= i < old(self).dim() && 0 <= j < old(self).dim() ==> old(self)@[i][j] + pairs_in(e@)
                    <= usize::MAX,
        ensures
            final(self).wf(),
            final(self).dim() == old(self).dim(),
            forall|i: int, j: int|
                0 <= i < old(self).dim() && 0 <= j < old(self).dim() ==> #[trigger] final(self)@[i][j]
                    == old(self)@[i][j] + pair_count(e@, i as usize, j as usize),
    {
        let len = e.len();
        if len < 2 {
            return;
        }
        let mut k: usize = 1;
        while k < len
            invariant
                self.wf(),
                self.dim() == old(self).dim(),
                len == e@.len(),
                1 <= k <= len,
                forall|m: int| 0 <= m < e@.len() ==> #[trigger] e@[m] < old(self).dim(),
                forall|i: int, j: int|
                    0 <= i < old(self).dim() && 0 <= j < old(self).dim() ==> old(self)@[i][j] + pairs_in(e@)
                        <= usize::MAX,
                forall|i: int, j: int|
                    0 <= i < old(self).dim() && 0 <= j < old(self).dim() ==> #[trigger] self@[i][j]
                        == old(self)@[i][j] + pair_count(e@.subrange(0, k as int), i as usize, j as usize),
            decreases len - k,
        {
            let a = e[k - 1];
            let b = e[k];
            proof {
                lemma_pair_count_bound(e@.subrange(0, k as int), a, b);
            }
            self.increment(a, b);
            k = k + 1;
            proof {
                let s = e@.subrange(0, k as int);
                assert(s.drop_last() =~= e@.subrange(0, k - 1));
                assert(s[s.len() - 2] == a && s.last() == b);
            }
        }
        proof {
            assert(e@.subrange(0, len as int) =~= e@);
        }
    }

    /// The counts of the bigrams of `words`, each word read between the
    /// markers of `v`: row `i`, column `j` holds how many times symbol `j`
    /// directly follows symbol `i`.
    pub fn from_words(v: &Vocab, words: &Vec<String>) -> (c: BigramCounts)
        requires
            v.wf(),
            v.tokens().len() * v.tokens().len() <= isize::MAX,
            forall|w: int| 0 <= w < words@.len() ==> v.covers(#[trigger] words@[w]@),
            corpus_pairs(encodings(*v, words@)) <= usize::MAX,
        ensures
            c.wf(),
            c.dim() == v.tokens().len(),
            forall|i: int, j: int|
                0 <= i < c.dim() && 0 <= j < c.dim() ==> #[trigger] c@[i][j] == corpus_count(
                    encodings(*v, words@),
                    i as usize,
                    j as usize,
                ),
    {
        let n = v.len();
        let mut c = BigramCounts::new(n);
        let ghost encs = encodings(*v, words@);
        let count = words.len();
        let mut w: usize = 0;
        while w < count
            invariant
                v.wf(),
                n == v.tokens().len(),
                c.wf(),
                c.dim() == n,
                count == words@.len(),
                w <= count,
                encs == encodings(*v, words@),
                forall|x: int| 0 <= x < words@.len() ==> v.covers(#[trigger] words@[x]@),
                corpus_pairs(encs) <= usize::MAX,
                forall|i: int, j: int|
                    0 <= i < n && 0 <= j < n ==> #[trigger] c@[i][j] == corpus_count(
                        encs.subrange(0, w as int),
                        i as usize,
                        j as usize,
                    ),
            decreases count - w,
        {
            let e = v.encode(words[w].as_str());
            proof {
                lemma_corpus_pairs_prefix(encs, w as int);
                assert forall|i: int, j: int| 0 <= i < n && 0 <= j < n implies c@[i][j] + pairs_in(e@)
                    <= usize::MAX by {
                    lemma_corpus_count_bound(encs.subrange(0, w as int), i as usize, j as usize);
                }
            }
            c.add_sequence(&e);
            w = w + 1;
            proof {
                assert(encs.subrange(0, w as int).drop_last() =~= encs.subrange(0, w - 1));
                assert(encs.subrange(0, w as int).last() == e@);
            }
        }
        proof {
            assert(encs.subrange(0, count as int) =~= encs);
        }
        c
    }

    /// The (row, column) of every bigram that never occurs, row after row
    /// and, within a row, column after column.
    pub fn zero_bigrams(&self) -> (z: Vec<(usize, usize)>)
        requires
            self.wf(),
        ensures
            z@ == zero_cells(self@, self.dim() as int),
    {
        let mut z: Vec<(usize, usize)> = Vec::new();
        let n = self.n;
        let mut i: usize = 0;
        while i < n
            invariant
                self.wf(),
                n == self.dim(),
                i <= n,
                z@ == zero_cells(self@, i as int),
            decreases n - i,
        {
            let mut j: usize = 0;
            while j < n
                invariant
                    self.wf(),
                    n == self.dim(),
                    i < n,
                    j <= n,
                    z@ == zero_cells(self@, i as int) + zeros_in_row(self@[i as int], i as int, j as int),
                decreases n - j,
            {
                if self.table.get(i, j) == 0 {
                    z.push((i, j));
                }
                j = j + 1;
                proof {
                    assert(z@ =~= zero_cells(self@, i as int) + zeros_in_row(self@[i as int], i as int, j as int));
                }
            }
            i = i + 1;
        }
        z
    }

    /// The counts of every symbol after symbol `i`.
    pub fn row(&self, i: usize) -> (r: Vec<usize>)
        requires
            self.wf(),
            i < self.dim(),
        ensures
            r@ == self@[i as int],
    {
        let mut r: Vec<usize> = Vec::new();
        let mut j: usize = 0;
        while j < self.n
            invariant
                self.wf(),
                i < self.dim(),
                j <= self.dim(),
                r@ == self@[i as int].subrange(0, j as int),
            decreases self.n - j,
        {
            r.push(self.table.get(i, j));
            j = j + 1;
            proof {
                assert(r@ =~= self@[i as int].subrange(0, j as int));
            }
        }
        proof {
            assert(r@ =~= self@[i as int]);
        }
        r
    }
}

} // verus!
