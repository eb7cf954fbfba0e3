//! Drawing the next symbol of a word from the bigram counts.

use vstd::prelude::*;
use rand::distr::Distribution;
use rand::distr::weighted::{Error, WeightedIndex};
use rand::rngs::StdRng;
use crate::counts::BigramCounts;

verus! {

/// `rand`'s standard generator, carried through opaque.
#[verifier::external_type_specification]
#[verifier::external_body]
pub struct ExStdRng(StdRng);

/// A `rand` weighted distribution over indices with `usize` weights.
#[verifier::external_body]
pub struct IndexDistribution {
    dist: WeightedIndex<usize>,
}

/// The error of building a weighted distribution, carried through opaque.
#[verifier::external_type_specification]
#[verifier::external_body]
pub struct ExWeightError(Error);

/// The weights a weighted distribution draws indices by.
pub uninterp spec fn index_weights(d: IndexDistribution) -> Seq<usize>;

/// The sum of the values of `s`.
pub open spec fn seq_sum(s: Seq<usize>) -> int
    decreases s.len(),
{
    if s.len() == 0 {
        0
    } else {
        seq_sum(s.drop_last()) + s.last()
    }
}

/// A distribution over the indices of `weights`, each drawn with a chance
/// proportional to its weight.
///
/// Calls `WeightedIndex::new`, which for `usize` weights fails exactly when
/// the weights are empty, sum to zero or overflow in their sum, and keeps
/// the weights it is given otherwise.
#[verifier::external_body]
fn weighted_index(weights: &Vec<usize>) -> (r: Result<IndexDistribution, Error>)
    ensures
        r is Ok <==> (weights@.len() > 0 && 0 < seq_sum(weights@) <= usize::MAX),
        r matches Ok(d) ==> index_weights(d) == weights@,
{
    match WeightedIndex::new(weights) {
        Ok(dist) => Ok(IndexDistribution { dist }),
        Err(e) => Err(e),
    }
}

/// An index drawn from `d` with `rng`.
///
/// Calls `Distribution::sample` of `WeightedIndex`, whose documentation
/// states that an element of weight zero is never picked; what index comes
/// out depends on the state of `rng`, and is left unsaid beyond that.
#[verifier::external_body]
fn sample_index(d: &IndexDistribution, rng: &mut StdRng) -> (i: usize)
    requires
        0 < seq_sum(index_weights(*d)),
    ensures
        i < index_weights(*d).len(),
        index_weights(*d)[i as int] > 0,
{
    d.dist.sample(rng)
}

/// One distribution per row of bigram counts: the row of the current symbol
/// weighs which symbol comes next.
pub struct BigramSampler {
    rows: Vec<IndexDistribution>,
}

/// A row of counts that cannot weigh a draw: all its counts are zero, or
/// their total does not fit in `usize`.
#[derive(Clone, Copy, PartialEq, Eq, Structural, Debug)]
pub struct InvalidRow {
    pub row: usize,
}

/// What one step of writing a word may do, drawing from the row of `cur`:
/// end the word, leaving it as it was, where `end` follows `cur` at least
/// once; or append a symbol `t` other than `end` that follows `cur` at
/// least once.
pub open spec fn step_outcome(
    table: Seq<Seq<usize>>,
    cur: usize,
    end: usize,
    before: Seq<usize>,
    after: Seq<usize>,
    next: Option<usize>,
) -> bool {
    match next {
        None => after == before && end < table[cur as int].len() && table[cur as int][end as int] > 0,
        Some(t) => t != end && t < table[cur as int].len() && table[cur as int][t as int] > 0 && after
            == before.push(t),
    }
}

/// `b` follows `a` at least once in `table`.
pub open spec fn follows(table: Seq<Seq<usize>>, a: usize, b: usize) -> bool {
    b < table[a as int].len() && table[a as int][b as int] > 0
}

/// Each symbol of `p` follows the one before it at least once.
pub open spec fn positive_path(table: Seq<Seq<usize>>, p: Seq<usize>) -> bool
    decreases p.len(),
{
    if p.len() <= 1 {
        true
    } else {
        positive_path(table, p.drop_last()) && follows(table, p[p.len() - 2], p.last())
    }
}

/// `w` is a finished word: it holds no `end`, and the path from `start`
/// through `w` to `end` takes only transitions seen in `table`.
pub open spec fn complete_word(table: Seq<Seq<usize>>, start: usize, end: usize, w: Seq<usize>) -> bool {
    &&& !w.contains(end)
    &&& positive_path(table, seq![start] + w + seq![end])
}

/// The symbol the step `i` of a generation draws from: `start` at first,
/// then the symbol the step before appended.
pub open spec fn step_from(start: usize, outs: Seq<Option<usize>>, i: int) -> usize {
    if i <= 0 {
        start
    } else {
        match outs[i - 1] {
            Some(t) => t,
            None => start,
        }
    }
}

/// After `i` steps of a generation that has not ended, the path from
/// `start` through `words[i]` takes only transitions seen in `table`, ends
/// at the symbol that the next step draws from, and holds no `end`.
proof fn lemma_generation_prefix(
    table: Seq<Seq<usize>>,
    start: usize,
    end: usize,
    words: Seq<Seq<usize>>,
    outs: Seq<Option<usize>>,
    i: int,
)
    requires
        0 <= i < outs.len(),
        words.len() == outs.len() + 1,
        words[0] == Seq::<usize>::empty(),
        forall|j: int| 0 <= j < outs.len() - 1 ==> #[trigger] outs[j] is Some,
        forall|j: int|
            #![trigger outs[j]]
            0 <= j < outs.len() ==> step_outcome(table, step_from(start, outs, j), end, words[j], words[j + 1], outs[j]),
    ensures
        (seq![start] + words[i]).last() == step_from(start, outs, i),
        positive_path(table, seq![start] + words[i]),
        !words[i].contains(end),
    decreases i,
{
    if i == 0 {
        assert(seq![start] + words[0] =~= seq![start]);
    } else {
        lemma_generation_prefix(table, start, end, words, outs, i - 1);
        let prev = seq![start] + words[i - 1];
        assert(outs[i - 1] is Some);
        let t = match outs[i - 1] {
            Some(t) => t,
            None => start,
        };
        assert(step_outcome(table, step_from(start, outs, i - 1), end, words[i - 1], words[i], outs[i - 1]));
        assert(words[i] == words[i - 1].push(t));
        let cur = seq![start] + words[i];
        assert(cur =~= prev.push(t));
        assert(cur.drop_last() =~= prev);
        assert(cur[cur.len() - 2] == prev.last());
        assert forall|k: int| 0 <= k < words[i].len() implies words[i][k] != end by {
            if k < words[i - 1].len() {
                assert(words[i][k] == words[i - 1][k]);
                assert(words[i - 1].contains(words[i - 1][k]));
            }
        }
    }
}

/// A word written by repeated generation steps, from the empty word and the
/// symbol `start` until a step ends it, is finished: every transition it
/// takes, from `start` to its first symbol, between its symbols and from
/// its last symbol to `end`, was seen at least once, and `end` is not in it.
pub proof fn lemma_generated_word_is_complete(
    table: Seq<Seq<usize>>,
    start: usize,
    end: usize,
    words: Seq<Seq<usize>>,
    outs: Seq<Option<usize>>,
)
    requires
        outs.len() > 0,
        words.len() == outs.len() + 1,
        words[0] == Seq::<usize>::empty(),
        forall|j: int| 0 <= j < outs.len() - 1 ==> #[trigger] outs[j] is Some,
        outs.last() is None,
        forall|j: int|
            #![trigger outs[j]]
            0 <= j < outs.len() ==> step_outcome(table, step_from(start, outs, j), end, words[j], words[j + 1], outs[j]),
    ensures
        complete_word(table, start, end, words.last()),
{
    let n = outs.len() - 1;
    lemma_generation_prefix(table, start, end, words, outs, n);
    assert(step_outcome(table, step_from(start, outs, n), end, words[n], words[n + 1], outs[n]));
    assert(words.last() == words[n]);
    let p = seq![start] + words[n];
    let full = seq![start] + words.last() + seq![end];
    assert(full =~= p.push(end));
    assert(full.drop_last() =~= p);
    assert(full[full.len() - 2] == p.last());
}

/// A row whose counts can weigh a draw.
pub open spec fn row_fits(s: Seq<usize>) -> bool {
    0 < seq_sum(s) <= usize::MAX
}

impl BigramSampler {
    /// The weights of each row.
    pub closed spec fn table(&self) -> Seq<Seq<usize>> {
        self.rows@.map_values(|d: IndexDistribution| index_weights(d))
    }

    /// Every row has a positive total weight.
    pub open spec fn wf(&self) -> bool {
        forall|i: int| 0 <= i < self.table().len() ==> 0 < #[trigger] seq_sum(self.table()[i])
    }

    /// A sampler whose rows weigh by the rows of `counts`; every row must
    /// have at least one non-zero count and a total that fits in `usize`.
    pub fn new(counts: &BigramCounts) -> (s: BigramSampler)
        requires
            counts.wf(),
            forall|i: int| 0 <= i < counts.dim() ==> 0 < #[trigger] seq_sum(counts@[i]) <= usize::MAX,
        ensures
            s.wf(),
            s.table() == counts@,
    {
        match BigramSampler::try_new(counts) {
            Ok(s) => s,
            Err(e) => {
                proof {
                    assert(0 < seq_sum(counts@[e.row as int]) <= usize::MAX);
                }
                BigramSampler { rows: Vec::new() }
            },
        }
    }

    /// A sampler whose rows weigh by the rows of `counts`, or the first row
    /// whose counts are all zero or sum past `usize::MAX`.
    pub fn try_new(counts: &BigramCounts) -> (r: Result<BigramSampler, InvalidRow>)
        requires
            counts.wf(),
        ensures
            r is Ok <==> forall|i: int| 0 <= i < counts.dim() ==> #[trigger] row_fits(counts@[i]),
            r matches Ok(s) ==> s.wf() && s.table() == counts@,
            r matches Err(e) ==> e.row < counts.dim() && !row_fits(counts@[e.row as int]) && forall|i: int|
                0 <= i < e.row ==> #[trigger] row_fits(counts@[i]),
    {
        let n = counts.size();
        let mut rows: Vec<IndexDistribution> = Vec::new();
        let mut i: usize = 0;
        while i < n
            invariant
                counts.wf(),
                n == counts.dim(),
                i <= n,
                forall|k: int| 0 <= k < i ==> #[trigger] row_fits(counts@[k]),
                rows@.map_values(|d: IndexDistribution| index_weights(d)) == counts@.subrange(0, i as int),
            decreases n - i,
        {
            let weights = counts.row(i);
            let ghost prev_rows = rows@;
            match weighted_index(&weights) {
                Ok(d) => {
                    rows.push(d);
                    proof {
                        assert(rows@ == prev_rows.push(d));
                        assert(rows@.map_values(|d: IndexDistribution| index_weights(d)) =~= prev_rows.map_values(
                            |d: IndexDistribution| index_weights(d)).push(index_weights(d)));
                    }
                },
                Err(_) => {
                    proof {
                        if weights@.len() == 0 {
                            assert(seq_sum(weights@) == 0);
                        }
                        assert(!row_fits(counts@[i as int]));
                    }
                    return Err(InvalidRow { row: i });
                },
            }
            i = i + 1;
            proof {
                assert(rows@.map_values(|d: IndexDistribution| index_weights(d)) =~= counts@.subrange(0, i as int));
            }
        }
        let s = BigramSampler { rows };
        proof {
            assert(s.table() =~= counts@);
            assert forall|k: int| 0 <= k < s.table().len() implies 0 < #[trigger] seq_sum(s.table()[k]) by {
                assert(row_fits(counts@[k]));
            }
        }
        Ok(s)
    }

    /// The symbol drawn to follow `cur`: one that followed `cur` at least
    /// once in the counts, drawn with a chance proportional to how often.
    pub fn sample_next(&self, cur: usize, rng: &mut StdRng) -> (next: usize)
        requires
            self.wf(),
            cur < self.table().len(),
        ensures
            next < self.table()[cur as int].len(),
            self.table()[cur as int][next as int] > 0,
    {
        proof {
            assert(0 < seq_sum(self.table()[cur as int]));
        }
        sample_index(&self.rows[cur], rng)
    }

    /// One step of writing a word: draws the symbol that follows `cur` and
    /// hands it to `step_after_draw`, so that the closing marker `end`
    /// finishes the word and any other symbol is appended to it.
    pub fn generation_step(&self, word: &mut Vec<usize>, cur: usize, end: usize, rng: &mut StdRng) -> (next: Option<usize>)
        requires
            self.wf(),
            cur < self.table().len(),
        ensures
            next is None ==> final(word)@ == old(word)@ && end < self.table()[cur as int].len()
                && self.table()[cur as int][end as int] > 0,
            next matches Some(t) ==> t != end && t < self.table()[cur as int].len()
                && self.table()[cur as int][t as int] > 0 && final(word)@ == old(word)@.push(t),
            step_outcome(self.table(), cur, end, old(word)@, final(word)@, next),
    {
        let t = self.sample_next(cur, rng);
        step_after_draw(word, t, end)
    }
}

/// What a drawn symbol `t` does to the word being written: the closing
/// marker `end` finishes the word and leaves it as it is; any other symbol
/// is appended and becomes the symbol to draw from next.
pub fn step_after_draw(word: &mut Vec<usize>, t: usize, end: usize) -> (next: Option<usize>)
    ensures
        t == end ==> next is None && final(word)@ == old(word)@,
        t != end ==> next == Some(t) && final(word)@ == old(word)@.push(t),
{
    if t == end {
        None
    } else {
        word.push(t);
        Some(t)
    }
}

} // verus!
