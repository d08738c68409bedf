//! The count matrix and the probability matrix.
//!
//! The count matrix tallies, for every ordered symbol pair, how often the
//! first symbol is immediately followed by the second across the
//! boundary-wrapped names of a corpus. The probability matrix keeps each
//! row as an exact fraction: the row of counts as numerators over the row
//! sum as the common denominator, so a row with a positive denominator is
//! exactly row-stochastic. Rows whose counts are all zero are kept as
//! all-zero rows with denominator zero and fail fast only when sampled from.

use vstd::prelude::*;

use crate::data::corpus_contains_char;
use crate::data::corpus_view;
use crate::data::NameItem;
use crate::sampler::lemma_seq_sum_push;
use crate::sampler::lemma_seq_sum_update;
use crate::sampler::lemma_sum_positives;
use crate::sampler::seq_sum;
use crate::sampler::sum_weights;
use crate::vocabulary::prefix_contains;
use crate::vocabulary::symbol_index;
use crate::vocabulary::Vocabulary;
use crate::ModelError;
use vstd::string::StrSliceExecFns;

verus! {

/// The matrix as a sequence of row sequences.
pub open spec fn matrix_view(rows: Seq<Vec<u64>>) -> Seq<Seq<u64>> {
    rows.map_values(|r: Vec<u64>| r@)
}

/// The sum of all matrix cells.
pub open spec fn matrix_total(m: Seq<Seq<u64>>) -> int
    decreases m.len(),
{
    if m.len() == 0 {
        0
    } else {
        matrix_total(m.drop_last()) + seq_sum(m.last())
    }
}

/// Appending a row adds its sum to the matrix total.
pub proof fn lemma_matrix_total_push(m: Seq<Seq<u64>>, r: Seq<u64>)
    ensures
        matrix_total(m.push(r)) == matrix_total(m) + seq_sum(r),
{
    assert(m.push(r).drop_last() =~= m);
}

/// Replacing one row changes the matrix total by the difference of the row
/// sums.
pub proof fn lemma_matrix_total_update(m: Seq<Seq<u64>>, i: int, r: Seq<u64>)
    requires
        0 <= i < m.len(),
    ensures
        matrix_total(m.update(i, r)) == matrix_total(m) - seq_sum(m[i]) + seq_sum(r),
    decreases m.len(),
{
    if i == m.len() - 1 {
        assert(m.update(i, r).drop_last() =~= m.drop_last());
    } else {
        assert(m.update(i, r).drop_last() =~= m.drop_last().update(i, r));
        assert(m.update(i, r).last() == m.last());
        lemma_matrix_total_update(m.drop_last(), i, r);
    }
}

/// Every element of a weight row is bounded by the row's sum.
pub proof fn lemma_elem_le_sum(r: Seq<u64>, j: int)
    requires
        0 <= j < r.len(),
    ensures
        r[j] <= seq_sum(r),
    decreases r.len(),
{
    lemma_sum_positives(r.drop_last());
    if j < r.len() - 1 {
        lemma_elem_le_sum(r.drop_last(), j);
    }
}

/// Every row sum is bounded by the matrix total.
pub proof fn lemma_row_le_total(m: Seq<Seq<u64>>, i: int)
    requires
        0 <= i < m.len(),
    ensures
        seq_sum(m[i]) <= matrix_total(m),
        matrix_total(m) >= 0,
    decreases m.len(),
{
    lemma_sum_positives(m.last());
    if m.len() == 1 {
        assert(matrix_total(m.drop_last()) == 0);
    } else if i < m.len() - 1 {
        lemma_row_le_total(m.drop_last(), i);
    } else {
        lemma_matrix_nonneg(m.drop_last());
    }
}

/// A matrix total is never negative.
pub proof fn lemma_matrix_nonneg(m: Seq<Seq<u64>>)
    ensures
        matrix_total(m) >= 0,
    decreases m.len(),
{
    if m.len() > 0 {
        lemma_matrix_nonneg(m.drop_last());
        lemma_sum_positives(m.last());
    }
}

/// The boundary-wrapped index sequence of one name: the boundary index 0,
/// then the vocabulary index of each character, then the boundary index 0.
pub open spec fn tokens_spec(syms: Seq<char>, name: Seq<char>) -> Seq<int> {
    seq![0int] + name.map_values(|c: char| symbol_index(syms, c)) + seq![0int]
}

/// Index arithmetic of `tokens_spec`.
pub proof fn lemma_tokens_index(syms: Seq<char>, name: Seq<char>)
    ensures
        tokens_spec(syms, name).len() == name.len() + 2,
        tokens_spec(syms, name)[0] == 0,
        tokens_spec(syms, name)[name.len() as int + 1] == 0,
        forall|m: int|
            1 <= m <= name.len() ==> tokens_spec(syms, name)[m] == symbol_index(
                syms,
                name[m - 1],
            ),
{
    let toks = tokens_spec(syms, name);
    assert forall|m: int|
        1 <= m <= name.len() implies toks[m] == symbol_index(syms, name[m - 1]) by {
        assert(toks[m] == name.map_values(|c: char| symbol_index(syms, c))[m - 1]);
    }
}

/// How many adjacent positions of a token sequence hold the ordered pair
/// (i, j).
pub open spec fn pair_count(toks: Seq<int>, i: int, j: int) -> int
    decreases toks.len(),
{
    if toks.len() < 2 {
        0
    } else {
        pair_count(toks.drop_last(), i, j) + (if toks[toks.len() - 2] == i && toks[toks.len()
            - 1] == j {
            1int
        } else {
            0int
        })
    }
}

/// Extending a token sequence adds one pair, at the two final tokens.
pub proof fn lemma_pair_count_push(toks: Seq<int>, t: int, i: int, j: int)
    ensures
        pair_count(toks.push(t), i, j) == pair_count(toks, i, j) + (if toks.len() >= 1
            && toks.last() == i && t == j {
            1int
        } else {
            0int
        }),
{
    assert(toks.push(t).drop_last() =~= toks);
}

/// How often symbol `i` is immediately followed by symbol `j` across the
/// boundary-wrapped names of a corpus.
pub open spec fn corpus_pair_count(syms: Seq<char>, corpus: Seq<Seq<char>>, i: int, j: int) -> int
    decreases corpus.len(),
{
    if corpus.len() == 0 {
        0
    } else {
        corpus_pair_count(syms, corpus.drop_last(), i, j) + pair_count(
            tokens_spec(syms, corpus.last()),
            i,
            j,
        )
    }
}

/// Appending a name adds its pair counts to the corpus counts.
pub proof fn lemma_corpus_count_push(syms: Seq<char>, corpus: Seq<Seq<char>>, name: Seq<char>, i: int, j: int)
    ensures
        corpus_pair_count(syms, corpus.push(name), i, j) == corpus_pair_count(syms, corpus, i, j)
            + pair_count(tokens_spec(syms, name), i, j),
{
    assert(corpus.push(name).drop_last() =~= corpus);
}

/// The number of adjacent pairs in the boundary-wrapped form of one name.
pub open spec fn name_transitions(name: Seq<char>) -> int {
    name.len() as int + 1
}

/// The total number of adjacent pairs across the boundary-wrapped names of a
/// corpus.
pub open spec fn total_transitions(corpus: Seq<Seq<char>>) -> int
    decreases corpus.len(),
{
    if corpus.len() == 0 {
        0
    } else {
        total_transitions(corpus.drop_last()) + name_transitions(corpus.last())
    }
}

/// The total number of characters across the names of a corpus.
pub open spec fn total_chars(corpus: Seq<Seq<char>>) -> int
    decreases corpus.len(),
{
    if corpus.len() == 0 {
        0
    } else {
        total_chars(corpus.drop_last()) + corpus.last().len()
    }
}

/// Appending a name adds its transition count.
pub proof fn lemma_transitions_push(corpus: Seq<Seq<char>>, name: Seq<char>)
    ensures
        total_transitions(corpus.push(name)) == total_transitions(corpus) + name_transitions(name),
{
    assert(corpus.push(name).drop_last() =~= corpus);
}

/// Transition totals grow with the corpus prefix.
pub proof fn lemma_transitions_prefix_mono(corpus: Seq<Seq<char>>, a: int, b: int)
    requires
        0 <= a <= b <= corpus.len(),
    ensures
        total_transitions(corpus.take(a)) <= total_transitions(corpus.take(b)),
    decreases b - a,
{
    if a < b {
        lemma_transitions_prefix_mono(corpus, a, b - 1);
        assert(corpus.take(b) =~= corpus.take(b - 1).push(corpus[b - 1]));
        lemma_transitions_push(corpus.take(b - 1), corpus[b - 1]);
    }
}

/// The whole corpus is its own longest prefix.
pub proof fn lemma_transitions_take_all(corpus: Seq<Seq<char>>)
    ensures
        total_transitions(corpus.take(corpus.len() as int)) == total_transitions(corpus),
{
    assert(corpus.take(corpus.len() as int) =~= corpus);
}

/// Law: counting conserves mass. A corpus with `k` characters in total
/// produces exactly `k` plus one transition per name: every character opens
/// one adjacent pair, and each name adds the final pair into the closing
/// boundary — an empty name contributes exactly its one boundary-to-boundary
/// pair.
pub proof fn lemma_count_conservation(corpus: Seq<Seq<char>>)
    ensures
        total_transitions(corpus) == total_chars(corpus) + corpus.len(),
    decreases corpus.len(),
{
    if corpus.len() > 0 {
        lemma_count_conservation(corpus.drop_last());
    }
}

/// Law: count conservation at the matrix. A well-formed count matrix whose
/// cell total is the corpus's transition count — what `count` produces —
/// has its cells summing to the corpus's character total plus its number of
/// names.
pub proof fn lemma_matrix_count_conservation(m: CountMatrix, corpus: Seq<Seq<char>>)
    requires
        m.wf(),
        m.total == total_transitions(corpus),
    ensures
        matrix_total(m.cells()) == total_chars(corpus) + corpus.len(),
{
    lemma_count_conservation(corpus);
}

/// Law: counting is deterministic and blind to corpus order. Two count
/// matrices of one vocabulary, each holding the pair counts of its corpus,
/// are cell-for-cell identical whenever the corpora hold the same names as
/// multisets.
pub proof fn lemma_count_matrices_identical(
    m1: CountMatrix,
    m2: CountMatrix,
    syms: Seq<char>,
    c1: Seq<Seq<char>>,
    c2: Seq<Seq<char>>,
)
    requires
        m1.counts_corpus(syms, c1),
        m2.counts_corpus(syms, c2),
        m1.size() == m2.size(),
        c1.to_multiset() == c2.to_multiset(),
    ensures
        forall|i: int, j: int|
            0 <= i < m1.size() && 0 <= j < m1.size() ==> m1.cells()[i][j] == m2.cells()[i][j],
{
    assert forall|i: int, j: int|
        0 <= i < m1.size() && 0 <= j < m1.size() implies m1.cells()[i][j] == m2.cells()[i][j] by {
        lemma_count_determinism(syms, c1, c2, i, j);
    }
}

/// Law: counting is deterministic and blind to corpus order. Two corpora
/// holding the same names as multisets produce the same pair count for every
/// cell, so their count matrices are identical.
pub proof fn lemma_count_determinism(
    syms: Seq<char>,
    c1: Seq<Seq<char>>,
    c2: Seq<Seq<char>>,
    i: int,
    j: int,
)
    requires
        c1.to_multiset() == c2.to_multiset(),
    ensures
        corpus_pair_count(syms, c1, i, j) == corpus_pair_count(syms, c2, i, j),
    decreases c1.len(),
{
    c1.to_multiset_ensures();
    c2.to_multiset_ensures();
    if c1.len() == 0 {
        assert(c2.len() == 0);
    } else {
        let x = c1.last();
        assert(c1.contains(x)) by {
            assert(c1[c1.len() - 1] == x);
        }
        assert(c2.to_multiset().count(x) > 0);
        assert(c2.contains(x));
        let k = choose|k: int| 0 <= k < c2.len() && c2[k] == x;
        lemma_corpus_count_remove(syms, c2, k, i, j);
        assert(c1.drop_last() =~= c1.remove(c1.len() - 1));
        assert(c1.drop_last().to_multiset() == c2.remove(k).to_multiset()) by {
            assert(c1.remove(c1.len() - 1).to_multiset() =~= c1.to_multiset().remove(x));
            assert(c2.remove(k).to_multiset() =~= c2.to_multiset().remove(x));
        }
        lemma_count_determinism(syms, c1.drop_last(), c2.remove(k), i, j);
    }
}

/// Removing one name removes exactly its pair counts.
pub proof fn lemma_corpus_count_remove(
    syms: Seq<char>,
    c: Seq<Seq<char>>,
    k: int,
    i: int,
    j: int,
)
    requires
        0 <= k < c.len(),
    ensures
        corpus_pair_count(syms, c, i, j) == corpus_pair_count(syms, c.remove(k), i, j)
            + pair_count(tokens_spec(syms, c[k]), i, j),
    decreases c.len(),
{
    if k == c.len() - 1 {
        assert(c.remove(k) =~= c.drop_last());
    } else {
        assert(c.remove(k).drop_last() =~= c.drop_last().remove(k));
        assert(c.remove(k).last() == c.last());
        lemma_corpus_count_remove(syms, c.drop_last(), k, i, j);
    }
}

/// A dense square matrix of bigram counts, together with its cell total.
///
/// Cell (i, j) holds how often symbol i was immediately followed by symbol j
/// across the boundary-wrapped corpus; `total` always equals the sum of all
/// cells.
#[derive(Clone, Debug)]
pub struct CountMatrix {
    /// The rows of the matrix, one per vocabulary symbol.
    pub rows: Vec<Vec<u64>>,
    /// The sum of all cells: the number of transitions observed.
    pub total: u64,
}

impl CountMatrix {
    /// The cells as a sequence of row sequences.
    pub open spec fn cells(&self) -> Seq<Seq<u64>> {
        matrix_view(self.rows@)
    }

    /// The number of rows (and of columns).
    pub open spec fn size(&self) -> int {
        self.rows@.len() as int
    }

    /// Well-formedness: the matrix is square and `total` is the sum of all
    /// cells.
    pub open spec fn wf(&self) -> bool {
        &&& forall|i: int| 0 <= i < self.size() ==> (#[trigger] self.cells()[i]).len() == self.size()
        &&& matrix_total(self.cells()) == self.total
    }

    /// The matrix holds exactly the pair counts of the corpus.
    pub open spec fn counts_corpus(&self, syms: Seq<char>, corpus: Seq<Seq<char>>) -> bool {
        forall|i: int, j: int|
            0 <= i < self.size() && 0 <= j < self.size() ==> self.cells()[i][j]
                == #[trigger] corpus_pair_count(syms, corpus, i, j)
    }

    /// Tallies the adjacent symbol pairs of every boundary-wrapped name of
    /// the corpus into a square matrix indexed by the vocabulary.
    ///
    /// Succeeds exactly when every character of the corpus is a symbol of
    /// the vocabulary; an unknown character fails with `UnknownSymbol`. On
    /// success every cell (i, j) holds the exact corpus pair count, and the
    /// cell total equals the number of transitions of the corpus.
    pub fn count(names: &Vec<NameItem>, vocab: &Vocabulary) -> (r: Result<CountMatrix, ModelError>)
        requires
            vocab.wf(),
            total_transitions(corpus_view(names@)) <= u64::MAX,
        ensures
            match r {
                Ok(m) => {
                    &&& m.wf()
                    &&& m.size() == vocab.symbols().len()
                    &&& m.counts_corpus(vocab.symbols(), corpus_view(names@))
                    &&& m.total == total_transitions(corpus_view(names@))
                    &&& forall|d: char|
                        corpus_contains_char(corpus_view(names@), d) ==> vocab.symbols().contains(
                            d,
                        )
                },
                Err(e) => {
                    &&& e == ModelError::UnknownSymbol
                    &&& exists|d: char|
                        corpus_contains_char(corpus_view(names@), d) && !vocab.symbols().contains(
                            d,
                        )
                },
            },
    {
        let ghost syms = vocab.symbols();
        let ghost corpus = corpus_view(names@);
        let size = vocab.get_size();
        // The zero matrix.
        let mut rows: Vec<Vec<u64>> = Vec::new();
        let mut i: usize = 0;
        while i < size
            invariant
                rows@.len() == i,
                i <= size,
                forall|a: int|
                    0 <= a < i ==> (#[trigger] matrix_view(rows@)[a]).len() == size,
                forall|a: int, b: int|
                    0 <= a < i && 0 <= b < size ==> matrix_view(rows@)[a][b] == 0,
                matrix_total(matrix_view(rows@)) == 0,
            decreases size - i,
        {
            let mut row: Vec<u64> = Vec::new();
            let mut j: usize = 0;
            while j < size
                invariant
                    row@.len() == j,
                    j <= size,
                    forall|b: int| 0 <= b < j ==> row@[b] == 0,
                    seq_sum(row@) == 0,
                decreases size - j,
            {
                proof {
                    lemma_seq_sum_push(row@, 0);
                }
                row.push(0);
                j += 1;
            }
            let ghost pre = matrix_view(rows@);
            let ghost rowview = row@;
            rows.push(row);
            proof {
                assert(matrix_view(rows@) =~= pre.push(rowview));
                lemma_matrix_total_push(pre, rowview);
            }
            i += 1;
        }
        let mut total: u64 = 0;
        let mut n: usize = 0;
        while n < names.len()
            invariant
                vocab.wf(),
                syms == vocab.symbols(),
                corpus == corpus_view(names@),
                corpus.len() == names@.len(),
                size == syms.len(),
                n <= names@.len(),
                total_transitions(corpus) <= u64::MAX,
                rows@.len() == size,
                forall|a: int|
                    0 <= a < size ==> (#[trigger] matrix_view(rows@)[a]).len() == size,
                total == total_transitions(corpus.take(n as int)),
                matrix_total(matrix_view(rows@)) == total,
                forall|a: int, b: int|
                    0 <= a < size && 0 <= b < size ==> matrix_view(rows@)[a][b]
                        == #[trigger] corpus_pair_count(syms, corpus.take(n as int), a, b),
                forall|d: char| prefix_contains(corpus, n as int, 0, d) ==> syms.contains(d),
            decreases names@.len() - n,
        {
            let ghost name_chars = corpus[n as int];
            let ghost toks = tokens_spec(syms, name_chars);
            proof {
                lemma_tokens_index(syms, name_chars);
                lemma_transitions_prefix_mono(corpus, n + 1, corpus.len() as int);
                lemma_transitions_take_all(corpus);
                assert(corpus.take(n + 1) =~= corpus.take(n as int).push(corpus[n as int]));
                lemma_transitions_push(corpus.take(n as int), corpus[n as int]);
            }
            let name = &names[n].name;
            assert(name@ == name_chars);
            let len = name.as_str().unicode_len();
            let mut prev: usize = 0;
            let mut k: usize = 0;
            while k < len
                invariant
                    vocab.wf(),
                    syms == vocab.symbols(),
                    size == syms.len(),
                    size >= 1,
                    corpus == corpus_view(names@),
                    corpus.len() == names@.len(),
                    n < names@.len(),
                    name_chars == corpus[n as int],
                    name@ == name_chars,
                    len == name_chars.len(),
                    toks == tokens_spec(syms, name_chars),
                    toks.len() == len + 2,
                    k <= len,
                    prev < size,
                    prev == toks[k as int],
                    total_transitions(corpus.take(n as int)) + name_transitions(name_chars)
                        <= u64::MAX,
                    total == total_transitions(corpus.take(n as int)) + k,
                    rows@.len() == size,
                    forall|a: int|
                        0 <= a < size ==> (#[trigger] matrix_view(rows@)[a]).len() == size,
                    matrix_total(matrix_view(rows@)) == total,
                    forall|a: int, b: int|
                        0 <= a < size && 0 <= b < size ==> matrix_view(rows@)[a][b]
                            == #[trigger] corpus_pair_count(syms, corpus.take(n as int), a, b)
                            + pair_count(toks.take(k + 1), a, b),
                    forall|d: char|
                        prefix_contains(corpus, n as int, k as int, d) ==> syms.contains(d),
                decreases len - k,
            {
                let c = name.as_str().get_char(k);
                let cur = match vocab.index_of_char(c) {
                    Ok(cur) => cur,
                    Err(e) => {
                        proof {
                            assert(corpus_contains_char(corpus, c)) by {
                                assert(corpus[n as int][k as int] == c);
                            }
                        }
                        return Err(e);
                    },
                };
                proof {
                    lemma_tokens_index(syms, name_chars);
                    assert(toks[k + 1] == symbol_index(syms, name_chars[k as int]));
                    assert(toks.take(k + 2) =~= toks.take(k + 1).push(toks[k + 1]));
                    assert(toks.take(k + 1).len() == k + 1);
                    assert(toks.take(k + 1).last() == toks[k as int]);
                }
                increment_cell(&mut rows, prev, cur, Ghost(total as int));
                proof {
                    assert forall|a: int, b: int|
                        0 <= a < size && 0 <= b < size implies matrix_view(rows@)[a][b]
                        == #[trigger] corpus_pair_count(syms, corpus.take(n as int), a, b)
                        + pair_count(toks.take(k + 2), a, b) by {
                        lemma_pair_count_push(toks.take(k + 1), toks[k + 1], a, b);
                    }
                    assert forall|d: char|
                        prefix_contains(corpus, n as int, (k + 1) as int, d) implies syms.contains(
                        d,
                    ) by {
                        if d != c {
                            assert(prefix_contains(corpus, n as int, k as int, d)) by {
                                if exists|j: int|
                                    0 <= j < k + 1 && #[trigger] corpus[n as int][j] == d {
                                    let j = choose|j: int|
                                        0 <= j < k + 1 && #[trigger] corpus[n as int][j] == d;
                                    assert(j != k);
                                    assert(corpus[n as int][j] == d);
                                }
                            }
                        }
                    }
                }
                total = total + 1;
                prev = cur;
                k += 1;
            }
            // The closing boundary transition.
            proof {
                lemma_tokens_index(syms, name_chars);
                assert(toks[len + 1] == 0);
                assert(toks.take(len + 2) =~= toks.take(len + 1).push(toks[len + 1]));
                assert(toks.take(len + 1).len() == len + 1);
                assert(toks.take(len + 1).last() == toks[len as int]);
            }
            increment_cell(&mut rows, prev, 0, Ghost(total as int));
            proof {
                assert forall|a: int, b: int|
                    0 <= a < size && 0 <= b < size implies matrix_view(rows@)[a][b]
                    == corpus_pair_count(syms, corpus.take(n as int), a, b) + pair_count(
                    toks.take(len + 2),
                    a,
                    b,
                ) by {
                    lemma_pair_count_push(toks.take(len + 1), toks[len + 1], a, b);
                }
                assert(toks.take(len + 2) =~= toks);
                assert forall|a: int, b: int|
                    0 <= a < size && 0 <= b < size implies matrix_view(rows@)[a][b]
                    == #[trigger] corpus_pair_count(syms, corpus.take(n + 1), a, b) by {
                    assert(corpus.take(n + 1) =~= corpus.take(n as int).push(name_chars));
                    lemma_corpus_count_push(syms, corpus.take(n as int), name_chars, a, b);
                }
            }
            total = total + 1;
            n += 1;
        }
        proof {
            assert(corpus.take(names@.len() as int) =~= corpus);
        }
        Ok(CountMatrix { rows, total })
    }

    /// The count of symbol pair (i, j).
    pub fn get(&self, i: usize, j: usize) -> (v: u64)
        requires
            self.wf(),
            i < self.size(),
            j < self.size(),
        ensures
            v == self.cells()[i as int][j as int],
    {
        proof {
            assert(self.cells()[i as int].len() == self.size());
        }
        self.rows[i][j]
    }

    /// One row of counts.
    pub fn get_row(&self, i: usize) -> (r: &Vec<u64>)
        requires
            i < self.size(),
        ensures
            r@ == self.cells()[i as int],
    {
        &self.rows[i]
    }

    /// The number of rows (and of columns).
    pub fn get_size(&self) -> (s: usize)
        ensures
            s == self.size(),
    {
        self.rows.len()
    }

    /// The sum of all cells: the number of transitions observed.
    pub fn get_total(&self) -> (t: u64)
        ensures
            t == self.total,
    {
        self.total
    }
}

/// A row-normalized probability matrix kept as exact fractions.
///
/// Row `i` stands for the distribution of the symbol following symbol `i`:
/// cell (i, j) has probability `nums[i][j] / dens[i]`. The denominators are
/// the row sums of the numerators, so every row with a positive denominator
/// sums to exactly one. A row whose counts were all zero keeps denominator
/// zero and is not a distribution; sampling from it fails fast with
/// `DegenerateRow`.
#[derive(Clone, Debug)]
pub struct ProbabilityMatrix {
    /// The numerators: the count-matrix cells, row by row.
    pub nums: Vec<Vec<u64>>,
    /// The denominators: one row sum per row.
    pub dens: Vec<u64>,
}

impl ProbabilityMatrix {
    /// The numerators as a sequence of row sequences.
    pub open spec fn cells(&self) -> Seq<Seq<u64>> {
        matrix_view(self.nums@)
    }

    /// The number of rows (and of columns).
    pub open spec fn size(&self) -> int {
        self.nums@.len() as int
    }

    /// Well-formedness: the matrix is square and each denominator is its
    /// row's sum of numerators.
    pub open spec fn wf(&self) -> bool {
        &&& self.dens@.len() == self.size()
        &&& forall|i: int| 0 <= i < self.size() ==> (#[trigger] self.cells()[i]).len() == self.size()
        &&& forall|i: int| 0 <= i < self.size() ==> self.dens@[i] == seq_sum(#[trigger] self.cells()[i])
    }

    /// The number of rows (and of columns).
    pub fn get_size(&self) -> (s: usize)
        ensures
            s == self.size(),
    {
        self.nums.len()
    }

    /// The numerator of cell (i, j).
    pub fn numerator(&self, i: usize, j: usize) -> (v: u64)
        requires
            self.wf(),
            i < self.size(),
            j < self.size(),
        ensures
            v == self.cells()[i as int][j as int],
    {
        proof {
            assert(self.cells()[i as int].len() == self.size());
        }
        self.nums[i][j]
    }

    /// The denominator of row `i`: the row's sum of numerators.
    pub fn denominator(&self, i: usize) -> (v: u64)
        requires
            self.wf(),
            i < self.size(),
        ensures
            v == self.dens@[i as int],
            v == seq_sum(self.cells()[i as int]),
    {
        self.dens[i]
    }

    /// One row of numerators.
    pub fn get_row(&self, i: usize) -> (r: &Vec<u64>)
        requires
            i < self.size(),
        ensures
            r@ == self.cells()[i as int],
    {
        &self.nums[i]
    }
}

/// Converts a count matrix into a row-normalized probability matrix: each
/// row of counts becomes the row of numerators over the row sum as the
/// denominator, the exact maximum-likelihood estimate without smoothing.
///
/// A row with all-zero counts is left all-zero with denominator zero — the
/// fail-fast-on-sampling policy for degenerate rows — and the input matrix
/// is not mutated.
pub fn normalize(counts: &CountMatrix) -> (p: ProbabilityMatrix)
    requires
        counts.wf(),
    ensures
        p.wf(),
        p.size() == counts.size(),
        p.cells() == counts.cells(),
        forall|i: int|
            0 <= i < p.size() ==> p.dens@[i] == seq_sum(#[trigger] counts.cells()[i]),
{
    let size = counts.get_size();
    let mut nums: Vec<Vec<u64>> = Vec::new();
    let mut dens: Vec<u64> = Vec::new();
    let mut i: usize = 0;
    while i < size
        invariant
            counts.wf(),
            size == counts.size(),
            i <= size,
            nums@.len() == i,
            dens@.len() == i,
            forall|a: int| 0 <= a < i ==> matrix_view(nums@)[a] == #[trigger] counts.cells()[a],
            forall|a: int|
                0 <= a < i ==> dens@[a] == seq_sum(#[trigger] counts.cells()[a]),
        decreases size - i,
    {
        let src = counts.get_row(i);
        let mut row: Vec<u64> = Vec::new();
        let mut j: usize = 0;
        while j < src.len()
            invariant
                j <= src@.len(),
                row@ == src@.take(j as int),
            decreases src@.len() - j,
        {
            row.push(src[j]);
            proof {
                assert(row@ =~= src@.take(j + 1));
            }
            j += 1;
        }
        proof {
            assert(row@ =~= src@);
            lemma_row_le_total(counts.cells(), i as int);
        }
        let den = sum_weights(&row);
        let ghost pre = matrix_view(nums@);
        let ghost rowview = row@;
        nums.push(row);
        dens.push(den);
        proof {
            assert(matrix_view(nums@) =~= pre.push(rowview));
        }
        i += 1;
    }
    let p = ProbabilityMatrix { nums, dens };
    proof {
        assert(p.cells() =~= counts.cells());
    }
    p
}

/// Law: normalization is exactly row-stochastic. Every row of a well-formed
/// probability matrix whose denominator is positive has numerators that sum
/// to that denominator, so the row's probabilities sum to exactly one.
pub proof fn lemma_row_stochastic(p: ProbabilityMatrix, i: int)
    requires
        p.wf(),
        0 <= i < p.size(),
        p.dens@[i] > 0,
    ensures
        seq_sum(p.cells()[i]) == p.dens@[i],
{
}

/// Adds one to a cell of a square matrix whose cell total is known to leave
/// room for the increment.
fn increment_cell(rows: &mut Vec<Vec<u64>>, i: usize, j: usize, total: Ghost<int>)
    requires
        i < old(rows)@.len(),
        j < matrix_view(old(rows)@)[i as int].len(),
        matrix_total(matrix_view(old(rows)@)) == total@,
        total@ < u64::MAX,
    ensures
        final(rows)@.len() == old(rows)@.len(),
        matrix_view(final(rows)@) == matrix_view(old(rows)@).update(
            i as int,
            matrix_view(old(rows)@)[i as int].update(
                j as int,
                (matrix_view(old(rows)@)[i as int][j as int] + 1) as u64,
            ),
        ),
        matrix_total(matrix_view(final(rows)@)) == total@ + 1,
        forall|a: int, b: int|
            0 <= a < matrix_view(final(rows)@).len() && 0 <= b < matrix_view(final(rows)@)[a].len()
                ==> matrix_view(final(rows)@)[a][b] == matrix_view(old(rows)@)[a][b] + (if a == i
                && b == j {
                1int
            } else {
                0int
            }),
        forall|a: int|
            0 <= a < matrix_view(final(rows)@).len() ==> (#[trigger] matrix_view(final(rows)@)[a]).len()
                == matrix_view(old(rows)@)[a].len(),
{
    proof {
        lemma_row_le_total(matrix_view(rows@), i as int);
        lemma_elem_le_sum(matrix_view(rows@)[i as int], j as int);
    }
    let ghost pre = matrix_view(rows@);
    let v = rows[i][j];
    let row = &mut rows[i];
    row.set(j, v + 1);
    proof {
        assert(matrix_view(rows@) =~= pre.update(i as int, pre[i as int].update(j as int, (v
            + 1) as u64)));
        lemma_matrix_total_update(pre, i as int, pre[i as int].update(j as int, (v + 1) as u64));
        lemma_seq_sum_update(pre[i as int], j as int, (v + 1) as u64);
    }
}

} // verus!
