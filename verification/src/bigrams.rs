//! The bigram model: a vocabulary, the count matrix of its corpus, and the
//! row-normalized probability matrix, with sampling and name generation.

use vstd::prelude::*;
use vstd::string::StrSliceExecFns;

use crate::data::corpus_view;
use crate::data::NameItem;
use crate::matrix::normalize;
use crate::matrix::total_transitions;
use crate::matrix::CountMatrix;
use crate::matrix::ProbabilityMatrix;
use crate::push_char;
use crate::sampler::flat_view;
use crate::sampler::flatten;
use crate::sampler::positives;
use crate::sampler::sample;
use crate::sampler::sample_index;
use crate::sampler::seq_sum;
use crate::vocabulary::symbol_index;
use crate::vocabulary::Vocabulary;
use crate::ModelError;

verus! {

/// A statistical model of the symbol-pair frequencies and probabilities of
/// a corpus of names.
///
/// The vocabulary, the count matrix and the probability matrix are built
/// once from the corpus and never mutated; generation only reads them.
#[derive(Clone, Debug)]
pub struct BigramModel {
    /// The symbols of the corpus, boundary first.
    pub vocabulary: Vocabulary,
    /// The dense matrix of symbol-pair counts.
    pub counts: CountMatrix,
    /// The row-normalized probability matrix derived from the counts.
    pub probabilities: ProbabilityMatrix,
}

impl BigramModel {
    /// Well-formedness: all three parts are well-formed, share one size, and
    /// the probability numerators are exactly the counts.
    pub open spec fn wf(&self) -> bool {
        &&& self.vocabulary.wf()
        &&& self.counts.wf()
        &&& self.probabilities.wf()
        &&& self.counts.size() == self.vocabulary.symbols().len()
        &&& self.probabilities.size() == self.counts.size()
        &&& self.probabilities.cells() == self.counts.cells()
    }

    /// One matrix entry paired with its symbol strings.
    pub open spec fn count_entry_matches(
        &self,
        e: ((String, String), u64),
        i: int,
        j: int,
    ) -> bool {
        &&& e.0.0@ == self.vocabulary.chars@[i]@
        &&& e.0.1@ == self.vocabulary.chars@[j]@
        &&& e.1 == self.counts.cells()[i][j]
    }

    /// One probability entry paired with its symbol strings: the numerator
    /// and the row denominator of a cell.
    pub open spec fn prob_entry_matches(
        &self,
        e: ((String, String), (u64, u64)),
        i: int,
        j: int,
    ) -> bool {
        &&& e.0.0@ == self.vocabulary.chars@[i]@
        &&& e.0.1@ == self.vocabulary.chars@[j]@
        &&& e.1.0 == self.probabilities.cells()[i][j]
        &&& e.1.1 == self.probabilities.dens@[i]
    }

    /// Builds the model of a corpus: derives the vocabulary, tallies the
    /// count matrix and normalizes it into the probability matrix.
    ///
    /// Always succeeds: the vocabulary is built from the same corpus that is
    /// counted, so no unknown symbol can occur.
    pub fn new(names: &Vec<NameItem>) -> (r: Result<BigramModel, ModelError>)
        requires
            total_transitions(corpus_view(names@)) <= u64::MAX,
        ensures
            r is Ok,
            r matches Ok(m) ==> {
                &&& m.wf()
                &&& forall|d: char|
                    m.vocabulary.symbols().contains(d) <==> (d == '.'
                        || crate::data::corpus_contains_char(corpus_view(names@), d))
                &&& m.counts.counts_corpus(m.vocabulary.symbols(), corpus_view(names@))
                &&& m.counts.total == total_transitions(corpus_view(names@))
            },
    {
        let vocabulary = Vocabulary::new(names);
        let counts = match CountMatrix::count(names, &vocabulary) {
            Ok(c) => c,
            Err(e) => {
                proof {
                    assert(false);
                }
                return Err(e);
            },
        };
        let probabilities = normalize(&counts);
        Ok(BigramModel { vocabulary, counts, probabilities })
    }

    /// The vocabulary the model was built over.
    pub fn get_vocabulary(&self) -> (r: &Vocabulary)
        ensures
            r == &self.vocabulary,
    {
        &self.vocabulary
    }

    /// The dense count matrix.
    pub fn get_tensor(&self) -> (r: &CountMatrix)
        ensures
            r == &self.counts,
    {
        &self.counts
    }

    /// The row-normalized probability matrix.
    pub fn get_probabilities(&self) -> (r: &ProbabilityMatrix)
        ensures
            r == &self.probabilities,
    {
        &self.probabilities
    }

    /// The symbols in vocabulary order, each a one-character string.
    pub fn get_chars(&self) -> (r: &Vec<String>)
        ensures
            r@ == self.vocabulary.chars@,
    {
        &self.vocabulary.chars
    }

    /// The entry is a positive cell of the count matrix, with its symbols.
    pub open spec fn is_valid_count_entry(&self, e: ((String, String), u64)) -> bool {
        exists|i: int, j: int|
            {
                &&& 0 <= i < self.counts.size()
                &&& 0 <= j < self.counts.size()
                &&& self.counts.cells()[i][j] > 0
                &&& #[trigger] self.count_entry_matches(e, i, j)
            }
    }

    /// Cell (i, j) is represented among the entries.
    pub open spec fn has_count_entry(
        &self,
        r: Seq<((String, String), u64)>,
        i: int,
        j: int,
    ) -> bool {
        exists|e: int| 0 <= e < r.len() && self.count_entry_matches(#[trigger] r[e], i, j)
    }

    /// An entry stays represented when the list grows.
    proof fn lemma_has_count_entry_push(
        &self,
        r: Seq<((String, String), u64)>,
        x: ((String, String), u64),
        i: int,
        j: int,
    )
        requires
            self.has_count_entry(r, i, j),
        ensures
            self.has_count_entry(r.push(x), i, j),
    {
        let e = choose|e: int| 0 <= e < r.len() && self.count_entry_matches(#[trigger] r[e], i, j);
        assert(r.push(x)[e] == r[e]);
        assert(self.count_entry_matches(r.push(x)[e], i, j));
    }

    /// The positive symbol-pair counts as an association list: every pair of
    /// symbols observed at least once, with its count — and nothing else,
    /// each key at most once.
    pub fn get_counts(&self) -> (r: Vec<((String, String), u64)>)
        requires
            self.wf(),
        ensures
            forall|e: int| 0 <= e < r@.len() ==> self.is_valid_count_entry(#[trigger] r@[e]),
            forall|i: int, j: int|
                0 <= i < self.counts.size() && 0 <= j < self.counts.size()
                    && #[trigger] self.counts.cells()[i][j] > 0 ==> self.has_count_entry(r@, i, j),
            forall|e1: int, e2: int|
                #![trigger r@[e1], r@[e2]]
                0 <= e1 < e2 < r@.len() ==> !(r@[e1].0.0@ == r@[e2].0.0@ && r@[e1].0.1@
                    == r@[e2].0.1@),
    {
        let size = self.counts.get_size();
        let mut r: Vec<((String, String), u64)> = Vec::new();
        let ghost mut pos: Seq<(int, int)> = Seq::empty();
        let mut i: usize = 0;
        while i < size
            invariant
                self.wf(),
                size == self.counts.size(),
                i <= size,
                forall|e: int| 0 <= e < r@.len() ==> self.is_valid_count_entry(#[trigger] r@[e]),
                forall|a: int, b: int|
                    0 <= a < i && 0 <= b < size && #[trigger] self.counts.cells()[a][b] > 0
                        ==> self.has_count_entry(r@, a, b),
                pos.len() == r@.len(),
                forall|e: int|
                    0 <= e < pos.len() ==> 0 <= (#[trigger] pos[e]).0 < size && 0 <= pos[e].1
                        < size && self.count_entry_matches(r@[e], pos[e].0, pos[e].1),
                forall|e1: int, e2: int|
                    #![trigger pos[e1], pos[e2]]
                    0 <= e1 < e2 < pos.len() ==> (pos[e1].0 < pos[e2].0 || (pos[e1].0 == pos[e2].0
                        && pos[e1].1 < pos[e2].1)),
                forall|e: int| 0 <= e < pos.len() ==> (#[trigger] pos[e]).0 < i,
            decreases size - i,
        {
            let mut j: usize = 0;
            while j < size
                invariant
                    self.wf(),
                    size == self.counts.size(),
                    i < size,
                    j <= size,
                    forall|e: int|
                        0 <= e < r@.len() ==> self.is_valid_count_entry(#[trigger] r@[e]),
                    forall|a: int, b: int|
                        0 <= a < i && 0 <= b < size && #[trigger] self.counts.cells()[a][b] > 0
                            ==> self.has_count_entry(r@, a, b),
                    forall|b: int|
                        0 <= b < j && #[trigger] self.counts.cells()[i as int][b] > 0
                            ==> self.has_count_entry(r@, i as int, b),
                    pos.len() == r@.len(),
                    forall|e: int|
                        0 <= e < pos.len() ==> 0 <= (#[trigger] pos[e]).0 < size && 0 <= pos[e].1
                            < size && self.count_entry_matches(r@[e], pos[e].0, pos[e].1),
                    forall|e1: int, e2: int|
                        #![trigger pos[e1], pos[e2]]
                        0 <= e1 < e2 < pos.len() ==> (pos[e1].0 < pos[e2].0 || (pos[e1].0
                            == pos[e2].0 && pos[e1].1 < pos[e2].1)),
                    forall|e: int|
                        0 <= e < pos.len() ==> (#[trigger] pos[e]).0 < i || ((#[trigger] pos[e]).0
                            == i && pos[e].1 < j),
                decreases size - j,
            {
                let v = self.counts.get(i, j);
                if v > 0 {
                    let key = (self.vocabulary.chars[i].clone(), self.vocabulary.chars[j].clone());
                    let ghost pre = r@;
                    let ghost x = (key, v);
                    r.push((key, v));
                    proof {
                        let prepos = pos;
                        pos = pos.push((i as int, j as int));
                        assert(r@ == pre.push(x));
                        assert forall|e: int|
                            0 <= e < pos.len() - 1 implies #[trigger] pos[e] == prepos[e]
                            && r@[e] == pre[e] by {}
                        assert(self.count_entry_matches(r@[pre.len() as int], i as int, j as int));
                        assert(self.is_valid_count_entry(r@[pre.len() as int]));
                        assert(self.has_count_entry(r@, i as int, j as int));
                        assert forall|e: int|
                            0 <= e < r@.len() implies self.is_valid_count_entry(
                            #[trigger] r@[e],
                        ) by {
                            if e < pre.len() {
                                assert(r@[e] == pre[e]);
                            }
                        }
                        assert forall|a: int, b: int|
                            0 <= a < size && 0 <= b < size && self.has_count_entry(
                                pre,
                                a,
                                b,
                            ) implies self.has_count_entry(r@, a, b) by {
                            self.lemma_has_count_entry_push(pre, x, a, b);
                        }
                    }
                }
                j += 1;
            }
            i += 1;
        }
        proof {
            assert forall|e1: int, e2: int|
                #![trigger r@[e1], r@[e2]]
                0 <= e1 < e2 < r@.len() implies !(r@[e1].0.0@ == r@[e2].0.0@ && r@[e1].0.1@
                == r@[e2].0.1@) by {
                let (a1, b1) = pos[e1];
                let (a2, b2) = pos[e2];
                if a1 != a2 {
                    crate::vocabulary::lemma_symbol_strings_distinct(
                        self.vocabulary.chars@,
                        a1,
                        a2,
                    );
                } else {
                    crate::vocabulary::lemma_symbol_strings_distinct(
                        self.vocabulary.chars@,
                        b1,
                        b2,
                    );
                }
            }
        }
        r
    }

    /// The probability entries of every cell, in row-major order: each
    /// pair of symbols with the cell's exact fraction (numerator,
    /// denominator). Zero cells are included — unlike `get_counts`, which
    /// keeps only positive cells — so the result always holds one entry per
    /// cell of the square matrix, and no key twice.
    pub fn get_probabilities_map(&self) -> (r: Vec<((String, String), (u64, u64))>)
        requires
            self.wf(),
        ensures
            r@.len() == self.probabilities.size() * self.probabilities.size(),
            forall|e: int|
                0 <= e < r@.len() ==> self.prob_entry_matches(
                    #[trigger] r@[e],
                    e / self.probabilities.size(),
                    e % self.probabilities.size(),
                ),
    {
        let size = self.probabilities.get_size();
        let mut r: Vec<((String, String), (u64, u64))> = Vec::new();
        let mut i: usize = 0;
        while i < size
            invariant
                self.wf(),
                size == self.probabilities.size(),
                i <= size,
                r@.len() == i * size,
                forall|e: int|
                    0 <= e < r@.len() ==> self.prob_entry_matches(#[trigger] r@[e], e / size as int, e % size as int),
            decreases size - i,
        {
            let mut j: usize = 0;
            while j < size
                invariant
                    self.wf(),
                    size == self.probabilities.size(),
                    i < size,
                    j <= size,
                    r@.len() == i * size + j,
                    forall|e: int|
                        0 <= e < r@.len() ==> self.prob_entry_matches(#[trigger] r@[e], e / size as int, e % size as int),
                decreases size - j,
            {
                let v = self.probabilities.numerator(i, j);
                let den = self.probabilities.denominator(i);
                let key = (self.vocabulary.chars[i].clone(), self.vocabulary.chars[j].clone());
                let ghost pre = r@;
                r.push((key, (v, den)));
                proof {
                    vstd::arithmetic::div_mod::lemma_fundamental_div_mod_converse(
                        pre.len() as int,
                        size as int,
                        i as int,
                        j as int,
                    );
                    assert(self.prob_entry_matches(r@[pre.len() as int], i as int, j as int));
                }
                j += 1;
            }
            proof {
                assert(i * size + size == (i + 1) * size) by (nonlinear_arith);
            }
            i += 1;
        }
        r
    }

    /// Samples indices from a weight matrix by inverse-CDF draws.
    ///
    /// A matrix of more than one row is first flattened, row-major, into a
    /// single distribution — the documented fallback for passing a whole
    /// probability matrix; `crate::sampler::sample` on one row is the
    /// primary single-distribution entry point. The returned indices point
    /// into the flattened distribution, always at entries with positive
    /// weight, and are pairwise distinct when drawing without replacement.
    pub fn multinomial(&self, weights: &Vec<Vec<u64>>, num_samples: usize, replacement: bool) -> (r:
        Result<Vec<usize>, ModelError>)
        requires
            seq_sum(flat_view(weights@.map_values(|v: Vec<u64>| v@))) <= u64::MAX,
        ensures
            ({
                let f = flat_view(weights@.map_values(|v: Vec<u64>| v@));
                match r {
                    Ok(s) => {
                        &&& s@.len() == num_samples
                        &&& forall|k: int|
                            0 <= k < s@.len() ==> (#[trigger] s@[k]) < f.len() && f[s@[k] as int]
                                > 0
                        &&& !replacement ==> s@.no_duplicates()
                    },
                    Err(e) => {
                        &&& (e == ModelError::InsufficientSupport <==> (!replacement && num_samples
                            > positives(f)))
                        &&& (e == ModelError::DegenerateRow <==> (replacement && num_samples > 0
                            && seq_sum(f) == 0))
                    },
                }
            }),
            ({
                let f = flat_view(weights@.map_values(|v: Vec<u64>| v@));
                r is Err <==> ((!replacement && num_samples > positives(f)) || (replacement
                    && num_samples > 0 && seq_sum(f) == 0))
            }),
    {
        let flat = flatten(weights);
        sample(&flat, num_samples, replacement)
    }

    /// Every symbol of the string continues a positive-probability
    /// transition from its predecessor, starting at the boundary symbol.
    pub open spec fn follows_model(&self, s: Seq<char>) -> bool {
        forall|k: int|
            0 <= k < s.len() ==> {
                let syms = self.vocabulary.symbols();
                let prev = if k == 0 {
                    0int
                } else {
                    symbol_index(syms, s[k - 1])
                };
                self.probabilities.cells()[prev][symbol_index(syms, #[trigger] s[k])] > 0
            }
    }

    /// Wraps a name's symbol strings in boundary markers: ".", then the
    /// symbols unchanged, then ".". Adjacent pairs of the result are the
    /// transitions the counting pass tallies.
    pub fn tokenize(chars: &Vec<String>) -> (r: Vec<String>)
        ensures
            r@.len() == chars@.len() + 2,
            r@[0]@ == seq!['.'],
            r@[r@.len() - 1]@ == seq!['.'],
            forall|i: int| 0 <= i < chars@.len() ==> r@[i + 1] == chars@[i],
    {
        let mut r: Vec<String> = Vec::new();
        r.push(crate::char_string('.'));
        let mut k: usize = 0;
        while k < chars.len()
            invariant
                k <= chars@.len(),
                r@.len() == k + 1,
                r@[0]@ == seq!['.'],
                forall|i: int| 0 <= i < k ==> r@[i + 1] == chars@[i],
            decreases chars@.len() - k,
        {
            r.push(chars[k].clone());
            k += 1;
        }
        r.push(crate::char_string('.'));
        r
    }

    /// Generates one name: starting from the boundary symbol, repeatedly
    /// samples the next symbol from the probability-matrix row of the
    /// current symbol, and stops when the boundary symbol is drawn again or
    /// the safety bound is reached.
    ///
    /// Always terminates, for any probability matrix; the returned string
    /// holds at most `max_len` non-boundary vocabulary symbols, and each of
    /// its symbols follows its predecessor with positive probability. A
    /// string shorter than the bound ends only because the boundary symbol
    /// was drawn, so the boundary transition out of its final state has
    /// positive probability. Fails with `DegenerateRow` only when a
    /// zero-denominator row is reached; with every row denominator positive,
    /// generation always succeeds, and a zero bound always yields the empty
    /// string.
    pub fn generate_name(&self, max_len: usize) -> (r: Result<String, ModelError>)
        requires
            self.wf(),
        ensures
            match r {
                Ok(s) => {
                    &&& s@.len() <= max_len
                    &&& forall|k: int|
                        0 <= k < s@.len() ==> self.vocabulary.symbols().contains(#[trigger] s@[k])
                            && s@[k] != '.'
                    &&& self.follows_model(s@)
                    &&& s@.len() < max_len ==> self.probabilities.cells()[
                        if s@.len() == 0 {
                            0int
                        } else {
                            symbol_index(self.vocabulary.symbols(), s@.last())
                        }
                    ][0] > 0
                },
                Err(e) => {
                    &&& e == ModelError::DegenerateRow
                    &&& exists|i: int|
                        0 <= i < self.probabilities.size() && self.probabilities.dens@[i] == 0
                },
            },
            (forall|i: int|
                0 <= i < self.probabilities.size() ==> self.probabilities.dens@[i] > 0) ==> r
                is Ok,
            max_len == 0 ==> r is Ok,
    {
        let ghost syms = self.vocabulary.symbols();
        let size = self.probabilities.get_size();
        let mut out = String::new();
        let mut count: usize = 0;
        let mut cur: usize = 0;
        while count < max_len
            invariant
                self.wf(),
                syms == self.vocabulary.symbols(),
                size == self.probabilities.size(),
                size == syms.len(),
                cur < size,
                count <= max_len,
                out@.len() == count,
                forall|k: int|
                    0 <= k < out@.len() ==> syms.contains(#[trigger] out@[k]) && out@[k] != '.',
                self.follows_model(out@),
                out@.len() == 0 ==> cur == 0,
                out@.len() > 0 ==> cur == symbol_index(syms, out@.last()),
            ensures
                out@.len() <= max_len,
                forall|k: int|
                    0 <= k < out@.len() ==> syms.contains(#[trigger] out@[k]) && out@[k] != '.',
                self.follows_model(out@),
                out@.len() < max_len ==> self.probabilities.cells()[
                    if out@.len() == 0 {
                        0int
                    } else {
                        symbol_index(syms, out@.last())
                    }
                ][0] > 0,
            decreases max_len - count,
        {
            let den = self.probabilities.denominator(cur);
            if den == 0 {
                return Err(ModelError::DegenerateRow);
            }
            let row = self.probabilities.get_row(cur);
            let idx = match sample_index(row) {
                Ok(idx) => idx,
                Err(_) => {
                    proof {
                        assert(false);
                    }
                    return Err(ModelError::DegenerateRow);
                },
            };
            proof {
                assert(self.probabilities.cells()[cur as int].len() == size);
            }
            if idx == 0 {
                proof {
                    assert(self.probabilities.cells()[cur as int][0] > 0);
                }
                break ;
            }
            let ch = self.vocabulary.sym_char(idx);
            let ghost pre = out@;
            proof {
                assert(syms.contains(ch)) by {
                    assert(syms[idx as int] == ch);
                }
                assert(ch != '.');
            }
            push_char(&mut out, ch);
            proof {
                crate::vocabulary::lemma_symbol_index_of_symbol(syms, idx as int);
                assert(symbol_index(syms, ch) == idx);
                assert(self.probabilities.cells()[cur as int][idx as int] > 0);
                assert forall|k: int|
                    0 <= k < out@.len() implies {
                    let prev = if k == 0 {
                        0int
                    } else {
                        symbol_index(syms, out@[k - 1])
                    };
                    self.probabilities.cells()[prev][symbol_index(syms, #[trigger] out@[k])] > 0
                } by {
                    if k < pre.len() {
                        assert(out@[k] == pre[k]);
                        if k > 0 {
                            assert(out@[k - 1] == pre[k - 1]);
                        }
                    } else {
                        assert(out@[k] == ch);
                        if k > 0 {
                            assert(out@[k - 1] == pre.last());
                        }
                    }
                }
            }
            count += 1;
            cur = idx;
        }
        Ok(out)
    }
}

/// The number of transitions counting the corpus will observe — each name's
/// character count plus one — or `None` when that number does not fit in a
/// 64-bit counter.
pub fn corpus_transitions(names: &Vec<NameItem>) -> (r: Option<u64>)
    ensures
        match r {
            Some(t) => t == total_transitions(corpus_view(names@)),
            None => total_transitions(corpus_view(names@)) > u64::MAX,
        },
{
    let ghost corpus = corpus_view(names@);
    let mut t: u64 = 0;
    let mut n: usize = 0;
    while n < names.len()
        invariant
            corpus == corpus_view(names@),
            corpus.len() == names@.len(),
            n <= names@.len(),
            t == total_transitions(corpus.take(n as int)),
        decreases names@.len() - n,
    {
        let len = names[n].name.as_str().unicode_len();
        proof {
            assert(corpus.take(n + 1) =~= corpus.take(n as int).push(corpus[n as int]));
            crate::matrix::lemma_transitions_push(corpus.take(n as int), corpus[n as int]);
            assert(corpus[n as int].len() == len);
        }
        if t == u64::MAX || (len as u64) > u64::MAX - 1 - t {
            proof {
                crate::matrix::lemma_transitions_prefix_mono(corpus, n + 1, corpus.len() as int);
                assert(corpus.take(corpus.len() as int) =~= corpus);
            }
            return None;
        }
        t = t + len as u64 + 1;
        n += 1;
    }
    proof {
        assert(corpus.take(corpus.len() as int) =~= corpus);
    }
    Some(t)
}

} // verus!
