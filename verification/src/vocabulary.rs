//! The vocabulary: the ordered set of distinct symbols observed in a corpus,
//! with the boundary symbol '.' always at index 0 and every other symbol in
//! strictly ascending code-point order.

use vstd::prelude::*;
use vstd::string::StrSliceExecFns;

use crate::char_string;
use crate::data::corpus_contains_char;
use crate::data::corpus_view;
use crate::data::NameItem;
use crate::ModelError;

verus! {

/// A symbol sequence in vocabulary order: the boundary symbol '.' first and
/// every other symbol exactly once, in strictly ascending code-point order.
pub open spec fn valid_symbol_seq(syms: Seq<char>) -> bool {
    &&& syms.len() >= 1
    &&& syms[0] == '.'
    &&& forall|i: int| 1 <= i < syms.len() ==> #[trigger] syms[i] != '.'
    &&& forall|i: int, j: int|
        #![trigger syms[i], syms[j]]
        1 <= i < j < syms.len() ==> syms[i] < syms[j]
}

/// The single characters of a sequence of one-character strings.
pub open spec fn string_symbols(strs: Seq<String>) -> Seq<char> {
    strs.map(|i: int, s: String| s@[0])
}

/// One-character strings whose characters form a valid symbol sequence.
pub open spec fn valid_symbol_strings(strs: Seq<String>) -> bool {
    &&& forall|i: int| 0 <= i < strs.len() ==> (#[trigger] strs[i])@.len() == 1
    &&& valid_symbol_seq(string_symbols(strs))
}

/// The first index at which the character occurs, or the sequence length
/// when it does not occur at all.
pub open spec fn symbol_index(syms: Seq<char>, c: char) -> int
    decreases syms.len(),
{
    if syms.len() == 0 {
        0
    } else if syms[0] == c {
        0
    } else {
        1 + symbol_index(syms.drop_first(), c)
    }
}

/// `symbol_index` returns the first occurrence of a present character and
/// the sequence length for an absent one.
pub proof fn lemma_symbol_index(syms: Seq<char>, c: char)
    ensures
        syms.contains(c) ==> {
            &&& 0 <= symbol_index(syms, c) < syms.len()
            &&& syms[symbol_index(syms, c)] == c
            &&& forall|m: int| 0 <= m < symbol_index(syms, c) ==> syms[m] != c
        },
        !syms.contains(c) ==> symbol_index(syms, c) == syms.len(),
    decreases syms.len(),
{
    if syms.len() == 0 {
    } else if syms[0] == c {
        assert(syms.contains(c));
    } else {
        let tail = syms.drop_first();
        lemma_symbol_index(tail, c);
        assert forall|i: int| 1 <= i < syms.len() implies syms[i] == tail[i - 1] by {}
        if tail.contains(c) {
            let t = symbol_index(tail, c);
            assert(syms[t + 1] == tail[t]);
            assert(syms.contains(c));
            assert forall|m: int| 0 <= m < symbol_index(syms, c) implies syms[m] != c by {
                if m >= 1 {
                    assert(tail[m - 1] != c);
                }
            }
        } else {
            if syms.contains(c) {
                let w = choose|w: int| 0 <= w < syms.len() && syms[w] == c;
                assert(w >= 1);
                assert(tail[w - 1] == c);
                assert(tail.contains(c));
            }
        }
    }
}

/// In a valid symbol sequence every symbol occurs exactly once, so
/// `symbol_index` inverts indexing.
pub proof fn lemma_symbol_index_of_symbol(syms: Seq<char>, idx: int)
    requires
        valid_symbol_seq(syms),
        0 <= idx < syms.len(),
    ensures
        symbol_index(syms, syms[idx]) == idx,
{
    lemma_symbol_index(syms, syms[idx]);
    assert(syms.contains(syms[idx]));
    let t = symbol_index(syms, syms[idx]);
    if t < idx {
        if t == 0 {
            assert(syms[idx] == '.');
            assert(false);
        } else {
            assert(syms[t] < syms[idx]);
            assert(false);
        }
    }
    if t > idx {
        assert(syms[idx] != syms[idx]);
    }
}

/// Distinct indices of a valid symbol list hold distinct one-character
/// strings.
pub proof fn lemma_symbol_strings_distinct(strs: Seq<String>, a: int, b: int)
    requires
        valid_symbol_strings(strs),
        0 <= a < strs.len(),
        0 <= b < strs.len(),
        a != b,
    ensures
        strs[a]@ != strs[b]@,
{
    let syms = string_symbols(strs);
    let lo = if a < b {
        a
    } else {
        b
    };
    let hi = if a < b {
        b
    } else {
        a
    };
    assert(syms[lo] != syms[hi]) by {
        if lo == 0 {
            assert(syms[0] == '.');
            assert(syms[hi] != '.');
        } else {
            assert(syms[lo] < syms[hi]);
        }
    }
    if strs[a]@ == strs[b]@ {
        assert(strs[a]@[0] == strs[b]@[0]);
        assert(syms[a] == strs[a]@[0]);
        assert(syms[b] == strs[b]@[0]);
    }
}

/// Whether the character occurs among the first `n` names of the corpus, or
/// among the first `k` characters of name `n`.
pub open spec fn prefix_contains(corpus: Seq<Seq<char>>, n: int, k: int, d: char) -> bool {
    ||| exists|i: int, j: int|
        0 <= i < n && 0 <= j < corpus[i].len() && #[trigger] corpus[i][j] == d
    ||| exists|j: int| 0 <= j < k && #[trigger] corpus[n][j] == d
}

/// A vocabulary that maps symbols to indices and back.
///
/// The symbol list always contains the boundary symbol "." at index 0; the
/// remaining symbols are exactly the distinct characters of the corpus the
/// vocabulary was built from, in ascending code-point order. Each symbol is
/// stored as a one-character string.
#[derive(Clone, Debug)]
pub struct Vocabulary {
    /// The symbols in vocabulary order, each a one-character string.
    pub chars: Vec<String>,
}

impl Vocabulary {
    /// The symbols as single characters, in vocabulary order.
    pub open spec fn symbols(&self) -> Seq<char> {
        string_symbols(self.chars@)
    }

    /// Well-formedness: one-character strings whose characters are a valid
    /// symbol sequence.
    pub open spec fn wf(&self) -> bool {
        valid_symbol_strings(self.chars@)
    }

    /// Creates a vocabulary from a corpus of names: the distinct characters
    /// of the corpus together with the boundary symbol ".".
    pub fn new(names: &Vec<NameItem>) -> (v: Vocabulary)
        ensures
            v.wf(),
            forall|d: char|
                v.symbols().contains(d) <==> (d == '.' || corpus_contains_char(
                    corpus_view(names@),
                    d,
                )),
    {
        let chars = Self::build_chars(names);
        Vocabulary { chars }
    }

    /// Builds the sorted symbol list of a corpus: the boundary symbol "."
    /// first, then every distinct character of the corpus except '.' in
    /// ascending code-point order, each as a one-character string.
    pub fn build_chars(names: &Vec<NameItem>) -> (r: Vec<String>)
        ensures
            valid_symbol_strings(r@),
            forall|d: char|
                string_symbols(r@).contains(d) <==> (d == '.' || corpus_contains_char(
                    corpus_view(names@),
                    d,
                )),
    {
        let ghost corpus = corpus_view(names@);
        let mut syms: Vec<char> = Vec::new();
        syms.push('.');
        proof {
            assert(syms@.contains('.')) by {
                assert(syms@[0] == '.');
            }
        }
        let mut n: usize = 0;
        while n < names.len()
            invariant
                n <= names@.len(),
                corpus == corpus_view(names@),
                corpus.len() == names@.len(),
                valid_symbol_seq(syms@),
                forall|d: char| syms@.contains(d) <==> (d == '.' || prefix_contains(corpus, n as int, 0, d)),
            decreases names@.len() - n,
        {
            let name = &names[n].name;
            assert(name@ == corpus[n as int]);
            let len = name.as_str().unicode_len();
            let mut k: usize = 0;
            while k < len
                invariant
                    k <= len,
                    n < names@.len(),
                    corpus == corpus_view(names@),
                    corpus.len() == names@.len(),
                    len == corpus[n as int].len(),
                    names@[n as int].name@ == corpus[n as int],
                    valid_symbol_seq(syms@),
                    forall|d: char|
                        syms@.contains(d) <==> (d == '.' || prefix_contains(
                            corpus,
                            n as int,
                            k as int,
                            d,
                        )),
                decreases len - k,
            {
                let c = names[n].name.as_str().get_char(k);
                assert(c == corpus[n as int][k as int]);
                let ghost pre = syms@;
                insert_symbol(&mut syms, c);
                assert forall|d: char|
                    syms@.contains(d) <==> (d == '.' || prefix_contains(
                        corpus,
                        n as int,
                        (k + 1) as int,
                        d,
                    )) by {
                    if d == c {
                        assert(corpus[n as int][k as int] == d);
                        assert(prefix_contains(corpus, n as int, (k + 1) as int, d));
                    }
                    if d != c && syms@.contains(d) {
                        assert(pre.contains(d));
                    }
                    if prefix_contains(corpus, n as int, (k + 1) as int, d) && d != c {
                        assert(prefix_contains(corpus, n as int, k as int, d)) by {
                            if exists|j: int| 0 <= j < k + 1 && #[trigger] corpus[n as int][j] == d {
                                let j = choose|j: int|
                                    0 <= j < k + 1 && #[trigger] corpus[n as int][j] == d;
                                assert(j != k);
                                assert(corpus[n as int][j] == d);
                            }
                        }
                    }
                }
                k += 1;
            }
            assert forall|d: char|
                prefix_contains(corpus, n as int, len as int, d) <==> prefix_contains(
                    corpus,
                    (n + 1) as int,
                    0,
                    d,
                ) by {
                if prefix_contains(corpus, n as int, len as int, d) {
                    if exists|j: int| 0 <= j < len && #[trigger] corpus[n as int][j] == d {
                        let j = choose|j: int| 0 <= j < len && #[trigger] corpus[n as int][j] == d;
                        assert(0 <= n < n + 1 && 0 <= j < corpus[n as int].len() && corpus[n as int][j] == d);
                    }
                }
                if prefix_contains(corpus, (n + 1) as int, 0, d) {
                    let (i, j) = choose|i: int, j: int|
                        0 <= i < n + 1 && 0 <= j < corpus[i].len() && #[trigger] corpus[i][j] == d;
                    if i == n {
                        assert(0 <= j < len && corpus[n as int][j] == d);
                    }
                }
            }
            n += 1;
        }
        assert forall|d: char|
            prefix_contains(corpus, corpus.len() as int, 0, d) <==> corpus_contains_char(
                corpus,
                d,
            ) by {}
        // Wrap each symbol character into its one-character string.
        let mut out: Vec<String> = Vec::new();
        let mut k: usize = 0;
        while k < syms.len()
            invariant
                k <= syms@.len(),
                out@.len() == k,
                forall|i: int| 0 <= i < k ==> (#[trigger] out@[i])@ == seq![syms@[i]],
            decreases syms@.len() - k,
        {
            out.push(char_string(syms[k]));
            k += 1;
        }
        proof {
            assert(string_symbols(out@) =~= syms@);
        }
        out
    }

    /// The symbols in vocabulary order, each as a one-character string.
    pub fn get_chars(&self) -> (r: &Vec<String>)
        ensures
            r@ == self.chars@,
    {
        &self.chars
    }

    /// The number of symbols in the vocabulary.
    pub fn get_size(&self) -> (r: usize)
        ensures
            r == self.symbols().len(),
    {
        self.chars.len()
    }

    /// The symbol-to-index association: pairs each symbol string with its
    /// index, in vocabulary order.
    pub fn get_char_to_idx(&self) -> (r: Vec<(String, usize)>)
        ensures
            r@.len() == self.chars@.len(),
            forall|i: int|
                0 <= i < r@.len() ==> (#[trigger] r@[i]).0@ == self.chars@[i]@ && r@[i].1 == i,
    {
        let mut r: Vec<(String, usize)> = Vec::new();
        let mut k: usize = 0;
        while k < self.chars.len()
            invariant
                k <= self.chars@.len(),
                r@.len() == k,
                forall|i: int|
                    0 <= i < k ==> (#[trigger] r@[i]).0@ == self.chars@[i]@ && r@[i].1 == i,
            decreases self.chars@.len() - k,
        {
            r.push((self.chars[k].clone(), k));
            k += 1;
        }
        r
    }

    /// The character at a symbol index.
    pub(crate) fn sym_char(&self, k: usize) -> (c: char)
        requires
            self.wf(),
            k < self.chars@.len(),
        ensures
            c == self.symbols()[k as int],
    {
        self.chars[k].as_str().get_char(0)
    }

    /// Looks up the index of a symbol given as a string, failing with
    /// `UnknownSymbol` when the string is not a symbol of this vocabulary.
    pub fn index_of(&self, symbol: &String) -> (r: Result<usize, ModelError>)
        requires
            self.wf(),
        ensures
            match r {
                Ok(k) => {
                    &&& symbol@.len() == 1
                    &&& k < self.symbols().len()
                    &&& self.symbols()[k as int] == symbol@[0]
                },
                Err(e) => {
                    &&& e == ModelError::UnknownSymbol
                    &&& (symbol@.len() != 1 || !self.symbols().contains(symbol@[0]))
                },
            },
    {
        let n = self.chars.len();
        let mut k: usize = 0;
        while k < n
            invariant
                self.wf(),
                n == self.chars@.len(),
                k <= n,
                forall|m: int| 0 <= m < k ==> (#[trigger] self.chars@[m])@ != symbol@,
            decreases n - k,
        {
            if self.chars[k] == *symbol {
                return Ok(k);
            }
            k += 1;
        }
        proof {
            if symbol@.len() == 1 && self.symbols().contains(symbol@[0]) {
                let w = choose|w: int|
                    0 <= w < self.symbols().len() && self.symbols()[w] == symbol@[0];
                assert(self.chars@[w]@ =~= symbol@);
            }
        }
        Err(ModelError::UnknownSymbol)
    }

    /// Looks up the index of a symbol given as a character, failing with
    /// `UnknownSymbol` when the character is not in this vocabulary.
    pub fn index_of_char(&self, c: char) -> (r: Result<usize, ModelError>)
        requires
            self.wf(),
        ensures
            match r {
                Ok(k) => {
                    &&& self.symbols().contains(c)
                    &&& k < self.symbols().len()
                    &&& self.symbols()[k as int] == c
                    &&& k == symbol_index(self.symbols(), c)
                },
                Err(e) => {
                    &&& e == ModelError::UnknownSymbol
                    &&& !self.symbols().contains(c)
                },
            },
    {
        let n = self.chars.len();
        let mut k: usize = 0;
        while k < n
            invariant
                self.wf(),
                n == self.chars@.len(),
                k <= n,
                forall|m: int| 0 <= m < k ==> self.symbols()[m] != c,
            decreases n - k,
        {
            if self.sym_char(k) == c {
                proof {
                    assert(self.symbols().contains(c)) by {
                        assert(self.symbols()[k as int] == c);
                    }
                    lemma_symbol_index(self.symbols(), c);
                    let t = symbol_index(self.symbols(), c);
                    if t < k {
                        assert(self.symbols()[t] != c);
                    }
                    if t > k {
                        assert(self.symbols()[k as int] != c);
                    }
                }
                return Ok(k);
            }
            k += 1;
        }
        proof {
            if self.symbols().contains(c) {
                let w = choose|w: int|
                    0 <= w < self.symbols().len() && self.symbols()[w] == c;
                assert(self.symbols()[w] != c);
            }
        }
        Err(ModelError::UnknownSymbol)
    }
}

/// Inserts a non-boundary symbol into its sorted position unless it is
/// already present; inserting the boundary symbol leaves the list unchanged.
fn insert_symbol(syms: &mut Vec<char>, c: char)
    requires
        valid_symbol_seq(old(syms)@),
    ensures
        valid_symbol_seq(final(syms)@),
        forall|d: char| final(syms)@.contains(d) <==> (old(syms)@.contains(d) || d == c),
{
    if c == '.' {
        proof {
            assert(syms@.contains('.')) by {
                assert(syms@[0] == '.');
            }
        }
        return ;
    }
    let n = syms.len();
    let mut k: usize = 1;
    while k < n && syms[k] < c
        invariant
            valid_symbol_seq(syms@),
            syms@ == old(syms)@,
            n == syms@.len(),
            1 <= k <= n,
            forall|m: int| 1 <= m < k ==> #[trigger] syms@[m] < c,
        decreases n - k,
    {
        k += 1;
    }
    if k < n {
        let ck = syms[k];
        if ck == c {
            proof {
                assert(syms@.contains(c)) by {
                    assert(syms@[k as int] == c);
                }
            }
            return ;
        }
        assert(syms@[k as int] > c);
    }
    let ghost pre = syms@;
    syms.insert(k, c);
    proof {
        pre.insert_ensures(k as int, c);
        let post = syms@;
        assert(post[0] == '.');
        assert forall|i: int| 1 <= i < post.len() implies #[trigger] post[i] != '.' by {
            if i < k {
                assert(post[i] == pre[i]);
            } else if i == k {
                assert(post[i] == c);
            } else {
                assert(post[i] == pre[i - 1]);
            }
        }
        assert forall|i: int, j: int|
            #![trigger post[i], post[j]]
            1 <= i < j < post.len() implies post[i] < post[j] by {
            let pi: char = if i < k {
                pre[i]
            } else if i == k {
                c
            } else {
                pre[i - 1]
            };
            let pj: char = if j < k {
                pre[j]
            } else if j == k {
                c
            } else {
                pre[j - 1]
            };
            assert(post[i] == pi);
            assert(post[j] == pj);
            if i < k && j == k {
                assert(pre[i] < c);
            } else if i == k && j > k {
                assert(pre[j - 1] > c) by {
                    if j - 1 == k {
                        assert(pre[k as int] > c);
                    } else {
                        assert(pre[k as int] > c);
                        assert(pre[k as int] < pre[j - 1]);
                    }
                }
            } else if i < k && j > k {
                assert(pre[i] < c);
                assert(pre[j - 1] > c) by {
                    if j - 1 == k {
                    } else {
                        assert(pre[k as int] < pre[j - 1]);
                    }
                }
            }
        }
        assert forall|d: char| post.contains(d) <==> (pre.contains(d) || d == c) by {
            if post.contains(d) {
                let w = choose|w: int| 0 <= w < post.len() && post[w] == d;
                if w < k {
                    assert(pre[w] == d);
                    assert(pre.contains(d));
                } else if w == k {
                } else {
                    assert(pre[w - 1] == d);
                    assert(pre.contains(d));
                }
            }
            if pre.contains(d) {
                let w = choose|w: int| 0 <= w < pre.len() && pre[w] == d;
                if w < k {
                    assert(post[w] == d);
                } else {
                    assert(post[w + 1] == d);
                }
                assert(post.contains(d));
            }
            if d == c {
                assert(post[k as int] == d);
                assert(post.contains(d));
            }
        }
    }
}

} // verus!
