//! A character-level bigram language model: it derives a vocabulary from a
//! corpus of names, tallies adjacent-symbol transitions into a count matrix,
//! normalizes the counts into per-row probability fractions, and samples new
//! names from those distributions by inverse-CDF draws.

use vstd::prelude::*;

pub mod bigrams;
pub mod data;
pub mod matrix;
pub mod sampler;
pub mod vocabulary;

verus! {

/// Relies on String::push: appends exactly the given character.
#[verifier::external_body]
pub(crate) fn push_char(s: &mut String, c: char)
    ensures
        final(s)@ == old(s)@.push(c),
{
    s.push(c);
}

/// Builds the one-character string holding exactly the given character.
pub(crate) fn char_string(c: char) -> (s: String)
    ensures
        s@ == seq![c],
{
    let mut s = String::new();
    push_char(&mut s, c);
    proof {
        assert(s@ =~= seq![c]);
    }
    s
}

/// The errors the model's operations can surface.
///
/// `UnknownSymbol`: a symbol encountered during counting or lookup is not in
/// the vocabulary. `InsufficientSupport`: sampling without replacement asked
/// for more draws than there are positive-weight entries. `DegenerateRow`: a
/// distribution whose weights sum to zero was sampled from; zero-count rows
/// are kept as all-zero by normalization and fail fast only when sampled.
#[derive(Clone, Copy, Debug, PartialEq, Eq, Structural)]
pub enum ModelError {
    UnknownSymbol,
    InsufficientSupport,
    DegenerateRow,
}

/// The index of a symbol in the fixed 27-symbol alphabet: '.' is 0 and
/// 'a' through 'z' are 1 through 26.
pub open spec fn char_index_spec(c: char) -> int {
    if c == '.' {
        0
    } else {
        c as int - 'a' as int + 1
    }
}

/// Converts a character to its index in the fixed 27-symbol alphabet.
///
/// The '.' boundary symbol maps to 0 and 'a' through 'z' map to 1 through 26;
/// any other character is outside the alphabet and excluded by precondition.
pub fn char_to_index(c: char) -> (r: i64)
    requires
        c == '.' || ('a' <= c && c <= 'z'),
    ensures
        r == char_index_spec(c),
        0 <= r <= 26,
{
    match c {
        '.' => 0,
        _ => (c as u32 - 'a' as u32 + 1) as i64,
    }
}

/// Relies on char::from_u32: returns the character with the given Unicode
/// scalar value, or None when the value is a surrogate or above 0x10FFFF.
#[verifier::external_body]
fn char_from_u32(u: u32) -> (c: Option<char>)
    ensures
        c matches Some(ch) ==> ch as u32 == u && ch as int == u as int,
        c is None <==> (0xD800 <= u <= 0xDFFF || u > 0x10FFFF),
{
    char::from_u32(u)
}

/// Converts an index in the fixed 27-symbol alphabet back to its character:
/// the inverse of `char_to_index` on 0 through 26.
pub fn index_to_char(i: i64) -> (c: char)
    requires
        0 <= i <= 26,
    ensures
        c == '.' || ('a' <= c && c <= 'z'),
        char_index_spec(c) == i,
{
    if i == 0 {
        '.'
    } else {
        let u: u32 = 'a' as u32 + (i - 1) as u32;
        let c = char_from_u32(u);
        match c {
            Some(ch) => {
                proof {
                    assert(97 <= ch as int <= 122);
                }
                ch
            },
            None => {
                proof {
                    assert(false);
                }
                '.'
            },
        }
    }
}

/// The boundary-wrapped token indices of a word over the fixed 27-symbol
/// alphabet: 0, then each character's index, then 0.
pub open spec fn pair_tokens(word: Seq<char>) -> Seq<int> {
    seq![0int] + word.map_values(|c: char| char_index_spec(c)) + seq![0int]
}

/// Index arithmetic of `pair_tokens`.
pub proof fn lemma_pair_tokens_index(word: Seq<char>)
    ensures
        pair_tokens(word).len() == word.len() + 2,
        pair_tokens(word)[0] == 0,
        pair_tokens(word)[word.len() as int + 1] == 0,
        forall|m: int|
            1 <= m <= word.len() ==> pair_tokens(word)[m] == char_index_spec(word[m - 1]),
{
    let toks = pair_tokens(word);
    assert forall|m: int| 1 <= m <= word.len() implies toks[m] == char_index_spec(word[m - 1]) by {
        assert(toks[m] == word.map_values(|c: char| char_index_spec(c))[m - 1]);
    }
}

/// Builds the bigram training pairs of the first word alone — deliberately
/// only the first: the word is wrapped in boundary symbols, and for every
/// adjacent pair of symbols the first index goes to the inputs and the
/// second to the targets.
///
/// Every character of the first word must be '.' or a lowercase letter, and
/// at least one word must be given.
pub fn create_character_pairs(words: &Vec<String>) -> (r: Result<(Vec<i64>, Vec<i64>), ModelError>)
    requires
        words@.len() >= 1,
        forall|k: int|
            0 <= k < words@[0]@.len() ==> words@[0]@[k] == '.' || ('a' <= #[trigger] words@[0]@[k]
                && words@[0]@[k] <= 'z'),
    ensures
        r is Ok,
        r matches Ok(p) ==> {
            let toks = pair_tokens(words@[0]@);
            &&& p.0@.len() == words@[0]@.len() + 1
            &&& p.1@.len() == words@[0]@.len() + 1
            &&& forall|m: int| 0 <= m < p.0@.len() ==> p.0@[m] == toks[m]
            &&& forall|m: int| 0 <= m < p.1@.len() ==> p.1@[m] == toks[m + 1]
        },
{
    let ghost word = words@[0]@;
    let ghost toks = pair_tokens(word);
    proof {
        lemma_pair_tokens_index(word);
    }
    let first = &words[0];
    let len = first.as_str().unicode_len();
    let mut xs: Vec<i64> = Vec::new();
    let mut ys: Vec<i64> = Vec::new();
    let mut prev: i64 = 0;
    let mut k: usize = 0;
    while k < len
        invariant
            word == words@[0]@,
            first@ == word,
            len == word.len(),
            toks == pair_tokens(word),
            toks.len() == len + 2,
            forall|m: int|
                0 <= m < word.len() ==> word[m] == '.' || ('a' <= #[trigger] word[m] && word[m]
                    <= 'z'),
            forall|m: int| 1 <= m <= word.len() ==> toks[m] == char_index_spec(word[m - 1]),
            toks[0] == 0,
            k <= len,
            xs@.len() == k,
            ys@.len() == k,
            prev == toks[k as int],
            forall|m: int| 0 <= m < k ==> xs@[m] == toks[m],
            forall|m: int| 0 <= m < k ==> ys@[m] == toks[m + 1],
        decreases len - k,
    {
        let c = first.as_str().get_char(k);
        let cur = char_to_index(c);
        xs.push(prev);
        ys.push(cur);
        prev = cur;
        k += 1;
    }
    xs.push(prev);
    ys.push(0);
    proof {
        assert(toks[len as int + 1] == 0);
    }
    Ok((xs, ys))
}

/// One-hot encodes a list of class indices: row `k` of the result is all
/// zero except for a single one at column `xs[k]`.
///
/// Succeeds exactly when every index lies in `0..num_classes`; an index
/// outside that range fails with `UnknownSymbol`.
pub fn create_one_hot_encoding(xs: &Vec<i64>, num_classes: usize) -> (r: Result<
    Vec<Vec<u8>>,
    ModelError,
>)
    ensures
        match r {
            Ok(m) => {
                &&& forall|k: int| 0 <= k < xs@.len() ==> 0 <= #[trigger] xs@[k] < num_classes
                &&& m@.len() == xs@.len()
                &&& forall|k: int| 0 <= k < m@.len() ==> (#[trigger] m@[k])@.len() == num_classes
                &&& forall|k: int, c: int|
                    0 <= k < m@.len() && 0 <= c < num_classes ==> m@[k]@[c] == (if c == xs@[k] {
                        1u8
                    } else {
                        0u8
                    })
            },
            Err(e) => {
                &&& e == ModelError::UnknownSymbol
                &&& exists|k: int| 0 <= k < xs@.len() && !(0 <= #[trigger] xs@[k] < num_classes)
            },
        },
{
    let mut m: Vec<Vec<u8>> = Vec::new();
    let mut k: usize = 0;
    while k < xs.len()
        invariant
            k <= xs@.len(),
            m@.len() == k,
            forall|a: int| 0 <= a < k ==> 0 <= #[trigger] xs@[a] < num_classes,
            forall|a: int| 0 <= a < k ==> (#[trigger] m@[a])@.len() == num_classes,
            forall|a: int, c: int|
                0 <= a < k && 0 <= c < num_classes ==> m@[a]@[c] == (if c == xs@[a] {
                    1u8
                } else {
                    0u8
                }),
        decreases xs@.len() - k,
    {
        let x = xs[k];
        if x < 0 || x as u64 >= num_classes as u64 {
            proof {
                assert(!(0 <= xs@[k as int] < num_classes));
            }
            return Err(ModelError::UnknownSymbol);
        }
        let mut row: Vec<u8> = Vec::new();
        let mut c: usize = 0;
        while c < num_classes
            invariant
                0 <= x < num_classes,
                c <= num_classes,
                row@.len() == c,
                forall|b: int|
                    0 <= b < c ==> row@[b] == (if b == x {
                        1u8
                    } else {
                        0u8
                    }),
            decreases num_classes - c,
        {
            if c as u64 == x as u64 {
                row.push(1);
            } else {
                row.push(0);
            }
            c += 1;
        }
        m.push(row);
        k += 1;
    }
    Ok(m)
}

} // verus!
