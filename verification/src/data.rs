//! The corpus data the model consumes: one record per name.

use vstd::prelude::*;
use vstd::string::StrSliceExecFns;

verus! {

/// A single name in the corpus.
#[derive(Clone, Debug)]
pub struct NameItem {
    /// The name itself.
    pub name: String,
}

/// The corpus as a sequence of character sequences, one per name.
pub open spec fn corpus_view(names: Seq<NameItem>) -> Seq<Seq<char>> {
    names.map(|i: int, it: NameItem| it.name@)
}

/// Whether the character occurs anywhere in the corpus.
pub open spec fn corpus_contains_char(corpus: Seq<Seq<char>>, c: char) -> bool {
    exists|i: int, j: int|
        0 <= i < corpus.len() && 0 <= j < corpus[i].len() && #[trigger] corpus[i][j] == c
}

/// The numeric code of a character: its Unicode scalar value.
pub open spec fn char_code(c: char) -> i64 {
    c as u32 as i64
}

/// The longest name length in a corpus.
pub open spec fn max_name_len(corpus: Seq<Seq<char>>) -> int
    decreases corpus.len(),
{
    if corpus.len() == 0 {
        0
    } else {
        let rest = max_name_len(corpus.drop_last());
        if corpus.last().len() > rest {
            corpus.last().len() as int
        } else {
            rest
        }
    }
}

/// One name padded with zero codes to the batch width: position `i` holds
/// the code of character `i`, or 0 past the name's end.
pub open spec fn padded_codes(name: Seq<char>, width: int) -> Seq<i64> {
    Seq::new(width as nat, |i: int| if i < name.len() { char_code(name[i]) } else { 0i64 })
}

/// One name's prediction targets padded to the batch width: position `i`
/// holds the code of character `i + 1`, or 0 past the name's end.
pub open spec fn padded_targets(name: Seq<char>, width: int) -> Seq<i64> {
    Seq::new(width as nat, |i: int| if i + 1 < name.len() { char_code(name[i + 1]) } else { 0i64 })
}

/// The names of a corpus padded to a common width and laid end to end.
pub open spec fn batch_codes_view(corpus: Seq<Seq<char>>, width: int) -> Seq<i64>
    decreases corpus.len(),
{
    if corpus.len() == 0 {
        Seq::empty()
    } else {
        batch_codes_view(corpus.drop_last(), width) + padded_codes(corpus.last(), width)
    }
}

/// The targets of a corpus padded to a common width and laid end to end.
pub open spec fn batch_targets_view(corpus: Seq<Seq<char>>, width: int) -> Seq<i64>
    decreases corpus.len(),
{
    if corpus.len() == 0 {
        Seq::empty()
    } else {
        batch_targets_view(corpus.drop_last(), width) + padded_targets(corpus.last(), width)
    }
}

/// The longest name length of a corpus, computed over characters.
pub fn max_item_len(items: &Vec<NameItem>) -> (r: usize)
    ensures
        r == max_name_len(corpus_view(items@)),
{
    let ghost corpus = corpus_view(items@);
    let mut r: usize = 0;
    let mut n: usize = 0;
    while n < items.len()
        invariant
            corpus == corpus_view(items@),
            corpus.len() == items@.len(),
            n <= items@.len(),
            r == max_name_len(corpus.take(n as int)),
        decreases items@.len() - n,
    {
        proof {
            assert(corpus.take(n + 1) =~= corpus.take(n as int).push(corpus[n as int]));
            assert(corpus.take(n + 1).drop_last() =~= corpus.take(n as int));
        }
        let len = items[n].name.as_str().unicode_len();
        if len > r {
            r = len;
        }
        n += 1;
    }
    proof {
        assert(corpus.take(corpus.len() as int) =~= corpus);
    }
    r
}

/// Converts a corpus into flat, fixed-width input and target code
/// sequences for sequence prediction: each name is padded with zero codes
/// to the longest name's length, inputs hold the character codes, and
/// targets hold the codes shifted one position left.
///
/// Returns the flat inputs, the flat targets, and the common width.
pub fn batch_codes(items: &Vec<NameItem>) -> (r: (Vec<i64>, Vec<i64>, usize))
    ensures
        r.2 == max_name_len(corpus_view(items@)),
        r.0@ == batch_codes_view(corpus_view(items@), r.2 as int),
        r.1@ == batch_targets_view(corpus_view(items@), r.2 as int),
{
    let ghost corpus = corpus_view(items@);
    let width = max_item_len(items);
    let mut chars: Vec<i64> = Vec::new();
    let mut targets: Vec<i64> = Vec::new();
    let mut n: usize = 0;
    while n < items.len()
        invariant
            corpus == corpus_view(items@),
            corpus.len() == items@.len(),
            n <= items@.len(),
            width == max_name_len(corpus),
            chars@ == batch_codes_view(corpus.take(n as int), width as int),
            targets@ == batch_targets_view(corpus.take(n as int), width as int),
        decreases items@.len() - n,
    {
        let ghost name_chars = corpus[n as int];
        let name = &items[n].name;
        assert(name@ == name_chars);
        let len = name.as_str().unicode_len();
        let mut i: usize = 0;
        while i < width
            invariant
                corpus == corpus_view(items@),
                corpus.len() == items@.len(),
                n < items@.len(),
                name@ == name_chars,
                name_chars == corpus[n as int],
                len == name_chars.len(),
                i <= width,
                chars@ == batch_codes_view(corpus.take(n as int), width as int) + padded_codes(
                    name_chars,
                    width as int,
                ).take(i as int),
                targets@ == batch_targets_view(corpus.take(n as int), width as int)
                    + padded_targets(name_chars, width as int).take(i as int),
            decreases width - i,
        {
            let code: i64 = if i < len {
                let u: u32 = name.as_str().get_char(i) as u32;
                u as i64
            } else {
                0
            };
            let target: i64 = if i + 1 < len {
                let u: u32 = name.as_str().get_char(i + 1) as u32;
                u as i64
            } else {
                0
            };
            chars.push(code);
            targets.push(target);
            proof {
                assert(padded_codes(name_chars, width as int).take(i + 1) =~= padded_codes(
                    name_chars,
                    width as int,
                ).take(i as int).push(padded_codes(name_chars, width as int)[i as int]));
                assert(padded_targets(name_chars, width as int).take(i + 1) =~= padded_targets(
                    name_chars,
                    width as int,
                ).take(i as int).push(padded_targets(name_chars, width as int)[i as int]));
                assert(chars@ =~= batch_codes_view(corpus.take(n as int), width as int)
                    + padded_codes(name_chars, width as int).take(i + 1));
                assert(targets@ =~= batch_targets_view(corpus.take(n as int), width as int)
                    + padded_targets(name_chars, width as int).take(i + 1));
            }
            i += 1;
        }
        proof {
            assert(padded_codes(name_chars, width as int).take(width as int) =~= padded_codes(
                name_chars,
                width as int,
            ));
            assert(padded_targets(name_chars, width as int).take(width as int) =~= padded_targets(
                name_chars,
                width as int,
            ));
            assert(corpus.take(n + 1) =~= corpus.take(n as int).push(corpus[n as int]));
            assert(corpus.take(n + 1).drop_last() =~= corpus.take(n as int));
            assert(chars@ =~= batch_codes_view(corpus.take(n + 1), width as int));
            assert(targets@ =~= batch_targets_view(corpus.take(n + 1), width as int));
        }
        n += 1;
    }
    proof {
        assert(corpus.take(corpus.len() as int) =~= corpus);
    }
    (chars, targets, width)
}

} // verus!
