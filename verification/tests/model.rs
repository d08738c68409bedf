use makemore_rs::bigrams::corpus_transitions;
use makemore_rs::bigrams::BigramModel;
use makemore_rs::data::NameItem;
use makemore_rs::matrix::normalize;
use makemore_rs::matrix::CountMatrix;
use makemore_rs::vocabulary::Vocabulary;
use makemore_rs::ModelError;

fn corpus(names: &[&str]) -> Vec<NameItem> {
    names.iter().map(|n| NameItem { name: n.to_string() }).collect()
}

#[test]
fn vocabulary_from_corpus() {
    let names = corpus(&["ab", "ac"]);
    let vocab = Vocabulary::new(&names);
    assert_eq!(vocab.get_size(), 4);
    let chars: Vec<String> = vocab.get_chars().clone();
    assert_eq!(chars, vec![".", "a", "b", "c"]);
    let pairs = vocab.get_char_to_idx();
    assert_eq!(pairs.len(), 4);
    for (k, (s, i)) in pairs.iter().enumerate() {
        assert_eq!(*i, k);
        assert_eq!(s, &chars[k]);
    }
}

#[test]
fn vocabulary_sorts_and_dedups() {
    let names = corpus(&["ba", "ab", "a"]);
    let vocab = Vocabulary::new(&names);
    assert_eq!(vocab.get_chars().clone(), vec![".", "a", "b"]);

    // A '.' inside a name maps onto the boundary symbol, not a duplicate.
    let dotted = corpus(&["a.b"]);
    let vocab2 = Vocabulary::new(&dotted);
    assert_eq!(vocab2.get_chars().clone(), vec![".", "a", "b"]);
}

#[test]
fn vocabulary_index_lookup() {
    let names = corpus(&["ab"]);
    let vocab = Vocabulary::new(&names);
    assert_eq!(vocab.index_of(&".".to_string()), Ok(0));
    assert_eq!(vocab.index_of(&"a".to_string()), Ok(1));
    assert_eq!(vocab.index_of(&"b".to_string()), Ok(2));
    assert_eq!(vocab.index_of(&"z".to_string()), Err(ModelError::UnknownSymbol));
    assert_eq!(vocab.index_of(&"ab".to_string()), Err(ModelError::UnknownSymbol));
    assert_eq!(vocab.index_of_char('b'), Ok(2));
    assert_eq!(vocab.index_of_char('q'), Err(ModelError::UnknownSymbol));
}

#[test]
fn count_matrix_scenario() {
    // corpus = ["ab", "ac"], vocabulary = [".", "a", "b", "c"].
    let names = corpus(&["ab", "ac"]);
    let model = BigramModel::new(&names).unwrap();
    let counts = model.get_tensor();
    assert_eq!(counts.get_size(), 4);
    // (., a) = 2, (a, b) = 1, (a, c) = 1, (b, .) = 1, (c, .) = 1.
    let expected = [
        [0u64, 2, 0, 0],
        [0, 0, 1, 1],
        [1, 0, 0, 0],
        [1, 0, 0, 0],
    ];
    for i in 0..4 {
        for j in 0..4 {
            assert_eq!(counts.get(i, j), expected[i][j], "cell ({}, {})", i, j);
        }
    }
    // Count conservation: 4 characters + 2 names = 6 transitions.
    assert_eq!(counts.get_total(), 6);
    assert_eq!(corpus_transitions(&names), Some(6));
}

#[test]
fn normalization_scenario() {
    let names = corpus(&["ab", "ac"]);
    let model = BigramModel::new(&names).unwrap();
    let probs = model.get_probabilities();
    // Row ".": {a: 1.0}; row "a": {b: 0.5, c: 0.5}; rows "b", "c": {.: 1.0}.
    assert_eq!(probs.denominator(0), 2);
    assert_eq!(probs.numerator(0, 1), 2);
    assert_eq!(probs.denominator(1), 2);
    assert_eq!(probs.numerator(1, 2), 1);
    assert_eq!(probs.numerator(1, 3), 1);
    assert_eq!(probs.denominator(2), 1);
    assert_eq!(probs.numerator(2, 0), 1);
    assert_eq!(probs.denominator(3), 1);
    assert_eq!(probs.numerator(3, 0), 1);
    let p_ab = probs.numerator(1, 2) as f64 / probs.denominator(1) as f64;
    assert!((p_ab - 0.5).abs() < 1e-5);
    let p_dot_a = probs.numerator(0, 1) as f64 / probs.denominator(0) as f64;
    assert!((p_dot_a - 1.0).abs() < 1e-5);
}

#[test]
fn row_sums_are_stochastic() {
    let names = corpus(&["emma", "olivia", "ava"]);
    let model = BigramModel::new(&names).unwrap();
    let probs = model.get_probabilities();
    let n = probs.get_size();
    for i in 0..n {
        let den = probs.denominator(i);
        if den > 0 {
            let mut sum = 0.0f64;
            for j in 0..n {
                sum += probs.numerator(i, j) as f64 / den as f64;
            }
            assert!((sum - 1.0).abs() < 1e-5, "row {} sums to {}", i, sum);
        }
    }
}

#[test]
fn empty_string_scenario() {
    // corpus = [""]: the count matrix is the single cell (., .) = 1, the
    // normalized row "." is {.: 1.0}, and generation immediately stops with
    // the empty string.
    let names = corpus(&[""]);
    let model = BigramModel::new(&names).unwrap();
    let counts = model.get_tensor();
    assert_eq!(counts.get_size(), 1);
    assert_eq!(counts.get(0, 0), 1);
    assert_eq!(counts.get_total(), 1);
    let probs = model.get_probabilities();
    assert_eq!(probs.denominator(0), 1);
    assert_eq!(probs.numerator(0, 0), 1);
    for _ in 0..10 {
        assert_eq!(model.generate_name(20).unwrap(), "");
    }
}

#[test]
fn counting_is_deterministic() {
    // The same corpus in any input order yields a bit-identical matrix.
    let a = corpus(&["ab", "ac", "ba"]);
    let b = corpus(&["ba", "ab", "ac"]);
    let vocab = Vocabulary::new(&a);
    let ca = CountMatrix::count(&a, &vocab).unwrap();
    let cb = CountMatrix::count(&b, &vocab).unwrap();
    let again = CountMatrix::count(&a, &vocab).unwrap();
    let n = ca.get_size();
    assert_eq!(n, cb.get_size());
    for i in 0..n {
        for j in 0..n {
            assert_eq!(ca.get(i, j), cb.get(i, j));
            assert_eq!(ca.get(i, j), again.get(i, j));
        }
    }
    assert_eq!(ca.get_total(), cb.get_total());
}

#[test]
fn counting_unknown_symbol_fails() {
    // A vocabulary that lacks a corpus character makes counting fail.
    let small = corpus(&["ab"]);
    let vocab = Vocabulary::new(&small);
    let bigger = corpus(&["abc"]);
    assert!(matches!(
        CountMatrix::count(&bigger, &vocab),
        Err(ModelError::UnknownSymbol)
    ));
}

#[test]
fn vocabulary_handles_non_ascii() {
    let names = corpus(&["éa"]);
    let vocab = Vocabulary::new(&names);
    // 'a' (97) sorts before 'é' (233).
    assert_eq!(vocab.get_chars().clone(), vec![".", "a", "é"]);
    let model = BigramModel::new(&names).unwrap();
    assert_eq!(model.get_tensor().get_total(), 3);
}

#[test]
fn count_and_normalize_separately() {
    let names = corpus(&["ab"]);
    let vocab = Vocabulary::new(&names);
    let counts = CountMatrix::count(&names, &vocab).unwrap();
    assert_eq!(counts.get_total(), 3);
    let probs = normalize(&counts);
    assert_eq!(probs.get_size(), counts.get_size());
    for i in 0..counts.get_size() {
        let mut row_sum = 0u64;
        for j in 0..counts.get_size() {
            assert_eq!(probs.numerator(i, j), counts.get(i, j));
            row_sum += counts.get(i, j);
        }
        assert_eq!(probs.denominator(i), row_sum);
    }
}

#[test]
fn counts_association_list() {
    let names = corpus(&["ab", "ac"]);
    let model = BigramModel::new(&names).unwrap();
    let mut entries = model.get_counts();
    entries.sort();
    let expected: Vec<((String, String), u64)> = vec![
        ((".".to_string(), "a".to_string()), 2),
        (("a".to_string(), "b".to_string()), 1),
        (("a".to_string(), "c".to_string()), 1),
        (("b".to_string(), ".".to_string()), 1),
        (("c".to_string(), ".".to_string()), 1),
    ];
    let mut expected = expected;
    expected.sort();
    assert_eq!(entries, expected);
}

#[test]
fn probabilities_map_lists_every_cell() {
    let names = corpus(&["ab", "ac"]);
    let model = BigramModel::new(&names).unwrap();
    let entries = model.get_probabilities_map();
    let n = model.get_vocabulary().get_size();
    // One entry per cell, zero cells included, in row-major order.
    assert_eq!(entries.len(), n * n);
    let chars = model.get_chars().clone();
    let counts = model.get_tensor();
    let probs = model.get_probabilities();
    for i in 0..n {
        for j in 0..n {
            let ((a, b), (num, den)) = &entries[i * n + j];
            assert_eq!(a, &chars[i]);
            assert_eq!(b, &chars[j]);
            assert_eq!(*num, counts.get(i, j));
            assert_eq!(*den, probs.denominator(i));
        }
    }
    // A never-observed pair still has its key, with numerator zero.
    assert_eq!(entries[0], ((".".to_string(), ".".to_string()), (0, 2)));
    assert_eq!(entries[1], ((".".to_string(), "a".to_string()), (2, 2)));

    // Also for the one-letter corpus: the boundary-to-boundary key exists.
    let single = corpus(&["a"]);
    let m2 = BigramModel::new(&single).unwrap();
    let e2 = m2.get_probabilities_map();
    assert_eq!(e2.len(), 4);
    assert!(e2.iter().any(|((x, y), _)| x == "." && y == "."));
}

#[test]
fn generation_stays_within_bound_and_vocabulary() {
    let names = corpus(&["emma", "olivia", "ava", "isabella"]);
    let model = BigramModel::new(&names).unwrap();
    let vocab_chars: Vec<String> = model.get_chars().clone();
    for _ in 0..50 {
        let name = model.generate_name(16).unwrap();
        assert!(name.chars().count() <= 16);
        for c in name.chars() {
            assert!(c != '.');
            assert!(vocab_chars.contains(&c.to_string()), "{} not in vocabulary", c);
        }
    }
    // A zero bound forces the empty string.
    assert_eq!(model.generate_name(0).unwrap(), "");
}

#[test]
fn generation_follows_deterministic_chain() {
    // For ["ab"] every row has a single positive entry, so generation is
    // forced: '.' -> 'a' -> 'b' -> '.', the full name "ab".
    let names = corpus(&["ab"]);
    let model = BigramModel::new(&names).unwrap();
    for _ in 0..10 {
        assert_eq!(model.generate_name(10).unwrap(), "ab");
    }
    // A bound below the chain's length truncates instead.
    assert_eq!(model.generate_name(1).unwrap(), "a");
}

#[test]
fn empty_corpus_has_degenerate_boundary_row() {
    // With no names at all the vocabulary is just ["."], the count matrix
    // is all zero, and sampling from the zero row fails fast.
    let names: Vec<NameItem> = Vec::new();
    let model = BigramModel::new(&names).unwrap();
    assert_eq!(model.get_vocabulary().get_size(), 1);
    assert_eq!(model.get_tensor().get_total(), 0);
    assert_eq!(model.generate_name(5), Err(ModelError::DegenerateRow));
    // A zero-length request never samples, so it still succeeds.
    assert_eq!(model.generate_name(0).unwrap(), "");
}

#[test]
fn tokenize_wraps_in_boundaries() {
    let chars = vec!["a".to_string(), "b".to_string()];
    let toks = BigramModel::tokenize(&chars);
    assert_eq!(toks, vec![".", "a", "b", "."]);
    let none: Vec<String> = Vec::new();
    assert_eq!(BigramModel::tokenize(&none), vec![".", "."]);
}

#[test]
fn transition_count_matches_corpus() {
    let names = corpus(&["emma", "olivia"]);
    // 10 characters + 2 names.
    assert_eq!(corpus_transitions(&names), Some(12));
    let empty: Vec<NameItem> = Vec::new();
    assert_eq!(corpus_transitions(&empty), Some(0));
}
