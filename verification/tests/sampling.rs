use makemore_rs::bigrams::BigramModel;
use makemore_rs::data::NameItem;
use makemore_rs::sampler::flatten;
use makemore_rs::sampler::sample;
use makemore_rs::sampler::sample_index;
use makemore_rs::ModelError;

#[test]
fn single_draw_from_single_entry() {
    let w: Vec<u64> = vec![5];
    assert_eq!(sample_index(&w), Ok(0));
}

#[test]
fn draws_avoid_zero_weights() {
    // Only index 1 has weight: every draw must return it. This fails if the
    // random draw were ever out of range or landed on a zero weight.
    let w: Vec<u64> = vec![0, 5];
    for _ in 0..20 {
        assert_eq!(sample_index(&w), Ok(1));
    }
    let s = sample(&w, 10, true).unwrap();
    assert_eq!(s.len(), 10);
    assert!(s.iter().all(|&i| i == 1));
}

#[test]
fn degenerate_distribution_fails_fast() {
    let w: Vec<u64> = vec![0, 0, 0];
    assert_eq!(sample_index(&w), Err(ModelError::DegenerateRow));
    assert_eq!(sample(&w, 1, true), Err(ModelError::DegenerateRow));
    // Zero draws need no support at all.
    assert_eq!(sample(&w, 0, true), Ok(Vec::new()));
    assert_eq!(sample(&w, 0, false), Ok(Vec::new()));
}

#[test]
fn without_replacement_exhausts_support() {
    // Exactly three positive entries: three draws return each positive
    // index exactly once, in some order.
    let w: Vec<u64> = vec![3, 0, 5, 2];
    for _ in 0..20 {
        let mut s = sample(&w, 3, false).unwrap();
        s.sort();
        assert_eq!(s, vec![0, 2, 3]);
    }
}

#[test]
fn without_replacement_overdraw_fails() {
    let w: Vec<u64> = vec![3, 0, 5, 2];
    assert_eq!(sample(&w, 4, false), Err(ModelError::InsufficientSupport));
    let zeros: Vec<u64> = vec![0, 0];
    assert_eq!(sample(&zeros, 1, false), Err(ModelError::InsufficientSupport));
}

#[test]
fn replacement_frequencies_follow_weights() {
    // Distribution [0.6, 0.3, 0.1] drawn 1000 times with replacement:
    // empirical frequencies land within a few percentage points.
    let w: Vec<u64> = vec![6, 3, 1];
    let n = 1000;
    let s = sample(&w, n, true).unwrap();
    assert_eq!(s.len(), n);
    let mut counts = [0usize; 3];
    for &i in &s {
        counts[i] += 1;
    }
    let freqs: Vec<f64> = counts.iter().map(|&c| c as f64 / n as f64).collect();
    assert!((freqs[0] - 0.6).abs() < 0.06, "frequency of 0 was {}", freqs[0]);
    assert!((freqs[1] - 0.3).abs() < 0.06, "frequency of 1 was {}", freqs[1]);
    assert!((freqs[2] - 0.1).abs() < 0.06, "frequency of 2 was {}", freqs[2]);
}

#[test]
fn flatten_is_row_major() {
    let m: Vec<Vec<u64>> = vec![vec![0, 2], vec![3, 0]];
    assert_eq!(flatten(&m), vec![0, 2, 3, 0]);
    let empty: Vec<Vec<u64>> = Vec::new();
    assert_eq!(flatten(&empty), Vec::<u64>::new());
}

#[test]
fn multinomial_flattens_matrices() {
    let names = vec![NameItem { name: "ab".to_string() }];
    let model = BigramModel::new(&names).unwrap();
    let m: Vec<Vec<u64>> = vec![vec![0, 2], vec![3, 0]];
    // Flat distribution [0, 2, 3, 0]: only indices 1 and 2 can be drawn.
    let s = model.multinomial(&m, 30, true).unwrap();
    assert_eq!(s.len(), 30);
    assert!(s.iter().all(|&i| i == 1 || i == 2));
    let mut two = model.multinomial(&m, 2, false).unwrap();
    two.sort();
    assert_eq!(two, vec![1, 2]);
    assert_eq!(model.multinomial(&m, 3, false), Err(ModelError::InsufficientSupport));
}

#[test]
fn multinomial_on_model_counts() {
    let names = vec![NameItem { name: "ab".to_string() }, NameItem { name: "ac".to_string() }];
    let model = BigramModel::new(&names).unwrap();
    let counts = model.get_tensor();
    let mut rows: Vec<Vec<u64>> = Vec::new();
    for i in 0..counts.get_size() {
        rows.push(counts.get_row(i).clone());
    }
    let s = model.multinomial(&rows, 100, true).unwrap();
    // The flat distribution has 6 transitions spread over positive cells;
    // cell (0, 1) = 2 is flat index 1.
    let flat = flatten(&rows);
    for &i in &s {
        assert!(flat[i] > 0);
    }
}
