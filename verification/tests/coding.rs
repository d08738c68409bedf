use makemore_rs::char_to_index;
use makemore_rs::create_character_pairs;
use makemore_rs::create_one_hot_encoding;
use makemore_rs::data::batch_codes;
use makemore_rs::data::max_item_len;
use makemore_rs::data::NameItem;
use makemore_rs::index_to_char;
use makemore_rs::ModelError;

#[test]
fn char_to_index_maps_the_alphabet() {
    assert_eq!(char_to_index('.'), 0);
    assert_eq!(char_to_index('a'), 1);
    assert_eq!(char_to_index('e'), 5);
    assert_eq!(char_to_index('z'), 26);
}

#[test]
fn index_to_char_inverts_char_to_index() {
    for i in 0..=26 {
        let c = index_to_char(i);
        assert_eq!(char_to_index(c), i);
    }
    assert_eq!(index_to_char(0), '.');
    assert_eq!(index_to_char(1), 'a');
    assert_eq!(index_to_char(26), 'z');
}

#[test]
fn character_pairs_of_first_word() {
    // ".emma." gives tokens [0, 5, 13, 13, 1, 0]; only the first word is
    // used.
    let words = vec!["emma".to_string(), "ignored".to_string()];
    let (xs, ys) = create_character_pairs(&words).unwrap();
    assert_eq!(xs, vec![0, 5, 13, 13, 1]);
    assert_eq!(ys, vec![5, 13, 13, 1, 0]);
}

#[test]
fn character_pairs_of_empty_word() {
    let words = vec!["".to_string()];
    let (xs, ys) = create_character_pairs(&words).unwrap();
    assert_eq!(xs, vec![0]);
    assert_eq!(ys, vec![0]);
}

#[test]
fn one_hot_encoding_rows() {
    let xs: Vec<i64> = vec![0, 2];
    let m = create_one_hot_encoding(&xs, 3).unwrap();
    assert_eq!(m, vec![vec![1u8, 0, 0], vec![0u8, 0, 1]]);
}

#[test]
fn one_hot_rejects_out_of_range() {
    let xs: Vec<i64> = vec![3];
    assert_eq!(create_one_hot_encoding(&xs, 3), Err(ModelError::UnknownSymbol));
    let neg: Vec<i64> = vec![-1];
    assert_eq!(create_one_hot_encoding(&neg, 3), Err(ModelError::UnknownSymbol));
}

#[test]
fn batch_codes_pads_to_longest_name() {
    let items = vec![NameItem { name: "ab".to_string() }, NameItem { name: "c".to_string() }];
    assert_eq!(max_item_len(&items), 2);
    let (chars, targets, width) = batch_codes(&items);
    assert_eq!(width, 2);
    // Codes are Unicode scalar values: 'a' = 97, 'b' = 98, 'c' = 99.
    assert_eq!(chars, vec![97, 98, 99, 0]);
    // Targets shift one position left within each name.
    assert_eq!(targets, vec![98, 0, 0, 0]);
}

#[test]
fn batch_codes_of_empty_corpus() {
    let items: Vec<NameItem> = Vec::new();
    let (chars, targets, width) = batch_codes(&items);
    assert_eq!(width, 0);
    assert!(chars.is_empty());
    assert!(targets.is_empty());
}
