use ngram_compress::accept::{compressed_rows, record_accepted, uncompressed_rows};

#[test]
fn bound_splits_the_step() {
    // errors 0.4 and 0.6 against a bound of 0.5
    let within = vec![true, false];
    assert_eq!(compressed_rows(&within, false), vec![0]);
    assert_eq!(uncompressed_rows(&within), vec![1]);
}

#[test]
fn output_all_writes_every_row_compressed() {
    let within = vec![true, false];
    assert_eq!(compressed_rows(&within, true), vec![0, 1]);
    assert_eq!(uncompressed_rows(&within), vec![1]);
}

#[test]
fn unsolved_unigrams_are_all_rejected() {
    let within = vec![false, false];
    assert_eq!(compressed_rows(&within, false), Vec::<usize>::new());
    assert_eq!(uncompressed_rows(&within), vec![0, 1]);
    assert_eq!(compressed_rows(&within, true), vec![0, 1]);
}

#[test]
fn accepted_set_grows() {
    let mut acc = vec!["a b".to_string()];
    let step = vec!["x y".to_string(), "y z".to_string(), "a c".to_string()];
    record_accepted(&mut acc, &step, &vec![true, false, true]);
    assert_eq!(acc, vec!["a b".to_string(), "x y".to_string(), "a c".to_string()]);
    record_accepted(&mut acc, &vec!["q r".to_string()], &vec![false]);
    assert_eq!(acc.len(), 3);
    assert_eq!(acc[0], "a b");
}
