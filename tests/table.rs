use ngram_compress::children::ChildPolicy;
use ngram_compress::program::YEARS;
use ngram_compress::table::{candidates, lookup, regressors_for, table_from, zero_out};

fn series(values: &[(usize, u64)]) -> Vec<u64> {
    let mut v = vec![0u64; YEARS];
    for &(i, x) in values {
        v[i] = x;
    }
    v
}

fn entry(g: &str, s: Vec<u64>) -> (String, Vec<u64>) {
    (g.to_string(), s)
}

#[test]
fn later_entry_replaces_earlier() {
    let t = table_from(vec![
        entry("a", series(&[(0, 1)])),
        entry("b", series(&[(1, 2)])),
        entry("a", series(&[(0, 5)])),
    ]);
    assert_eq!(lookup(&t, &"a".to_string()).unwrap()[0], 5);
    assert_eq!(lookup(&t, &"b".to_string()).unwrap()[1], 2);
    assert!(lookup(&t, &"c".to_string()).is_none());
}

#[test]
fn missing_children_count_zero() {
    let t = table_from(vec![entry("x", series(&[(0, 1)]))]);
    let c = candidates(&t, vec!["x".to_string(), "nowhere".to_string()]);
    assert_eq!(c.len(), 2);
    assert_eq!(c[0].freq[0], 1);
    assert_eq!(c[1].ngram, "nowhere");
    assert_eq!(c[1].freq, vec![0; YEARS]);
}

#[test]
fn zeroed_ngrams_read_as_zero() {
    let mut t = table_from(vec![entry("x", series(&[(0, 1)])), entry("y", series(&[(2, 3)]))]);
    zero_out(&mut t, &vec!["x".to_string(), "w".to_string()]);
    assert_eq!(lookup(&t, &"x".to_string()).unwrap(), vec![0; YEARS]);
    assert_eq!(lookup(&t, &"w".to_string()).unwrap(), vec![0; YEARS]);
    assert_eq!(lookup(&t, &"y".to_string()).unwrap()[2], 3);
}

#[test]
fn exact_bigram_regressors() {
    let t = table_from(vec![
        entry("x", series(&[(0, 1)])),
        entry("y", series(&[(1, 1)])),
        entry("x y", series(&[(0, 3), (1, 2)])),
    ]);
    let regs = regressors_for(ChildPolicy::DirectChildren, "x y", &t, &vec![]).unwrap();
    assert_eq!(regs.len(), 2);
    assert_eq!(regs[0].ngram, "x");
    assert_eq!(regs[1].ngram, "y");
    assert_eq!(regs[1].freq[1], 1);
}

#[test]
fn unigram_pass_stays_unsolved() {
    let t = table_from(vec![entry("a", vec![1; YEARS]), entry("b", vec![2; YEARS])]);
    assert!(regressors_for(ChildPolicy::FullRecursive, "a", &t, &vec![]).is_none());
    assert!(regressors_for(ChildPolicy::FullRecursive, "b", &t, &vec![]).is_none());
}

#[test]
fn all_zero_children_stay_unsolved_from_table() {
    let t = table_from(vec![
        entry("p", series(&[])),
        entry("q", series(&[])),
        entry("p q", series(&[(0, 4)])),
    ]);
    assert!(regressors_for(ChildPolicy::DirectChildren, "p q", &t, &vec![]).is_none());
    assert!(regressors_for(ChildPolicy::FullRecursive, "p q", &t, &vec![]).is_none());
}

#[test]
fn accepted_children_drop_out_when_zeroed() {
    let mut t = table_from(vec![
        entry("a", series(&[(0, 1)])),
        entry("b", series(&[(1, 1)])),
        entry("c", series(&[(2, 1)])),
        entry("a b", series(&[(0, 1), (1, 1)])),
        entry("b c", series(&[(1, 1), (2, 1)])),
    ]);
    zero_out(&mut t, &vec!["a b".to_string()]);
    let regs = regressors_for(ChildPolicy::FullRecursive, "a b c", &t, &vec![]).unwrap();
    let names: Vec<&str> = regs.iter().map(|r| r.ngram.as_str()).collect();
    assert_eq!(names, vec!["a", "b", "b", "c", "b c"]);
}
