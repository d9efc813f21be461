use ngram_compress::program::{build_program, usable_candidates, Regressor, YEARS};

fn series(values: &[(usize, u64)]) -> Vec<u64> {
    let mut v = vec![0u64; YEARS];
    for &(i, x) in values {
        v[i] = x;
    }
    v
}

fn reg(name: &str, freq: Vec<u64>) -> Regressor {
    Regressor { ngram: name.to_string(), freq }
}

#[test]
fn unigram_candidates_stay_unsolved() {
    let c = vec![reg("a", series(&[(0, 1)]))];
    assert!(usable_candidates(c).is_none());
}

#[test]
fn all_zero_children_stay_unsolved() {
    let c = vec![reg("p", series(&[])), reg("q", series(&[]))];
    assert!(usable_candidates(c).is_none());
}

#[test]
fn zero_children_are_dropped() {
    let c = vec![
        reg("a", series(&[])),
        reg("b", series(&[(3, 2)])),
        reg("c", series(&[])),
    ];
    let kept = usable_candidates(c).unwrap();
    assert_eq!(kept.len(), 1);
    assert_eq!(kept[0].ngram, "b");
    assert_eq!(kept[0].freq[3], 2);
}

#[test]
fn exact_bigram_program() {
    let c = vec![reg("x", series(&[(0, 1)])), reg("y", series(&[(1, 1)]))];
    let regs = usable_candidates(c).unwrap();
    assert_eq!(regs.len(), 2);
    let y = series(&[(0, 3), (1, 2)]);
    let lp = build_program(&regs, &y);
    assert_eq!(lp.costs, vec![0, 0, 1]);
    assert_eq!(lp.rows.len(), 2 * YEARS);
    assert_eq!(lp.rows[0].entries, vec![(0, 1), (1, 0), (2, -1)]);
    assert_eq!(lp.rows[0].upper, 3);
    assert_eq!(lp.rows[1].entries, vec![(0, 0), (1, 1), (2, -1)]);
    assert_eq!(lp.rows[1].upper, 2);
    assert_eq!(lp.rows[YEARS].entries, vec![(0, -1), (1, 0), (2, -1)]);
    assert_eq!(lp.rows[YEARS].upper, -3);
    assert_eq!(lp.rows[YEARS + 1].upper, -2);
    assert_eq!(lp.rows[2 * YEARS - 1].entries, vec![(0, 0), (1, 0), (2, -1)]);
    assert_eq!(lp.rows[2 * YEARS - 1].upper, 0);
}

#[test]
fn largest_counts_fit() {
    let regs = vec![reg("a", series(&[(5, u64::MAX)]))];
    let y = series(&[(5, u64::MAX)]);
    let lp = build_program(&regs, &y);
    assert_eq!(lp.rows[5].entries[0], (0, u64::MAX as i128));
    assert_eq!(lp.rows[YEARS + 5].entries[0], (0, -(u64::MAX as i128)));
    assert_eq!(lp.rows[YEARS + 5].upper, -(u64::MAX as i128));
}

fn row_value(entries: &[(usize, i128)], point: &[i128]) -> i128 {
    entries.iter().map(|(c, v)| v * point[*c]).sum()
}

#[test]
fn exact_weights_satisfy_every_row_with_zero_slack() {
    let regs = vec![reg("x", series(&[(0, 1)])), reg("y", series(&[(1, 1)]))];
    let y = series(&[(0, 3), (1, 2)]);
    let lp = build_program(&regs, &y);
    let exact = [3, 2, 0];
    assert!(lp.rows.iter().all(|r| row_value(&r.entries, &exact) <= r.upper));
    let off = [3, 1, 0];
    assert!(!lp.rows.iter().all(|r| row_value(&r.entries, &off) <= r.upper));
    let loose = [3, 1, 1];
    assert!(lp.rows.iter().all(|r| row_value(&r.entries, &loose) <= r.upper));
}
