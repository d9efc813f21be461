use ngram_compress::schedule::{step_offsets, step_tiles, worker_count};

#[test]
fn workers_default_to_half_the_cores() {
    assert_eq!(worker_count(None, 8), 4);
    assert_eq!(worker_count(Some(3), 8), 3);
}

#[test]
fn steps_of_four_over_ten_rows() {
    assert_eq!(step_offsets(10, 4), vec![0, 4, 8]);
    assert_eq!(step_offsets(10, 10), vec![0]);
    assert_eq!(step_offsets(0, 4), Vec::<u64>::new());
    assert_eq!(step_offsets(8, 4), vec![0, 4]);
}

#[test]
fn tiles_cover_each_row_once() {
    let mut seen = Vec::new();
    for off in step_offsets(10, 4) {
        for (limit, start) in step_tiles(10, 4, off, 3) {
            for r in start..start + limit {
                seen.push(r);
            }
        }
    }
    assert_eq!(seen, (0..10).collect::<Vec<u64>>());
}

#[test]
fn tiles_of_one_step() {
    assert_eq!(step_tiles(10, 10, 0, 4), vec![(3, 0), (3, 3), (3, 6), (1, 9)]);
    assert_eq!(step_tiles(10, 4, 8, 3), vec![(1, 8), (1, 9)]);
    assert_eq!(step_tiles(10, 4, 10, 3), Vec::<(u64, u64)>::new());
}

#[test]
fn single_chunk_equals_paged_union() {
    let mut paged = Vec::new();
    for off in step_offsets(10, 4) {
        for (limit, start) in step_tiles(10, 4, off, 2) {
            paged.extend(start..start + limit);
        }
    }
    let mut whole = Vec::new();
    for off in step_offsets(10, 10) {
        for (limit, start) in step_tiles(10, 10, off, 2) {
            whole.extend(start..start + limit);
        }
    }
    assert_eq!(paged, whole);
}
