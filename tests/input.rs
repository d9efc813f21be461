use ngram_compress::input::{decode_frequency, field_value, parse_unsigned, process_line, split_bytes};

#[test]
fn line_with_years_in_and_out_of_range() {
    let (g, a) = process_line(b"foo bar\t1799,5\t1800,3\t2000,7,9\t1850,0").unwrap();
    assert_eq!(g, b"foo bar".to_vec());
    assert_eq!(a.len(), 201);
    assert_eq!(a[0], 3);
    assert_eq!(a[200], 7);
    assert_eq!(a[50], 0);
    assert_eq!(a.iter().sum::<u64>(), 10);
}

#[test]
fn later_entry_for_a_year_wins() {
    let (_, a) = process_line(b"x\t1900,1\t1900,4").unwrap();
    assert_eq!(a[100], 4);
}

#[test]
fn line_without_fields_is_all_zero() {
    let (g, a) = process_line(b"lonely").unwrap();
    assert_eq!(g, b"lonely".to_vec());
    assert!(a.iter().all(|&x| x == 0));
}

#[test]
fn malformed_fields_reject_the_line() {
    assert!(process_line(b"x\tabc,1").is_none());
    assert!(process_line(b"x\t1900").is_none());
    assert!(process_line(b"x\t1900,-2").is_none());
    assert!(process_line(b"x\t1900,2\t").is_none());
}

#[test]
fn out_of_range_year_needs_no_count() {
    assert_eq!(field_value(&b"2001".to_vec()), Some(None));
    assert_eq!(field_value(&b"1900,12".to_vec()), Some(Some((100, 12))));
}

#[test]
fn unsigned_numbers() {
    assert_eq!(parse_unsigned(&b"0".to_vec()), Some(0));
    assert_eq!(parse_unsigned(&b"+42".to_vec()), Some(42));
    assert_eq!(parse_unsigned(&b"18446744073709551615".to_vec()), Some(u64::MAX));
    assert_eq!(parse_unsigned(&b"18446744073709551616".to_vec()), None);
    assert_eq!(parse_unsigned(&b"".to_vec()), None);
    assert_eq!(parse_unsigned(&b"+".to_vec()), None);
    assert_eq!(parse_unsigned(&b"12a".to_vec()), None);
}

#[test]
fn splitting_keeps_empty_pieces() {
    assert_eq!(split_bytes(b"a,,b", b','), vec![b"a".to_vec(), vec![], b"b".to_vec()]);
    assert_eq!(split_bytes(b"", b','), vec![Vec::<u8>::new()]);
}

#[test]
fn stored_lists_decode() {
    let mut entries = vec![Some(1u64); 201];
    entries[7] = None;
    let v = decode_frequency(&entries).unwrap();
    assert_eq!(v[0], 1);
    assert_eq!(v[7], 0);
    assert!(decode_frequency(&vec![Some(1); 200]).is_none());
    assert!(decode_frequency(&vec![None]).is_none());
}
