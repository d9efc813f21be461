use ngram_compress::files::{bytes_le, file_for};

#[test]
fn byte_order() {
    assert!(bytes_le(b"a", b"b"));
    assert!(bytes_le(b"ab", b"ab"));
    assert!(bytes_le(b"ab", b"abc"));
    assert!(!bytes_le(b"abc", b"ab"));
    assert!(!bytes_le(b"b", b"abc"));
    assert!(bytes_le(b"", b""));
    assert!(bytes_le(b"Z", b"a"));
}

#[test]
fn last_file_starting_at_or_before() {
    let firsts = vec![b"apple".to_vec(), b"kiwi".to_vec(), b"pear".to_vec()];
    assert_eq!(file_for(&firsts, b"banana"), Some(0));
    assert_eq!(file_for(&firsts, b"kiwi"), Some(1));
    assert_eq!(file_for(&firsts, b"zebra"), Some(2));
    assert_eq!(file_for(&firsts, b"aardvark"), None);
    assert_eq!(file_for(&Vec::new(), b"x"), None);
}
