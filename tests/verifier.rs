use simdna::hamming;
use simdna::utils::hamming as utils_hamming;

#[test]
fn hamming_scenarios() {
    assert_eq!(hamming(b"CAGAGC", b"CAGAGC", 5), Some(6));
    assert_eq!(hamming(b"CAGAGC", b"CAGATC", 5), Some(5));
    assert_eq!(hamming(b"CAGAGC", b"TTTTTT", 5), None);
}

#[test]
fn hamming_length_mismatch() {
    assert_eq!(hamming(b"CAGAGC", b"CAGAG", 0), None);
    assert_eq!(hamming(b"", b"A", 0), None);
    assert_eq!(utils_hamming(b"ACGTACGTACGT", b"ACGTACGTACG", 0), None);
}

#[test]
fn hamming_threshold_edges() {
    assert_eq!(hamming(b"", b"", 0), Some(0));
    assert_eq!(hamming(b"", b"", 1), None);
    assert_eq!(hamming(b"ACGT", b"ACGA", 3), Some(3));
    assert_eq!(hamming(b"ACGT", b"ACGA", 4), None);
}

#[test]
fn hamming_over_whole_words_and_tail() {
    // Twenty bytes: two eight-byte words and a four-byte tail.
    let a = b"ACGTACGTACGTACGTACGT";
    let mut b = *a;
    b[0] = b'T';
    b[7] = b'A';
    b[8] = b'A' ^ 0x80;
    b[15] = b'G';
    b[19] = b'A';
    assert_eq!(hamming(a, &b, 0), Some(15));
    assert_eq!(hamming(a, &b, 15), Some(15));
    assert_eq!(hamming(a, &b, 16), None);
    // Bytes that differ only in their high bit still count as different.
    assert_eq!(hamming(&[0x80u8; 9], &[0u8; 9], 0), Some(0));
    assert_eq!(hamming(&[1u8; 9], &[1u8; 9], 9), Some(9));
}
