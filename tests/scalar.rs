use simdna::encode::{count_ones, encode_pair};
use simdna::fallback::{fingerprint, Patterns};

#[test]
fn fallback_test_seed() {
    let fp = Patterns::new(b"CAGAGC", 6);

    let seeds = fp.seed(b"TATAAGGCCTGTCTCTTATACACATCTCCGAGCCCA");

    assert_eq!(vec![27], seeds);
}

#[test]
fn seed_test_seed() {
    let fp = simdna::seed::Patterns::new(b"CAGAGC", 6);

    let seeds = fp.seed(b"TATAAGGCCTGTCTCTTATACACATCTCCGAGCCCA");

    assert_eq!(vec![27], seeds);
}

#[test]
fn dinucleotide_codes() {
    assert_eq!(encode_pair(b'C', b'A'), 4);
    assert_eq!(encode_pair(b'A', b'G'), 3);
    assert_eq!(encode_pair(b'G', b'C'), 13);
    assert_eq!(encode_pair(b'T', b'T'), 10);
    assert_eq!(encode_pair(0xff, 0xff), 15);
}

#[test]
fn popcount_of_bytes() {
    assert_eq!(count_ones(0), 0);
    assert_eq!(count_ones(31), 5);
    assert_eq!(count_ones(255), 8);
}

#[test]
fn fingerprint_of_pattern() {
    assert_eq!(
        fingerprint(b"CAGAGC"),
        [0, 0, 0, 10, 1, 0, 0, 0, 0, 0, 0, 0, 4, 16, 0, 0]
    );
    assert_eq!(fingerprint(b""), [0u8; 16]);
    assert_eq!(fingerprint(b"C"), [0u8; 16]);
    // Only the first eight base pairs are represented.
    let long = fingerprint(b"AAAAAAAAAAAAAAAAAAAA");
    assert_eq!(long[0], 255);
    assert_eq!(long[1..], [0u8; 15]);
}

#[test]
fn construction_is_idempotent() {
    let a = Patterns::new(b"CAGAGCTTAG", 3);
    let b = Patterns::new(b"CAGAGCTTAG", 3);
    assert_eq!(format!("{:?}", a), format!("{:?}", b));
}

#[test]
fn seed_is_deterministic() {
    let fp = Patterns::new(b"CAGAGC", 6);
    let r = b"TCAGATTCTCCCCGGATTTAATCAGAGCTGAATTTT";
    let first = fp.seed(r);
    let second = fp.seed(r);
    assert_eq!(first, second);
    // Overlapping windows may report one offset twice.
    assert_eq!(first, vec![1, 22, 22]);
}

#[test]
fn seeds_stay_inside_reference() {
    let fp = Patterns::new(b"CAGAGC", 6);
    for r in [
        &b"AGATTTTCATATTATGCAG"[..],
        &b"TCAGATTCTCCCCGGATTTAATCAGAGCTGAATTTT"[..],
        &b"GGGGGGGGGGGGGGGGGCAGA"[..],
        &b"CAGAGCAGAGCAGAGCAGAGCAGAGC"[..],
    ] {
        for o in fp.seed(r) {
            assert!(o + 6 <= r.len());
        }
    }
    // A placement at offset 16 would run past the end of this reference.
    assert_eq!(fp.seed(b"AGATTTTCATATTATGCAG"), Vec::<usize>::new());
}

#[test]
fn short_references_are_scanned() {
    let fp = Patterns::new(b"CAGAGC", 6);
    assert_eq!(fp.seed(b"CAGAGC"), vec![0]);
    assert_eq!(fp.seed(b"TCAGAGCT"), vec![1]);
    assert_eq!(fp.seed(b"C"), Vec::<usize>::new());
    assert_eq!(fp.seed(b""), Vec::<usize>::new());
}

#[test]
fn reference_of_one_full_window() {
    let fp = Patterns::new(b"CAGAGC", 6);
    assert_eq!(fp.seed(b"TCAGAGCTTTTTTTTTT"), vec![1]);
    assert_eq!(fp.seed(b"AAAAAAAAAAAAAAAAAAAA"), Vec::<usize>::new());
}
