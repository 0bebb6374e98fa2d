use simdna::seed::{ByteLanes, SIMDna};

#[test]
fn neon_simd_instr() {
    let pattern_vec: ByteLanes = SIMDna::load_pattern(b"CAGAGC");
    let ref_vec: ByteLanes = SIMDna::load_ref(b"TCAGAGCTTTTTTTTTT");
    let c = pattern_vec.shuffle_bytes(ref_vec);

    println!("{:?}", c.shift_lanes().fill_seed_lanes(3).find(0, 16));
    assert_eq!(c.shift_lanes().fill_seed_lanes(3).find(0, 16), Some(1));
}

#[test]
fn seed_simd_instr() {
    let pattern_vec: ByteLanes = SIMDna::load_pattern(b"CAGAGC");
    let ref_vec: ByteLanes = SIMDna::load_ref(b"TNTATACCTTCAGAGCG");
    let c = pattern_vec.shuffle_bytes(ref_vec);

    println!("{:?}", pattern_vec);
    println!("{:?}", ref_vec);
    println!("{:?}", c);
    println!("{:?}", c.shift_lanes());
    println!("{:?}", c.shift_lanes().fill_seed_lanes(3).find(0, 16));
    assert_eq!(
        ref_vec.0,
        [11, 14, 8, 2, 8, 1, 5, 6, 10, 9, 4, 3, 12, 3, 13, 7]
    );
    assert_eq!(c.0, [0, 0, 0, 0, 0, 0, 0, 0, 0, 0, 1, 10, 4, 10, 16, 0]);
    assert_eq!(
        c.shift_lanes().0,
        [0, 0, 0, 0, 0, 0, 0, 0, 8, 0, 31, 0, 2, 0, 0, 0]
    );
    assert_eq!(c.shift_lanes().fill_seed_lanes(3).find(0, 16), Some(10));
}

#[test]
fn short_ref() {
    let pattern_vec: ByteLanes = SIMDna::load_pattern(b"CAGAGC");
    let ref_vec: ByteLanes = SIMDna::load_ref(b"CAGAGC");
    let c = pattern_vec.shuffle_bytes(ref_vec);

    println!("{:?}", pattern_vec);
    println!("{:?}", ref_vec);
    println!("{:?}", c);
    println!("{:?}", c.shift_lanes());
    println!("{:?}", c.shift_lanes().fill_seed_lanes(3).find(0, 6));
    assert_eq!(
        ref_vec.0,
        [4, 3, 12, 3, 13, 16, 16, 16, 16, 16, 16, 16, 16, 16, 16, 16]
    );
    assert_eq!(c.0[5..], [0u8; 11]);
    assert_eq!(c.shift_lanes().0[0], 31);
    assert_eq!(c.shift_lanes().fill_seed_lanes(3).find(0, 6), Some(0));
}

#[test]
fn lane_primitives() {
    assert_eq!(ByteLanes::block_size(), 16);
    let table = ByteLanes([10, 11, 12, 13, 14, 15, 16, 17, 18, 19, 20, 21, 22, 23, 24, 25]);
    let indices = ByteLanes([15, 0, 16, 255, 1, 2, 3, 4, 5, 6, 7, 8, 9, 10, 11, 12]);
    assert_eq!(
        table.shuffle_bytes(indices).0,
        [25, 10, 0, 0, 11, 12, 13, 14, 15, 16, 17, 18, 19, 20, 21, 22]
    );
    let counts = ByteLanes([0, 1, 3, 7, 15, 31, 63, 127, 255, 128, 2, 6, 0, 0, 0, 0]);
    assert_eq!(
        counts.fill_seed_lanes(3).0,
        [0, 0, 0, 255, 255, 255, 255, 255, 255, 0, 0, 0, 0, 0, 0, 0]
    );
    assert_eq!(counts.fill_seed_lanes(3).find(100, 16), Some(103));
    assert_eq!(counts.fill_seed_lanes(3).find(100, 3), None);
    assert_eq!(ByteLanes::load(&[7u8; 16]).0, [7u8; 16]);
}

#[test]
fn shift_moves_each_bit_down_its_distance() {
    // Bit j of lane k + j lands in lane k; bits that would leave lane 0 are dropped.
    let mut lanes = [0u8; 16];
    lanes[15] = 0b1000_0001;
    lanes[5] = 0b0000_0100;
    let shifted = ByteLanes(lanes).shift_lanes().0;
    let mut expected = [0u8; 16];
    expected[15] = 0b0000_0001;
    expected[8] = 0b1000_0000;
    expected[3] = 0b0000_0100;
    assert_eq!(shifted, expected);
}

#[test]
fn locate_moves_cursor_past_each_seed() {
    let pattern: ByteLanes = SIMDna::load_pattern(b"CAGAGC");
    let r = b"TCAGATTCTCCCCGGATTTAATCAGAGCTGAATTTT";
    let mut start = 0usize;
    assert_eq!(pattern.locate(r, 6, 2, &mut start), Some(1));
    assert_eq!(start, 2);
    assert_eq!(pattern.locate(r, 6, 2, &mut start), Some(22));
    assert_eq!(start, 23);
    assert_eq!(pattern.locate(r, 6, 2, &mut start), None);
    assert_eq!(start, 23);
}

#[test]
fn locate_is_deterministic() {
    let pattern: ByteLanes = SIMDna::load_pattern(b"CAGAGC");
    let r = b"TATAAGGCCTGTCTCTTATACACATCTCCGAGCCCA";
    let mut a = 0usize;
    let mut b = 0usize;
    assert_eq!(pattern.locate(r, 6, 2, &mut a), pattern.locate(r, 6, 2, &mut b));
    assert_eq!(a, b);
    let mut c = 0usize;
    assert_eq!(pattern.locate(r, 6, 2, &mut c), Some(27));
}

#[test]
fn locate_on_short_reference() {
    let pattern: ByteLanes = SIMDna::load_pattern(b"CAGAGC");
    let mut start = 0usize;
    assert_eq!(pattern.locate(b"CAGAGC", 6, 5, &mut start), Some(0));
    assert_eq!(start, 1);
    let mut past = 10usize;
    assert_eq!(pattern.locate(b"CAGAGC", 6, 5, &mut past), None);
    assert_eq!(past, 10);
    let mut empty = 0usize;
    assert_eq!(pattern.locate(b"", 6, 5, &mut empty), None);
}

#[test]
fn vector_tail_respects_reference_end() {
    // A placement at offset 17 would run past the end of this reference.
    let r = b"GGGGGGGGGGGGGGGGGCAGA";
    let pattern: ByteLanes = SIMDna::load_pattern(b"CAGAGC");
    let mut start = 0usize;
    assert_eq!(pattern.locate(r, 6, 2, &mut start), None);
    assert_eq!(start, 0);
    let fp = simdna::fallback::Patterns::new(b"CAGAGC", 6);
    assert_eq!(fp.seed(r), Vec::<usize>::new());
}

#[test]
fn padding_lanes_cast_no_votes() {
    // A one-base reference has no base pair, so nothing can be found.
    let pattern: ByteLanes = SIMDna::load_pattern(b"AAAAAA");
    let mut start = 0usize;
    assert_eq!(pattern.locate(b"C", 6, 2, &mut start), None);
    assert_eq!(pattern.locate(b"C", 0, 0, &mut start), None);
    let fp = simdna::fallback::Patterns::new(b"AAAAAA", 6);
    assert_eq!(fp.seed(b"C"), Vec::<usize>::new());
}

#[test]
fn vector_offsets_are_scalar_seeds() {
    let pattern: ByteLanes = SIMDna::load_pattern(b"AAAAAA");
    let fp = simdna::fallback::Patterns::new(b"AAAAAA", 6);
    let r = b"AAAAAAAAAAAAAAAAAAAAA";
    let scalar = fp.seed(r);
    let mut found = Vec::new();
    let mut start = 0usize;
    while let Some(o) = pattern.locate(r, 6, 2, &mut start) {
        assert!(scalar.contains(&o));
        found.push(o);
    }
    assert_eq!(found, (0..16).collect::<Vec<usize>>());
}

#[test]
fn vector_offsets_from_full_windows_match_scalar() {
    let pattern: ByteLanes = SIMDna::load_pattern(b"CAGAGC");
    let fp = simdna::fallback::Patterns::new(b"CAGAGC", 6);
    let r = b"TCAGATTCTCCCCGGATTTAATCAGAGCTGAATTTT";
    let scalar = fp.seed(r);
    let mut start = 0usize;
    while let Some(o) = pattern.locate(r, 6, 2, &mut start) {
        assert!(scalar.contains(&o));
    }
}
