use fm_index::BitVector;

#[test]
fn test_bit_vector_small() {
    let mut bits = BitVector::new(8);
    bits.set(0, true);
    bits.set(1, true);
    bits.set(4, true);
    bits.set(5, true);
    bits.set(6, true);
    bits.build();

    // 1, 1, 0, 0, 1, 1, 1, 0
    assert_eq!(bits.access(0), true);
    assert_eq!(bits.rank(5, true), 3);
    assert_eq!(bits.rank(5, false), 2);
    assert_eq!(bits.rank(8, true), 5);
}

#[test]
fn test_bit_vector_large() {
    let mut bits = BitVector::new(1_000_000);
    for i in 0..1_000_000 {
        bits.set(i, true);
    }
    bits.build();

    assert_eq!(bits.access(0), true);
    assert_eq!(bits.access(999_999), true);

    assert_eq!(bits.rank(0, true), 0);
    assert_eq!(bits.rank(999_999, true), 999_999);

    assert_eq!(bits.rank(0, false), 0);
    assert_eq!(bits.rank(999_999, false), 0);

    assert_eq!(bits.zeros(), 0);
}

fn pattern(n: usize) -> Vec<bool> {
    (0..n).map(|i| (i * 7 + i / 3) % 5 < 2).collect()
}

fn built(bits: &[bool]) -> BitVector {
    let mut bv = BitVector::new(bits.len());
    for (i, b) in bits.iter().enumerate() {
        bv.set(i, *b);
    }
    bv.build();
    bv
}

#[test]
fn bit_vector_scenario_zeros() {
    let bv = built(&[true, true, false, false, true, true, true, false]);
    assert_eq!(bv.len(), 8);
    assert_eq!(bv.zeros(), 3);
    assert_eq!(bv.rank(8, false), 3);
}

#[test]
fn bit_vector_rank_matches_naive_across_blocks() {
    let bits = pattern(1_500);
    let bv = built(&bits);
    let mut ones = 0;
    for p in 0..=bits.len() {
        assert_eq!(bv.rank(p, true), ones);
        assert_eq!(bv.rank(p, false), p - ones);
        assert_eq!(bv.rank(p, true) + bv.rank(p, false), p);
        if p < bits.len() {
            assert_eq!(bv.access(p), bits[p]);
            if bits[p] {
                ones += 1;
            }
        }
    }
    assert_eq!(bv.rank(bits.len(), true), bits.iter().filter(|b| **b).count());
}

#[test]
fn bit_vector_rank_zero_and_empty() {
    let bv = built(&pattern(40));
    assert_eq!(bv.rank(0, true), 0);
    assert_eq!(bv.rank(0, false), 0);
    let empty = built(&[]);
    assert_eq!(empty.len(), 0);
    assert_eq!(empty.zeros(), 0);
    assert_eq!(empty.rank(0, true), 0);
}

#[test]
fn bit_vector_set_then_access() {
    let mut bv = BitVector::new(20);
    bv.set(17, true);
    assert_eq!(bv.access(17), true);
    bv.set(17, false);
    assert_eq!(bv.access(17), false);
    bv.set(3, true);
    assert_eq!(bv.access(3), true);
    assert_eq!(bv.access(2), false);
}
