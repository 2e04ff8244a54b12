use fm_index::WaveletMatrix;

#[test]
fn test_wavelet_matrix() {
    let vec: Vec<u64> = vec![1, 2, 4, 5, 1, 0, 4, 6, 2, 9, 2, 0];
    //                       0  1  2  3  4  5  6  7  8  9 10 11 (length = 12)
    let wm = WaveletMatrix::new(&vec);

    assert_eq!(wm.len(), 12);
    for i in 0..vec.len() {
        assert_eq!(wm.access(i), vec[i]);
    }

    assert_eq!(wm.rank(wm.len(), 2), 3);
    assert_eq!(wm.rank(wm.len(), 4), 2);
    assert_eq!(wm.rank(wm.len(), 5), 1);
    assert_eq!(wm.rank(wm.len(), 7), 0);
    assert_eq!(wm.rank(wm.len(), 39), 0);

    assert_eq!(wm.rank_less_than(wm.len(), 2), 4);
    assert_eq!(wm.rank_less_than(wm.len(), 7), 11);
}

fn naive_rank(v: &[u64], p: usize, c: u64) -> usize {
    v[..p].iter().filter(|x| **x == c).count()
}

fn naive_less(v: &[u64], p: usize, c: u64) -> usize {
    v[..p].iter().filter(|x| **x < c).count()
}

#[test]
fn wavelet_matrix_matches_naive_on_every_prefix() {
    let v: Vec<u64> = (0..300u64).map(|i| (i * 37 + i / 7) % 23).collect();
    let wm = WaveletMatrix::new(&v);
    for i in 0..v.len() {
        assert_eq!(wm.access(i), v[i]);
    }
    for c in 0..30u64 {
        let mut last_rank = 0;
        let mut last_less = 0;
        for p in 0..=v.len() {
            let r = wm.rank(p, c);
            let l = wm.rank_less_than(p, c);
            assert_eq!(r, naive_rank(&v, p, c));
            assert_eq!(l, naive_less(&v, p, c));
            assert!(r >= last_rank);
            assert!(l >= last_less);
            assert!(wm.rank_less_than(p, c + 1) >= l);
            last_rank = r;
            last_less = l;
        }
    }
}

#[test]
fn wavelet_matrix_symbol_beyond_width() {
    // largest value 9 takes four bits; 18 agrees with 2 on those bits
    let vec: Vec<u64> = vec![1, 2, 4, 5, 1, 0, 4, 6, 2, 9, 2, 0];
    let wm = WaveletMatrix::new(&vec);
    assert_eq!(wm.rank(wm.len(), 18), 0);
    assert_eq!(wm.rank_less_than(wm.len(), 18), 12);
    assert_eq!(wm.rank_less_than(wm.len(), 39), 12);
}

#[test]
fn wavelet_matrix_all_zero_and_empty() {
    let zeros: Vec<u64> = vec![0, 0, 0];
    let wm = WaveletMatrix::new(&zeros);
    assert_eq!(wm.len(), 3);
    assert_eq!(wm.access(1), 0);
    assert_eq!(wm.rank(3, 0), 3);
    assert_eq!(wm.rank(3, 1), 0);
    assert_eq!(wm.rank_less_than(3, 1), 3);
    assert_eq!(wm.rank_less_than(2, 0), 0);
    let empty = WaveletMatrix::new(&Vec::new());
    assert_eq!(empty.len(), 0);
    assert_eq!(empty.rank(0, 5), 0);
}

#[test]
fn wavelet_matrix_full_width_values() {
    let v: Vec<u64> = vec![u64::MAX, 0, u64::MAX - 1, 1 << 63, u64::MAX];
    let wm = WaveletMatrix::new(&v);
    for i in 0..v.len() {
        assert_eq!(wm.access(i), v[i]);
    }
    assert_eq!(wm.rank(5, u64::MAX), 2);
    assert_eq!(wm.rank_less_than(5, u64::MAX), 3);
    assert_eq!(wm.rank_less_than(5, 1 << 63), 1);
}
