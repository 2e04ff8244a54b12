use fm_index::{BuildError, FMIndex};

fn sorted_locations(fmi: &FMIndex, query: &str) -> Vec<usize> {
    let range = fmi.search(query);
    let mut locs: Vec<usize> = (range.start..range.end).map(|i| fmi.locate(i)).collect();
    locs.sort();
    locs
}

fn naive_locations(text: &str, query: &str) -> Vec<usize> {
    let t = text.as_bytes();
    let q = query.as_bytes();
    (0..t.len())
        .filter(|&i| i + q.len() <= t.len() && &t[i..i + q.len()] == q)
        .collect()
}

#[test]
fn test_fm_index() {
    let fmi = FMIndex::new("The quick brown fox was very quick.").unwrap();

    assert_eq!(fmi.contains("quick"), true);
    assert_eq!(fmi.contains("vary"), false);
}

#[test]
fn fm_index_quick_fox() {
    let fmi = FMIndex::new("The quick brown fox was very quick.").unwrap();
    assert_eq!(fmi.counts("quick"), 2);
    assert_eq!(sorted_locations(&fmi, "quick"), vec![4, 29]);
}

#[test]
fn fm_index_abracadabra() {
    let fmi = FMIndex::new("abracadabra").unwrap();
    assert_eq!(fmi.counts("a"), 5);
    assert_eq!(fmi.counts("abra"), 2);
    assert_eq!(sorted_locations(&fmi, "abra"), vec![0, 7]);
    assert_eq!(fmi.contains("abracadabrx"), false);
}

#[test]
fn fm_index_mississippi() {
    let fmi = FMIndex::new("mississippi").unwrap();
    assert_eq!(fmi.counts("issi"), 2);
    assert_eq!(sorted_locations(&fmi, "issi"), vec![1, 4]);
    assert_eq!(fmi.counts("ss"), 2);
}

#[test]
fn fm_index_counts_match_naive() {
    let text = "mississippi river banks by the mississippi";
    let fmi = FMIndex::new(text).unwrap();
    for q in ["i", "ss", "issi", "ppi", " ", "river", "x", "mississippi", "sip"] {
        let expected = naive_locations(text, q);
        assert_eq!(fmi.counts(q), expected.len(), "{}", q);
        assert_eq!(fmi.contains(q), !expected.is_empty(), "{}", q);
        assert_eq!(sorted_locations(&fmi, q), expected, "{}", q);
    }
}

#[test]
fn fm_index_locate_away_from_row_zero() {
    let text = "The quick brown fox was very quick.";
    let fmi = FMIndex::new(text).unwrap();
    for q in ["quick", "o", "was", "very"] {
        assert_eq!(sorted_locations(&fmi, q), naive_locations(text, q), "{}", q);
    }
}

#[test]
fn fm_index_locate_every_row() {
    for text in ["abracadabra", "mississippi", "banana band", "aaaaaaaaaaaaaaaaaaaaa"] {
        let fmi = FMIndex::new(text).unwrap();
        let n = text.len();
        let mut seen: Vec<usize> = (0..=n).map(|row| fmi.locate(row)).collect();
        assert_eq!(fmi.locate(0), n, "{}", text);
        seen.sort();
        assert_eq!(seen, (0..=n).collect::<Vec<usize>>(), "{}", text);
    }
}

#[test]
fn fm_index_query_with_zero_byte_is_absent() {
    let fmi = FMIndex::new("abracadabra").unwrap();
    for q in ["\0", "a\0", "\0a", "ab\0ra"] {
        let range = fmi.search(q);
        assert_eq!((range.start, range.end), (0, 0));
        assert_eq!(fmi.counts(q), 0);
        assert_eq!(fmi.contains(q), false);
    }
}

#[test]
fn fm_index_absent_pattern_gives_empty_range() {
    let fmi = FMIndex::new("abracadabra").unwrap();
    let range = fmi.search("zzz");
    assert_eq!((range.start, range.end), (0, 0));
    assert_eq!(fmi.counts("zzz"), 0);
}

#[test]
fn fm_index_empty_query_matches_every_row() {
    let fmi = FMIndex::new("abc").unwrap();
    let range = fmi.search("");
    assert_eq!((range.start, range.end), (0, 4));
}

#[test]
fn fm_index_previous_string() {
    let fmi = FMIndex::new("abracadabra").unwrap();
    let range = fmi.search("abra");
    let mut found = Vec::new();
    for row in range.start..range.end {
        found.push((fmi.locate(row), fmi.previous_string(row, 3), fmi.previous_string(row, 20)));
    }
    found.sort();
    assert_eq!(
        found,
        vec![
            (0, String::new(), String::new()),
            (7, "cad".to_string(), "abracad".to_string()),
        ]
    );
}

#[test]
fn fm_index_previous_string_zero_length() {
    let fmi = FMIndex::new("abracadabra").unwrap();
    assert_eq!(fmi.previous_string(3, 0), "");
}

#[test]
fn fm_index_previous_string_multibyte() {
    let text = "caf\u{e9} au lait";
    let fmi = FMIndex::new(text).unwrap();
    let range = fmi.search(" au");
    assert_eq!(range.end - range.start, 1);
    assert_eq!(fmi.previous_string(range.start, 2), "f\u{e9}");
}

#[test]
fn fm_index_build_errors() {
    assert_eq!(FMIndex::new("").err(), Some(BuildError::EmptyText));
    assert_eq!(FMIndex::new("ab\0c").err(), Some(BuildError::SentinelByte));
    assert_eq!(FMIndex::new("ab").err(), Some(BuildError::ZeroStride));
    assert_eq!(FMIndex::with_rate("ab", 0, 4).err(), Some(BuildError::InvalidRate));
    assert_eq!(FMIndex::with_rate("ab", 5, 4).err(), Some(BuildError::InvalidRate));
    assert_eq!(FMIndex::with_rate("ab", 1, 0).err(), Some(BuildError::InvalidRate));
    assert!(FMIndex::with_rate("ab", 1, 1).is_ok());
}

#[test]
fn fm_index_full_rate_locates_every_row() {
    let text = "banana";
    let fmi = FMIndex::with_rate(text, 1, 1).unwrap();
    assert_eq!(sorted_locations(&fmi, "ana"), vec![1, 3]);
    assert_eq!(sorted_locations(&fmi, "a"), vec![1, 3, 5]);
    assert_eq!(fmi.sampling_rate(), (1, 1));
}

#[test]
fn fm_index_sampled_rows() {
    // eleven bytes, twelve rows, three samples: stride four
    let fmi = FMIndex::new("abracadabra").unwrap();
    assert_eq!(fmi.sampled_sa().len(), 3);
    assert_eq!(fmi.sampled_sa()[0], 0);
    assert_eq!(fmi.wavelet_matrix().len(), 12);
}
