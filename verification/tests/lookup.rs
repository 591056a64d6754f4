use tongrams::CountTable;
use tongrams::DoubleArrayVocabulary;
use tongrams::Gram;
use tongrams::SimpleRankArray;
use tongrams::SimpleTrieArray;
use tongrams::SimpleVocabulary;
use tongrams::TrieCountLm;
use tongrams::TrieCountLmLookuper;
use tongrams::Vocabulary;

// A small corpus over tokens A (id 0), B (id 1), C (id 2):
//   counts: "A" -> 5, "B" -> 1, "C" -> 2, "A B" -> 7, "B C" -> 3.
fn build_lm() -> TrieCountLm<SimpleTrieArray, SimpleVocabulary, SimpleRankArray> {
    let grams = vec![
        Gram::from_str("A"),
        Gram::from_str("B"),
        Gram::from_str("C"),
    ];
    let vocab = SimpleVocabulary::build(&grams).unwrap();
    TrieCountLm {
        vocab,
        arrays: vec![SimpleTrieArray {
            edges: vec![(0, 1, 0), (1, 2, 1)],
            positions: 2,
        }],
        count_ranks: vec![
            SimpleRankArray { ranks: vec![2, 0, 1] },
            SimpleRankArray { ranks: vec![1, 0] },
        ],
        counts: vec![
            CountTable { values: vec![1, 2, 5] },
            CountTable { values: vec![3, 7] },
        ],
    }
}

#[test]
fn test_lookup_present_grams() {
    let lm = build_lm();
    let mut lookuper = TrieCountLmLookuper::new(&lm);
    assert_eq!(lookuper.with_str("A B"), Some(7));
    assert_eq!(lookuper.with_str("B C"), Some(3));
    assert_eq!(lookuper.with_gram(Gram::from_str("A B")), Some(7));
    assert_eq!(lookuper.with_tokens(&["B", "C"]), Some(3));
}

#[test]
fn test_single_token_lookup_matches_counts() {
    let lm = build_lm();
    let mut lookuper = TrieCountLmLookuper::new(&lm);
    // Order-0 lookups resolve without any trie level involved.
    assert_eq!(lookuper.with_str("A"), Some(5));
    assert_eq!(lookuper.with_str("B"), Some(1));
    assert_eq!(lookuper.with_str("C"), Some(2));
    assert_eq!(lookuper.with_tokens(&["A"]), Some(5));
}

#[test]
fn test_lookup_missing_grams() {
    let lm = build_lm();
    let mut lookuper = TrieCountLmLookuper::new(&lm);
    // Unknown token: the whole query fails.
    assert_eq!(lookuper.with_str("D"), None);
    assert_eq!(lookuper.with_str("A D"), None);
    // Known tokens, missing edge.
    assert_eq!(lookuper.with_str("A C"), None);
    assert_eq!(lookuper.with_str("C A"), None);
    assert_eq!(lookuper.with_str("B A"), None);
    // Longer than the maximum order.
    assert_eq!(lookuper.with_str("A B C"), None);
    assert_eq!(lookuper.with_tokens(&["A", "B", "C"]), None);
}

#[test]
fn test_both_vocabulary_encodings_agree() {
    let grams = vec![
        Gram::from_str("A"),
        Gram::from_str("B"),
        Gram::from_str("C"),
    ];
    let vocab = DoubleArrayVocabulary::build(&grams).unwrap();
    let lm = TrieCountLm {
        vocab,
        arrays: vec![SimpleTrieArray {
            edges: vec![(0, 1, 0), (1, 2, 1)],
            positions: 2,
        }],
        count_ranks: vec![
            SimpleRankArray { ranks: vec![2, 0, 1] },
            SimpleRankArray { ranks: vec![1, 0] },
        ],
        counts: vec![
            CountTable { values: vec![1, 2, 5] },
            CountTable { values: vec![3, 7] },
        ],
    };
    let mut lookuper = TrieCountLmLookuper::new(&lm);
    assert_eq!(lookuper.with_str("A B"), Some(7));
    assert_eq!(lookuper.with_str("A"), Some(5));
    assert_eq!(lookuper.with_str("A C"), None);
    assert_eq!(lookuper.with_str("D"), None);
}
