use tongrams::DoubleArrayVocabulary;
use tongrams::Error;
use tongrams::Gram;
use tongrams::SimpleVocabulary;
use tongrams::Vocabulary;

#[test]
fn test_basic() {
    let grams = vec![
        Gram::from_str("A"),
        Gram::from_str("D"),
        Gram::from_str("B"),
    ];

    let vocab = SimpleVocabulary::build(&grams).unwrap();
    assert_eq!(vocab.get(Gram::from_str("A")), Some(0));
    assert_eq!(vocab.get(Gram::from_str("B")), Some(2));
    assert_eq!(vocab.get(Gram::from_str("C")), None);
    assert_eq!(vocab.get(Gram::from_str("D")), Some(1));

    let vocab = DoubleArrayVocabulary::build(&grams).unwrap();
    assert_eq!(vocab.get(Gram::from_str("A")), Some(0));
    assert_eq!(vocab.get(Gram::from_str("B")), Some(2));
    assert_eq!(vocab.get(Gram::from_str("C")), None);
    assert_eq!(vocab.get(Gram::from_str("D")), Some(1));
}

#[test]
fn test_round_trip_double_array() {
    let grams = vec![
        Gram::from_str("the"),
        Gram::from_str("same"),
        Gram::from_str("time"),
    ];
    let vocab = DoubleArrayVocabulary::build(&grams).unwrap();
    let mut bytes: Vec<u8> = Vec::new();
    let n = vocab.serialize_into(&mut bytes).unwrap();
    assert_eq!(n, bytes.len());
    assert_eq!(n, vocab.size_in_bytes());

    let (copy, rest) = DoubleArrayVocabulary::deserialize_from(&bytes).unwrap();
    assert!(rest.is_empty());
    assert_eq!(copy.get(Gram::from_str("the")), Some(0));
    assert_eq!(copy.get(Gram::from_str("same")), Some(1));
    assert_eq!(copy.get(Gram::from_str("time")), Some(2));
    assert_eq!(copy.get(Gram::from_str("times")), None);
    assert_eq!(copy.get(Gram::from_str("th")), None);
}

#[test]
fn test_round_trip_simple() {
    let grams = vec![
        Gram::from_str("the"),
        Gram::from_str("same"),
        Gram::from_str("time"),
    ];
    let vocab = SimpleVocabulary::build(&grams).unwrap();
    let mut bytes: Vec<u8> = Vec::new();
    let n = vocab.serialize_into(&mut bytes).unwrap();
    assert_eq!(n, bytes.len());
    assert_eq!(n, vocab.size_in_bytes());

    let (copy, rest) = SimpleVocabulary::deserialize_from(&bytes).unwrap();
    assert!(rest.is_empty());
    assert_eq!(copy.get(Gram::from_str("the")), Some(0));
    assert_eq!(copy.get(Gram::from_str("same")), Some(1));
    assert_eq!(copy.get(Gram::from_str("time")), Some(2));
    assert_eq!(copy.get(Gram::from_str("sam")), None);
}

#[test]
fn test_deserialize_leaves_trailing_bytes() {
    let grams = vec![Gram::from_str("x"), Gram::from_str("y")];
    let vocab = DoubleArrayVocabulary::build(&grams).unwrap();
    let mut bytes: Vec<u8> = Vec::new();
    vocab.serialize_into(&mut bytes).unwrap();
    bytes.extend_from_slice(&[9, 9, 9, 9]);

    let (copy, rest) = DoubleArrayVocabulary::deserialize_from(&bytes).unwrap();
    assert_eq!(rest, &[9, 9, 9, 9]);
    assert_eq!(copy.get(Gram::from_str("y")), Some(1));
}

#[test]
fn test_duplicate_token_fails() {
    let grams = vec![
        Gram::from_str("A"),
        Gram::from_str("B"),
        Gram::from_str("A"),
    ];
    match DoubleArrayVocabulary::build(&grams) {
        Err(Error::DuplicateToken { token, id }) => {
            assert_eq!(token, b"A".to_vec());
            assert_eq!(id, 0);
        }
        other => panic!("expected a duplicate-token error, got {:?}", other.map(|_| ())),
    }
    match SimpleVocabulary::build(&grams) {
        Err(Error::DuplicateToken { token, id }) => {
            assert_eq!(token, b"A".to_vec());
            assert_eq!(id, 0);
        }
        other => panic!("expected a duplicate-token error, got {:?}", other.map(|_| ())),
    }
}

#[test]
fn test_truncated_stream_fails() {
    let grams = vec![Gram::from_str("alpha"), Gram::from_str("beta")];
    let vocab = DoubleArrayVocabulary::build(&grams).unwrap();
    let mut bytes: Vec<u8> = Vec::new();
    vocab.serialize_into(&mut bytes).unwrap();
    let cut = &bytes[..bytes.len() - 1];
    assert!(matches!(
        DoubleArrayVocabulary::deserialize_from(cut),
        Err(Error::Truncated)
    ));
    assert!(matches!(
        DoubleArrayVocabulary::deserialize_from(&bytes[..4]),
        Err(Error::Truncated)
    ));
}

#[test]
fn test_malformed_payload_fails() {
    // A complete frame whose payload is not a valid structure.
    let mut bytes: Vec<u8> = vec![3, 0, 0, 0, 0, 0, 0, 0];
    bytes.extend_from_slice(&[1, 2, 3]);
    assert!(matches!(
        DoubleArrayVocabulary::deserialize_from(&bytes),
        Err(Error::InvalidPayload)
    ));
    assert!(matches!(
        SimpleVocabulary::deserialize_from(&bytes),
        Err(Error::InvalidPayload)
    ));
}

#[test]
fn test_double_array_rejects_nul_and_empty_tokens() {
    let with_nul = [Gram::new(&[b'a', 0, b'b'])];
    assert!(matches!(
        DoubleArrayVocabulary::build(&with_nul),
        Err(Error::BuildRejected)
    ));
    let with_empty = [Gram::from_str("")];
    assert!(matches!(
        DoubleArrayVocabulary::build(&with_empty),
        Err(Error::BuildRejected)
    ));
}

#[test]
fn test_simple_accepts_empty_token() {
    let grams = vec![Gram::from_str(""), Gram::from_str("x")];
    let vocab = SimpleVocabulary::build(&grams).unwrap();
    assert_eq!(vocab.get(Gram::from_str("")), Some(0));
    assert_eq!(vocab.get(Gram::from_str("x")), Some(1));
    assert_eq!(vocab.get(Gram::from_str("y")), None);
}

#[test]
fn test_empty_vocabulary() {
    let da = DoubleArrayVocabulary::new();
    assert_eq!(da.get(Gram::from_str("a")), None);
    let simple = SimpleVocabulary::new();
    assert_eq!(simple.get(Gram::from_str("a")), None);

    let built = DoubleArrayVocabulary::build(&[]).unwrap();
    assert_eq!(built.get(Gram::from_str("a")), None);
}

#[test]
fn test_memory_statistics_cover_size() {
    let grams = vec![Gram::from_str("one"), Gram::from_str("two")];

    let vocab = DoubleArrayVocabulary::build(&grams).unwrap();
    let stats = vocab.memory_statistics();
    let total: usize = stats.iter().map(|entry| entry.1).sum();
    assert_eq!(total, vocab.size_in_bytes());

    let vocab = SimpleVocabulary::build(&grams).unwrap();
    let stats = vocab.memory_statistics();
    let total: usize = stats.iter().map(|entry| entry.1).sum();
    assert_eq!(total, vocab.size_in_bytes());
}
