use tongrams::Gram;

#[test]
fn test_pop_token() {
    let gram = Gram::from_str("abc de f");

    let (gram, last) = gram.pop_token().unwrap();
    assert_eq!(gram.raw(), "abc de".as_bytes());
    assert_eq!(last.raw(), "f".as_bytes());

    let (gram, last) = gram.pop_token().unwrap();
    assert_eq!(gram.raw(), "abc".as_bytes());
    assert_eq!(last.raw(), "de".as_bytes());

    assert!(gram.pop_token().is_none());
}

#[test]
fn test_pop_front_token() {
    let gram = Gram::from_str("abc de f");

    let (front, gram) = gram.pop_front_token().unwrap();
    assert_eq!(front.raw(), "abc".as_bytes());
    assert_eq!(gram.raw(), "de f".as_bytes());

    let (front, gram) = gram.pop_front_token().unwrap();
    assert_eq!(front.raw(), "de".as_bytes());
    assert_eq!(gram.raw(), "f".as_bytes());

    assert!(gram.pop_front_token().is_none());
}

#[test]
fn test_split_to_tokens() {
    let gram = Gram::from_str("abc de f");
    let tokens = gram.split_to_tokens();
    assert_eq!(tokens.len(), 3);
    assert_eq!(tokens[0].raw(), "abc".as_bytes());
    assert_eq!(tokens[1].raw(), "de".as_bytes());
    assert_eq!(tokens[2].raw(), "f".as_bytes());
}

#[test]
fn test_split_degenerate_separators() {
    let tokens = Gram::from_str("a  b").split_to_tokens();
    assert_eq!(tokens.len(), 3);
    assert_eq!(tokens[0].raw(), "a".as_bytes());
    assert_eq!(tokens[1].raw(), "".as_bytes());
    assert_eq!(tokens[2].raw(), "b".as_bytes());

    let tokens = Gram::from_str("").split_to_tokens();
    assert_eq!(tokens.len(), 1);
    assert_eq!(tokens[0].raw(), "".as_bytes());

    let tokens = Gram::from_str(" x").split_to_tokens();
    assert_eq!(tokens.len(), 2);
    assert_eq!(tokens[0].raw(), "".as_bytes());
    assert_eq!(tokens[1].raw(), "x".as_bytes());
}

#[test]
fn test_new_raw_to_vec_eq() {
    let data = [1u8, 2, 3];
    let gram = Gram::new(&data);
    assert_eq!(gram.raw(), &data);
    assert_eq!(gram.to_vec(), vec![1u8, 2, 3]);

    assert!(Gram::from_str("ab") == Gram::new("ab".as_bytes()));
    assert!(Gram::from_str("ab") != Gram::from_str("ac"));
}
