use byte_pair_encoding::{
    train_step, BytePairEncodingTokenizer, Token, TokenPairCounter,
};

fn init(s: &str) -> (Vec<Token>, BytePairEncodingTokenizer, TokenPairCounter) {
    let v = s.bytes().map(|b| b.into()).collect::<Vec<Token>>();
    let tokenizer = BytePairEncodingTokenizer::new();
    let tpc = TokenPairCounter::new(&v);
    (v, tokenizer, tpc)
}

#[test]
fn process_not() {
    let s = "la la".to_owned();
    let (v, tokenizer, _) = init(&s);
    let s2 = tokenizer.decode::<false>(&v).unwrap();
    assert_eq!(s, s2)
}

#[test]
fn process_once() {
    let s = "la la".to_owned();
    let (mut v, mut tokenizer, mut tpc) = init(&s);
    (v, _) = train_step(&v, &mut tokenizer, &mut tpc);
    let s2 = tokenizer.decode::<false>(&v).unwrap();
    assert_eq!(s, s2)
}

#[test]
fn process_twice() {
    let s = "la la".to_owned();
    let (mut v, mut tokenizer, mut tpc) = init(&s);
    (v, _) = train_step(&v, &mut tokenizer, &mut tpc);
    (v, _) = train_step(&v, &mut tokenizer, &mut tpc);
    let s2 = tokenizer.decode::<false>(&v).unwrap();
    assert_eq!(s, s2)
}

fn nonzero_counts(tpc: &TokenPairCounter) -> std::collections::HashMap<(Token, Token), usize> {
    tpc.counts.iter().cloned().filter(|&(_, c)| c > 0).collect()
}

fn check_tpc_handling(s: String) {
    let (v, mut tokenizer, mut tpc) = init(&s);
    let (v2, _) = train_step(&v, &mut tokenizer, &mut tpc);
    let tpc2 = TokenPairCounter::new(&v2);
    assert_eq!(nonzero_counts(&tpc), nonzero_counts(&tpc2));
}

#[test]
fn test_update_is_correct_1() {
    check_tpc_handling("abab".to_owned());
}

#[test]
fn test_update_is_correct_2() {
    check_tpc_handling("ab ab".to_owned());
}

#[test]
fn test_update_is_correct_3() {
    check_tpc_handling("ababc".to_owned());
}

/// Can train a tokenizer on one string, and then round trip another string with compression
#[test]
fn test_troundtrip() {
    let s1 = "abab".to_owned();

    // Train a tokenizer on s1
    let (tokenizer, train_tokenized) = BytePairEncodingTokenizer::from_corpus(&s1, 2);
    let train_roundtrip = tokenizer.decode::<false>(&train_tokenized).unwrap();
    assert_eq!(s1, train_roundtrip);

    // Did it actually compress? Fewer tokens than bytes?
    assert!(train_tokenized.len() < s1.bytes().len());
}

/// Can train a tokenizer on one string, and then round trip another string with compression
#[test]
fn test_roundtrip_other() {
    let s1 = "abab".to_owned();
    let s2 = "ab ab".to_owned();

    // Train a tokenizer on s1
    let (tokenizer, _) = BytePairEncodingTokenizer::from_corpus(&s1, 2);

    // should only have 1 rule
    assert_eq!(tokenizer.encoding_table.len(), 1);

    // the rule should be (a,b) -> 256
    assert_eq!(tokenizer.encoding_table[0], ((97, 98), 256));

    // Roundtrips on s2
    let v2 = tokenizer.encode(&s2);
    // is the tokenization correct?
    assert_eq!(v2, vec![256, 32, 256]);

    let s2_decoded = tokenizer.decode::<false>(&v2).unwrap();
    assert_eq!(s2, s2_decoded);

    // And did it actually compress? Fewer tokens than bytes?
    assert!(v2.len() < s2.bytes().len());
}

#[test]
fn test_to_bytes_and_from_bytes() {
    let mut tokenizer = BytePairEncodingTokenizer::new();
    tokenizer.add_pair_rule((0, 1)).unwrap();
    tokenizer.add_pair_rule((2, 3)).unwrap();

    let serialized = tokenizer.to_bytes();
    let deserialized = BytePairEncodingTokenizer::from_bytes(&serialized).unwrap();

    // Check decoding table
    assert_eq!(tokenizer.decoding_table, deserialized.decoding_table);

    // Check encoding table
    assert_eq!(tokenizer.encoding_table, deserialized.encoding_table);
}

#[test]
fn test_from_bytes_empty() {
    let tokenizer = BytePairEncodingTokenizer::new();
    let serialized = tokenizer.to_bytes();
    let deserialized = BytePairEncodingTokenizer::from_bytes(&serialized).unwrap();

    // Check decoding table
    assert_eq!(tokenizer.decoding_table, deserialized.decoding_table);

    // Check encoding table
    assert_eq!(tokenizer.encoding_table, deserialized.encoding_table);
}

/// Applying a trained tokenizer to the corpus it was trained on produces the same TokenizedString
/// as the TokenizedString that was returned in the training step
#[test]
fn test_tokenizer_on_corpus() {
    let s = "abab bcbc abc".to_owned();
    let (tokenizer, v) = BytePairEncodingTokenizer::from_corpus(&s, 1);
    let v2 = tokenizer.encode(&s);
    assert_eq!(v, v2);
}
