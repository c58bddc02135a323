use byte_pair_encoding::{
    train_step, BytePairEncodingTokenizer, Token, TokenPairCounter, TokenizerError,
};

/// Round trip survives merges that split multi-byte characters: every byte of
/// a two-byte character becomes its own token, and training merges across
/// the character boundary.
#[test]
fn roundtrip_multibyte_text() {
    let s = "héhé et héhé".to_owned();
    let (tokenizer, trained) = BytePairEncodingTokenizer::from_corpus(&s, 1);
    assert_eq!(tokenizer.decode::<false>(&trained).unwrap(), s);
    let encoded = tokenizer.encode(&s);
    assert_eq!(tokenizer.decode::<false>(&encoded).unwrap(), s);
}

/// Round trip of fresh input under a store trained on other text.
#[test]
fn roundtrip_fresh_input() {
    let (tokenizer, _) = BytePairEncodingTokenizer::from_corpus("the cat sat on the mat", 1);
    let other = "that cat, on the other hand".to_owned();
    let encoded = tokenizer.encode(&other);
    assert_eq!(tokenizer.decode::<false>(&encoded).unwrap(), other);
}

/// A corpus whose best pair clears the floor compresses: fewer tokens out
/// than bytes in.
#[test]
fn training_compresses() {
    let s = "xyxyxy".to_owned();
    let (_, trained) = BytePairEncodingTokenizer::from_corpus(&s, 2);
    assert!(trained.len() < s.len());
}

/// Two pairs tie at the maximum count; the higher token ids win, and a
/// second run selects the same pair.
#[test]
fn tie_break_prefers_higher_ids() {
    let s = "aabb".to_owned();
    let (tokenizer, _) = BytePairEncodingTokenizer::from_corpus(&s, 0);
    assert_eq!(tokenizer.encoding_table[0], ((98, 98), 256));
    let (again, _) = BytePairEncodingTokenizer::from_corpus(&s, 0);
    assert_eq!(tokenizer.encoding_table, again.encoding_table);
    assert_eq!(tokenizer.decoding_table, again.decoding_table);
}

/// A corpus of one token or fewer performs zero merge rounds: the vocabulary
/// is exactly the 256-token seed.
#[test]
fn boundary_empty_corpus() {
    let (tokenizer, trained) = BytePairEncodingTokenizer::from_corpus("", 5);
    assert_eq!(tokenizer.vocab_size(), 256);
    assert_eq!(tokenizer.encoding_table.len(), 0);
    assert_eq!(trained.len(), 0);
}

#[test]
fn boundary_single_byte_corpus() {
    let (tokenizer, trained) = BytePairEncodingTokenizer::from_corpus("a", 0);
    assert_eq!(tokenizer.vocab_size(), 256);
    assert_eq!(tokenizer.encoding_table.len(), 0);
    assert_eq!(trained, vec![97]);
}

/// Serialization round-trips a trained store, not just a fresh one.
#[test]
fn serialization_roundtrip_trained() {
    let (tokenizer, _) = BytePairEncodingTokenizer::from_corpus("abab bcbc abc", 1);
    let bytes = tokenizer.to_bytes();
    let back = BytePairEncodingTokenizer::from_bytes(&bytes).unwrap();
    assert_eq!(tokenizer.decoding_table, back.decoding_table);
    assert_eq!(tokenizer.encoding_table, back.encoding_table);
}

/// The exact binary layout of the freshly seeded store: the entry count
/// 256, then each single-byte entry as a length of one and the byte, then a
/// rule count of zero.
#[test]
fn serialized_layout_exact() {
    let tokenizer = BytePairEncodingTokenizer::new();
    let bytes = tokenizer.to_bytes();
    assert_eq!(bytes.len(), 4 + 256 * 5 + 4);
    assert_eq!(&bytes[0..4], &[0, 1, 0, 0]);
    assert_eq!(&bytes[4..9], &[1, 0, 0, 0, 0]);
    assert_eq!(&bytes[9..14], &[1, 0, 0, 0, 1]);
    assert_eq!(&bytes[4 + 255 * 5..4 + 256 * 5], &[1, 0, 0, 0, 255]);
    assert_eq!(&bytes[4 + 256 * 5..], &[0, 0, 0, 0]);
}

/// A little-endian u32 is read back from its four bytes.
#[test]
fn take_u32_le_reads_little_endian() {
    let bytes = vec![0x78u8, 0x56, 0x34, 0x12, 0xff];
    assert_eq!(byte_pair_encoding::take_u32_le(&bytes, 0), 0x1234_5678);
    assert_eq!(byte_pair_encoding::take_u32_le(&bytes, 1), 0xff12_3456);
}

/// Looking up a token id beyond the vocabulary fails with `OutOfRange`.
#[test]
fn decode_token_out_of_range() {
    let tokenizer = BytePairEncodingTokenizer::new();
    assert_eq!(
        tokenizer.decode_token(256).unwrap_err(),
        TokenizerError::OutOfRange
    );
    assert_eq!(tokenizer.decode_token(255).unwrap(), &vec![255u8]);
}

/// A token stream that ends in the middle of a multi-byte character fails
/// with `MalformedSequence`.
#[test]
fn decode_malformed_stream() {
    let tokenizer = BytePairEncodingTokenizer::new();
    let dangling: Vec<Token> = vec![0xC3];
    assert_eq!(
        tokenizer.decode::<false>(&dangling).unwrap_err(),
        TokenizerError::MalformedSequence
    );
    let invalid: Vec<Token> = vec![0xFF, 0xFF];
    assert_eq!(
        tokenizer.decode::<true>(&invalid).unwrap_err(),
        TokenizerError::MalformedSequence
    );
}

/// Truncated or malformed persisted buffers fail with `Deserialization`.
#[test]
fn from_bytes_truncated() {
    assert!(matches!(
        BytePairEncodingTokenizer::from_bytes(&[1, 2, 3]),
        Err(TokenizerError::Deserialization { .. })
    ));
    let full = BytePairEncodingTokenizer::new().to_bytes();
    let cut = &full[0..full.len() - 1];
    assert!(matches!(
        BytePairEncodingTokenizer::from_bytes(cut),
        Err(TokenizerError::Deserialization { .. })
    ));
    // an entry length that overruns the buffer
    assert!(matches!(
        BytePairEncodingTokenizer::from_bytes(&[1, 0, 0, 0, 9, 0, 0, 0, 1, 2]),
        Err(TokenizerError::Deserialization { .. })
    ));
}

/// With markers on, single-token chunks alternate between the plain and the
/// highlighted marker, and the output closes with the plain marker.
#[test]
fn colored_markers_alternate() {
    let tokenizer = BytePairEncodingTokenizer::new();
    let v: Vec<Token> = vec![97, 98];
    assert_eq!(
        tokenizer.decode::<true>(&v).unwrap(),
        "\x1b[0ma\x1b[93mb\x1b[0m"
    );
}

/// A chunk stitched from more than one token carries the distinct marker,
/// and the markers never alter the decoded text.
#[test]
fn colored_marker_for_stitched_chunk() {
    let tokenizer = BytePairEncodingTokenizer::new();
    let v: Vec<Token> = vec![0xC3, 0xA9];
    assert_eq!(tokenizer.decode::<true>(&v).unwrap(), "\x1b[91mé\x1b[0m");
    assert_eq!(tokenizer.decode::<false>(&v).unwrap(), "é");
}

/// The incremental index stays exact over several rounds on a longer corpus.
#[test]
fn index_consistency_many_rounds() {
    let s = "the theme then thaws; the thing there";
    let mut v: Vec<Token> = s.bytes().map(|b| b.into()).collect();
    let mut tokenizer = BytePairEncodingTokenizer::new();
    let mut tpc = TokenPairCounter::new(&v);
    for _ in 0..6 {
        let (v2, _) = train_step(&v, &mut tokenizer, &mut tpc);
        v = v2;
        let fresh = TokenPairCounter::new(&v);
        let kept: std::collections::HashMap<(Token, Token), usize> =
            tpc.counts.iter().cloned().filter(|&(_, c)| c > 0).collect();
        let recount: std::collections::HashMap<(Token, Token), usize> =
            fresh.counts.iter().cloned().filter(|&(_, c)| c > 0).collect();
        assert_eq!(kept, recount);
    }
}
