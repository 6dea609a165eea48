use bpe_tokenizer::encoder::{base_special_tokens, DecodeError, Encoder};
use bpe_tokenizer::loader::{parse_vocab_line, LineParse, LoadError};
use bpe_tokenizer::scanner::SpecialTable;
use bpe_tokenizer::vocab::{Vocabulary, VocabError};

/// The single-byte entries of the base vocabulary: printable and accented
/// bytes first, the remaining bytes after them, each rank its token id.
fn base_single_bytes() -> Vec<(Vec<u8>, u32)> {
    let mut v: Vec<(Vec<u8>, u32)> = Vec::new();
    let mut rank: u32 = 0;
    for b in 0x21u16..=0x7e {
        v.push((vec![b as u8], rank));
        rank += 1;
    }
    for b in 0xa1u16..=0xac {
        v.push((vec![b as u8], rank));
        rank += 1;
    }
    for b in 0xaeu16..=0xff {
        v.push((vec![b as u8], rank));
        rank += 1;
    }
    for b in 0x00u16..=0x20 {
        v.push((vec![b as u8], rank));
        rank += 1;
    }
    for b in 0x7fu16..=0xa0 {
        v.push((vec![b as u8], rank));
        rank += 1;
    }
    v.push((vec![0xadu8], rank));
    v
}

/// The slice of the base vocabulary that the scenarios below touch.
fn base_vocab_entries() -> Vec<(Vec<u8>, u32)> {
    let mut v = base_single_bytes();
    v.push((b"rer".to_vec(), 38149));
    v.push((b"'re".to_vec(), 2351));
    v.push((b"today".to_vec(), 31213));
    v.push((b"\n \n".to_vec(), 27907));
    v.push((b"\n  \n".to_vec(), 14211));
    v.push((b"hello".to_vec(), 15339));
    v.push((b" world".to_vec(), 1917));
    v.push((vec![0xf0u8, 0x9f], 9468));
    v.push((b" hello".to_vec(), 24748));
    v.push((b" there".to_vec(), 1070));
    v
}

fn base_encoder() -> Encoder {
    let vocab = Vocabulary::new(base_vocab_entries()).unwrap();
    let specials = SpecialTable::new(base_special_tokens()).unwrap();
    Encoder::new(vocab, specials).unwrap()
}

#[test]
fn test_basic_encode() {
    let bpe = base_encoder();
    assert_eq!(bpe.encode("0"), vec![15]);
    assert_eq!(bpe.encode("rer"), vec![38149]);
}

#[test]
fn test_basic_encode_no_special_tokens() {
    let bpe = base_encoder();
    assert_eq!(bpe.encode_no_special_tokens("0"), vec![15]);
    assert_eq!(bpe.encode_no_special_tokens("rer"), vec![38149]);
    assert_eq!(bpe.encode_no_special_tokens("'rer"), vec![2351, 81]);
    assert_eq!(bpe.encode_no_special_tokens("today\n "), vec![31213, 198, 220]);
    assert_eq!(bpe.encode_no_special_tokens("today\n \n"), vec![31213, 27907]);
    assert_eq!(bpe.encode_no_special_tokens("today\n  \n"), vec![31213, 14211]);
    assert_eq!(bpe.encode_no_special_tokens("hello world"), vec![15339, 1917]);
    assert_eq!(bpe.encode_no_special_tokens("\u{1f44d}"), [9468, 239, 235]);
}

#[test]
fn test_basic_encode_with_special_tokens() {
    let bpe = base_encoder();
    assert_eq!(bpe.encode("0"), vec![15]);
    assert_eq!(bpe.encode("rer"), vec![38149]);
    assert_eq!(bpe.encode("'rer"), vec![2351, 81]);
    assert_eq!(bpe.encode("today\n "), vec![31213, 198, 220]);
    assert_eq!(bpe.encode("today\n \n"), vec![31213, 27907]);
    assert_eq!(bpe.encode("today\n  \n"), vec![31213, 14211]);
    assert_eq!(bpe.encode("hello world"), vec![15339, 1917]);
    assert_eq!(bpe.encode("\u{1f44d}"), [9468, 239, 235]);

    // special tokens
    assert_eq!(bpe.encode("<|endoftext|>"), vec![100257]);
    assert_eq!(bpe.encode("<|fim_prefix|>"), vec![100258]);
    assert_eq!(bpe.encode("<|fim_middle|>"), vec![100259]);
    assert_eq!(bpe.encode("<|fim_suffix|>"), vec![100260]);
    assert_eq!(bpe.encode("<|endofprompt|>"), vec![100276]);
    assert_eq!(
        bpe.encode("<|endoftext|> hello <|fim_prefix|>"),
        vec![100257, 24748, 220, 100258]
    );
    assert_eq!(
        bpe.encode("<|endoftext|> hello <|fim_prefix|> there <|fim_middle|>"),
        vec![100257, 24748, 220, 100258, 1070, 220, 100259]
    );
}

#[test]
fn test_vocabulary_complete_over_bytes() {
    let vocab = Vocabulary::new(base_vocab_entries()).unwrap();
    for b in 0u16..=255 {
        let key = [b as u8];
        assert!(vocab.lookup(&key).is_some());
    }
}

#[test]
fn test_vocabulary_rejects_missing_byte() {
    let mut entries = base_vocab_entries();
    entries.retain(|e| e.0 != vec![0x41u8]);
    assert!(matches!(Vocabulary::new(entries), Err(VocabError::Incomplete)));
}

#[test]
fn test_vocabulary_rejects_empty_token() {
    let mut entries = base_vocab_entries();
    entries.push((Vec::new(), 90000));
    assert!(matches!(Vocabulary::new(entries), Err(VocabError::EmptyToken)));
}

#[test]
fn test_vocabulary_rejects_sentinel_rank() {
    let mut entries = base_vocab_entries();
    entries.push((b"zz".to_vec(), u32::MAX));
    assert!(matches!(Vocabulary::new(entries), Err(VocabError::ReservedRank)));
}

#[test]
fn test_vocabulary_rejects_duplicate_rank() {
    let mut entries = base_vocab_entries();
    entries.push((b"zz".to_vec(), 15));
    assert!(matches!(Vocabulary::new(entries), Err(VocabError::DuplicateRank)));
}

#[test]
fn test_encoder_rejects_reserved_rank_in_vocab() {
    let mut entries = base_vocab_entries();
    entries.push((b"zz".to_vec(), 100257));
    let vocab = Vocabulary::new(entries).unwrap();
    let specials = SpecialTable::new(base_special_tokens()).unwrap();
    assert!(matches!(
        Encoder::new(vocab, specials),
        Err(VocabError::DuplicateRank)
    ));
}

#[test]
fn test_encode_is_repeatable() {
    let bpe = base_encoder();
    let text = "today\n  \nhello world <|endoftext|> 'rer";
    let first = bpe.encode(text);
    let second = bpe.encode(text);
    assert_eq!(first, second);
}

#[test]
fn test_tie_break_leftmost_pair_merges_first() {
    // Two disjoint adjacent pairs share the minimal rank: in "aaa" both
    // pairs are "aa", so the leftmost merges and the lone "a" trails.
    let mut entries = base_single_bytes();
    entries.push((b"aa".to_vec(), 60000));
    let vocab = Vocabulary::new(entries).unwrap();
    let specials = SpecialTable::new(base_special_tokens()).unwrap();
    let bpe = Encoder::new(vocab, specials).unwrap();
    let a_rank = (b'a' - 0x21) as u32;
    assert_eq!(bpe.encode("aaa"), vec![60000, a_rank]);
    assert_eq!(bpe.encode("aaa"), vec![60000, a_rank]);
}

#[test]
fn test_round_trip_plain_text() {
    let bpe = base_encoder();
    let text = "today\n \nhello world 'rer \u{1f44d}";
    let ranks = bpe.encode(text);
    assert_eq!(bpe.decode(&ranks).unwrap(), text);
}

#[test]
fn test_round_trip_with_special_tokens() {
    let bpe = base_encoder();
    let text = "<|endoftext|> hello <|fim_prefix|> there <|fim_middle|>";
    let ranks = bpe.encode(text);
    assert_eq!(bpe.decode(&ranks).unwrap(), text);
}

#[test]
fn test_round_trip_empty_text() {
    let bpe = base_encoder();
    let ranks = bpe.encode("");
    assert_eq!(ranks, Vec::<u32>::new());
    assert_eq!(bpe.decode(&ranks).unwrap(), "");
}

#[test]
fn test_decode_unknown_rank() {
    let bpe = base_encoder();
    assert_eq!(bpe.decode(&[15, 4_000_000]), Err(DecodeError::InvalidToken));
}

#[test]
fn test_decode_invalid_text() {
    let bpe = base_encoder();
    // the lone continuation byte 0xbf is a vocabulary entry but no text
    let rank_bf = 106 + (0xbf - 0xae) as u32;
    assert_eq!(bpe.decode(&[rank_bf]), Err(DecodeError::InvalidText));
}

#[test]
fn test_special_table_rejects_empty_literal() {
    let tokens = vec![(String::new(), 100257)];
    assert!(matches!(
        SpecialTable::new(tokens),
        Err(VocabError::EmptyToken)
    ));
}

#[test]
fn test_special_table_rejects_duplicate_rank() {
    let tokens = vec![
        ("<|a|>".to_string(), 100257),
        ("<|b|>".to_string(), 100257),
    ];
    assert!(matches!(
        SpecialTable::new(tokens),
        Err(VocabError::DuplicateRank)
    ));
}

#[test]
fn test_parse_vocab_line_entry() {
    match parse_vocab_line("MA== 15") {
        Ok(LineParse::Entry(tok, id)) => {
            assert_eq!(tok, b"0".to_vec());
            assert_eq!(id, 15);
        }
        _ => panic!("expected an entry"),
    }
    match parse_vocab_line("cmVy 38149") {
        Ok(LineParse::Entry(tok, id)) => {
            assert_eq!(tok, b"rer".to_vec());
            assert_eq!(id, 38149);
        }
        _ => panic!("expected an entry"),
    }
}

#[test]
fn test_parse_vocab_line_skips_wrong_field_count() {
    assert!(matches!(parse_vocab_line("MA=="), Ok(LineParse::Skip)));
    assert!(matches!(parse_vocab_line(""), Ok(LineParse::Skip)));
    assert!(matches!(parse_vocab_line("a b c"), Ok(LineParse::Skip)));
}

#[test]
fn test_parse_vocab_line_errors() {
    assert_eq!(parse_vocab_line("#### 15"), Err(LoadError::BadBase64));
    assert_eq!(parse_vocab_line("MA== x15"), Err(LoadError::BadRank));
    assert_eq!(parse_vocab_line("MA== 99999999999"), Err(LoadError::BadRank));
}

#[test]
fn test_naive_and_incremental_merge_agree() {
    let mut entries = base_single_bytes();
    entries.push((b"aa".to_vec(), 60000));
    let vocab = Vocabulary::new(entries).unwrap();
    let a_rank = (b'a' - 0x21) as u32;
    assert_eq!(vocab.byte_pair_encode(b"aaa"), vec![60000, a_rank]);
    assert_eq!(vocab.byte_pair_encode_naive(b"aaa"), vec![60000, a_rank]);

    let base = Vocabulary::new(base_vocab_entries()).unwrap();
    let thumbs = "\u{1f44d}".as_bytes();
    assert_eq!(base.byte_pair_encode(thumbs), vec![9468, 239, 235]);
    assert_eq!(base.byte_pair_encode_naive(thumbs), vec![9468, 239, 235]);
}

#[test]
fn test_digit_pieces_run_in_threes() {
    let bpe = base_encoder();
    // pieces "123" and "4"; no multi-digit entries, so single-byte ranks
    let d = |c: u8| (c - 0x21) as u32;
    assert_eq!(
        bpe.encode("1234"),
        vec![d(b'1'), d(b'2'), d(b'3'), d(b'4')]
    );
}

#[test]
fn test_contraction_matches_either_case() {
    let bpe = base_encoder();
    let d = |c: u8| (c - 0x21) as u32;
    // "'LL" is one contraction piece; no pair entries, so single-byte ranks
    assert_eq!(bpe.encode("'LL"), vec![d(b'\''), d(b'L'), d(b'L')]);
    // "'re" is a vocabulary entry and a contraction piece
    assert_eq!(bpe.encode("'rer"), vec![2351, d(b'r')]);
}
