use ngram::codec::CodecError;
use ngram::dictionary::{DictionaryError, TokenDictionary, MAX_TOKEN};

#[test]
fn test_write_and_read_td() {
    let vocab: Vec<(String, i32)> = vec![
        ("hello".to_string(), 42),
        ("world".to_string(), 84),
        ("rust".to_string(), 128),
        ("programming".to_string(), 256),
        ("language".to_string(), 512),
        ("test".to_string(), 1024),
        ("data".to_string(), 2048),
        ("example".to_string(), 4096),
        ("buffer".to_string(), 8192),
        ("cursor".to_string(), 16384),
    ];

    let mut buffer: Vec<u8> = Vec::new();
    let cutoff = 10;

    let vocab_ref = vocab.iter().map(|(s, n)| (s, n)).collect();
    let (counter, mass) = TokenDictionary::write_dictionary(&mut buffer, &vocab_ref, cutoff)
        .expect("Failed to write dictionary in test");
    assert_eq!(counter, vocab.len() as u16);
    assert_eq!(mass, vocab.iter().map(|(_, f)| *f).sum::<i32>());

    let td = TokenDictionary::read_dictionary(&buffer).expect("Failed to read dictionary test");

    let mut token = 1;
    for (word, _) in vocab.iter() {
        assert_eq!(td.get_by_str(word), token);
        assert_eq!(&td.get_by_token(token).expect("Token we expect do exist does not!"), word);
        token += 1;
    }
}

fn refs(v: &[(String, i32)]) -> Vec<(&String, &i32)> {
    v.iter().map(|(s, n)| (s, n)).collect()
}

#[test]
fn record_layout() {
    let vocab = vec![("ab".to_string(), -1)];
    let mut buffer: Vec<u8> = vec![9];
    let r = TokenDictionary::write_dictionary(&mut buffer, &refs(&vocab), -5);
    assert_eq!(r, Ok((1, -1)));
    assert_eq!(buffer, vec![9, 1, 0, 0xFF, 0xFF, 0xFF, 0xFF, 2, b'a', b'b']);
}

#[test]
fn cutoff_stops_at_first_rare_word() {
    let vocab = vec![
        ("the".to_string(), 500),
        ("of".to_string(), 400),
        ("rare".to_string(), 3),
        ("again".to_string(), 450),
    ];
    let mut buffer: Vec<u8> = Vec::new();
    let r = TokenDictionary::write_dictionary(&mut buffer, &refs(&vocab), 400);
    assert_eq!(r, Ok((2, 900)));
    let td = TokenDictionary::read_dictionary(&buffer).unwrap();
    assert_eq!(td.len(), 2);
    assert_eq!(td.get_by_str(&"the".to_string()), 1);
    assert_eq!(td.get_by_str(&"of".to_string()), 2);
    assert_eq!(td.get_by_str(&"rare".to_string()), 0);
    assert_eq!(td.get_by_str(&"again".to_string()), 0);
}

#[test]
fn tokens_stop_at_max_token() {
    let vocab: Vec<(String, i32)> = (0..16600).map(|i| (format!("w{i}"), 1)).collect();
    let mut buffer: Vec<u8> = Vec::new();
    let (count, mass) = TokenDictionary::write_dictionary(&mut buffer, &refs(&vocab), 1).unwrap();
    assert_eq!(count, MAX_TOKEN);
    assert_eq!(count, 16509);
    assert_eq!(mass, 16509);
    let td = TokenDictionary::read_dictionary(&buffer).unwrap();
    assert_eq!(td.get_by_str(&"w16508".to_string()), 16509);
    assert_eq!(td.get_by_str(&"w16509".to_string()), 0);
}

#[test]
fn long_word_is_refused_and_nothing_written() {
    let long = "x".repeat(256);
    let vocab = vec![("short".to_string(), 9), (long, 8)];
    let mut buffer: Vec<u8> = vec![1, 2];
    let r = TokenDictionary::write_dictionary(&mut buffer, &refs(&vocab), 0);
    assert_eq!(r, Err(DictionaryError::WordTooLong));
    assert_eq!(buffer, vec![1, 2]);
}

#[test]
fn long_word_below_cutoff_is_ignored() {
    let long = "x".repeat(300);
    let vocab = vec![("short".to_string(), 9), (long, 1)];
    let mut buffer: Vec<u8> = Vec::new();
    assert_eq!(TokenDictionary::write_dictionary(&mut buffer, &refs(&vocab), 5), Ok((1, 9)));
}

#[test]
fn non_ascii_words_round_trip() {
    let vocab = vec![("héllo".to_string(), 9), ("日本".to_string(), 8)];
    let mut buffer: Vec<u8> = Vec::new();
    TokenDictionary::write_dictionary(&mut buffer, &refs(&vocab), 0).unwrap();
    assert_eq!(buffer[6], 6);
    let td = TokenDictionary::read_dictionary(&buffer).unwrap();
    assert_eq!(td.get_by_str(&"héllo".to_string()), 1);
    assert_eq!(td.get_by_token(2), Some("日本".to_string()));
}

#[test]
fn insert_rules() {
    let mut td = TokenDictionary::empty();
    assert_eq!(td.insert("zero".to_string(), 0), Err(DictionaryError::ReservedToken));
    assert_eq!(td.insert("cat".to_string(), 5), Ok(()));
    assert_eq!(td.insert("cat".to_string(), 6), Err(DictionaryError::Duplicate));
    assert_eq!(td.insert("dog".to_string(), 5), Err(DictionaryError::Duplicate));
    assert_eq!(td.insert("dog".to_string(), 6), Ok(()));
    assert_eq!(td.len(), 2);
    assert_eq!(td.get_by_str(&"cat".to_string()), 5);
    assert_eq!(td.get_by_str(&"dog".to_string()), 6);
    assert_eq!(td.get_by_str(&"bird".to_string()), 0);
    assert_eq!(td.get_by_token(6), Some("dog".to_string()));
    assert_eq!(td.get_by_token(7), None);
    assert_eq!(td.get_by_token(0), None);
}

#[test]
fn read_empty_table() {
    let td = TokenDictionary::read_dictionary(&[]).unwrap();
    assert_eq!(td.len(), 0);
}

#[test]
fn read_truncated_record() {
    let mut buffer: Vec<u8> = Vec::new();
    let vocab = vec![("word".to_string(), 3)];
    TokenDictionary::write_dictionary(&mut buffer, &refs(&vocab), 0).unwrap();
    for cut in 1..buffer.len() {
        let r = TokenDictionary::read_dictionary(&buffer[..cut]);
        assert_eq!(r.err(), Some(DictionaryError::TruncatedRecord));
    }
}

#[test]
fn read_invalid_utf8() {
    let bytes: Vec<u8> = vec![1, 0, 0, 0, 0, 0, 2, 0xC3, 0x28];
    let r = TokenDictionary::read_dictionary(&bytes);
    assert_eq!(r.err(), Some(DictionaryError::InvalidUtf8));
}

#[test]
fn read_reserved_and_duplicate() {
    let zero: Vec<u8> = vec![0, 0, 0, 0, 0, 0, 1, b'a'];
    assert_eq!(TokenDictionary::read_dictionary(&zero).err(), Some(DictionaryError::ReservedToken));
    let twice: Vec<u8> = vec![1, 0, 0, 0, 0, 0, 1, b'a', 2, 0, 0, 0, 0, 0, 1, b'a'];
    assert_eq!(TokenDictionary::read_dictionary(&twice).err(), Some(DictionaryError::Duplicate));
    let same_token: Vec<u8> = vec![1, 1, 0, 0, 0, 0, 1, b'a', 1, 1, 0, 0, 0, 0, 1, b'b'];
    assert_eq!(TokenDictionary::read_dictionary(&same_token).err(), Some(DictionaryError::Duplicate));
    let td = TokenDictionary::read_dictionary(&same_token[..8]).unwrap();
    assert_eq!(td.get_by_str(&"a".to_string()), 257);
}

#[test]
fn encode_words_codes_each_token() {
    let mut td = TokenDictionary::empty();
    td.insert("a".to_string(), 1).unwrap();
    td.insert("b".to_string(), 200).unwrap();
    td.insert("big".to_string(), 16510).unwrap();
    let words = vec!["a".to_string(), "zzz".to_string(), "b".to_string()];
    let mut out: Vec<u8> = vec![9];
    assert_eq!(td.encode_words(&words, &mut out), Ok(()));
    assert_eq!(out, vec![9, 1, 0, 0x80 | 72, 0x81]);

    let words = vec!["a".to_string(), "big".to_string(), "b".to_string()];
    let mut out: Vec<u8> = Vec::new();
    assert_eq!(td.encode_words(&words, &mut out), Err(CodecError::TokenOutOfRange));
    assert_eq!(out, vec![1]);
}
