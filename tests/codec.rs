use ngram::codec::{coded_size, decode_token, encode_token, encoded_stream, CodecError};

#[test]
fn test_encode_decode_tokens() {
    let tokens: Vec<u16> = vec![10, 127, 200, 500, 1000, 16000];
    let mut buffer: Vec<u8> = Vec::new();

    for &token in &tokens {
        encoded_stream(&mut buffer, token).expect("Encoding failed");
    }

    let mut pos: usize = 0;
    let mut decoded_tokens = Vec::new();

    for _ in &tokens {
        let decoded_token = decode_token(&buffer, &mut pos).expect("Decoding failed");
        decoded_tokens.push(decoded_token);
    }

    assert_eq!(tokens, decoded_tokens, "Decoded tokens do not match the original set!");
}

#[test]
fn round_trip_every_token_below_16384() {
    for t in 0u16..16384 {
        let mut buffer: Vec<u8> = Vec::new();
        encoded_stream(&mut buffer, t).unwrap();
        let mut pos: usize = 0;
        assert_eq!(decode_token(&buffer, &mut pos), Ok(t));
        assert_eq!(pos, buffer.len());
    }
}

#[test]
fn code_size_is_one_byte_below_128() {
    for t in 0u16..16510 {
        let mut buffer: Vec<u8> = Vec::new();
        encoded_stream(&mut buffer, t).unwrap();
        let expected: usize = if t < 128 { 1 } else { 2 };
        assert_eq!(buffer.len(), expected);
        assert_eq!(coded_size(buffer[0]) as usize, expected);
    }
}

#[test]
fn exact_codes() {
    assert_eq!(encode_token(0), Ok([0, 0]));
    assert_eq!(encode_token(127), Ok([127, 0]));
    assert_eq!(encode_token(128), Ok([0x80, 0x81]));
    assert_eq!(encode_token(200), Ok([0x80 | 72, 0x81]));
    assert_eq!(encode_token(16383), Ok([0xFF, 0xFF]));
    assert_eq!(encode_token(16509), Ok([0x80 | 125, 0x80]));
}

#[test]
fn code_above_16383_drops_bit_14() {
    let mut buffer: Vec<u8> = Vec::new();
    encoded_stream(&mut buffer, 16400).unwrap();
    let mut pos: usize = 0;
    assert_eq!(decode_token(&buffer, &mut pos), Ok(16));
}

#[test]
fn out_of_range_writes_nothing() {
    let mut buffer: Vec<u8> = vec![7];
    assert_eq!(encoded_stream(&mut buffer, 16510), Err(CodecError::TokenOutOfRange));
    assert_eq!(encoded_stream(&mut buffer, 65535), Err(CodecError::TokenOutOfRange));
    assert_eq!(buffer, vec![7]);
    assert_eq!(encode_token(16510), Err(CodecError::TokenOutOfRange));
}

#[test]
fn coded_size_by_high_bit() {
    assert_eq!(coded_size(0), 1);
    assert_eq!(coded_size(127), 1);
    assert_eq!(coded_size(128), 2);
    assert_eq!(coded_size(255), 2);
}

#[test]
fn decode_end_and_truncation() {
    let empty: Vec<u8> = Vec::new();
    let mut pos: usize = 0;
    assert_eq!(decode_token(&empty, &mut pos), Err(CodecError::EndOfStream));
    assert_eq!(pos, 0);

    let cut: Vec<u8> = vec![5, 0x85];
    let mut pos: usize = 0;
    assert_eq!(decode_token(&cut, &mut pos), Ok(5));
    assert_eq!(pos, 1);
    assert_eq!(decode_token(&cut, &mut pos), Err(CodecError::Truncated));
    assert_eq!(pos, 1);
}
