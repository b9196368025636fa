use base64_codec::{decode, encode, DecodeError};

#[test]
fn encode_works() {
    assert_eq!(encode(&[]), "");
    assert_eq!(encode(&[1]), "AQ==");
    assert_eq!(encode(&[1, 2]), "AQI=");
    assert_eq!(encode(&[1, 2, 3]), "AQID");

    let bytes = [
        99, 114, 121, 112, 116, 111, 123, 65, 83, 67, 73, 73, 95, 112, 114, 49, 110, 116, 52,
        98, 108, 51, 125,
    ];
    assert_eq!(encode(&bytes), "Y3J5cHRve0FTQ0lJX3ByMW50NGJsM30=");
}

#[test]
fn decode_works() {
    assert_eq!(decode("").unwrap(), []);
    assert_eq!(decode("AQ==").unwrap(), [1]);
    assert_eq!(decode("AQI=").unwrap(), [1, 2]);
    assert_eq!(decode("AQID").unwrap(), [1, 2, 3]);

    let bytes = [
        99, 114, 121, 112, 116, 111, 123, 65, 83, 67, 73, 73, 95, 112, 114, 49, 110, 116, 52,
        98, 108, 51, 125,
    ];
    assert_eq!(
        decode("Y3J5cHRve0FTQ0lJX3ByMW50NGJsM30=").unwrap(),
        bytes
    );
}

#[test]
fn round_trip_every_length_up_to_ten() {
    for n in 0..=10usize {
        let bytes: Vec<u8> = (0..n).map(|i| (i * 37 + 200) as u8).collect();
        let text = encode(&bytes);
        assert_eq!(decode(&text).unwrap(), bytes);
    }
}

#[test]
fn round_trip_all_byte_values() {
    let bytes: Vec<u8> = (0..=255u8).collect();
    let text = encode(&bytes);
    assert_eq!(decode(&text).unwrap(), bytes);
}

#[test]
fn encoded_length_is_four_per_three_rounded_up() {
    for n in 0..=12usize {
        let bytes = vec![0xabu8; n];
        let text = encode(&bytes);
        assert_eq!(text.len(), 4 * ((n + 2) / 3));
        assert_eq!(text.len() % 4, 0);
    }
}

#[test]
fn padding_follows_length_mod_three() {
    assert!(encode(&[7]).ends_with("=="));
    assert!(encode(&[7, 8, 9, 10]).ends_with("=="));
    let two = encode(&[7, 8]);
    assert!(two.ends_with('=') && !two.ends_with("=="));
    let five = encode(&[7, 8, 9, 10, 11]);
    assert!(five.ends_with('=') && !five.ends_with("=="));
    assert!(!encode(&[7, 8, 9]).contains('='));
    assert!(!encode(&[7, 8, 9, 10, 11, 12]).contains('='));
}

#[test]
fn empty_input_both_ways() {
    assert_eq!(encode(&[]), "");
    assert_eq!(decode(""), Ok(vec![]));
}

#[test]
fn rejects_malformed_length() {
    assert_eq!(decode("A"), Err(DecodeError::InvalidLength));
    assert_eq!(decode("ABCDE"), Err(DecodeError::InvalidLength));
    assert_eq!(decode("AQI"), Err(DecodeError::InvalidLength));
}

#[test]
fn rejects_non_ascii() {
    // two ASCII characters and one of two bytes: four bytes in all
    assert_eq!(decode("AA\u{e9}"), Err(DecodeError::NotAscii));
    assert_eq!(decode("AQID\u{20ac}A"), Err(DecodeError::NotAscii));
}

#[test]
fn length_is_checked_before_ascii() {
    assert_eq!(decode("AAA\u{e9}"), Err(DecodeError::InvalidLength));
}

#[test]
fn rejects_invalid_alphabet() {
    assert_eq!(decode("AB#="), Err(DecodeError::InvalidAlphabet));
    assert_eq!(decode("A-CD"), Err(DecodeError::InvalidAlphabet));
    assert_eq!(decode("AQIDAB_D"), Err(DecodeError::InvalidAlphabet));
    assert_eq!(decode("AB= "), Err(DecodeError::InvalidAlphabet));
}

#[test]
fn rejects_padding_in_first_two_positions() {
    assert_eq!(decode("=AAA"), Err(DecodeError::InvalidAlphabet));
    assert_eq!(decode("A==="), Err(DecodeError::InvalidAlphabet));
}

#[test]
fn padding_ends_the_decoding() {
    assert_eq!(decode("AQ==AQID"), Ok(vec![1]));
    assert_eq!(decode("AQI=####"), Ok(vec![1, 2]));
    assert_eq!(decode("AQ=D"), Ok(vec![1]));
}

#[test]
fn known_vectors_decode() {
    assert_eq!(decode("AQID"), Ok(vec![1, 2, 3]));
    assert_eq!(decode("+/+/"), Ok(vec![0xfb, 0xff, 0xbf]));
    assert_eq!(encode(&[0xfb, 0xff, 0xbf]), "+/+/");
    assert_eq!(encode(b"Man"), "TWFu");
    assert_eq!(decode("TWFu"), Ok(b"Man".to_vec()));
    assert_eq!(encode(&[0, 0, 0]), "AAAA");
    assert_eq!(encode(&[0xff, 0xff, 0xff]), "////");
}

#[test]
fn crypto_vector_round_trips() {
    let text = "crypto{ASCII_pr1nt4bl3}";
    assert_eq!(text.len(), 23);
    let encoded = encode(text.as_bytes());
    assert_eq!(encoded, "Y3J5cHRve0FTQ0lJX3ByMW50NGJsM30=");
    assert_eq!(decode(&encoded).unwrap(), text.as_bytes());
}
