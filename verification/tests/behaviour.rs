use based64::raw::decode as raw_decode;
use based64::raw::encode as raw_encode;
use based64::{assert_valid_character_table, decode, decode_len, encode, encode_len};
use based64::{PAD, STANDARD_TABLE, URL_TABLE};

#[test]
fn encode_len_matches_formula() {
    assert_eq!(encode_len(0), 0);
    assert_eq!(encode_len(1), 4);
    assert_eq!(encode_len(2), 4);
    assert_eq!(encode_len(3), 4);
    assert_eq!(encode_len(4), 8);
    assert_eq!(encode_len(5), 8);
    assert_eq!(encode_len(6), 8);
    assert_eq!(encode_len(128), 172);
}

#[test]
fn encode_len_wraps_below_input_on_overflow() {
    assert!(encode_len(usize::MAX) < usize::MAX);
    assert!(encode_len(usize::MAX / 2) < usize::MAX / 2);
}

#[test]
fn decode_len_counts_trailing_padding() {
    assert_eq!(decode_len(b""), 0);
    assert_eq!(decode_len(b"Zm9v"), 3);
    assert_eq!(decode_len(b"Zm8="), 2);
    assert_eq!(decode_len(b"Zg=="), 1);
    assert_eq!(decode_len(b"Zm9vYmFy"), 6);
    // all three trailing positions padded: one group promises no byte at all
    assert_eq!(decode_len(b"Z==="), 0);
}

#[test]
fn decode_len_rejects_bad_shape() {
    assert_eq!(decode_len(b"Zg="), 0);
    assert_eq!(decode_len(b"Z"), 0);
    assert_eq!(decode_len(b"Zm9vY"), 0);
}

#[test]
fn decode_rejects_bad_shape() {
    let mut out = [0u8; 16];
    assert_eq!(decode(&STANDARD_TABLE, b"Zg=", &mut out), None);
    assert_eq!(decode(&STANDARD_TABLE, b"Z", &mut out), None);
    assert_eq!(decode(&STANDARD_TABLE, b"Zm9vY", &mut out), None);
    assert_eq!(decode(&STANDARD_TABLE, b"Z===", &mut out), None);
}

#[test]
fn decode_rejects_symbol_outside_table() {
    let mut out = [0u8; 16];
    assert_eq!(decode(&STANDARD_TABLE, b"Zm9!", &mut out), None);
    assert_eq!(decode(&STANDARD_TABLE, b"!m9v", &mut out), None);
    assert_eq!(decode(&STANDARD_TABLE, b"Zm9vYmF\n", &mut out), None);
    // the URL-safe symbols are not standard symbols
    assert_eq!(decode(&STANDARD_TABLE, b"Zm9_", &mut out), None);
}

#[test]
fn decode_fails_on_undersized_buffer() {
    let mut out = [0u8; 2];
    assert_eq!(decode(&STANDARD_TABLE, b"Zm9v", &mut out), None);
    let mut len = out.len();
    assert!(!raw_decode(&STANDARD_TABLE, b"Zm9v", &mut out, &mut len));
    assert_eq!(len, 3);
}

#[test]
fn decode_stops_at_inner_padding() {
    // a padding character ends the decode where it stands; the groups behind
    // it are ignored and the reported size is what was actually written
    let mut out = [0u8; 16];
    assert_eq!(decode_len(b"Zg==Zm9v"), 6);
    assert_eq!(decode(&STANDARD_TABLE, b"Zg==Zm9v", &mut out), Some(1));
    assert_eq!(out[0], b'f');
}

#[test]
fn raw_encode_reports_required_size_on_failure() {
    let src = [7u8; 90];
    let mut out = [0u8; 16];
    let mut len = out.len();
    assert!(!raw_encode(&STANDARD_TABLE, &src, &mut out, &mut len));
    assert_eq!(len, encode_len(src.len()));
    assert_eq!(len, 120);
}

#[test]
fn encode_fails_whenever_buffer_is_short() {
    let src = b"foobar";
    for size in 0..encode_len(src.len()) {
        let mut out = vec![0u8; size];
        assert_eq!(encode(&STANDARD_TABLE, src, &mut out), None);
    }
}

#[test]
fn round_trip_random_sizes() {
    let mut data = [0u8; 97];
    getrandom::getrandom(&mut data).expect("random bytes should be available");
    for take in 0..data.len() {
        let src = &data[..take];
        let mut encoded = vec![0u8; encode_len(src.len())];
        let written = encode(&STANDARD_TABLE, src, &mut encoded).expect("sized via encode_len");
        assert_eq!(written, encoded.len());
        assert_eq!(decode_len(&encoded), src.len());
        let mut decoded = vec![0u8; decode_len(&encoded)];
        let back = decode(&STANDARD_TABLE, &encoded, &mut decoded).expect("sized via decode_len");
        assert_eq!(back, src.len());
        assert_eq!(&decoded[..], src);
    }
}

#[test]
fn url_table_round_trip() {
    let src = b"\xfb\xff\xfe url?";
    let mut encoded = vec![0u8; encode_len(src.len())];
    encode(&URL_TABLE, src, &mut encoded).expect("sized via encode_len");
    assert!(!encoded.contains(&b'+') && !encoded.contains(&b'/'));
    let mut decoded = vec![0u8; decode_len(&encoded)];
    decode(&URL_TABLE, &encoded, &mut decoded).expect("sized via decode_len");
    assert_eq!(&decoded[..], src);
}

#[test]
fn empty_input_encodes_and_decodes_to_empty() {
    let mut out = [0u8; 4];
    assert_eq!(encode(&STANDARD_TABLE, b"", &mut out), Some(0));
    assert_eq!(decode(&STANDARD_TABLE, b"", &mut out), Some(0));
    let mut none = [0u8; 0];
    assert_eq!(encode(&STANDARD_TABLE, b"", &mut none), Some(0));
    assert_eq!(decode(&STANDARD_TABLE, b"", &mut none), Some(0));
}

#[test]
fn character_table_validation() {
    assert!(assert_valid_character_table(&STANDARD_TABLE));
    assert!(assert_valid_character_table(&URL_TABLE));
    let mut bad = STANDARD_TABLE;
    bad[17] = 200;
    assert!(!assert_valid_character_table(&bad));
}

#[test]
fn padding_symbol_is_equals_sign() {
    assert_eq!(PAD, b'=');
    assert!(!STANDARD_TABLE.contains(&PAD));
    assert!(!URL_TABLE.contains(&PAD));
}

#[test]
fn encode_leaves_bytes_past_output_untouched() {
    let mut out = [0xabu8; 12];
    assert_eq!(encode(&STANDARD_TABLE, b"fo", &mut out), Some(4));
    assert_eq!(&out[..4], b"Zm8=");
    assert!(out[4..].iter().all(|&b| b == 0xab));
}

#[test]
fn decode_leaves_bytes_past_output_untouched() {
    let mut out = [0xabu8; 12];
    assert_eq!(decode(&STANDARD_TABLE, b"Zm8=", &mut out), Some(2));
    assert_eq!(&out[..2], b"fo");
    assert!(out[2..].iter().all(|&b| b == 0xab));
}

#[test]
fn raw_decode_of_empty_input_reports_zero() {
    let mut out = [0u8; 4];
    let mut len = out.len();
    assert!(raw_decode(&STANDARD_TABLE, b"", &mut out, &mut len));
    assert_eq!(len, 0);
}
