use mike_db::codec::decode_line;
use mike_db::codec::encode_fields;
use mike_db::codec::decode_hex;
use mike_db::codec::encode_hex;
use mike_db::strutil::join_line;
use mike_db::strutil::parse_u128;
use mike_db::strutil::split_line;
use mike_db::strutil::u128_to_string;

#[test]
fn hex_encodes_lowercase_pairs() {
    let bytes: Vec<u8> = vec![0x41, 0x64, 0x61];
    assert_eq!(encode_hex(&bytes), "416461");
    let empty: Vec<u8> = vec![];
    assert_eq!(encode_hex(&empty), "");
    assert_eq!(encode_hex(&vec![0x00, 0xff]), "00ff");
}

#[test]
fn hex_decode_accepts_both_cases() {
    assert_eq!(decode_hex("416461"), Some(vec![0x41, 0x64, 0x61]));
    assert_eq!(decode_hex("41AF"), Some(vec![0x41, 0xaf]));
    assert_eq!(decode_hex(""), Some(vec![]));
}

#[test]
fn hex_decode_rejects_odd_length_and_bad_digits() {
    assert_eq!(decode_hex("416"), None);
    assert_eq!(decode_hex("4z"), None);
    assert_eq!(decode_hex("zz"), None);
}

#[test]
fn decode_then_encode_restores_well_formed_line() {
    let line = "416461,3337";
    let fields = decode_line(line).expect("well-formed line must decode");
    assert_eq!(fields, vec![b"Ada".to_vec(), b"37".to_vec()]);
    assert_eq!(encode_fields(&fields), line);
}

#[test]
fn encode_then_decode_restores_fields() {
    let fields: Vec<Vec<u8>> = vec![b"Ada".to_vec(), b"37".to_vec(), vec![0x00, 0xff]];
    let line = encode_fields(&fields);
    assert_eq!(decode_line(&line), Some(fields));
}

#[test]
fn decode_line_rejects_non_hex_token() {
    assert_eq!(decode_line("416461,zz"), None);
    assert_eq!(decode_line("416461,333"), None);
}

#[test]
fn row_tokens_are_trimmed_before_decoding() {
    assert_eq!(
        decode_line(" 416461 ,\t3337"),
        Some(vec![b"Ada".to_vec(), b"37".to_vec()])
    );
    assert_eq!(decode_line("  "), Some(vec![vec![]]));
}

#[test]
fn split_and_join_are_inverse_on_lines() {
    let parts = split_line("a,b,,c");
    assert_eq!(parts, vec!["a", "b", "", "c"]);
    assert_eq!(join_line(&parts), "a,b,,c");
    assert_eq!(split_line(""), vec![""]);
}

#[test]
fn decimal_rendering_and_parsing_agree() {
    assert_eq!(u128_to_string(0), "0");
    assert_eq!(u128_to_string(9120), "9120");
    assert_eq!(parse_u128("9120"), Some(9120));
    assert_eq!(parse_u128(""), None);
    assert_eq!(parse_u128("12a"), None);
    assert_eq!(parse_u128("340282366920938463463374607431768211455"), Some(u128::MAX));
    assert_eq!(parse_u128("340282366920938463463374607431768211456"), None);
}
