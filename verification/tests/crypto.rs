use base64::engine::general_purpose::URL_SAFE_NO_PAD;
use base64::Engine;
use cipher::block_padding::NoPadding;
use cipher::{BlockEncryptMut, KeyIvInit};
use mega_dl::crypto::{
    attrs_json, decrypt_attrs, decrypt_name, decrypt_node_key, decrypted_block, extract_key_b64,
    file_name_or_id, fold_key, name_or, AttrsError, NodeKeyError,
};

fn ramp() -> [u8; 32] {
    let mut raw = [0u8; 32];
    for i in 0..32 {
        raw[i] = (i * 7 + 3) as u8;
    }
    raw
}

fn encrypted_attrs(text: &[u8], key: &[u8; 16]) -> String {
    let mut buf = text.to_vec();
    while buf.len() % 16 != 0 {
        buf.push(0);
    }
    let len = buf.len();
    cbc::Encryptor::<aes::Aes128>::new(key.into(), &[0u8; 16].into())
        .encrypt_padded_mut::<NoPadding>(&mut buf, len)
        .unwrap();
    URL_SAFE_NO_PAD.encode(&buf)
}

fn fips_key() -> [u8; 16] {
    let mut key = [0u8; 16];
    for i in 0..16 {
        key[i] = i as u8;
    }
    key
}

const FIPS_CIPHER: [u8; 16] = [
    0x69, 0xc4, 0xe0, 0xd8, 0x6a, 0x7b, 0x04, 0x30, 0xd8, 0xcd, 0xb7, 0x80, 0x70, 0xb4, 0xc5, 0x5a,
];

const FIPS_PLAIN: [u8; 16] = [
    0x00, 0x11, 0x22, 0x33, 0x44, 0x55, 0x66, 0x77, 0x88, 0x99, 0xaa, 0xbb, 0xcc, 0xdd, 0xee, 0xff,
];

#[test]
fn folding_combines_the_halves() {
    let raw = ramp();
    let (key, iv) = fold_key(&raw);
    for i in 0..16 {
        assert_eq!(key[i], raw[i] ^ raw[i + 16]);
    }
    assert_eq!(&iv[..8], &raw[16..24]);
    assert_eq!(&iv[8..], &[0u8; 8]);
}

#[test]
fn folding_of_equal_halves_is_zero() {
    let (key, iv) = fold_key(&[0xabu8; 32]);
    assert_eq!(key, [0u8; 16]);
    assert_eq!(iv, [0xab, 0xab, 0xab, 0xab, 0xab, 0xab, 0xab, 0xab, 0, 0, 0, 0, 0, 0, 0, 0]);
}

#[test]
fn a_block_decrypts_to_the_published_value() {
    let mut data = vec![0xffu8; 5];
    data.extend_from_slice(&FIPS_CIPHER);
    assert_eq!(decrypted_block(&data, 5, &fips_key()), FIPS_PLAIN);
}

#[test]
fn a_node_key_is_two_blocks() {
    let mut enc = FIPS_CIPHER.to_vec();
    enc.extend_from_slice(&FIPS_CIPHER);
    let text = format!("  {}\n", URL_SAFE_NO_PAD.encode(&enc));
    let raw = decrypt_node_key(&text, &fips_key()).unwrap();
    assert_eq!(&raw[..16], &FIPS_PLAIN);
    assert_eq!(&raw[16..], &FIPS_PLAIN);
}

#[test]
fn a_node_key_of_the_wrong_length_is_refused() {
    let text = URL_SAFE_NO_PAD.encode([1u8; 31]);
    assert_eq!(decrypt_node_key(&text, &fips_key()), Err(NodeKeyError::Length(31)));
    assert_eq!(decrypt_node_key("", &fips_key()), Err(NodeKeyError::Length(0)));
}

#[test]
fn a_node_key_in_another_alphabet_is_refused() {
    assert_eq!(decrypt_node_key("ab+/", &fips_key()), Err(NodeKeyError::Base64));
    assert_eq!(decrypt_node_key("abcd=", &fips_key()), Err(NodeKeyError::Base64));
}

#[test]
fn base64_takes_canonical_text_alone() {
    // "AA" and "AAA" are one and two zero bytes; a set trailing bit, a lone character and padding
    // are refused.
    assert_eq!(decrypt_node_key("AA", &fips_key()), Err(NodeKeyError::Length(1)));
    assert_eq!(decrypt_node_key("AAA", &fips_key()), Err(NodeKeyError::Length(2)));
    assert_eq!(decrypt_node_key("AAAA", &fips_key()), Err(NodeKeyError::Length(3)));
    assert_eq!(decrypt_node_key("AB", &fips_key()), Err(NodeKeyError::Base64));
    assert_eq!(decrypt_node_key("AAB", &fips_key()), Err(NodeKeyError::Base64));
    assert_eq!(decrypt_node_key("AAAAA", &fips_key()), Err(NodeKeyError::Base64));
    assert_eq!(decrypt_node_key("AA==", &fips_key()), Err(NodeKeyError::Base64));
}

#[test]
fn the_first_key_that_is_not_empty_counts() {
    assert_eq!(extract_key_b64("owner:abc"), Some("abc"));
    assert_eq!(extract_key_b64("owner:/other: xyz "), Some("xyz"));
    assert_eq!(extract_key_b64("noseparator/x:y:z/q:r"), Some("y:z"));
    assert_eq!(extract_key_b64("a:\t/b:  "), None);
    assert_eq!(extract_key_b64(""), None);
    assert_eq!(extract_key_b64("plain"), None);
}

#[test]
fn attributes_give_their_json() {
    let key = fips_key();
    let at = encrypted_attrs(b"MEGA{\"n\":\"hello.txt\"}", &key);
    assert_eq!(decrypt_attrs(&at, &key).unwrap(), "{\"n\":\"hello.txt\"}");
    let padded = format!(" {at}\n");
    assert_eq!(decrypt_attrs(&padded, &key).unwrap(), "{\"n\":\"hello.txt\"}");
}

#[test]
fn attributes_span_blocks() {
    let key = fips_key();
    let text = "MEGA{\"n\":\"a name that is rather longer than one block of the cipher\"}";
    let at = encrypted_attrs(text.as_bytes(), &key);
    assert_eq!(decrypt_attrs(&at, &key).unwrap(), &text[4..]);
}

#[test]
fn attributes_that_are_not_utf8_are_mended() {
    let key = fips_key();
    let at = encrypted_attrs(b"MEGA{\"n\":\"\xff\"}\0\0", &key);
    assert_eq!(decrypt_attrs(&at, &key).unwrap(), "{\"n\":\"\u{fffd}\"}");
    let at = encrypted_attrs("MEGA{\"n\":\"\u{e9}\u{1f600}\"}".as_bytes(), &key);
    assert_eq!(decrypt_name(&at, &key).unwrap(), "\u{e9}\u{1f600}");
}

#[test]
fn each_fault_of_attributes_has_its_error() {
    let key = fips_key();
    assert_eq!(decrypt_attrs("a?", &key), Err(AttrsError::Base64));
    assert_eq!(decrypt_attrs(&URL_SAFE_NO_PAD.encode([0u8; 15]), &key), Err(AttrsError::Length));
    assert_eq!(decrypt_attrs("", &key), Err(AttrsError::NoOpenBrace));
    let at = encrypted_attrs(b"nothing here", &key);
    assert_eq!(decrypt_attrs(&at, &key), Err(AttrsError::NoOpenBrace));
    let at = encrypted_attrs(b"MEGA{\"n\":1", &key);
    assert_eq!(decrypt_attrs(&at, &key), Err(AttrsError::NoCloseBrace));
    let at = encrypted_attrs(b"}MEGA{", &key);
    assert_eq!(decrypt_attrs(&at, &key), Err(AttrsError::Malformed));
}

#[test]
fn the_json_reaches_from_the_first_to_the_last_brace() {
    assert_eq!(attrs_json("MEGA{a}{b}x\0\0").unwrap(), "{a}{b}");
    assert_eq!(attrs_json("{}").unwrap(), "{}");
    assert_eq!(attrs_json("\u{20ac}{\u{20ac}}\u{20ac}").unwrap(), "{\u{20ac}}");
    assert_eq!(attrs_json("}{"), Err(AttrsError::Malformed));
    assert_eq!(attrs_json("\0\0"), Err(AttrsError::NoOpenBrace));
}

#[test]
fn the_name_comes_from_the_attributes() {
    let key = fips_key();
    let at = encrypted_attrs(b"MEGA{\"c\":1,\"n\":\"f.bin\"}", &key);
    assert_eq!(decrypt_name(&at, &key), Some("f.bin".to_owned()));
    assert_eq!(file_name_or_id(&at, &key, "id"), "f.bin");
    let at = encrypted_attrs(b"MEGA{\"n\":\"a\\\"b\\u00e9\"}", &key);
    assert_eq!(decrypt_name(&at, &key), Some("a\"b\u{e9}".to_owned()));
}

#[test]
fn without_a_name_the_id_serves() {
    let key = fips_key();
    let at = encrypted_attrs(b"MEGA{\"n\":7}", &key);
    assert_eq!(decrypt_name(&at, &key), None);
    assert_eq!(file_name_or_id(&at, &key, "AbC"), "AbC.bin");
    let at = encrypted_attrs(b"MEGA{no json}", &key);
    assert_eq!(decrypt_name(&at, &key), None);
    let at = encrypted_attrs(b"MEGA{\"m\":\"x\"}", &key);
    assert_eq!(decrypt_name(&at, &key), None);
    assert_eq!(file_name_or_id("?", &key, "AbC"), "AbC.bin");
}

#[test]
fn a_name_wins_over_what_else_would_serve() {
    assert_eq!(name_or(Some("n".to_owned()), "other"), "n");
    assert_eq!(name_or(Some(String::new()), "other"), "");
    assert_eq!(name_or(None, "other"), "other");
}

#[test]
fn encrypted_attributes_come_back() {
    let key = fips_key();
    for json in ["{}", "{\"n\":\"x\"}", "{a}b{c}", "{\u{e9}\u{1f600}\0}", "{{{}}}"] {
        let at = encrypted_attrs(format!("MEGA{json}").as_bytes(), &key);
        assert_eq!(decrypt_attrs(&at, &key).unwrap(), json);
        assert_eq!(decrypt_attrs(&format!("\n {at}\t"), &key).unwrap(), json);
    }
}

#[test]
fn of_two_key_fields_the_first_comes_first() {
    for a in ["x:k1", "x:", "", "plain"] {
        for b in ["y:k2", "y:", ""] {
            let joined = format!("{a}/{b}");
            assert_eq!(extract_key_b64(&joined), extract_key_b64(a).or(extract_key_b64(b)));
        }
    }
}
