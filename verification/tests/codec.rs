use gost_magma::codec::{bytes_to_str, str_to_bytes};
use gost_magma::errors::CipherError;
use gost_magma::stream::{decrypt, encrypt};

#[test]
fn render_bytes() {
    assert_eq!(bytes_to_str(&[1, 2, 255]), "1, 2, 255");
    assert_eq!(bytes_to_str(&[0]), "0");
    assert_eq!(bytes_to_str(&[]), "");
    assert_eq!(bytes_to_str(&[10, 100, 200, 9]), "10, 100, 200, 9");
}

#[test]
fn parse_bytes() {
    assert_eq!(str_to_bytes("1, 2, 255"), Ok(vec![1, 2, 255]));
    assert_eq!(str_to_bytes("0"), Ok(vec![0]));
    assert_eq!(str_to_bytes("255"), Ok(vec![255]));
}

#[test]
fn parse_accepts_leading_zeros() {
    assert_eq!(str_to_bytes("007"), Ok(vec![7]));
    assert_eq!(str_to_bytes("000"), Ok(vec![0]));
}

#[test]
fn parse_rejects_overflow() {
    assert_eq!(
        str_to_bytes("256"),
        Err(CipherError::ParseFailure(String::from("256")))
    );
    assert_eq!(
        str_to_bytes("1, 999, 2"),
        Err(CipherError::ParseFailure(String::from("999")))
    );
}

#[test]
fn parse_rejects_malformed_separator() {
    // A comma without the following space does not separate tokens.
    assert_eq!(
        str_to_bytes("1,2"),
        Err(CipherError::ParseFailure(String::from("1,2")))
    );
    // A double space leaves the second token with a leading space.
    assert_eq!(
        str_to_bytes("1,  2"),
        Err(CipherError::ParseFailure(String::from(" 2")))
    );
}

#[test]
fn parse_rejects_empty_text() {
    assert_eq!(
        str_to_bytes(""),
        Err(CipherError::ParseFailure(String::from("")))
    );
}

#[test]
fn parse_rejects_empty_token() {
    assert_eq!(
        str_to_bytes("1, , 2"),
        Err(CipherError::ParseFailure(String::from("")))
    );
    assert_eq!(
        str_to_bytes("1, 2, "),
        Err(CipherError::ParseFailure(String::from("")))
    );
}

#[test]
fn parse_reports_first_bad_token() {
    assert_eq!(
        str_to_bytes("1, x, 999"),
        Err(CipherError::ParseFailure(String::from("x")))
    );
}

#[test]
fn codec_round_trip() {
    let cases: Vec<Vec<u8>> = vec![
        vec![0],
        vec![255],
        vec![1, 2, 255],
        vec![0, 0, 0, 0],
        (0u8..=255).collect(),
    ];
    for bytes in cases {
        let text = bytes_to_str(&bytes);
        assert_eq!(str_to_bytes(&text), Ok(bytes));
    }
}

#[test]
fn cipher_text_round_trip() {
    // The display path of the system: encrypt, render as text, read the text
    // back, decrypt.
    let key = b"SECRET_KEY_WITH_LENGTH_32_BYTES_";
    let plain = b"ATTACKAT";
    let cipher = encrypt(plain, key).unwrap();
    let text = bytes_to_str(&cipher);
    let parsed = str_to_bytes(&text).unwrap();
    assert_eq!(parsed, cipher);
    let back = decrypt(&parsed, key).unwrap();
    assert_eq!(back, plain.to_vec());
}
