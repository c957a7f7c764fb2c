use gost_magma::block::{decrypt_block, encrypt_block};
use gost_magma::errors::CipherError;
use gost_magma::stream::{decrypt, encrypt};

const KEY: &[u8] = b"SECRET_KEY_WITH_LENGTH_32_BYTES_";

#[test]
fn round_trip_single_block() {
    let plain = b"HELLOGOS";
    let cipher = encrypt(plain, KEY).unwrap();
    let back = decrypt(&cipher, KEY).unwrap();
    assert_eq!(back, plain.to_vec());
}

#[test]
fn round_trip_several_blocks() {
    let plain = b"ABCDEFGHabcdefgh01234567";
    let cipher = encrypt(plain, KEY).unwrap();
    assert_ne!(cipher, plain.to_vec());
    let back = decrypt(&cipher, KEY).unwrap();
    assert_eq!(back, plain.to_vec());
}

#[test]
fn length_preservation() {
    for blocks in 0..4 {
        let plain = vec![0x5Au8; blocks * 8];
        let cipher = encrypt(&plain, KEY).unwrap();
        assert_eq!(cipher.len(), plain.len());
        let back = decrypt(&cipher, KEY).unwrap();
        assert_eq!(back.len(), cipher.len());
    }
}

#[test]
fn determinism() {
    let block = [7u8, 1, 9, 200, 13, 0, 255, 42];
    let first = encrypt_block(&block, KEY);
    let second = encrypt_block(&block, KEY);
    assert_eq!(first, second);
    let first_dec = decrypt_block(&block, KEY);
    let second_dec = decrypt_block(&block, KEY);
    assert_eq!(first_dec, second_dec);
}

#[test]
fn length_rejection_seven_bytes() {
    let plain = [0u8; 7];
    assert_eq!(
        encrypt(&plain, KEY),
        Err(CipherError::InvalidLength(7))
    );
}

#[test]
fn length_rejection_fifteen_bytes() {
    let plain = [1u8; 15];
    assert_eq!(
        encrypt(&plain, KEY),
        Err(CipherError::InvalidLength(15))
    );
    assert_eq!(
        decrypt(&plain, KEY),
        Err(CipherError::InvalidLength(15))
    );
}

#[test]
fn key_length_rejection() {
    let plain = [0u8; 8];
    let short_key = [0u8; 31];
    assert_eq!(
        encrypt(&plain, &short_key),
        Err(CipherError::InvalidLength(31))
    );
    assert_eq!(
        decrypt(&plain, &short_key),
        Err(CipherError::InvalidLength(31))
    );
}

#[test]
fn empty_plaintext_known_vector() {
    let cipher = encrypt(&[], KEY).unwrap();
    assert_eq!(cipher, Vec::<u8>::new());
    let back = decrypt(&[], KEY).unwrap();
    assert_eq!(back, Vec::<u8>::new());
}

#[test]
fn single_block_known_vector() {
    let zero = [0u8; 8];
    let cipher = encrypt_block(&zero, KEY);
    assert_eq!(cipher, vec![227, 216, 105, 250, 244, 187, 65, 94]);
    let back = decrypt_block(&cipher, KEY);
    assert_eq!(back, zero.to_vec());
}

#[test]
fn stream_known_vector() {
    let plain = b"ABCDEFGHabcdefgh";
    let cipher = encrypt(plain, KEY).unwrap();
    assert_eq!(
        cipher,
        vec![53, 97, 242, 114, 109, 111, 61, 218, 192, 28, 107, 27, 121, 162, 9, 96]
    );
}

#[test]
fn key_order_asymmetry() {
    // Decrypting with the encryption key order is the same as running
    // `encrypt_block` again: its 32 rounds have the same shape and differ only
    // in the fragment order.  That must not reproduce the plaintext.
    let zero = [0u8; 8];
    let cipher = encrypt_block(&zero, KEY);
    let wrong_schedule = encrypt_block(&cipher, KEY);
    assert_ne!(wrong_schedule, zero.to_vec());
    assert_eq!(wrong_schedule, vec![142, 19, 79, 141, 150, 90, 138, 86]);
    // The correct schedule does reproduce it.
    assert_eq!(decrypt_block(&cipher, KEY), zero.to_vec());
}

#[test]
fn equal_blocks_equal_cipher_blocks() {
    // Electronic-codebook style: equal 8-byte chunks under one key give equal
    // output chunks, and output order follows input order.
    let plain = b"SAMEHALFSAMEHALF";
    let cipher = encrypt(plain, KEY).unwrap();
    assert_eq!(cipher[0..8], cipher[8..16]);
    let single = encrypt(b"SAMEHALF", KEY).unwrap();
    assert_eq!(cipher[0..8], single[..]);
}

#[test]
fn different_key_different_cipher() {
    let plain = b"HELLOGOS";
    let other_key = b"ANOTHER_KEY_WITH_LENGTH_32_BYTE_";
    let first = encrypt(plain, KEY).unwrap();
    let second = encrypt(plain, other_key).unwrap();
    assert_ne!(first, second);
}
