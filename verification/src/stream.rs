use vstd::prelude::*;
use vstd::slice::slice_subrange;
use crate::block::{
    dec_block_spec, decrypt_block, enc_block_spec, encrypt_block, lemma_apply_rounds_len,
    lemma_block_round_trip,
};
use crate::errors::CipherError;

verus! {

// The stream wrapper: an arbitrary-length buffer is split into consecutive
// 8-byte blocks, each block is ciphered independently (electronic-codebook
// style, no chaining, no padding), and the results are concatenated in input
// order.  Buffers whose length is not a multiple of 8 are rejected.

/// A buffer encrypted block by block.  Only lengths that are multiples of 8
/// are meaningful; others are rejected before this function is consulted.
pub open spec fn enc_stream_spec(data: Seq<u8>, key: Seq<u8>) -> Seq<u8>
    recommends
        data.len() % 8 == 0,
        key.len() == 32,
    decreases data.len(),
{
    if data.len() < 8 {
        Seq::empty()
    } else {
        enc_block_spec(data.take(8), key) + enc_stream_spec(data.skip(8), key)
    }
}

/// A buffer decrypted block by block.
pub open spec fn dec_stream_spec(data: Seq<u8>, key: Seq<u8>) -> Seq<u8>
    recommends
        data.len() % 8 == 0,
        key.len() == 32,
    decreases data.len(),
{
    if data.len() < 8 {
        Seq::empty()
    } else {
        dec_block_spec(data.take(8), key) + dec_stream_spec(data.skip(8), key)
    }
}

/// Extending the ciphered prefix by one more block appends that block's
/// cipher output.
pub proof fn lemma_stream_step(data: Seq<u8>, key: Seq<u8>, i: int)
    requires
        0 <= i,
        8 * i + 8 <= data.len(),
    ensures
        enc_stream_spec(data.take(8 * i + 8), key) == enc_stream_spec(data.take(8 * i), key)
            + enc_block_spec(data.subrange(8 * i, 8 * i + 8), key),
        dec_stream_spec(data.take(8 * i + 8), key) == dec_stream_spec(data.take(8 * i), key)
            + dec_block_spec(data.subrange(8 * i, 8 * i + 8), key),
    decreases i,
{
    let s1 = data.take(8 * i + 8);
    let s0 = data.take(8 * i);
    if i == 0 {
        assert(s0 =~= Seq::<u8>::empty());
        assert(enc_stream_spec(s0, key) == Seq::<u8>::empty());
        assert(dec_stream_spec(s0, key) == Seq::<u8>::empty());
        assert(s1.take(8) =~= data.subrange(0, 8));
        assert(s1.skip(8) =~= Seq::<u8>::empty());
        assert(enc_stream_spec(Seq::<u8>::empty(), key) == Seq::<u8>::empty());
        assert(dec_stream_spec(Seq::<u8>::empty(), key) == Seq::<u8>::empty());
        assert(enc_stream_spec(s1, key) == enc_block_spec(s1.take(8), key) + enc_stream_spec(
            s1.skip(8),
            key,
        ));
        assert(dec_stream_spec(s1, key) == dec_block_spec(s1.take(8), key) + dec_stream_spec(
            s1.skip(8),
            key,
        ));
        assert(enc_block_spec(data.subrange(0, 8), key) + Seq::<u8>::empty() =~= enc_block_spec(
            data.subrange(0, 8),
            key,
        ));
        assert(dec_block_spec(data.subrange(0, 8), key) + Seq::<u8>::empty() =~= dec_block_spec(
            data.subrange(0, 8),
            key,
        ));
    } else {
        lemma_stream_step(data.skip(8), key, i - 1);
        let h = data.take(8);
        assert(s1.take(8) =~= h);
        assert(s0.take(8) =~= h);
        assert(s1.skip(8) =~= data.skip(8).take(8 * (i - 1) + 8));
        assert(s0.skip(8) =~= data.skip(8).take(8 * (i - 1)));
        assert(data.skip(8).subrange(8 * (i - 1), 8 * (i - 1) + 8) =~= data.subrange(
            8 * i,
            8 * i + 8,
        ));
        let blk = data.subrange(8 * i, 8 * i + 8);
        assert(enc_stream_spec(s1, key) == enc_block_spec(h, key) + enc_stream_spec(
            s1.skip(8),
            key,
        ));
        assert(enc_stream_spec(s0, key) == enc_block_spec(h, key) + enc_stream_spec(
            s0.skip(8),
            key,
        ));
        assert(enc_block_spec(h, key) + (enc_stream_spec(s0.skip(8), key) + enc_block_spec(
            blk,
            key,
        )) =~= (enc_block_spec(h, key) + enc_stream_spec(s0.skip(8), key)) + enc_block_spec(
            blk,
            key,
        ));
        assert(dec_stream_spec(s1, key) == dec_block_spec(h, key) + dec_stream_spec(
            s1.skip(8),
            key,
        ));
        assert(dec_stream_spec(s0, key) == dec_block_spec(h, key) + dec_stream_spec(
            s0.skip(8),
            key,
        ));
        assert(dec_block_spec(h, key) + (dec_stream_spec(s0.skip(8), key) + dec_block_spec(
            blk,
            key,
        )) =~= (dec_block_spec(h, key) + dec_stream_spec(s0.skip(8), key)) + dec_block_spec(
            blk,
            key,
        ));
    }
}

/// Length preservation: ciphering a well-formed buffer never changes its
/// length, in either direction.
pub proof fn lemma_stream_len(data: Seq<u8>, key: Seq<u8>)
    requires
        data.len() % 8 == 0,
    ensures
        enc_stream_spec(data, key).len() == data.len(),
        dec_stream_spec(data, key).len() == data.len(),
    decreases data.len(),
{
    if data.len() >= 8 {
        lemma_apply_rounds_len(data.take(8), key, crate::block::enc_schedule());
        lemma_apply_rounds_len(data.take(8), key, crate::block::dec_schedule());
        assert(data.skip(8).len() % 8 == 0);
        lemma_stream_len(data.skip(8), key);
    }
}

/// Round trip: decrypting an encrypted buffer with the same key gives the
/// buffer back, for every 32-byte key and every buffer whose length is a
/// multiple of 8.
pub proof fn lemma_stream_round_trip(data: Seq<u8>, key: Seq<u8>)
    requires
        data.len() % 8 == 0,
        key.len() == 32,
    ensures
        dec_stream_spec(enc_stream_spec(data, key), key) == data,
    decreases data.len(),
{
    if data.len() < 8 {
        assert(data =~= Seq::<u8>::empty());
        assert(enc_stream_spec(data, key) == Seq::<u8>::empty());
        assert(dec_stream_spec(Seq::<u8>::empty(), key) == Seq::<u8>::empty());
    } else {
        let h = data.take(8);
        let eb = enc_block_spec(h, key);
        let rest = enc_stream_spec(data.skip(8), key);
        lemma_apply_rounds_len(h, key, crate::block::enc_schedule());
        assert(data.skip(8).len() % 8 == 0);
        lemma_stream_len(data.skip(8), key);
        lemma_stream_round_trip(data.skip(8), key);
        lemma_block_round_trip(h, key);
        let c = eb + rest;
        assert(c.take(8) =~= eb);
        assert(c.skip(8) =~= rest);
        assert(c.len() >= 8);
        assert(dec_stream_spec(c, key) == dec_block_spec(c.take(8), key) + dec_stream_spec(
            c.skip(8),
            key,
        ));
        assert(h + data.skip(8) =~= data);
    }
}

/// Encrypts a buffer under a 32-byte key, 8 bytes at a time.  A buffer whose
/// length is not a multiple of 8, or a key that is not 32 bytes long, is
/// rejected with the offending length and nothing is processed.
pub fn encrypt(data_to_encrypt: &[u8], key: &[u8]) -> (r: Result<Vec<u8>, CipherError>)
    ensures
        ({
            if data_to_encrypt@.len() % 8 != 0 {
                &&& r is Err
                &&& r->Err_0 == CipherError::InvalidLength(data_to_encrypt@.len() as usize)
            } else if key@.len() != 32 {
                &&& r is Err
                &&& r->Err_0 == CipherError::InvalidLength(key@.len() as usize)
            } else {
                &&& r is Ok
                &&& r->Ok_0@ == enc_stream_spec(data_to_encrypt@, key@)
                &&& r->Ok_0@.len() == data_to_encrypt@.len()
            }
        }),
{
    let n = data_to_encrypt.len();
    if n % 8 != 0 {
        return Err(CipherError::InvalidLength(n));
    }
    if key.len() != 32 {
        return Err(CipherError::InvalidLength(key.len()));
    }
    let mut encrypted_data: Vec<u8> = Vec::new();
    let mut i: usize = 0;
    while i < n / 8
        invariant
            n == data_to_encrypt@.len(),
            n % 8 == 0,
            key@.len() == 32,
            i <= n / 8,
            encrypted_data@ == enc_stream_spec(data_to_encrypt@.take(8 * i as int), key@),
            encrypted_data@.len() == 8 * i,
        decreases n / 8 - i,
    {
        assert(8 * i as int + 8 <= n);
        let data_block = slice_subrange(data_to_encrypt, i * 8, i * 8 + 8);
        let mut encrypted_block = encrypt_block(data_block, key);
        proof {
            lemma_stream_step(data_to_encrypt@, key@, i as int);
        }
        encrypted_data.append(&mut encrypted_block);
        i = i + 1;
    }
    proof {
        assert(data_to_encrypt@.take(8 * (n / 8) as int) =~= data_to_encrypt@);
    }
    Ok(encrypted_data)
}

/// Decrypts a buffer under a 32-byte key, 8 bytes at a time, with the same
/// validation as `encrypt`.
pub fn decrypt(data_to_decrypt: &[u8], key: &[u8]) -> (r: Result<Vec<u8>, CipherError>)
    ensures
        ({
            if data_to_decrypt@.len() % 8 != 0 {
                &&& r is Err
                &&& r->Err_0 == CipherError::InvalidLength(data_to_decrypt@.len() as usize)
            } else if key@.len() != 32 {
                &&& r is Err
                &&& r->Err_0 == CipherError::InvalidLength(key@.len() as usize)
            } else {
                &&& r is Ok
                &&& r->Ok_0@ == dec_stream_spec(data_to_decrypt@, key@)
                &&& r->Ok_0@.len() == data_to_decrypt@.len()
            }
        }),
{
    let n = data_to_decrypt.len();
    if n % 8 != 0 {
        return Err(CipherError::InvalidLength(n));
    }
    if key.len() != 32 {
        return Err(CipherError::InvalidLength(key.len()));
    }
    let mut decrypted_data: Vec<u8> = Vec::new();
    let mut i: usize = 0;
    while i < n / 8
        invariant
            n == data_to_decrypt@.len(),
            n % 8 == 0,
            key@.len() == 32,
            i <= n / 8,
            decrypted_data@ == dec_stream_spec(data_to_decrypt@.take(8 * i as int), key@),
            decrypted_data@.len() == 8 * i,
        decreases n / 8 - i,
    {
        assert(8 * i as int + 8 <= n);
        let data_block = slice_subrange(data_to_decrypt, i * 8, i * 8 + 8);
        let mut decrypted_block = decrypt_block(data_block, key);
        proof {
            lemma_stream_step(data_to_decrypt@, key@, i as int);
        }
        decrypted_data.append(&mut decrypted_block);
        i = i + 1;
    }
    proof {
        assert(data_to_decrypt@.take(8 * (n / 8) as int) =~= data_to_decrypt@);
    }
    Ok(decrypted_data)
}

} // verus!
