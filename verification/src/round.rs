use vstd::prelude::*;
use vstd::slice::slice_subrange;
use crate::sbox::{sbox_spec, sbox_lookup};

verus! {

// One Feistel round of the cipher: the right half of the block is mixed with a
// 4-byte round-key fragment (addition modulo 2^32, nibble substitution through
// two adjacent table rows per byte, and a per-byte rotation), the result is
// XOR-ed into the left half, and the halves are swapped unless the round is
// the terminal one.

/// The big-endian 32-bit value held by a 4-byte sequence.
pub open spec fn be_word(b: Seq<u8>) -> int
    recommends
        b.len() == 4,
{
    b[0] * 0x1000000 + b[1] * 0x10000 + b[2] * 0x100 + b[3]
}

/// Byte `i` (counting from the most significant) of the 32-bit value `w`.
pub open spec fn be_byte(w: int, i: int) -> int
    recommends
        0 <= w < 0x100000000,
        0 <= i < 4,
{
    if i == 0 {
        (w / 0x1000000) % 0x100
    } else if i == 1 {
        (w / 0x10000) % 0x100
    } else if i == 2 {
        (w / 0x100) % 0x100
    } else {
        w % 0x100
    }
}

/// Left circular rotation of the byte `x` by three bit positions.  The cipher
/// rotates each byte by 11 bits, and 11 modulo the 8 bits of a byte is 3.
pub open spec fn rotl3(x: int) -> int
    recommends
        0 <= x < 256,
{
    (x % 32) * 8 + x / 32
}

/// The substitution step for the byte at position `i`: the high nibble goes
/// through table row `i`, the low nibble through the adjacent row `i + 1`, and
/// the two substituted nibbles are packed back into one byte.  Opaque so that
/// callers do not drag the whole substitution table into their proofs.
#[verifier::opaque]
pub open spec fn sub_byte(i: int, x: int) -> int
    recommends
        0 <= i < 4,
        0 <= x < 256,
{
    sbox_spec(i, x / 16) * 16 + sbox_spec(i + 1, x % 16)
}

/// The round mixing function: add the round-key fragment to the half-block
/// modulo 2^32, substitute each byte of the sum, and rotate each byte left by
/// three bits.  Opaque: the Feistel structure never needs to look inside it.
#[verifier::opaque]
pub open spec fn round_fn_spec(h: Seq<u8>, k: Seq<u8>) -> Seq<u8>
    recommends
        h.len() == 4,
        k.len() == 4,
{
    let s = (be_word(h) + be_word(k)) % 0x100000000;
    seq![
        rotl3(sub_byte(0, be_byte(s, 0))) as u8,
        rotl3(sub_byte(1, be_byte(s, 1))) as u8,
        rotl3(sub_byte(2, be_byte(s, 2))) as u8,
        rotl3(sub_byte(3, be_byte(s, 3))) as u8,
    ]
}

/// The halves of an 8-byte block, swapped.
pub open spec fn swap_halves(b: Seq<u8>) -> Seq<u8>
    recommends
        b.len() == 8,
{
    b.subrange(4, 8) + b.subrange(0, 4)
}

/// One Feistel round.  On the terminal round the halves keep their places;
/// otherwise the untouched right half becomes the new left half.
pub open spec fn round_spec(b: Seq<u8>, k: Seq<u8>, last: bool) -> Seq<u8>
    recommends
        b.len() == 8,
        k.len() == 4,
{
    let m = round_fn_spec(b.subrange(4, 8), k);
    let new_left = seq![(b[0] ^ m[0]), (b[1] ^ m[1]), (b[2] ^ m[2]), (b[3] ^ m[3])];
    if last {
        new_left + b.subrange(4, 8)
    } else {
        b.subrange(4, 8) + new_left
    }
}

/// XOR-ing the same byte in twice gives the original byte back; this is what
/// lets a Feistel round be undone without inverting the mixing function.
pub proof fn lemma_xor_cancel(x: u8, y: u8)
    ensures
        (x ^ y) ^ y == x,
{
    assert((x ^ y) ^ y == x) by (bit_vector);
}

/// A swapping round straight after a terminal round with the same fragment
/// swaps the halves of the original block.
pub proof fn lemma_swap_after_noswap(b: Seq<u8>, k: Seq<u8>)
    requires
        b.len() == 8,
        k.len() == 4,
    ensures
        round_spec(round_spec(b, k, true), k, false) == swap_halves(b),
{
    let r1 = round_spec(b, k, true);
    let m = round_fn_spec(b.subrange(4, 8), k);
    assert(r1.subrange(4, 8) =~= b.subrange(4, 8));
    assert forall|i: int| 0 <= i < 4 implies ((b[i] ^ m[i]) ^ m[i]) == b[i] by {
        lemma_xor_cancel(b[i], m[i]);
    }
    assert(round_spec(r1, k, false) =~= swap_halves(b));
}

/// A swapping round, a swap of the halves, and the same swapping round again
/// amount to a plain swap of the halves.
pub proof fn lemma_swap_round_conjugate(b: Seq<u8>, k: Seq<u8>)
    requires
        b.len() == 8,
        k.len() == 4,
    ensures
        round_spec(swap_halves(round_spec(b, k, false)), k, false) == swap_halves(b),
{
    let x = swap_halves(round_spec(b, k, false));
    let m = round_fn_spec(b.subrange(4, 8), k);
    assert(x.subrange(4, 8) =~= b.subrange(4, 8));
    assert forall|i: int| 0 <= i < 4 implies ((b[i] ^ m[i]) ^ m[i]) == b[i] by {
        lemma_xor_cancel(b[i], m[i]);
    }
    assert(round_spec(x, k, false) =~= swap_halves(b));
}

/// A swapping round, a swap of the halves, and a terminal round with the same
/// fragment give the original block back.
pub proof fn lemma_noswap_after_swap(b: Seq<u8>, k: Seq<u8>)
    requires
        b.len() == 8,
        k.len() == 4,
    ensures
        round_spec(swap_halves(round_spec(b, k, false)), k, true) == b,
{
    let x = swap_halves(round_spec(b, k, false));
    let m = round_fn_spec(b.subrange(4, 8), k);
    assert(x.subrange(4, 8) =~= b.subrange(4, 8));
    assert forall|i: int| 0 <= i < 4 implies ((b[i] ^ m[i]) ^ m[i]) == b[i] by {
        lemma_xor_cancel(b[i], m[i]);
    }
    assert(round_spec(x, k, true) =~= b);
}

/// Reads a 4-byte slice as a big-endian 32-bit integer.
fn be_word_exec(b: &[u8]) -> (w: u32)
    requires
        b@.len() == 4,
    ensures
        w as int == be_word(b@),
{
    (b[0] as u32) * 0x1000000 + (b[1] as u32) * 0x10000 + (b[2] as u32) * 0x100 + (b[3] as u32)
}

/// Substitutes and rotates one byte of the 32-bit sum.
fn mix_byte(i: usize, x: u8) -> (r: u8)
    requires
        i < 4,
    ensures
        r as int == rotl3(sub_byte(i as int, x as int)),
{
    let hi = x / 16;
    let lo = x % 16;
    let sh = sbox_lookup(i, hi);
    let sl = sbox_lookup(i + 1, lo);
    let packed = sh * 16 + sl;
    proof {
        reveal(sub_byte);
    }
    (packed % 32) * 8 + packed / 32
}

/// The round mixing function on a 4-byte half-block and a 4-byte round-key
/// fragment.
#[verifier::rlimit(60)]
pub fn crypt_round_fn(data: &[u8], key_part: &[u8]) -> (r: [u8; 4])
    requires
        data@.len() == 4,
        key_part@.len() == 4,
    ensures
        r@ == round_fn_spec(data@, key_part@),
{
    let d = be_word_exec(data);
    let k = be_word_exec(key_part);
    let sum: u64 = d as u64 + k as u64;
    let s: u64 = sum % 0x100000000;
    let b0: u8 = (s / 0x1000000) as u8;
    let b1: u8 = ((s / 0x10000) % 0x100) as u8;
    let b2: u8 = ((s / 0x100) % 0x100) as u8;
    let b3: u8 = (s % 0x100) as u8;
    let r = [mix_byte(0, b0), mix_byte(1, b1), mix_byte(2, b2), mix_byte(3, b3)];
    proof {
        reveal(round_fn_spec);
        assert(r@ =~= round_fn_spec(data@, key_part@));
    }
    r
}

/// One Feistel round on an 8-byte block.
pub fn crypt_round(block_to_encrypt: Vec<u8>, key_part: &[u8], is_last_step: bool) -> (r: Vec<u8>)
    requires
        block_to_encrypt@.len() == 8,
        key_part@.len() == 4,
    ensures
        r@ == round_spec(block_to_encrypt@, key_part@, is_last_step),
        r@.len() == 8,
{
    let right = slice_subrange(block_to_encrypt.as_slice(), 4, 8);
    let m = crypt_round_fn(right, key_part);
    let mut out: Vec<u8> = Vec::new();
    if is_last_step {
        out.push(block_to_encrypt[0] ^ m[0]);
        out.push(block_to_encrypt[1] ^ m[1]);
        out.push(block_to_encrypt[2] ^ m[2]);
        out.push(block_to_encrypt[3] ^ m[3]);
        out.push(block_to_encrypt[4]);
        out.push(block_to_encrypt[5]);
        out.push(block_to_encrypt[6]);
        out.push(block_to_encrypt[7]);
    } else {
        out.push(block_to_encrypt[4]);
        out.push(block_to_encrypt[5]);
        out.push(block_to_encrypt[6]);
        out.push(block_to_encrypt[7]);
        out.push(block_to_encrypt[0] ^ m[0]);
        out.push(block_to_encrypt[1] ^ m[1]);
        out.push(block_to_encrypt[2] ^ m[2]);
        out.push(block_to_encrypt[3] ^ m[3]);
    }
    proof {
        assert(out@ =~= round_spec(block_to_encrypt@, key_part@, is_last_step));
    }
    out
}

} // verus!
