use vstd::prelude::*;
use vstd::slice::{slice_subrange, slice_to_vec};
use crate::round::{
    crypt_round, lemma_noswap_after_swap, lemma_swap_after_noswap, lemma_swap_round_conjugate,
    round_spec, swap_halves,
};

verus! {

// The block cipher: 32 Feistel rounds over an 8-byte block, driven by a
// direction-dependent schedule of round-key fragments.  The 32-byte key is
// sliced into eight 4-byte fragments K0..K7; encryption uses them in the order
// K0..K7, K0..K7, K0..K7, K7..K0, and decryption in the exact reverse of that
// order, which is what makes decryption undo encryption.

/// The fragment index used by encryption round `i`: three forward passes over
/// K0..K7, then one backward pass K7..K0.
pub open spec fn enc_key_index(i: int) -> int
    recommends
        0 <= i < 32,
{
    if i < 24 {
        i % 8
    } else {
        31 - i
    }
}

/// The fragment index used by decryption round `i`: one forward pass K0..K7,
/// then three backward passes K7..K0.
pub open spec fn dec_key_index(i: int) -> int
    recommends
        0 <= i < 32,
{
    if i < 8 {
        i
    } else {
        7 - (i - 8) % 8
    }
}

/// The encryption key schedule as a sequence of 32 fragment indices.
pub open spec fn enc_schedule() -> Seq<int> {
    Seq::new(32, |i: int| enc_key_index(i))
}

/// The decryption key schedule as a sequence of 32 fragment indices.
pub open spec fn dec_schedule() -> Seq<int> {
    Seq::new(32, |i: int| dec_key_index(i))
}

/// Fragment `j` of the 32-byte key: its bytes `4j .. 4j + 4`.
pub open spec fn key_fragment(key: Seq<u8>, j: int) -> Seq<u8>
    recommends
        key.len() == 32,
        0 <= j < 8,
{
    key.subrange(4 * j, 4 * j + 4)
}

/// A schedule whose every entry names one of the eight key fragments.
pub open spec fn schedule_in_range(sched: Seq<int>) -> bool {
    forall|i: int| 0 <= i < sched.len() ==> 0 <= #[trigger] sched[i] < 8
}

/// Feistel rounds driven by a schedule of fragment indices; the last round of
/// the schedule is the terminal one (no swap of halves).
pub open spec fn apply_rounds(b: Seq<u8>, key: Seq<u8>, sched: Seq<int>) -> Seq<u8>
    decreases sched.len(),
{
    if sched.len() == 0 {
        b
    } else {
        apply_rounds(
            round_spec(b, key_fragment(key, sched[0]), sched.len() == 1),
            key,
            sched.skip(1),
        )
    }
}

/// Feistel rounds driven by a schedule of fragment indices, all of them
/// swapping rounds.
pub open spec fn apply_swap_rounds(b: Seq<u8>, key: Seq<u8>, sched: Seq<int>) -> Seq<u8>
    decreases sched.len(),
{
    if sched.len() == 0 {
        b
    } else {
        apply_swap_rounds(round_spec(b, key_fragment(key, sched[0]), false), key, sched.skip(1))
    }
}

/// One 8-byte block encrypted under a 32-byte key.
pub open spec fn enc_block_spec(b: Seq<u8>, key: Seq<u8>) -> Seq<u8>
    recommends
        b.len() == 8,
        key.len() == 32,
{
    apply_rounds(b, key, enc_schedule())
}

/// One 8-byte block decrypted under a 32-byte key.
pub open spec fn dec_block_spec(b: Seq<u8>, key: Seq<u8>) -> Seq<u8>
    recommends
        b.len() == 8,
        key.len() == 32,
{
    apply_rounds(b, key, dec_schedule())
}

/// A round keeps the block 8 bytes long, and so does any run of rounds.
pub proof fn lemma_apply_rounds_len(b: Seq<u8>, key: Seq<u8>, sched: Seq<int>)
    requires
        b.len() == 8,
    ensures
        apply_rounds(b, key, sched).len() == 8,
        apply_swap_rounds(b, key, sched).len() == 8,
    decreases sched.len(),
{
    if sched.len() > 0 {
        lemma_apply_rounds_len(
            round_spec(b, key_fragment(key, sched[0]), sched.len() == 1),
            key,
            sched.skip(1),
        );
        lemma_apply_rounds_len(
            round_spec(b, key_fragment(key, sched[0]), false),
            key,
            sched.skip(1),
        );
    }
}

/// Extending a run of swapping rounds by one more round at the end.
pub proof fn lemma_swap_rounds_snoc(b: Seq<u8>, key: Seq<u8>, sched: Seq<int>, j: int)
    ensures
        apply_swap_rounds(b, key, sched.push(j)) == round_spec(
            apply_swap_rounds(b, key, sched),
            key_fragment(key, j),
            false,
        ),
    decreases sched.len(),
{
    if sched.len() == 0 {
        assert(sched.push(j).skip(1) =~= Seq::<int>::empty());
        assert(sched.push(j)[0] == j);
        assert(apply_swap_rounds(round_spec(b, key_fragment(key, j), false), key, Seq::<int>::empty())
            == round_spec(b, key_fragment(key, j), false));
        assert(apply_swap_rounds(b, key, sched) == b);
    } else {
        let b1 = round_spec(b, key_fragment(key, sched[0]), false);
        lemma_swap_rounds_snoc(b1, key, sched.skip(1), j);
        assert(sched.push(j)[0] == sched[0]);
        assert(sched.push(j).skip(1) =~= sched.skip(1).push(j));
        assert(apply_swap_rounds(b, key, sched.push(j)) == apply_swap_rounds(
            b1,
            key,
            sched.skip(1).push(j),
        ));
        assert(apply_swap_rounds(b, key, sched) == apply_swap_rounds(b1, key, sched.skip(1)));
    }
}

/// A full run of rounds is a run of swapping rounds followed by one terminal
/// round with the schedule's last fragment.
pub proof fn lemma_apply_rounds_split_last(b: Seq<u8>, key: Seq<u8>, sched: Seq<int>)
    requires
        sched.len() >= 1,
    ensures
        apply_rounds(b, key, sched) == round_spec(
            apply_swap_rounds(b, key, sched.take(sched.len() - 1)),
            key_fragment(key, sched[sched.len() - 1]),
            true,
        ),
    decreases sched.len(),
{
    if sched.len() == 1 {
        assert(sched.take(0) =~= Seq::<int>::empty());
        assert(sched.skip(1) =~= Seq::<int>::empty());
        assert(apply_swap_rounds(b, key, sched.take(0)) == b);
        assert(apply_rounds(b, key, sched) == apply_rounds(
            round_spec(b, key_fragment(key, sched[0]), true),
            key,
            sched.skip(1),
        ));
        assert(apply_rounds(round_spec(b, key_fragment(key, sched[0]), true), key, Seq::<int>::empty())
            == round_spec(b, key_fragment(key, sched[0]), true));
    } else {
        let b1 = round_spec(b, key_fragment(key, sched[0]), false);
        lemma_apply_rounds_split_last(b1, key, sched.skip(1));
        assert(sched.skip(1).take(sched.len() - 2) =~= sched.take(sched.len() - 1).skip(1));
        assert(sched.take(sched.len() - 1)[0] == sched[0]);
        assert(sched.skip(1)[sched.len() - 2] == sched[sched.len() - 1]);
        assert(apply_rounds(b, key, sched) == apply_rounds(b1, key, sched.skip(1)));
        assert(apply_swap_rounds(b, key, sched.take(sched.len() - 1)) == apply_swap_rounds(
            b1,
            key,
            sched.take(sched.len() - 1).skip(1),
        ));
    }
}

/// Running the swapping rounds of a schedule, swapping the halves, and then
/// running the swapping rounds of the reversed schedule swaps the halves of
/// the original block.
pub proof fn lemma_swap_rounds_reverse(b: Seq<u8>, key: Seq<u8>, sched: Seq<int>)
    requires
        b.len() == 8,
        key.len() == 32,
        schedule_in_range(sched),
    ensures
        apply_swap_rounds(swap_halves(apply_swap_rounds(b, key, sched)), key, sched.reverse())
            == swap_halves(b),
    decreases sched.len(),
{
    lemma_apply_rounds_len(b, key, sched);
    if sched.len() == 0 {
        assert(sched.reverse() =~= Seq::<int>::empty());
        assert(apply_swap_rounds(b, key, sched) == b);
        assert(apply_swap_rounds(swap_halves(b), key, Seq::<int>::empty()) == swap_halves(b));
    } else {
        let k0 = key_fragment(key, sched[0]);
        let b1 = round_spec(b, k0, false);
        assert(schedule_in_range(sched.skip(1))) by {
            assert(forall|i: int|
                0 <= i < sched.skip(1).len() ==> #[trigger] sched.skip(1)[i] == sched[i + 1]);
        }
        lemma_swap_rounds_reverse(b1, key, sched.skip(1));
        assert(sched.reverse() =~= sched.skip(1).reverse().push(sched[0]));
        assert(apply_swap_rounds(b, key, sched) == apply_swap_rounds(b1, key, sched.skip(1)));
        let a = apply_swap_rounds(b1, key, sched.skip(1));
        lemma_swap_rounds_snoc(swap_halves(a), key, sched.skip(1).reverse(), sched[0]);
        lemma_swap_round_conjugate(b, k0);
    }
}

/// The decryption key schedule is the encryption key schedule reversed; this
/// is what makes decryption undo encryption.
pub proof fn lemma_dec_schedule_is_reverse()
    ensures
        dec_schedule() =~= enc_schedule().reverse(),
{
    assert forall|i: int| 0 <= i < 32 implies dec_schedule()[i] == enc_schedule().reverse()[i] by {
        if i >= 8 {
            assert((i - 8) % 8 == i % 8);
            assert((31 - i) % 8 == 7 - i % 8);
        }
    }
}

/// Every entry of either schedule names one of the eight key fragments.
pub proof fn lemma_schedules_in_range()
    ensures
        schedule_in_range(enc_schedule()),
        schedule_in_range(dec_schedule()),
{
}

/// The central correctness property of the block cipher: decrypting an
/// encrypted block with the same key gives the block back.
pub proof fn lemma_block_round_trip(b: Seq<u8>, key: Seq<u8>)
    requires
        b.len() == 8,
        key.len() == 32,
    ensures
        dec_block_spec(enc_block_spec(b, key), key) == b,
{
    let e = enc_schedule();
    let d = dec_schedule();
    let u = e.take(31);
    let c = enc_block_spec(b, key);
    lemma_dec_schedule_is_reverse();
    lemma_schedules_in_range();
    assert(schedule_in_range(u)) by {
        assert(forall|i: int| 0 <= i < 31 ==> #[trigger] u[i] == e[i]);
    }
    assert(schedule_in_range(u.skip(1))) by {
        assert(forall|i: int| 0 <= i < 30 ==> #[trigger] u.skip(1)[i] == e[i + 1]);
    }
    // The encryption run is 31 swapping rounds and one terminal round.
    lemma_apply_rounds_split_last(b, key, e);
    let kl = key_fragment(key, e[31]);
    let a = apply_swap_rounds(b, key, u);
    lemma_apply_rounds_len(b, key, u);
    assert(c == round_spec(a, kl, true));
    // The first decryption round turns the terminal round into a plain swap.
    assert(d[0] == e[31]);
    assert(d.skip(1) =~= u.reverse());
    assert(apply_rounds(c, key, d) == apply_rounds(
        round_spec(c, key_fragment(key, d[0]), false),
        key,
        d.skip(1),
    ));
    lemma_swap_after_noswap(a, kl);
    assert(round_spec(c, key_fragment(key, d[0]), false) == swap_halves(a));
    assert(dec_block_spec(c, key) == apply_rounds(swap_halves(a), key, u.reverse()));
    // The remaining 31 decryption rounds undo the 31 swapping rounds.
    lemma_apply_rounds_split_last(swap_halves(a), key, u.reverse());
    assert(u.reverse()[30] == u[0]);
    assert(u.reverse().take(30) =~= u.skip(1).reverse());
    let k0 = key_fragment(key, u[0]);
    let b1 = round_spec(b, k0, false);
    assert(a == apply_swap_rounds(b1, key, u.skip(1)));
    lemma_swap_rounds_reverse(b1, key, u.skip(1));
    assert(apply_swap_rounds(swap_halves(a), key, u.skip(1).reverse()) == swap_halves(b1));
    lemma_noswap_after_swap(b, k0);
    assert(apply_rounds(swap_halves(a), key, u.reverse()) == round_spec(
        swap_halves(b1),
        k0,
        true,
    ));
}

/// Determinism: a block operation is a function of the block and the key
/// alone, so identical (block, key) pairs always produce identical outputs.
/// `encrypt_block` and `decrypt_block` promise that their results equal these
/// spec functions of their inputs' views, so no hidden state can reach them.
pub proof fn lemma_block_deterministic(b1: Seq<u8>, key1: Seq<u8>, b2: Seq<u8>, key2: Seq<u8>)
    requires
        b1 == b2,
        key1 == key2,
    ensures
        enc_block_spec(b1, key1) == enc_block_spec(b2, key2),
        dec_block_spec(b1, key1) == dec_block_spec(b2, key2),
{
}

/// The encryption-round fragment index, computed.
fn enc_key_index_exec(i: usize) -> (j: usize)
    requires
        i < 32,
    ensures
        j as int == enc_key_index(i as int),
        j < 8,
{
    if i < 24 {
        i % 8
    } else {
        31 - i
    }
}

/// The decryption-round fragment index, computed.
fn dec_key_index_exec(i: usize) -> (j: usize)
    requires
        i < 32,
    ensures
        j as int == dec_key_index(i as int),
        j < 8,
{
    if i < 8 {
        i
    } else {
        7 - (i - 8) % 8
    }
}

/// Encrypts one 8-byte block with a 32-byte key: 32 Feistel rounds in the
/// encryption key order, the last one terminal.
pub fn encrypt_block(data: &[u8], key: &[u8]) -> (r: Vec<u8>)
    requires
        data@.len() == 8,
        key@.len() == 32,
    ensures
        r@ == enc_block_spec(data@, key@),
        r@.len() == 8,
{
    let mut hashed_block: Vec<u8> = slice_to_vec(data);
    let mut i: usize = 0;
    while i < 31
        invariant
            i <= 31,
            data@.len() == 8,
            key@.len() == 32,
            hashed_block@.len() == 8,
            hashed_block@ == apply_swap_rounds(data@, key@, enc_schedule().take(i as int)),
        decreases 31 - i,
    {
        let j = enc_key_index_exec(i);
        let key_part = slice_subrange(key, 4 * j, 4 * j + 4);
        proof {
            lemma_swap_rounds_snoc(data@, key@, enc_schedule().take(i as int), j as int);
            assert(enc_schedule().take(i as int).push(j as int) =~= enc_schedule().take(
                i as int + 1,
            ));
        }
        hashed_block = crypt_round(hashed_block, key_part, false);
        i = i + 1;
    }
    let j = enc_key_index_exec(31);
    let key_part = slice_subrange(key, 4 * j, 4 * j + 4);
    let r = crypt_round(hashed_block, key_part, true);
    proof {
        lemma_apply_rounds_split_last(data@, key@, enc_schedule());
    }
    r
}

/// Decrypts one 8-byte block with a 32-byte key: 32 Feistel rounds in the
/// decryption key order, the last one terminal.
pub fn decrypt_block(data: &[u8], key: &[u8]) -> (r: Vec<u8>)
    requires
        data@.len() == 8,
        key@.len() == 32,
    ensures
        r@ == dec_block_spec(data@, key@),
        r@.len() == 8,
{
    let mut decrypted_block: Vec<u8> = slice_to_vec(data);
    let mut i: usize = 0;
    while i < 31
        invariant
            i <= 31,
            data@.len() == 8,
            key@.len() == 32,
            decrypted_block@.len() == 8,
            decrypted_block@ == apply_swap_rounds(data@, key@, dec_schedule().take(i as int)),
        decreases 31 - i,
    {
        let j = dec_key_index_exec(i);
        let key_part = slice_subrange(key, 4 * j, 4 * j + 4);
        proof {
            lemma_swap_rounds_snoc(data@, key@, dec_schedule().take(i as int), j as int);
            assert(dec_schedule().take(i as int).push(j as int) =~= dec_schedule().take(
                i as int + 1,
            ));
        }
        decrypted_block = crypt_round(decrypted_block, key_part, false);
        i = i + 1;
    }
    let j = dec_key_index_exec(31);
    let key_part = slice_subrange(key, 4 * j, 4 * j + 4);
    let r = crypt_round(decrypted_block, key_part, true);
    proof {
        lemma_apply_rounds_split_last(data@, key@, dec_schedule());
    }
    r
}

} // verus!
