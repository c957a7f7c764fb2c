use vstd::prelude::*;

verus! {

// The fixed 8x16 substitution table of the cipher (RFC 7836 parameter set
// id-tc26-gost-28147-param-Z).  Its 128 values are an external contract:
// every conforming counterpart must reproduce them bit for bit.

/// Row `r` of the substitution table, as a sequence of sixteen 4-bit values.
pub open spec fn sbox_row(r: int) -> Seq<u8> {
    if r == 0 {
        seq![0x0C, 0x04, 0x06, 0x02, 0x0A, 0x05, 0x0B, 0x09, 0x0E, 0x08, 0x0D, 0x07, 0x00, 0x03, 0x0F, 0x01]
    } else if r == 1 {
        seq![0x06, 0x08, 0x02, 0x03, 0x09, 0x0A, 0x05, 0x0C, 0x01, 0x0E, 0x04, 0x07, 0x0B, 0x0D, 0x00, 0x0F]
    } else if r == 2 {
        seq![0x0B, 0x03, 0x05, 0x08, 0x02, 0x0F, 0x0A, 0x0D, 0x0E, 0x01, 0x07, 0x04, 0x0C, 0x09, 0x06, 0x00]
    } else if r == 3 {
        seq![0x0C, 0x08, 0x02, 0x01, 0x0D, 0x04, 0x0F, 0x06, 0x07, 0x00, 0x0A, 0x05, 0x03, 0x0E, 0x09, 0x0B]
    } else if r == 4 {
        seq![0x07, 0x0F, 0x05, 0x0A, 0x08, 0x01, 0x06, 0x0D, 0x00, 0x09, 0x03, 0x0E, 0x0B, 0x04, 0x02, 0x0C]
    } else if r == 5 {
        seq![0x05, 0x0D, 0x0F, 0x06, 0x09, 0x02, 0x0C, 0x0A, 0x0B, 0x07, 0x08, 0x01, 0x04, 0x03, 0x0E, 0x00]
    } else if r == 6 {
        seq![0x08, 0x0E, 0x02, 0x05, 0x06, 0x09, 0x01, 0x0C, 0x0F, 0x04, 0x0B, 0x00, 0x0D, 0x0A, 0x03, 0x07]
    } else {
        seq![0x01, 0x07, 0x0E, 0x0D, 0x00, 0x05, 0x08, 0x03, 0x04, 0x0F, 0x0A, 0x06, 0x09, 0x0C, 0x0B, 0x02]
    }
}

/// The table entry in row `r`, column `n`.
pub open spec fn sbox_spec(r: int, n: int) -> u8
    recommends
        0 <= r < 8,
        0 <= n < 16,
{
    sbox_row(r)[n]
}

/// Every substitution-table entry is a 4-bit value.
pub proof fn lemma_sbox_bounded(r: int, n: int)
    requires
        0 <= r < 8,
        0 <= n < 16,
    ensures
        sbox_spec(r, n) < 16,
{
}

/// Looks the 4-bit value `n` up in row `r` of the substitution table.
pub fn sbox_lookup(r: usize, n: u8) -> (v: u8)
    requires
        r < 8,
        n < 16,
    ensures
        v == sbox_spec(r as int, n as int),
        v < 16,
{
    let row: [u8; 16] = 
    if r == 0 {
        [0x0C, 0x04, 0x06, 0x02, 0x0A, 0x05, 0x0B, 0x09, 0x0E, 0x08, 0x0D, 0x07, 0x00, 0x03, 0x0F, 0x01]
    } else if r == 1 {
        [0x06, 0x08, 0x02, 0x03, 0x09, 0x0A, 0x05, 0x0C, 0x01, 0x0E, 0x04, 0x07, 0x0B, 0x0D, 0x00, 0x0F]
    } else if r == 2 {
        [0x0B, 0x03, 0x05, 0x08, 0x02, 0x0F, 0x0A, 0x0D, 0x0E, 0x01, 0x07, 0x04, 0x0C, 0x09, 0x06, 0x00]
    } else if r == 3 {
        [0x0C, 0x08, 0x02, 0x01, 0x0D, 0x04, 0x0F, 0x06, 0x07, 0x00, 0x0A, 0x05, 0x03, 0x0E, 0x09, 0x0B]
    } else if r == 4 {
        [0x07, 0x0F, 0x05, 0x0A, 0x08, 0x01, 0x06, 0x0D, 0x00, 0x09, 0x03, 0x0E, 0x0B, 0x04, 0x02, 0x0C]
    } else if r == 5 {
        [0x05, 0x0D, 0x0F, 0x06, 0x09, 0x02, 0x0C, 0x0A, 0x0B, 0x07, 0x08, 0x01, 0x04, 0x03, 0x0E, 0x00]
    } else if r == 6 {
        [0x08, 0x0E, 0x02, 0x05, 0x06, 0x09, 0x01, 0x0C, 0x0F, 0x04, 0x0B, 0x00, 0x0D, 0x0A, 0x03, 0x07]
    } else {
        [0x01, 0x07, 0x0E, 0x0D, 0x00, 0x05, 0x08, 0x03, 0x04, 0x0F, 0x0A, 0x06, 0x09, 0x0C, 0x0B, 0x02]
    };
    proof {
        assert(row@ =~= sbox_row(r as int));
        lemma_sbox_bounded(r as int, n as int);
    }
    row[n as usize]
}

} // verus!
