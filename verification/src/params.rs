//! The fixed parameters every run shares: the fill byte that pads a short
//! chunk, and the 16-byte salt that both stretches the password and serves as
//! the cipher's initialization vector.

use vstd::prelude::*;

verus! {

/// The byte appended to a file when the payload runs out before its chunk is
/// full.
pub const FILL_BYTE: u8 = 0;

/// Number of rounds the password stretching performs.
pub const KEY_ROUNDS: u32 = 10_000;

/// The fixed 16-byte salt, reused as the cipher's initialization vector.
/// Being a constant, the same password always yields the same key and the
/// same ciphertext; that determinism is part of this crate's contract.
pub open spec fn salt_spec() -> Seq<u8> {
    seq![0x12u8, 0x34, 0x56, 0x78, 0x9a, 0xbc, 0xde, 0xf0, 0x12, 0x34, 0x56, 0x78, 0x9a, 0xbc, 0xde, 0xf0]
}

/// The salt as a vector, for handing to the key derivation and the cipher.
pub fn salt_bytes() -> (r: Vec<u8>)
    ensures
        r@ == salt_spec(),
        r@.len() == 16,
{
    let mut r: Vec<u8> = Vec::new();
    r.push(0x12);
    r.push(0x34);
    r.push(0x56);
    r.push(0x78);
    r.push(0x9a);
    r.push(0xbc);
    r.push(0xde);
    r.push(0xf0);
    r.push(0x12);
    r.push(0x34);
    r.push(0x56);
    r.push(0x78);
    r.push(0x9a);
    r.push(0xbc);
    r.push(0xde);
    r.push(0xf0);
    proof {
        assert(r@ =~= salt_spec());
    }
    r
}

} // verus!
