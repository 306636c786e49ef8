//! Little-endian encoding of 64-bit words.

use byteorder::{ByteOrder, LittleEndian};
use vstd::prelude::*;

verus! {

/// The word that the first eight bytes of `bytes` encode, least significant
/// byte first.
pub open spec fn le_u64(bytes: Seq<u8>) -> u64
    recommends
        bytes.len() >= 8,
{
    (bytes[0] as int
        + bytes[1] as int * 0x100
        + bytes[2] as int * 0x1_0000
        + bytes[3] as int * 0x100_0000
        + bytes[4] as int * 0x1_0000_0000
        + bytes[5] as int * 0x100_0000_0000
        + bytes[6] as int * 0x1_0000_0000_0000
        + bytes[7] as int * 0x100_0000_0000_0000) as u64
}

/// The eight bytes that encode `word`, least significant byte first.
pub open spec fn le_bytes(word: u64) -> Seq<u8> {
    seq![
        (word % 0x100) as u8,
        (word / 0x100 % 0x100) as u8,
        (word / 0x1_0000 % 0x100) as u8,
        (word / 0x100_0000 % 0x100) as u8,
        (word / 0x1_0000_0000 % 0x100) as u8,
        (word / 0x100_0000_0000 % 0x100) as u8,
        (word / 0x1_0000_0000_0000 % 0x100) as u8,
        (word / 0x100_0000_0000_0000 % 0x100) as u8,
    ]
}

/// Encoding undoes decoding: eight bytes are the encoding of the word they
/// decode to.
pub proof fn lemma_encode_decode(bytes: Seq<u8>)
    requires
        bytes.len() == 8,
    ensures
        le_bytes(le_u64(bytes)) == bytes,
{
    let (b0, b1, b2, b3) = (bytes[0], bytes[1], bytes[2], bytes[3]);
    let (b4, b5, b6, b7) = (bytes[4], bytes[5], bytes[6], bytes[7]);
    let word = le_u64(bytes);
    assert(word == b0 + b1 * 0x100 + b2 * 0x1_0000 + b3 * 0x100_0000 + b4 * 0x1_0000_0000
        + b5 * 0x100_0000_0000 + b6 * 0x1_0000_0000_0000 + b7 * 0x100_0000_0000_0000);
    assert({
        &&& word % 0x100 == b0
        &&& word / 0x100 % 0x100 == b1
        &&& word / 0x1_0000 % 0x100 == b2
        &&& word / 0x100_0000 % 0x100 == b3
        &&& word / 0x1_0000_0000 % 0x100 == b4
        &&& word / 0x100_0000_0000 % 0x100 == b5
        &&& word / 0x1_0000_0000_0000 % 0x100 == b6
        &&& word / 0x100_0000_0000_0000 % 0x100 == b7
    }) by (bit_vector)
        requires
            word == b0 + b1 * 0x100 + b2 * 0x1_0000 + b3 * 0x100_0000 + b4 * 0x1_0000_0000
                + b5 * 0x100_0000_0000 + b6 * 0x1_0000_0000_0000 + b7 * 0x100_0000_0000_0000,
    ;
    assert(le_bytes(word) =~= bytes);
}

/// `byteorder::LittleEndian::read_u64`: the word held in the first eight bytes
/// of `bytes`, least significant byte first. The outside function panics on a
/// shorter slice, which the precondition leaves out.
#[verifier::external_body]
pub(crate) fn read_u64(bytes: &[u8]) -> (word: u64)
    requires
        bytes@.len() >= 8,
    ensures
        word == le_u64(bytes@),
{
    LittleEndian::read_u64(bytes)
}

} // verus!
