//! Hashes of byte strings.

use vstd::prelude::*;

use crate::defs::HashId;

verus! {

/// The SHA-3 sum of a byte string, with 256 bits.
pub uninterp spec fn sha3(data: Seq<u8>) -> Seq<u8>;

/// `tiny_keccak::sha3_256`. The sum depends on the data alone.
#[verifier::external_body]
pub(crate) fn sha3_256(data: &[u8]) -> (r: HashId)
    ensures
        r@ == sha3(data@),
{
    tiny_keccak::sha3_256(data)
}

} // verus!
