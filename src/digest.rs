//! SHA-1, the digest that names a torrent and checks each piece.
use vstd::prelude::*;

verus! {

/// The SHA-1 digest of a byte string.
pub uninterp spec fn sha1_of(data: Seq<u8>) -> Seq<u8>;

/// Relies on `sha1::Sha1::digest` (through the `Digest` trait): the 20-byte SHA-1 digest of the
/// bytes, which depends on the bytes alone.
#[verifier::external_body]
pub(crate) fn calc_sha1_hash(piece_data: &[u8]) -> (r: [u8; 20])
    ensures
        r@ == sha1_of(piece_data@),
{
    <sha1::Sha1 as sha1::Digest>::digest(piece_data).into()
}

} // verus!
