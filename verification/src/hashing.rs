use vstd::prelude::*;

verus! {

/// The SHA-512 digest of a byte string, as the hash function defines it.
pub uninterp spec fn sha512_of(bytes: Seq<u8>) -> Seq<u8>;

/// Relies on `chksum_hash_sha2_512`: feeding `data` and then `tag` to the
/// incremental hasher digests their concatenation; the digest depends on
/// those bytes alone and is 64 bytes long.
#[verifier::external_body]
pub(crate) fn sha512_digest(data: &Vec<u8>, tag: &Vec<u8>) -> (r: Vec<u8>)
    ensures
        r@ == sha512_of(data@ + tag@),
        r@.len() == 64,
{
    let mut state = chksum_hash_sha2_512::new();
    state.update(data.as_slice());
    state.update(tag.as_slice());
    state.digest().into_inner().to_vec()
}

} // verus!
