use crate::node::Node;
use crypto::digest::Digest;
use crypto::sha1::Sha1;
use vstd::prelude::*;

verus! {

/// The SHA-1 digest of a byte string.
pub uninterp spec fn sha1(data: Seq<u8>) -> Seq<u8>;

/// Number of bytes from which on the digest cannot be computed: the digest
/// counts its input in bits, in 64 bits.
pub const SHA1_LIMIT: u64 = 0x2000_0000_0000_0000;

/// Calls `crypto::sha1::Sha1` on one input: `new`, `input`, `result`. The
/// result is taken to be the SHA-1 digest of the input. The outside code
/// panics on inputs of 2^61 bytes or more, which are left out here.
#[verifier::external_body]
fn sha1_digest(data: &[u8]) -> (r: Node)
    requires
        data@.len() < SHA1_LIMIT,
    ensures
        r@ == sha1(data@),
{
    let mut hasher = Sha1::new();
    hasher.input(data);
    let mut bytes = [0u8; 20];
    hasher.result(&mut bytes);
    Node { bytes }
}

/// The SHA-1 digest of the bytes as a node; `None` for an input too long
/// to be hashed.
pub fn hash_bytes(data: &[u8]) -> (r: Option<Node>)
    ensures
        r is Some <==> data@.len() < SHA1_LIMIT,
        r is Some ==> r.unwrap()@ == sha1(data@),
{
    if (data.len() as u64) < SHA1_LIMIT {
        Some(sha1_digest(data))
    } else {
        None
    }
}

} // verus!
