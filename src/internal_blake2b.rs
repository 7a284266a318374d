use blake2::digest::{Update, VariableOutput};
use blake2::Blake2bVar;
use vstd::prelude::*;

use crate::h256::H256;

verus! {

/// The BLAKE2b digest with a 32-byte output of `data`.
pub uninterp spec fn blake2b_256(data: Seq<u8>) -> Seq<u8>;

/// Relies on blake2::Blake2bVar (`new(32)`, `update`, `finalize_variable`):
/// the 32-byte BLAKE2b digest of `data`, which depends on the bytes alone.
#[verifier::external_body]
fn blake2b_256_digest(data: &[u8]) -> (r: [u8; 32])
    ensures
        r@ == blake2b_256(data@),
{
    let mut hasher = Blake2bVar::new(32).unwrap();
    hasher.update(data);
    let mut out = [0u8; 32];
    hasher.finalize_variable(&mut out).unwrap();
    out
}

/// Domain string fed to every hasher before any data.
pub open spec fn personalization() -> Seq<u8> {
    seq![115u8, 112, 97, 114, 115, 101, 109, 101, 114, 107, 108, 101, 116, 114, 101, 101]
}

/// What a fresh hasher yields after being fed `data`.
pub open spec fn hash_of(data: Seq<u8>) -> Seq<u8> {
    blake2b_256(personalization() + data)
}

/// Incremental BLAKE2b-256 hasher, personalised for this tree.
pub struct Blake2bHasher {
    fed: Vec<u8>,
}

impl View for Blake2bHasher {
    type V = Seq<u8>;

    /// Everything fed so far, the personalization included.
    closed spec fn view(&self) -> Seq<u8> {
        self.fed@
    }
}

impl Default for Blake2bHasher {
    fn default() -> (r: Blake2bHasher)
        ensures
            r@ == personalization(),
    {
        Blake2bHasher::new()
    }
}

impl Blake2bHasher {
    /// A hasher that has been fed the personalization only.
    pub fn new() -> (r: Blake2bHasher)
        ensures
            r@ == personalization(),
    {
        let fed: Vec<u8> = vec![115u8, 112, 97, 114, 115, 101, 109, 101, 114, 107, 108, 101, 116, 114, 101, 101];
        assert(fed@ =~= personalization());
        Blake2bHasher { fed }
    }

    /// Feeds `bytes`.
    pub fn write_bytes(&mut self, bytes: &[u8])
        ensures
            final(self)@ == old(self)@ + bytes@,
    {
        self.fed.extend_from_slice(bytes);
    }

    /// The digest of everything fed.
    pub fn finish(self) -> (r: H256)
        ensures
            r@ == blake2b_256(self@),
    {
        H256::new(blake2b_256_digest(self.fed.as_slice()))
    }
}

} // verus!
