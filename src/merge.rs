//! Combining two child digests into their parent, with domain separation.
use vstd::prelude::*;

use crate::h256::{zero_digest, H256};
use crate::internal_blake2b::{hash_of, Blake2bHasher};
use crate::internal_key::{pack, pack_bits};

verus! {

/// Tag that opens the hash input of a leaf.
pub const LEAF_TAG: u8 = 0;

/// Tag that opens the hash input of a branch.
pub const BRANCH_TAG: u8 = 1;

/// Hash input of the branch at height `h` and position `node`.
pub open spec fn merge_input(h: nat, node: Seq<bool>, l: Seq<u8>, r: Seq<u8>) -> Seq<u8> {
    seq![BRANCH_TAG, (h / 256) as u8, (h % 256) as u8] + pack(node) + l + r
}

/// Digest of the branch at height `h` and position `node` with children `l`
/// and `r`: zero when both children are zero.
pub open spec fn merge_digest(h: nat, node: Seq<bool>, l: Seq<u8>, r: Seq<u8>) -> Seq<u8> {
    if l == zero_digest() && r == zero_digest() {
        zero_digest()
    } else {
        hash_of(merge_input(h, node, l, r))
    }
}

/// Hash input of the leaf at path `node` holding value `v`.
pub open spec fn leaf_input(node: Seq<bool>, v: Seq<u8>) -> Seq<u8> {
    seq![LEAF_TAG, 0u8, 0u8] + pack(node) + v
}

/// Digest of the leaf at path `node` holding value `v`.
pub open spec fn leaf_digest(node: Seq<bool>, v: Seq<u8>) -> Seq<u8> {
    hash_of(leaf_input(node, v))
}

/// The branch digest at height `height` and position `node`.
pub fn merge(height: u16, node: &Vec<bool>, l: &H256, r: &H256) -> (d: H256)
    requires
        node@.len() == 256,
    ensures
        d@ == merge_digest(height as nat, node@, l@, r@),
{
    if l.is_zero() && r.is_zero() {
        return H256::zero();
    }
    let mut hasher = Blake2bHasher::new();
    let head: Vec<u8> = vec![BRANCH_TAG, (height / 256) as u8, (height % 256) as u8];
    let packed = pack_bits(node);
    hasher.write_bytes(head.as_slice());
    hasher.write_bytes(packed.as_slice());
    hasher.write_bytes(l.as_slice());
    hasher.write_bytes(r.as_slice());
    proof {
        let h = height as nat;
        assert(head@ =~= seq![BRANCH_TAG, (h / 256) as u8, (h % 256) as u8]);
        assert(hasher@ =~= crate::internal_blake2b::personalization() + merge_input(
            h,
            node@,
            l@,
            r@,
        ));
    }
    hasher.finish()
}

/// The digest of the leaf at path `node` holding `v`.
pub fn hash_leaf(node: &Vec<bool>, v: &H256) -> (d: H256)
    requires
        node@.len() == 256,
    ensures
        d@ == leaf_digest(node@, v@),
{
    let mut hasher = Blake2bHasher::new();
    let head: Vec<u8> = vec![LEAF_TAG, 0u8, 0u8];
    let packed = pack_bits(node);
    hasher.write_bytes(head.as_slice());
    hasher.write_bytes(packed.as_slice());
    hasher.write_bytes(v.as_slice());
    proof {
        assert(head@ =~= seq![LEAF_TAG, 0u8, 0u8]);
        assert(hasher@ =~= crate::internal_blake2b::personalization() + leaf_input(node@, v@));
    }
    hasher.finish()
}

} // verus!
