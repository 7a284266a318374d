use blake2::digest::{Update, VariableOutput};
use blake2::Blake2bVar;
use nam_sparse_merkle_tree::internal_key::{clear_bits_below, pack_bits, path_bits};
use nam_sparse_merkle_tree::merge::{hash_leaf, merge};
use nam_sparse_merkle_tree::{
    Blake2bHasher, BranchNode, CompiledMerkleProof, Error, LeafNode, MerkleProof, SparseMerkleTree,
    H256,
};

fn h(b: u8) -> H256 {
    let mut a = [0u8; 32];
    a[0] = b;
    a[31] = b.wrapping_mul(7);
    H256::new(a)
}

fn key(i: u32) -> H256 {
    let mut hasher = Blake2bHasher::new();
    hasher.write_bytes(&i.to_le_bytes());
    hasher.finish()
}

fn zero() -> H256 {
    H256::zero()
}

#[test]
fn hasher_matches_blake2b_with_personalization() {
    let mut hasher = Blake2bHasher::new();
    hasher.write_bytes(b"hello");
    let got = hasher.finish();
    let mut expect = Blake2bVar::new(32).unwrap();
    expect.update(b"sparsemerkletree");
    expect.update(b"hello");
    let mut out = [0u8; 32];
    expect.finalize_variable(&mut out).unwrap();
    assert_eq!(got.as_bytes(), &out);
    assert_ne!(&out[..5], b"hello");
}

#[test]
fn hasher_incremental_equals_one_shot() {
    let mut a = Blake2bHasher::new();
    a.write_bytes(b"ab");
    a.write_bytes(b"cd");
    let mut b = Blake2bHasher::new();
    b.write_bytes(b"abcd");
    assert_eq!(a.finish(), b.finish());
}

#[test]
fn concrete_scenario() {
    let mut tree = SparseMerkleTree::new_empty();
    assert!(tree.root().is_zero());
    let k1 = key(1);
    let v1 = h(9);
    let r1 = tree.update(k1, v1).unwrap();
    assert!(!r1.is_zero());
    assert_eq!(tree.root(), r1);
    assert_eq!(tree.get(&k1), v1);
    assert_eq!(tree.get(&key(2)), zero());
    let proof = tree.merkle_proof(vec![k1]).unwrap();
    assert_eq!(proof.verify(&r1, &vec![(k1, v1)]), Ok(true));
    let r = tree.update(k1, zero()).unwrap();
    assert!(r.is_zero());
    assert!(tree.root().is_zero());
    assert_eq!(tree.get(&k1), zero());
    assert!(tree.is_empty());
}

#[test]
fn update_same_value_twice_is_idempotent() {
    let mut tree = SparseMerkleTree::new_empty();
    tree.update(key(5), h(1)).unwrap();
    let once = tree.update(key(6), h(2)).unwrap();
    let twice = tree.update(key(6), h(2)).unwrap();
    assert_eq!(once, twice);
    assert_eq!(tree.leaf_count(), 2);
}

#[test]
fn deleting_absent_key_keeps_root() {
    let mut tree = SparseMerkleTree::new_empty();
    let r = tree.update(key(1), h(3)).unwrap();
    let r2 = tree.update(key(2), zero()).unwrap();
    assert_eq!(r, r2);
    assert_eq!(tree.leaf_count(), 1);
}

#[test]
fn deleting_all_keys_returns_to_zero_root() {
    let mut tree = SparseMerkleTree::new_empty();
    for i in 0..8u32 {
        tree.update(key(i), h(i as u8 + 1)).unwrap();
    }
    assert!(!tree.root().is_zero());
    for i in 0..8u32 {
        tree.update(key(i), zero()).unwrap();
    }
    assert!(tree.root().is_zero());
    assert!(tree.validate());
}

#[test]
fn root_is_independent_of_insertion_order() {
    let mut a = SparseMerkleTree::new_empty();
    let mut b = SparseMerkleTree::new_empty();
    for i in 0..5u32 {
        a.update(key(i), h(i as u8 + 1)).unwrap();
    }
    for i in (0..5u32).rev() {
        b.update(key(i), h(i as u8 + 1)).unwrap();
    }
    assert_eq!(a.root(), b.root());
}

#[test]
fn overwrite_changes_value_and_root() {
    let mut tree = SparseMerkleTree::new_empty();
    let r1 = tree.update(key(1), h(1)).unwrap();
    let r2 = tree.update(key(1), h(2)).unwrap();
    assert_ne!(r1, r2);
    assert_eq!(tree.get(&key(1)), h(2));
    assert_eq!(tree.leaf_count(), 1);
}

#[test]
fn round_trip_proof_for_many_keys() {
    let mut tree = SparseMerkleTree::new_empty();
    for i in 0..10u32 {
        tree.update(key(i), h(i as u8 + 1)).unwrap();
    }
    tree.update(key(3), zero()).unwrap();
    let keys: Vec<H256> = vec![key(0), key(3), key(7), key(9), key(42)];
    let leaves: Vec<(H256, H256)> = keys.iter().map(|k| (*k, tree.get(k))).collect();
    let proof = tree.merkle_proof(keys).unwrap();
    assert_eq!(proof.key_count(), 5);
    assert_eq!(proof.verify(&tree.root(), &leaves), Ok(true));
}

#[test]
fn exclusion_proof_verifies() {
    let mut tree = SparseMerkleTree::new_empty();
    for i in 0..4u32 {
        tree.update(key(i), h(i as u8 + 1)).unwrap();
    }
    let absent = key(100);
    let proof = tree.merkle_proof(vec![absent]).unwrap();
    assert_eq!(proof.verify(&tree.root(), &vec![(absent, zero())]), Ok(true));
    assert_eq!(proof.verify(&tree.root(), &vec![(absent, h(1))]), Ok(false));
}

#[test]
fn proof_with_wrong_value_fails() {
    let mut tree = SparseMerkleTree::new_empty();
    tree.update(key(1), h(1)).unwrap();
    tree.update(key(2), h(2)).unwrap();
    let proof = tree.merkle_proof(vec![key(1)]).unwrap();
    assert_eq!(proof.verify(&tree.root(), &vec![(key(1), h(2))]), Ok(false));
    assert_eq!(proof.verify(&h(77), &vec![(key(1), h(1))]), Ok(false));
}

#[test]
fn duplicate_keys_are_collapsed() {
    let mut tree = SparseMerkleTree::new_empty();
    tree.update(key(1), h(1)).unwrap();
    tree.update(key(2), h(2)).unwrap();
    let proof = tree.merkle_proof(vec![key(1), key(2), key(1)]).unwrap();
    assert_eq!(proof.key_count(), 2);
    let leaves = vec![(key(1), h(1)), (key(2), h(2))];
    assert_eq!(proof.verify(&tree.root(), &leaves), Ok(true));
}

#[test]
fn empty_key_list_is_invalid_input() {
    let tree = SparseMerkleTree::new_empty();
    assert!(matches!(tree.merkle_proof(vec![]), Err(Error::InvalidInput)));
}

#[test]
fn proof_on_empty_tree_has_no_siblings() {
    let tree = SparseMerkleTree::new_empty();
    let proof = tree.merkle_proof(vec![key(1)]).unwrap();
    assert_eq!(proof.sibling_count(), 0);
    for hgt in 0..256 {
        assert!(proof.hint(0, hgt));
    }
    assert_eq!(proof.verify(&zero(), &vec![(key(1), zero())]), Ok(true));
}

#[test]
fn single_leaf_proof_hints_all_zero_siblings() {
    let mut tree = SparseMerkleTree::new_empty();
    tree.update(key(1), h(1)).unwrap();
    let proof = tree.merkle_proof(vec![key(1)]).unwrap();
    assert_eq!(proof.sibling_count(), 0);
}

#[test]
fn malformed_proofs_are_rejected() {
    let mut tree = SparseMerkleTree::new_empty();
    tree.update(key(1), h(1)).unwrap();
    tree.update(key(2), h(2)).unwrap();
    let proof = tree.merkle_proof(vec![key(1)]).unwrap();
    let root = tree.root();
    let leaves = vec![(key(1), h(1))];
    assert!(proof.sibling_count() >= 1);
    // leaf count differs from the proof's key count
    assert_eq!(
        proof.verify(&root, &vec![(key(1), h(1)), (key(2), h(2))]),
        Err(Error::MalformedProof)
    );
    // a sibling left over
    let hints: Vec<Vec<bool>> = vec![(0..256).map(|i| proof.hint(0, i)).collect()];
    let mut sibs: Vec<H256> = (0..proof.sibling_count()).map(|i| proof.sibling(i)).collect();
    sibs.push(h(5));
    let extra = MerkleProof::new(hints.clone(), sibs);
    assert_eq!(extra.verify(&root, &leaves), Err(Error::MalformedProof));
    // siblings missing
    let short = MerkleProof::new(hints, vec![]);
    assert_eq!(short.verify(&root, &leaves), Err(Error::MalformedProof));
    // a hint vector of the wrong length
    let bad = MerkleProof::new(vec![vec![true; 10]], vec![]);
    assert_eq!(bad.verify(&root, &leaves), Err(Error::MalformedProof));
}

#[test]
fn compiled_proof_round_trips() {
    let mut tree = SparseMerkleTree::new_empty();
    for i in 0..6u32 {
        tree.update(key(i), h(i as u8 + 1)).unwrap();
    }
    let keys = vec![key(1), key(4)];
    let leaves: Vec<(H256, H256)> = keys.iter().map(|k| (*k, tree.get(k))).collect();
    let proof = tree.merkle_proof(keys).unwrap();
    let compiled = proof.compile();
    let bytes = compiled.as_slice();
    assert_eq!(&bytes[0..4], &2u32.to_le_bytes());
    assert_eq!(&bytes[4..8], &64u32.to_le_bytes());
    assert_eq!(bytes.len(), 8 + 64 + 32 * proof.sibling_count());
    let back = compiled.decompile().unwrap();
    assert_eq!(back.key_count(), proof.key_count());
    assert_eq!(back.sibling_count(), proof.sibling_count());
    for i in 0..2 {
        for hgt in 0..256 {
            assert_eq!(back.hint(i, hgt), proof.hint(i, hgt));
        }
    }
    for i in 0..proof.sibling_count() {
        assert_eq!(back.sibling(i), proof.sibling(i));
    }
    assert_eq!(compiled.verify(&tree.root(), &leaves), Ok(true));
}

#[test]
fn malformed_compiled_bytes_are_rejected() {
    let short = CompiledMerkleProof::new(vec![1, 0, 0]);
    assert!(matches!(short.decompile(), Err(Error::MalformedProof)));
    let mut bytes = vec![1u8, 0, 0, 0, 32, 0, 0, 0];
    bytes.extend_from_slice(&[0xffu8; 32]);
    bytes.push(7);
    let ragged = CompiledMerkleProof::new(bytes);
    assert!(matches!(ragged.decompile(), Err(Error::MalformedProof)));
    let wrong_len = CompiledMerkleProof::new(vec![1u8, 0, 0, 0, 31, 0, 0, 0]);
    assert!(matches!(wrong_len.decompile(), Err(Error::MalformedProof)));
}

#[test]
fn validate_holds_after_updates_and_catches_corruption() {
    let mut tree = SparseMerkleTree::new_empty();
    for i in 0..6u32 {
        tree.update(key(i), h(i as u8 + 1)).unwrap();
        assert!(tree.validate());
    }
    let root = tree.root();
    let mut leaves = tree.leaves();
    let mut bytes = *leaves[2].value.as_bytes();
    bytes[3] ^= 1;
    leaves[2] = LeafNode { key: leaves[2].key, value: H256::new(bytes) };
    assert!(!SparseMerkleTree::new(root, leaves, tree.branches()).validate());
    let mut zeroed = tree.leaves();
    zeroed[0].value = zero();
    assert!(!SparseMerkleTree::new(root, zeroed, tree.branches()).validate());
    let mut dup = tree.leaves();
    dup.push(dup[0]);
    assert!(!SparseMerkleTree::new(root, dup, tree.branches()).validate());
    let mut branches = tree.branches();
    let mut d = *branches[5].digest.as_bytes();
    d[0] ^= 0x80;
    branches[5] = BranchNode { height: branches[5].height, node: branches[5].node, digest: H256::new(d) };
    assert!(!SparseMerkleTree::new(root, tree.leaves(), branches).validate());
    let mut missing = tree.branches();
    missing.remove(0);
    assert!(!SparseMerkleTree::new(root, tree.leaves(), missing).validate());
    let mut extra = tree.branches();
    extra.push(extra[1]);
    assert!(!SparseMerkleTree::new(root, tree.leaves(), extra).validate());
    let intact = SparseMerkleTree::new(root, tree.leaves(), tree.branches());
    assert!(intact.validate());
}

#[test]
fn only_non_zero_branches_are_stored() {
    let mut tree = SparseMerkleTree::new_empty();
    tree.update(key(1), h(1)).unwrap();
    // one leaf: exactly its 256 ancestors are non-zero
    assert_eq!(tree.branches().len(), 256);
    for b in tree.branches() {
        assert!(!b.digest.is_zero());
    }
    tree.update(key(1), zero()).unwrap();
    assert_eq!(tree.branches().len(), 0);
    assert!(tree.validate());
}

#[test]
fn distinct_values_give_distinct_roots() {
    let mut a = SparseMerkleTree::new_empty();
    let mut b = SparseMerkleTree::new_empty();
    a.update(key(1), h(1)).unwrap();
    b.update(key(2), h(1)).unwrap();
    assert_ne!(a.root(), b.root());
}

#[test]
fn shared_siblings_are_carried_once() {
    let mut tree = SparseMerkleTree::new_empty();
    for i in 0..12u32 {
        tree.update(key(i), h(i as u8 + 1)).unwrap();
    }
    // two keys whose paths agree on the top bit share at least the sibling below the root
    let top = |k: &H256| k.as_bytes()[31] >> 7;
    let a = key(0);
    let b = (1..12u32).map(key).find(|k| top(k) == top(&a)).unwrap();
    let pa = tree.merkle_proof(vec![a]).unwrap();
    let pb = tree.merkle_proof(vec![b]).unwrap();
    let both = tree.merkle_proof(vec![a, b]).unwrap();
    assert!(both.sibling_count() < pa.sibling_count() + pb.sibling_count());
    let leaves = vec![(a, tree.get(&a)), (b, tree.get(&b))];
    assert_eq!(both.verify(&tree.root(), &leaves), Ok(true));
    let swapped = vec![(b, tree.get(&b)), (a, tree.get(&a))];
    assert_ne!(both.verify(&tree.root(), &swapped), Ok(true));
    let all: Vec<H256> = (0..12u32).map(key).collect();
    let leaves: Vec<(H256, H256)> = all.iter().map(|k| (*k, tree.get(k))).collect();
    let proof = tree.merkle_proof(all).unwrap();
    assert_eq!(proof.verify(&tree.root(), &leaves), Ok(true));
    assert_eq!(proof.compile().verify(&tree.root(), &leaves), Ok(true));
}

fn blake(parts: &[&[u8]]) -> [u8; 32] {
    let mut hasher = Blake2bVar::new(32).unwrap();
    hasher.update(b"sparsemerkletree");
    for p in parts {
        hasher.update(p);
    }
    let mut out = [0u8; 32];
    hasher.finalize_variable(&mut out).unwrap();
    out
}

#[test]
fn leaf_digest_formula() {
    let k = key(3);
    let v = h(4);
    let d = hash_leaf(&path_bits(&k), &v);
    let expect = blake(&[&[0u8, 0, 0], k.as_bytes(), v.as_bytes()]);
    assert_eq!(d.as_bytes(), &expect);
}

#[test]
fn branch_digest_formula_and_zero_collapse() {
    let k = key(8);
    let node = clear_bits_below(&path_bits(&k), 200);
    let l = h(1);
    let r = zero();
    let d = merge(200, &node, &l, &r);
    let packed = pack_bits(&node);
    let expect = blake(&[&[1u8, 0, 200], &packed, l.as_bytes(), r.as_bytes()]);
    assert_eq!(d.as_bytes(), &expect);
    assert!(merge(200, &node, &zero(), &zero()).is_zero());
    let top = merge(256, &clear_bits_below(&path_bits(&k), 256), &l, &r);
    let expect_top = blake(&[&[1u8, 1, 0], &[0u8; 32], l.as_bytes(), r.as_bytes()]);
    assert_eq!(top.as_bytes(), &expect_top);
}

#[test]
fn single_leaf_root_is_the_climb_of_its_leaf() {
    let k = key(11);
    let v = h(12);
    let mut tree = SparseMerkleTree::new_empty();
    let root = tree.update(k, v).unwrap();
    let bits = path_bits(&k);
    let mut cur = hash_leaf(&bits, &v);
    for height in 0..256usize {
        let parent = clear_bits_below(&bits, height + 1);
        cur = if bits[height] {
            merge((height + 1) as u16, &parent, &zero(), &cur)
        } else {
            merge((height + 1) as u16, &parent, &cur, &zero())
        };
    }
    assert_eq!(root, cur);
}
