//! The tree engine: a sparse store of non-zero leaves and the root that
//! commits to them.
use vstd::prelude::*;

use crate::error::Error;
use crate::h256::{zero_digest, H256};
use crate::internal_key::{
    clear_below, clear_bits_below, in_subtree, key_bits, lemma_key_bits_injective,
    lemma_pack_key_bits, lemma_unpack_pack, pack, pack_key, path_bits,
};
use crate::store::{
    at, branches_ok, find_branch, has_at, branches_valid, cleared, lemma_raise_bound, lemma_restage, set_branch,
    staged_hash, stored_branch, BranchNode,
};
use crate::merge::{hash_leaf, leaf_digest, merge, merge_digest};
use crate::KEY_LIMIT;

verus! {

/// A stored leaf: a key and its non-zero value.
#[derive(Debug, Clone, Copy)]
pub struct LeafNode {
    pub key: H256,
    pub value: H256,
}

/// The value stored under path `k`, or the zero value.
pub open spec fn lookup(m: Map<Seq<bool>, Seq<u8>>, k: Seq<bool>) -> Seq<u8> {
    if m.contains_key(k) {
        m[k]
    } else {
        zero_digest()
    }
}

/// The contents after writing `v` under `k`: writing zero deletes.
pub open spec fn apply_update(m: Map<Seq<bool>, Seq<u8>>, k: Seq<bool>, v: Seq<u8>) -> Map<
    Seq<bool>,
    Seq<u8>,
> {
    if v == zero_digest() {
        m.remove(k)
    } else {
        m.insert(k, v)
    }
}

/// Digest of the node at height `h` and position `node` of the tree holding `m`.
/// The children of a node sit at height `h - 1`: the left one at the same
/// position, the right one with bit `h - 1` set.
pub open spec fn node_hash(m: Map<Seq<bool>, Seq<u8>>, h: nat, node: Seq<bool>) -> Seq<u8>
    decreases h,
{
    if h == 0 {
        if m.contains_key(node) {
            leaf_digest(node, m[node])
        } else {
            zero_digest()
        }
    } else {
        merge_digest(
            h,
            node,
            node_hash(m, (h - 1) as nat, node),
            node_hash(m, (h - 1) as nat, node.update(h - 1, true)),
        )
    }
}

/// The position of the root.
pub open spec fn zero_path() -> Seq<bool> {
    Seq::new(256, |i: int| false)
}

/// The root digest of the tree holding `m`.
pub open spec fn root_of(m: Map<Seq<bool>, Seq<u8>>) -> Seq<u8> {
    node_hash(m, 256, zero_path())
}

/// A node none of whose keys is present has the zero digest.
pub proof fn lemma_empty_subtree(m: Map<Seq<bool>, Seq<u8>>, h: nat, node: Seq<bool>)
    requires
        node.len() == 256,
        h <= 256,
        forall|k: Seq<bool>| #[trigger] m.contains_key(k) ==> !in_subtree(k, h as int, node),
    ensures
        node_hash(m, h, node) == zero_digest(),
    decreases h,
{
    if h == 0 {
        assert(in_subtree(node, 0, node));
    } else {
        let r = node.update(h - 1, true);
        assert forall|k: Seq<bool>| #[trigger] m.contains_key(k) implies !in_subtree(
            k,
            h - 1,
            node,
        ) by {
            if in_subtree(k, h - 1, node) {
                assert(in_subtree(k, h as int, node));
            }
        }
        assert forall|k: Seq<bool>| #[trigger] m.contains_key(k) implies !in_subtree(
            k,
            h - 1,
            r,
        ) by {
            if in_subtree(k, h - 1, r) {
                assert forall|i: int| h <= i < 256 implies k[i] == node[i] by {
                    assert(k[i] == r[i]);
                }
                assert(in_subtree(k, h as int, node));
            }
        }
        lemma_empty_subtree(m, (h - 1) as nat, node);
        lemma_empty_subtree(m, (h - 1) as nat, r);
    }
}

/// Keys are pairwise distinct, values non-zero, and their number within the limit.
pub open spec fn leaves_ok(s: Seq<LeafNode>) -> bool {
    &&& s.len() <= KEY_LIMIT
    &&& forall|j: int| 0 <= j < s.len() ==> #[trigger] s[j].value@ != zero_digest()
    &&& forall|i: int, j: int|
        0 <= i < s.len() && 0 <= j < s.len() && i != j ==> #[trigger] s[i].key@ != #[trigger] s[j].key@
}

/// The contents held by a list of leaves, keyed by path.
pub open spec fn model_of(s: Seq<LeafNode>) -> Map<Seq<bool>, Seq<u8>> {
    Map::new(
        |k: Seq<bool>| exists|j: int| 0 <= j < s.len() && #[trigger] key_bits(s[j].key@) == k,
        |k: Seq<bool>| s[choose|j: int| 0 <= j < s.len() && #[trigger] key_bits(s[j].key@) == k].value@,
    )
}

/// Each leaf is found in the contents under its own path.
pub proof fn lemma_model_at(s: Seq<LeafNode>, j: int)
    requires
        leaves_ok(s),
        0 <= j < s.len(),
    ensures
        model_of(s).contains_key(key_bits(s[j].key@)),
        model_of(s)[key_bits(s[j].key@)] == s[j].value@,
{
    let k = key_bits(s[j].key@);
    assert(0 <= j < s.len() && key_bits(s[j].key@) == k);
    let c = choose|c: int| 0 <= c < s.len() && #[trigger] key_bits(s[c].key@) == k;
    lemma_key_bits_injective(s[c].key@, s[j].key@);
}

/// Contents that agree with every leaf and hold nothing else are those of the leaves.
pub proof fn lemma_model_ext(s: Seq<LeafNode>, m: Map<Seq<bool>, Seq<u8>>)
    requires
        leaves_ok(s),
        forall|j: int|
            0 <= j < s.len() ==> #[trigger] m.contains_key(key_bits(s[j].key@)) && m[key_bits(
                s[j].key@,
            )] == s[j].value@,
        forall|k: Seq<bool>|
            #[trigger] m.contains_key(k) ==> exists|j: int|
                0 <= j < s.len() && #[trigger] key_bits(s[j].key@) == k,
    ensures
        model_of(s) == m,
{
    assert forall|k: Seq<bool>| #[trigger] model_of(s).contains_key(k) implies m.contains_key(k)
        && model_of(s)[k] == m[k] by {
        let j = choose|j: int| 0 <= j < s.len() && #[trigger] key_bits(s[j].key@) == k;
        lemma_model_at(s, j);
    }
    assert forall|k: Seq<bool>| #[trigger] m.contains_key(k) implies model_of(s).contains_key(k) by {
        let j = choose|j: int| 0 <= j < s.len() && #[trigger] key_bits(s[j].key@) == k;
        lemma_model_at(s, j);
    }
    assert(model_of(s) =~= m);
}

/// The path bits of every leaf, in order.
pub(crate) fn leaf_paths(leaves: &Vec<LeafNode>) -> (r: Vec<Vec<bool>>)
    ensures
        r@.len() == leaves@.len(),
        forall|j: int| 0 <= j < r@.len() ==> (#[trigger] r@[j])@ == key_bits(leaves@[j].key@),
{
    let mut r: Vec<Vec<bool>> = Vec::new();
    let mut j: usize = 0;
    while j < leaves.len()
        invariant
            j <= leaves@.len(),
            r@.len() == j,
            forall|t: int| 0 <= t < j ==> (#[trigger] r@[t])@ == key_bits(leaves@[t].key@),
        decreases leaves@.len() - j,
    {
        r.push(path_bits(&leaves[j].key));
        j = j + 1;
    }
    r
}

/// Digest of the node at height `h` and position `node`, where `idx` lists
/// exactly the leaves whose paths run through that node.
pub(crate) fn subtree_root(
    leaves: &Vec<LeafNode>,
    paths: &Vec<Vec<bool>>,
    idx: Vec<usize>,
    h: usize,
    node: Vec<bool>,
    out: &mut Vec<BranchNode>,
) -> (r: H256)
    requires
        leaves_ok(leaves@),
        paths@.len() == leaves@.len(),
        forall|j: int| 0 <= j < paths@.len() ==> (#[trigger] paths@[j])@ == key_bits(leaves@[j].key@),
        h <= 256,
        node@.len() == 256,
        forall|i: int| 0 <= i < h ==> !node@[i],
        forall|t: int|
            0 <= t < idx@.len() ==> (#[trigger] idx@[t]) < leaves@.len() && in_subtree(
                key_bits(leaves@[idx@[t] as int].key@),
                h as int,
                node@,
            ),
        forall|j: int|
            0 <= j < leaves@.len() && in_subtree(key_bits(#[trigger] leaves@[j].key@), h as int, node@)
                ==> idx@.contains(j as usize),
    ensures
        r@ == node_hash(model_of(leaves@), h as nat, node@),
        final(out)@.len() >= old(out)@.len(),
        forall|i: int| 0 <= i < old(out)@.len() ==> final(out)@[i] == old(out)@[i],
        forall|j: int|
            old(out)@.len() <= j < final(out)@.len() ==> rebuilt_entry(
                #[trigger] final(out)@[j],
                model_of(leaves@),
                h as int,
                node@,
            ),
        forall|hh: nat, n: Seq<bool>|
            1 <= hh <= h && cleared(n, hh as int) && in_subtree(n, h as int, node@) && #[trigger] node_hash(
                model_of(leaves@),
                hh,
                n,
            ) != zero_digest() ==> has_at(final(out)@, hh, pack(n)),
    decreases h,
{
    let ghost m = model_of(leaves@);
    if idx.len() == 0 {
        proof {
            assert forall|k: Seq<bool>| #[trigger] m.contains_key(k) implies !in_subtree(
                k,
                h as int,
                node@,
            ) by {
                let j = choose|j: int| 0 <= j < leaves@.len() && #[trigger] key_bits(leaves@[j].key@) == k;
                if in_subtree(k, h as int, node@) {
                    assert(idx@.contains(j as usize));
                }
            }
            lemma_empty_subtree(m, h as nat, node@);
            assert forall|hh: nat, n: Seq<bool>|
                1 <= hh <= h && cleared(n, hh as int) && in_subtree(n, h as int, node@)
                    implies #[trigger] node_hash(m, hh, n) == zero_digest() by {
                assert forall|k: Seq<bool>| #[trigger] m.contains_key(k) implies !in_subtree(k, hh as int, n) by {
                    if in_subtree(k, hh as int, n) {
                        assert(in_subtree(k, h as int, node@));
                    }
                }
                lemma_empty_subtree(m, hh, n);
            }
        }
        return H256::zero();
    }
    if h == 0 {
        let j = idx[0];
        proof {
            assert(in_subtree(key_bits(leaves@[j as int].key@), 0, node@));
            assert(key_bits(leaves@[j as int].key@) =~= node@);
            lemma_model_at(leaves@, j as int);
        }
        return hash_leaf(&node, &leaves[j].value);
    }
    let mut left: Vec<usize> = Vec::new();
    let mut right: Vec<usize> = Vec::new();
    let mut t: usize = 0;
    let ghost rnode = node@.update(h - 1, true);
    while t < idx.len()
        invariant
            t <= idx@.len(),
            0 < h <= 256,
            node@.len() == 256,
            rnode == node@.update(h - 1, true),
            !node@[h - 1],
            paths@.len() == leaves@.len(),
            forall|j: int| 0 <= j < paths@.len() ==> (#[trigger] paths@[j])@ == key_bits(leaves@[j].key@),
            forall|u: int|
                0 <= u < idx@.len() ==> (#[trigger] idx@[u]) < leaves@.len() && in_subtree(
                    key_bits(leaves@[idx@[u] as int].key@),
                    h as int,
                    node@,
                ),
            forall|u: int|
                0 <= u < left@.len() ==> (#[trigger] left@[u]) < leaves@.len() && in_subtree(
                    key_bits(leaves@[left@[u] as int].key@),
                    h - 1,
                    node@,
                ),
            forall|u: int|
                0 <= u < right@.len() ==> (#[trigger] right@[u]) < leaves@.len() && in_subtree(
                    key_bits(leaves@[right@[u] as int].key@),
                    h - 1,
                    rnode,
                ),
            forall|u: int|
                0 <= u < t ==> if key_bits(leaves@[idx@[u] as int].key@)[h - 1] {
                    right@.contains(#[trigger] idx@[u])
                } else {
                    left@.contains(idx@[u])
                },
        decreases idx@.len() - t,
    {
        let j = idx[t];
        let ghost kb = key_bits(leaves@[j as int].key@);
        let ghost old_left = left@;
        let ghost old_right = right@;
        if paths[j][h - 1] {
            proof {
                assert forall|i: int| h - 1 <= i < 256 implies kb[i] == rnode[i] by {
                    if i >= h {
                        assert(kb[i] == node@[i]);
                    }
                }
            }
            right.push(j);
            assert(right@.last() == j);
        } else {
            proof {
                assert forall|i: int| h - 1 <= i < 256 implies kb[i] == node@[i] by {
                    if i >= h {
                        assert(kb[i] == node@[i]);
                    }
                }
            }
            left.push(j);
            assert(left@.last() == j);
        }
        proof {
            assert forall|u: int| 0 <= u < t + 1 implies if key_bits(leaves@[idx@[u] as int].key@)[h
                - 1] {
                right@.contains(#[trigger] idx@[u])
            } else {
                left@.contains(idx@[u])
            } by {
                if u < t {
                    let w = idx@[u];
                    if key_bits(leaves@[w as int].key@)[h - 1] {
                        assert(old_right.contains(w));
                        let p = choose|p: int| 0 <= p < old_right.len() && old_right[p] == w;
                        assert(right@[p] == w);
                    } else {
                        assert(old_left.contains(w));
                        let p = choose|p: int| 0 <= p < old_left.len() && old_left[p] == w;
                        assert(left@[p] == w);
                    }
                } else {
                    if key_bits(leaves@[j as int].key@)[h - 1] {
                        assert(right@[right@.len() - 1] == j);
                    } else {
                        assert(left@[left@.len() - 1] == j);
                    }
                }
            }
        }
        t = t + 1;
    }
    let mut rnode_exec = node.clone();
    rnode_exec.set(h - 1, true);
    proof {
        assert(rnode_exec@ =~= rnode);
        assert forall|j: int|
            0 <= j < leaves@.len() && in_subtree(key_bits(#[trigger] leaves@[j].key@), h - 1, node@)
                implies left@.contains(j as usize) by {
            let kb = key_bits(leaves@[j].key@);
            assert(in_subtree(kb, h as int, node@));
            let u = choose|u: int| 0 <= u < idx@.len() && idx@[u] == j as usize;
            assert(idx@[u] == j as usize);
            assert(!kb[h - 1]);
        }
        assert forall|j: int|
            0 <= j < leaves@.len() && in_subtree(key_bits(#[trigger] leaves@[j].key@), h - 1, rnode)
                implies right@.contains(j as usize) by {
            let kb = key_bits(leaves@[j].key@);
            assert forall|i: int| h <= i < 256 implies kb[i] == node@[i] by {
                assert(kb[i] == rnode[i]);
            }
            assert(in_subtree(kb, h as int, node@));
            let u = choose|u: int| 0 <= u < idx@.len() && idx@[u] == j as usize;
            assert(idx@[u] == j as usize);
            assert(kb[h - 1] == rnode[h - 1]);
        }
    }
    let ghost o = out@;
    let l = subtree_root(leaves, paths, left, h - 1, node.clone(), out);
    let ghost o1 = out@;
    let r = subtree_root(leaves, paths, right, h - 1, rnode_exec, out);
    let ghost o2 = out@;
    let d = merge(h as u16, &node, &l, &r);
    let z = d.is_zero();
    if !z {
        let packed = pack_key(&node);
        out.push(BranchNode { height: h as u16, node: packed, digest: d });
    }
    proof {
        lemma_collect(m, h as nat, node@, rnode, o, o1, o2, out@, d@);
    }
    d
}

proof fn lemma_collect(
    m: Map<Seq<bool>, Seq<u8>>,
    h: nat,
    node: Seq<bool>,
    rnode: Seq<bool>,
    o: Seq<BranchNode>,
    o1: Seq<BranchNode>,
    o2: Seq<BranchNode>,
    f: Seq<BranchNode>,
    d: Seq<u8>,
)
    requires
        1 <= h <= 256,
        cleared(node, h as int),
        rnode == node.update(h - 1, true),
        d == node_hash(m, h, node),
        o.len() <= o1.len() <= o2.len(),
        forall|i: int| 0 <= i < o.len() ==> o1[i] == o[i],
        forall|i: int| 0 <= i < o1.len() ==> o2[i] == o1[i],
        forall|i: int| 0 <= i < o2.len() ==> f[i] == o2[i],
        d == zero_digest() ==> f.len() == o2.len(),
        d != zero_digest() ==> f.len() == o2.len() + 1 && f[o2.len() as int].height == h
            && f[o2.len() as int].node@ == pack(node) && f[o2.len() as int].digest@ == d,
        forall|j: int| o.len() <= j < o1.len() ==> rebuilt_entry(#[trigger] o1[j], m, h - 1, node),
        forall|j: int| o1.len() <= j < o2.len() ==> rebuilt_entry(#[trigger] o2[j], m, h - 1, rnode),
        forall|hh: nat, n: Seq<bool>|
            1 <= hh <= h - 1 && cleared(n, hh as int) && in_subtree(n, h - 1, node) && #[trigger] node_hash(m, hh, n)
                != zero_digest() ==> has_at(o1, hh, pack(n)),
        forall|hh: nat, n: Seq<bool>|
            1 <= hh <= h - 1 && cleared(n, hh as int) && in_subtree(n, h - 1, rnode) && #[trigger] node_hash(m, hh, n)
                != zero_digest() ==> has_at(o2, hh, pack(n)),
    ensures
        forall|i: int| 0 <= i < o.len() ==> f[i] == o[i],
        forall|j: int| o.len() <= j < f.len() ==> rebuilt_entry(#[trigger] f[j], m, h as int, node),
        forall|hh: nat, n: Seq<bool>|
            1 <= hh <= h && cleared(n, hh as int) && in_subtree(n, h as int, node) && #[trigger] node_hash(m, hh, n)
                != zero_digest() ==> has_at(f, hh, pack(n)),
{
    lemma_unpack_pack(node);
    assert forall|j: int| o.len() <= j < f.len() implies rebuilt_entry(#[trigger] f[j], m, h as int, node) by {
        lemma_collect_entry(m, h, node, rnode, o, o1, o2, f, d, j);
    }
    assert forall|hh: nat, n: Seq<bool>|
        1 <= hh <= h && cleared(n, hh as int) && in_subtree(n, h as int, node) && #[trigger] node_hash(m, hh, n)
            != zero_digest() implies has_at(f, hh, pack(n)) by {
        lemma_collect_node(m, h, node, rnode, o1, o2, f, d, hh, n);
    }
}

proof fn lemma_collect_entry(
    m: Map<Seq<bool>, Seq<u8>>,
    h: nat,
    node: Seq<bool>,
    rnode: Seq<bool>,
    o: Seq<BranchNode>,
    o1: Seq<BranchNode>,
    o2: Seq<BranchNode>,
    f: Seq<BranchNode>,
    d: Seq<u8>,
    j: int,
)
    requires
        1 <= h <= 256,
        cleared(node, h as int),
        key_bits(pack(node)) == node,
        rnode == node.update(h - 1, true),
        d == node_hash(m, h, node),
        o.len() <= o1.len() <= o2.len(),
        forall|i: int| 0 <= i < o1.len() ==> o2[i] == o1[i],
        forall|i: int| 0 <= i < o2.len() ==> f[i] == o2[i],
        d == zero_digest() ==> f.len() == o2.len(),
        d != zero_digest() ==> f.len() == o2.len() + 1 && f[o2.len() as int].height == h
            && f[o2.len() as int].node@ == pack(node) && f[o2.len() as int].digest@ == d,
        forall|j: int| o.len() <= j < o1.len() ==> rebuilt_entry(#[trigger] o1[j], m, h - 1, node),
        forall|j: int| o1.len() <= j < o2.len() ==> rebuilt_entry(#[trigger] o2[j], m, h - 1, rnode),
        o.len() <= j < f.len(),
    ensures
        rebuilt_entry(f[j], m, h as int, node),
{
    if j < o1.len() {
        assert(f[j] == o1[j]);
        assert(rebuilt_entry(o1[j], m, h - 1, node));
    } else if j < o2.len() {
        assert(f[j] == o2[j]);
        let e = f[j];
        assert(rebuilt_entry(o2[j], m, h - 1, rnode));
        assert forall|i: int| h <= i < 256 implies key_bits(e.node@)[i] == node[i] by {
            assert(key_bits(e.node@)[i] == rnode[i]);
        }
    }
}

proof fn lemma_collect_node(
    m: Map<Seq<bool>, Seq<u8>>,
    h: nat,
    node: Seq<bool>,
    rnode: Seq<bool>,
    o1: Seq<BranchNode>,
    o2: Seq<BranchNode>,
    f: Seq<BranchNode>,
    d: Seq<u8>,
    hh: nat,
    n: Seq<bool>,
)
    requires
        1 <= h <= 256,
        cleared(node, h as int),
        rnode == node.update(h - 1, true),
        d == node_hash(m, h, node),
        o1.len() <= o2.len(),
        forall|i: int| 0 <= i < o1.len() ==> o2[i] == o1[i],
        forall|i: int| 0 <= i < o2.len() ==> f[i] == o2[i],
        d != zero_digest() ==> f.len() == o2.len() + 1 && f[o2.len() as int].height == h
            && f[o2.len() as int].node@ == pack(node),
        f.len() >= o2.len(),
        forall|hh: nat, n: Seq<bool>|
            1 <= hh <= h - 1 && cleared(n, hh as int) && in_subtree(n, h - 1, node) && #[trigger] node_hash(m, hh, n)
                != zero_digest() ==> has_at(o1, hh, pack(n)),
        forall|hh: nat, n: Seq<bool>|
            1 <= hh <= h - 1 && cleared(n, hh as int) && in_subtree(n, h - 1, rnode) && #[trigger] node_hash(m, hh, n)
                != zero_digest() ==> has_at(o2, hh, pack(n)),
        1 <= hh <= h,
        cleared(n, hh as int),
        in_subtree(n, h as int, node),
        node_hash(m, hh, n) != zero_digest(),
    ensures
        has_at(f, hh, pack(n)),
{
    if hh == h {
        assert(n =~= node);
        assert(at(f[o2.len() as int], hh, pack(n)));
    } else if !n[h - 1] {
        assert(in_subtree(n, h - 1, node));
        assert(has_at(o1, hh, pack(n)));
        let j = choose|j: int| 0 <= j < o1.len() && #[trigger] at(o1[j], hh, pack(n));
        assert(f[j] == o1[j]);
        assert(at(f[j], hh, pack(n)));
    } else {
        assert(in_subtree(n, h - 1, rnode));
        assert(has_at(o2, hh, pack(n)));
        let j = choose|j: int| 0 <= j < o2.len() && #[trigger] at(o2[j], hh, pack(n));
        assert(f[j] == o2[j]);
        assert(at(f[j], hh, pack(n)));
    }
}

/// Entry `e` is a non-zero branch of the tree holding `m`, with its digest,
/// inside the node at height `h` and position `node`.
pub open spec fn rebuilt_entry(e: BranchNode, m: Map<Seq<bool>, Seq<u8>>, h: int, node: Seq<bool>) -> bool {
    &&& 1 <= e.height <= h
    &&& cleared(key_bits(e.node@), e.height as int)
    &&& e.digest@ == node_hash(m, e.height as nat, key_bits(e.node@))
    &&& e.digest@ != zero_digest()
    &&& in_subtree(key_bits(e.node@), h, node)
}

/// The root digest of the tree holding `leaves`, and all its non-zero branches.
fn rebuild(leaves: &Vec<LeafNode>) -> (r: (H256, Vec<BranchNode>))
    requires
        leaves_ok(leaves@),
    ensures
        r.0@ == root_of(model_of(leaves@)),
        forall|j: int| 0 <= j < r.1@.len() ==> rebuilt_entry(#[trigger] r.1@[j], model_of(leaves@), 256, zero_path()),
        forall|hh: nat, n: Seq<bool>|
            1 <= hh <= 256 && cleared(n, hh as int) && #[trigger] node_hash(model_of(leaves@), hh, n)
                != zero_digest() ==> has_at(r.1@, hh, pack(n)),
{
    let paths = leaf_paths(leaves);
    let mut idx: Vec<usize> = Vec::new();
    let mut node: Vec<bool> = Vec::new();
    let mut j: usize = 0;
    while j < leaves.len()
        invariant
            j <= leaves@.len(),
            idx@.len() == j,
            forall|t: int| 0 <= t < j ==> #[trigger] idx@[t] == t,
        decreases leaves@.len() - j,
    {
        idx.push(j);
        j = j + 1;
    }
    let mut i: usize = 0;
    while i < 256
        invariant
            i <= 256,
            node@.len() == i,
            forall|t: int| 0 <= t < i ==> !#[trigger] node@[t],
        decreases 256 - i,
    {
        node.push(false);
        i = i + 1;
    }
    proof {
        assert(node@ =~= zero_path());
        assert forall|j: int| 0 <= j < leaves@.len() && in_subtree(key_bits(#[trigger] leaves@[j].key@), 256, node@)
            implies idx@.contains(j as usize) by {
            assert(idx@[j] == j as usize);
        }
    }
    let mut out: Vec<BranchNode> = Vec::new();
    let ghost node_copy = node@;
    let root = subtree_root(leaves, &paths, idx, 256, node, &mut out);
    proof {
        assert forall|hh: nat, n: Seq<bool>|
            1 <= hh <= 256 && cleared(n, hh as int) && #[trigger] node_hash(model_of(leaves@), hh, n)
                != zero_digest() implies has_at(out@, hh, pack(n)) by {
            assert(in_subtree(n, 256, node_copy));
        }
    }
    (root, out)
}

/// Entry `e` is a non-zero branch of the tree holding `m`, with its digest.
pub open spec fn entry_good(e: BranchNode, m: Map<Seq<bool>, Seq<u8>>) -> bool {
    &&& 1 <= e.height <= 256
    &&& cleared(key_bits(e.node@), e.height as int)
    &&& e.digest@ == node_hash(m, e.height as nat, key_bits(e.node@))
    &&& e.digest@ != zero_digest()
}

/// Whether every entry of `stored` is a branch of the tree holding `m`,
/// given that `rebuilt` lists all of them.
fn entries_good(stored: &Vec<BranchNode>, rebuilt: &Vec<BranchNode>, m: Ghost<Map<Seq<bool>, Seq<u8>>>) -> (r: bool)
    requires
        forall|j: int| 0 <= j < rebuilt@.len() ==> rebuilt_entry(#[trigger] rebuilt@[j], m@, 256, zero_path()),
        forall|hh: nat, n: Seq<bool>|
            1 <= hh <= 256 && cleared(n, hh as int) && #[trigger] node_hash(m@, hh, n)
                != zero_digest() ==> has_at(rebuilt@, hh, pack(n)),
    ensures
        r == forall|j: int| 0 <= j < stored@.len() ==> entry_good(#[trigger] stored@[j], m@),
{
    let n = stored.len();
    let mut i: usize = 0;
    while i < n
        invariant
            n == stored@.len(),
            i <= n,
            forall|j: int| 0 <= j < rebuilt@.len() ==> rebuilt_entry(#[trigger] rebuilt@[j], m@, 256, zero_path()),
            forall|hh: nat, q: Seq<bool>|
                1 <= hh <= 256 && cleared(q, hh as int) && #[trigger] node_hash(m@, hh, q)
                    != zero_digest() ==> has_at(rebuilt@, hh, pack(q)),
            forall|j: int| 0 <= j < i ==> entry_good(#[trigger] stored@[j], m@),
        decreases n - i,
    {
        let e = stored[i];
        match find_branch(rebuilt, e.height, &e.node) {
            None => {
                proof {
                    if entry_good(e, m@) {
                        lemma_pack_key_bits(e.node@);
                        let j = choose|j: int| 0 <= j < rebuilt@.len() && #[trigger] at(rebuilt@[j], e.height as nat, pack(key_bits(e.node@)));
                        assert(at(rebuilt@[j], e.height as nat, e.node@));
                    }
                    assert(stored@[i as int] == e);
                }
                return false;
            },
            Some(k) => {
                assert(rebuilt_entry(rebuilt@[k as int], m@, 256, zero_path()));
                if !e.digest.same_as(&rebuilt[k].digest) {
                    proof {
                        assert(stored@[i as int] == e);
                    }
                    return false;
                }
            },
        }
        i = i + 1;
    }
    true
}

/// Whether no two entries of `stored` share a height and position.
fn positions_distinct(stored: &Vec<BranchNode>) -> (r: bool)
    ensures
        r == forall|x: int, y: int|
            0 <= x < stored@.len() && 0 <= y < stored@.len() && x != y ==> !at(
                #[trigger] stored@[x],
                stored@[y].height as nat,
                (#[trigger] stored@[y]).node@,
            ),
{
    let n = stored.len();
    let mut a: usize = 0;
    while a < n
        invariant
            n == stored@.len(),
            a <= n,
            forall|x: int, y: int|
                0 <= x < a && 0 <= y < n && x != y ==> !at(#[trigger] stored@[x], stored@[y].height as nat, (#[trigger] stored@[y]).node@),
        decreases n - a,
    {
        let mut b: usize = 0;
        while b < n
            invariant
                n == stored@.len(),
                a < n,
                b <= n,
                forall|x: int, y: int|
                    0 <= x < a && 0 <= y < n && x != y ==> !at(#[trigger] stored@[x], stored@[y].height as nat, (#[trigger] stored@[y]).node@),
                forall|y: int| 0 <= y < b && y != a ==> !at(stored@[a as int], stored@[y].height as nat, (#[trigger] stored@[y]).node@),
            decreases n - b,
        {
            if b != a && stored[a].height == stored[b].height && stored[a].node.same_as(&stored[b].node) {
                return false;
            }
            b = b + 1;
        }
        a = a + 1;
    }
    true
}

/// Whether every entry of `rebuilt` has an entry of `stored` at its height and position.
fn all_present(stored: &Vec<BranchNode>, rebuilt: &Vec<BranchNode>) -> (r: bool)
    ensures
        r == forall|j: int|
            0 <= j < rebuilt@.len() ==> has_at(stored@, (#[trigger] rebuilt@[j]).height as nat, rebuilt@[j].node@),
{
    let r = rebuilt.len();
    let mut t: usize = 0;
    while t < r
        invariant
            r == rebuilt@.len(),
            t <= r,
            forall|j: int| 0 <= j < t ==> has_at(stored@, (#[trigger] rebuilt@[j]).height as nat, rebuilt@[j].node@),
        decreases r - t,
    {
        match find_branch(stored, rebuilt[t].height, &rebuilt[t].node) {
            None => {
                return false;
            },
            Some(q) => {
                assert(at(stored@[q as int], rebuilt@[t as int].height as nat, rebuilt@[t as int].node@));
            },
        }
        t = t + 1;
    }
    true
}

proof fn lemma_valid_checks(sv: Seq<BranchNode>, rebuilt: Seq<BranchNode>, m: Map<Seq<bool>, Seq<u8>>)
    requires
        branches_valid(sv, m),
        forall|j: int| 0 <= j < rebuilt.len() ==> rebuilt_entry(#[trigger] rebuilt[j], m, 256, zero_path()),
    ensures
        forall|j: int| 0 <= j < sv.len() ==> entry_good(#[trigger] sv[j], m),
        forall|j: int| 0 <= j < rebuilt.len() ==> has_at(sv, (#[trigger] rebuilt[j]).height as nat, rebuilt[j].node@),
{
    assert forall|j: int| 0 <= j < sv.len() implies entry_good(#[trigger] sv[j], m) by {
        assert(staged_hash(m, m, 0, sv[j].height as nat, key_bits(sv[j].node@)) == node_hash(m, sv[j].height as nat, key_bits(sv[j].node@)));
    }
    assert forall|j: int| 0 <= j < rebuilt.len() implies has_at(sv, (#[trigger] rebuilt[j]).height as nat, rebuilt[j].node@) by {
        let e = rebuilt[j];
        assert(rebuilt_entry(e, m, 256, zero_path()));
        lemma_pack_key_bits(e.node@);
        assert(staged_hash(m, m, 0, e.height as nat, key_bits(e.node@)) != zero_digest());
        assert(has_at(sv, e.height as nat, pack(key_bits(e.node@))));
    }
}

proof fn lemma_checks_valid(sv: Seq<BranchNode>, rebuilt: Seq<BranchNode>, m: Map<Seq<bool>, Seq<u8>>)
    requires
        forall|hh: nat, n: Seq<bool>|
            1 <= hh <= 256 && cleared(n, hh as int) && #[trigger] node_hash(m, hh, n)
                != zero_digest() ==> has_at(rebuilt, hh, pack(n)),
        forall|j: int| 0 <= j < sv.len() ==> entry_good(#[trigger] sv[j], m),
        forall|x: int, y: int|
            0 <= x < sv.len() && 0 <= y < sv.len() && x != y ==> !at(
                #[trigger] sv[x],
                sv[y].height as nat,
                (#[trigger] sv[y]).node@,
            ),
        forall|j: int| 0 <= j < rebuilt.len() ==> has_at(sv, (#[trigger] rebuilt[j]).height as nat, rebuilt[j].node@),
    ensures
        branches_valid(sv, m),
{
    assert forall|hh: nat, q: Seq<bool>|
        1 <= hh <= 256 && cleared(q, hh as int) && #[trigger] staged_hash(m, m, 0, hh, q)
            != zero_digest() implies has_at(sv, hh, pack(q)) by {
        assert(node_hash(m, hh, q) != zero_digest());
        let j = choose|j: int| 0 <= j < rebuilt.len() && #[trigger] at(rebuilt[j], hh, pack(q));
        assert(has_at(sv, rebuilt[j].height as nat, rebuilt[j].node@));
    }
    assert forall|j: int| 0 <= j < sv.len() implies {
        let e = #[trigger] sv[j];
        &&& 1 <= e.height <= 256
        &&& cleared(key_bits(e.node@), e.height as int)
        &&& e.digest@ == staged_hash(m, m, 0, e.height as nat, key_bits(e.node@))
        &&& e.digest@ != zero_digest()
    } by {
        assert(entry_good(sv[j], m));
    }
}

/// Whether `stored` holds exactly the branches `rebuilt` lists, given that
/// those are all the non-zero branches of the tree holding `m`.
fn check_branches(stored: &Vec<BranchNode>, rebuilt: &Vec<BranchNode>, m: Ghost<Map<Seq<bool>, Seq<u8>>>) -> (r: bool)
    requires
        forall|j: int| 0 <= j < rebuilt@.len() ==> rebuilt_entry(#[trigger] rebuilt@[j], m@, 256, zero_path()),
        forall|hh: nat, n: Seq<bool>|
            1 <= hh <= 256 && cleared(n, hh as int) && #[trigger] node_hash(m@, hh, n)
                != zero_digest() ==> has_at(rebuilt@, hh, pack(n)),
    ensures
        r == branches_valid(stored@, m@),
{
    let good = entries_good(stored, rebuilt, m);
    let distinct = positions_distinct(stored);
    let present = all_present(stored, rebuilt);
    proof {
        if branches_valid(stored@, m@) {
            lemma_valid_checks(stored@, rebuilt@, m@);
        }
        if good && distinct && present {
            lemma_checks_valid(stored@, rebuilt@, m@);
        }
    }
    good && distinct && present
}

/// Index of the leaf with key `key`, if any.
fn find_leaf(leaves: &Vec<LeafNode>, key: &H256) -> (r: Option<usize>)
    ensures
        match r {
            Some(j) => j < leaves@.len() && leaves@[j as int].key@ == key@,
            None => forall|j: int| 0 <= j < leaves@.len() ==> #[trigger] leaves@[j].key@ != key@,
        },
{
    let mut j: usize = 0;
    while j < leaves.len()
        invariant
            j <= leaves@.len(),
            forall|t: int| 0 <= t < j ==> #[trigger] leaves@[t].key@ != key@,
        decreases leaves@.len() - j,
    {
        if leaves[j].key.same_as(key) {
            return Some(j);
        }
        j = j + 1;
    }
    None
}

/// The digest of the leaf at path `bits`, whose packed form is `key`.
pub(crate) fn leaf_node_digest(leaves: &Vec<LeafNode>, bits: &Vec<bool>, key: &H256) -> (r: H256)
    requires
        leaves_ok(leaves@),
        bits@.len() == 256,
        key@ == pack(bits@),
    ensures
        r@ == node_hash(model_of(leaves@), 0, bits@),
{
    proof {
        lemma_unpack_pack(bits@);
    }
    match find_leaf(leaves, key) {
        Some(j) => {
            proof {
                lemma_model_at(leaves@, j as int);
            }
            hash_leaf(bits, &leaves[j].value)
        },
        None => {
            proof {
                lemma_absent(leaves@, key@);
            }
            H256::zero()
        },
    }
}

/// A key absent from the leaves has no entry in their contents.
proof fn lemma_absent(s: Seq<LeafNode>, key: Seq<u8>)
    requires
        leaves_ok(s),
        key.len() == 32,
        forall|j: int| 0 <= j < s.len() ==> #[trigger] s[j].key@ != key,
    ensures
        !model_of(s).contains_key(key_bits(key)),
{
    if model_of(s).contains_key(key_bits(key)) {
        let j = choose|j: int| 0 <= j < s.len() && #[trigger] key_bits(s[j].key@) == key_bits(key);
        lemma_key_bits_injective(s[j].key@, key);
    }
}

/// A sparse Merkle tree: only non-zero leaves are kept, and the root commits
/// to all of them.
pub struct SparseMerkleTree {
    root: H256,
    leaves: Vec<LeafNode>,
    branches: Vec<BranchNode>,
}

impl View for SparseMerkleTree {
    type V = Map<Seq<bool>, Seq<u8>>;

    /// The contents: value by key path.
    closed spec fn view(&self) -> Map<Seq<bool>, Seq<u8>> {
        model_of(self.leaves@)
    }
}

impl SparseMerkleTree {
    /// The stored leaves.
    pub closed spec fn entries(&self) -> Seq<LeafNode> {
        self.leaves@
    }

    /// The stored branches.
    pub closed spec fn branch_entries(&self) -> Seq<BranchNode> {
        self.branches@
    }

    /// The cached root.
    pub closed spec fn root_spec(&self) -> Seq<u8> {
        self.root@
    }

    /// The stored leaves are consistent and the cached root commits to them.
    pub open spec fn wf(&self) -> bool {
        &&& leaves_ok(self.entries())
        &&& self@ == model_of(self.entries())
        &&& branches_valid(self.branch_entries(), self@)
        &&& self.root_spec() == root_of(self@)
    }

    /// An empty tree.
    pub fn new_empty() -> (r: SparseMerkleTree)
        ensures
            r.wf(),
            r@ == Map::<Seq<bool>, Seq<u8>>::empty(),
            r.root_spec() == zero_digest(),
            r.entries().len() == 0,
    {
        let r = SparseMerkleTree { root: H256::zero(), leaves: Vec::new(), branches: Vec::new() };
        proof {
            let m = Map::<Seq<bool>, Seq<u8>>::empty();
            assert(model_of(r.leaves@) =~= m);
            lemma_empty_root();
            assert forall|h: nat, node: Seq<bool>| 1 <= h <= 256 && cleared(node, h as int) implies #[trigger] node_hash(m, h, node)
                == zero_digest() by {
                lemma_empty_subtree(m, h, node);
            }
        }
        r
    }

    /// A tree over a given root, leaves and branches, as a store would hand
    /// them back; nothing is checked (see `validate`).
    pub fn new(root: H256, leaves: Vec<LeafNode>, branches: Vec<BranchNode>) -> (r: SparseMerkleTree)
        ensures
            r.root_spec() == root@,
            r.entries() == leaves@,
            r.branch_entries() == branches@,
    {
        SparseMerkleTree { root, leaves, branches }
    }

    /// The stored branches.
    pub fn branches(&self) -> (r: Vec<BranchNode>)
        ensures
            r@ == self.branch_entries(),
    {
        let mut r: Vec<BranchNode> = Vec::new();
        let mut j: usize = 0;
        while j < self.branches.len()
            invariant
                j <= self.branches@.len(),
                r@ == self.branches@.subrange(0, j as int),
            decreases self.branches@.len() - j,
        {
            r.push(self.branches[j]);
            j = j + 1;
            assert(r@ =~= self.branches@.subrange(0, j as int));
        }
        assert(r@ =~= self.branches@);
        r
    }

    /// The current root digest.
    pub fn root(&self) -> (r: H256)
        ensures
            r@ == self.root_spec(),
    {
        self.root
    }

    /// Whether the tree holds no leaf.
    pub fn is_empty(&self) -> (r: bool)
        requires
            self.wf(),
        ensures
            r == (self@ == Map::<Seq<bool>, Seq<u8>>::empty()),
    {
        if self.leaves.len() == 0 {
            assert(self@ =~= Map::<Seq<bool>, Seq<u8>>::empty());
            true
        } else {
            proof {
                lemma_model_at(self.leaves@, 0);
                assert(self@.contains_key(key_bits(self.leaves@[0].key@)));
            }
            false
        }
    }

    /// The stored leaves.
    pub fn leaves(&self) -> (r: Vec<LeafNode>)
        ensures
            r@ == self.entries(),
    {
        let mut r: Vec<LeafNode> = Vec::new();
        let mut j: usize = 0;
        while j < self.leaves.len()
            invariant
                j <= self.leaves@.len(),
                r@ == self.leaves@.subrange(0, j as int),
            decreases self.leaves@.len() - j,
        {
            r.push(self.leaves[j]);
            j = j + 1;
            assert(r@ =~= self.leaves@.subrange(0, j as int));
        }
        assert(r@ =~= self.leaves@);
        r
    }

    /// Number of stored (non-zero) leaves.
    pub fn leaf_count(&self) -> (r: usize)
        ensures
            r == self.entries().len(),
    {
        self.leaves.len()
    }

    /// The value stored under `key`, or the zero value.
    pub fn get(&self, key: &H256) -> (r: H256)
        requires
            self.wf(),
        ensures
            r@ == lookup(self@, key_bits(key@)),
    {
        match find_leaf(&self.leaves, key) {
            Some(j) => {
                proof {
                    lemma_model_at(self.leaves@, j as int);
                }
                self.leaves[j].value
            },
            None => {
                proof {
                    lemma_absent(self.leaves@, key@);
                }
                H256::zero()
            },
        }
    }

    /// Writes `value` under `key` (writing zero deletes) and returns the new root.
    pub fn update(&mut self, key: H256, value: H256) -> (r: Result<H256, Error>)
        requires
            old(self).wf(),
        ensures
            final(self).wf(),
            r.is_err() <==> (value@ != zero_digest() && !old(self)@.contains_key(key_bits(key@))
                && old(self).entries().len() == KEY_LIMIT),
            match r {
                Ok(d) => {
                    &&& final(self)@ == apply_update(old(self)@, key_bits(key@), value@)
                    &&& d@ == root_of(final(self)@)
                    &&& final(self).root_spec() == d@
                    &&& final(self).entries().len() == if value@ != zero_digest() && !old(self)@.contains_key(key_bits(key@)) {
                        old(self).entries().len() + 1 as int
                    } else if value@ == zero_digest() && old(self)@.contains_key(key_bits(key@)) {
                        old(self).entries().len() - 1
                    } else {
                        old(self).entries().len() as int
                    }
                },
                Err(e) => {
                    &&& e == Error::KeyOutOfRange
                    &&& final(self)@ == old(self)@
                    &&& final(self).root_spec() == old(self).root_spec()
                },
            },
    {
        let ghost s = self.leaves@;
        let ghost m = model_of(s);
        let ghost kb = key_bits(key@);
        let ghost m2 = apply_update(m, kb, value@);
        let zero = value.is_zero();
        match find_leaf(&self.leaves, &key) {
            Some(j) => {
                proof {
                    lemma_model_at(s, j as int);
                }
                if zero {
                    self.leaves.remove(j);
                    proof {
                        let s2 = self.leaves@;
                        assert forall|a: int| 0 <= a < s2.len() implies #[trigger] m2.contains_key(
                            key_bits(s2[a].key@),
                        ) && m2[key_bits(s2[a].key@)] == s2[a].value@ by {
                            let b = if a < j { a } else { a + 1 };
                            assert(s2[a] == s[b]);
                            lemma_model_at(s, b);
                            if key_bits(s[b].key@) == kb {
                                lemma_key_bits_injective(s[b].key@, key@);
                            }
                        }
                        assert forall|k: Seq<bool>| #[trigger] m2.contains_key(k) implies exists|a: int|
                            0 <= a < s2.len() && #[trigger] key_bits(s2[a].key@) == k by {
                            let b = choose|b: int| 0 <= b < s.len() && #[trigger] key_bits(s[b].key@) == k;
                            let a = if b < j { b } else { b - 1 };
                            assert(key_bits(s2[a].key@) == k);
                        }
                        lemma_model_ext(s2, m2);
                    }
                } else {
                    self.leaves.set(j, LeafNode { key, value });
                    proof {
                        let s2 = self.leaves@;
                        assert forall|a: int| 0 <= a < s2.len() implies #[trigger] m2.contains_key(
                            key_bits(s2[a].key@),
                        ) && m2[key_bits(s2[a].key@)] == s2[a].value@ by {
                            if a != j {
                                lemma_model_at(s, a);
                                if key_bits(s[a].key@) == kb {
                                    lemma_key_bits_injective(s[a].key@, key@);
                                }
                            }
                        }
                        assert forall|k: Seq<bool>| #[trigger] m2.contains_key(k) implies exists|a: int|
                            0 <= a < s2.len() && #[trigger] key_bits(s2[a].key@) == k by {
                            if k == kb {
                                assert(key_bits(s2[j as int].key@) == k);
                            } else {
                                let b = choose|b: int| 0 <= b < s.len() && #[trigger] key_bits(s[b].key@) == k;
                                assert(key_bits(s2[b].key@) == k);
                            }
                        }
                        lemma_model_ext(s2, m2);
                    }
                }
            },
            None => {
                proof {
                    lemma_absent(s, key@);
                }
                if zero {
                    proof {
                        assert(m2 =~= m);
                    }
                    return Ok(self.root);
                }
                if self.leaves.len() == KEY_LIMIT {
                    return Err(Error::KeyOutOfRange);
                }
                self.leaves.push(LeafNode { key, value });
                proof {
                    let s2 = self.leaves@;
                    assert forall|a: int| 0 <= a < s2.len() implies #[trigger] m2.contains_key(
                        key_bits(s2[a].key@),
                    ) && m2[key_bits(s2[a].key@)] == s2[a].value@ by {
                        if a < s.len() {
                            assert(s2[a] == s[a]);
                            lemma_model_at(s, a);
                        }
                    }
                    assert forall|k: Seq<bool>| #[trigger] m2.contains_key(k) implies exists|a: int|
                        0 <= a < s2.len() && #[trigger] key_bits(s2[a].key@) == k by {
                        if k == kb {
                            assert(key_bits(s2[s.len() as int].key@) == k);
                        } else {
                            let b = choose|b: int| 0 <= b < s.len() && #[trigger] key_bits(s[b].key@) == k;
                            assert(key_bits(s2[b].key@) == k);
                        }
                    }
                    lemma_model_ext(s2, m2);
                }
            },
        }
        let ghost m2 = model_of(self.leaves@);
        let ghost s2 = self.leaves@;
        proof {
            if s2.len() != s.len() {
                assert(s2.len() == s.len() + 1 || s2.len() == s.len() - 1);
            }
        }
        let kbv = path_bits(&key);
        let mut cur = if zero {
            H256::zero()
        } else {
            hash_leaf(&kbv, &value)
        };
        proof {
            if zero {
                assert(!m2.contains_key(kb));
            } else {
                assert(m2.contains_key(kb) && m2[kb] == value@);
            }
            assert(clear_below(kb, 0) =~= kb);
            lemma_restage(self.branches@, m, m, 0, m2, m, 0);
        }
        let mut h: usize = 0;
        while h < 256
            invariant
                h <= 256,
                kbv@ == kb,
                kb.len() == 256,
                leaves_ok(self.leaves@),
                self.leaves@ == s2,
                model_of(self.leaves@) == m2,
                m2 == apply_update(m, kb, value@),
                branches_ok(self.branches@, m2, m, h as nat),
                cur@ == node_hash(m2, h as nat, clear_below(kb, h as int)),
            decreases 256 - h,
        {
            let mut sn = clear_bits_below(&kbv, h + 1);
            let flip = !kbv[h];
            sn.set(h, flip);
            let sp = pack_key(&sn);
            let sib = if h == 0 {
                leaf_node_digest(&self.leaves, &sn, &sp)
            } else {
                stored_branch(
                    &self.branches,
                    h as u16,
                    &sp,
                    Ghost(m2),
                    Ghost(m),
                    Ghost(h as nat),
                    Ghost(sn@),
                )
            };
            let parent = clear_bits_below(&kbv, h + 1);
            let ghost p = parent@;
            proof {
                if kb[h as int] {
                    assert(clear_below(kb, h as int) =~= p.update(h as int, true));
                    assert(sn@ =~= p);
                } else {
                    assert(clear_below(kb, h as int) =~= p);
                    assert(sn@ =~= p.update(h as int, true));
                }
                assert(node_hash(m2, (h + 1) as nat, p) == merge_digest(
                    (h + 1) as nat,
                    p,
                    node_hash(m2, h as nat, p),
                    node_hash(m2, h as nat, p.update(h as int, true)),
                ));
            }
            let d = if kbv[h] {
                merge((h + 1) as u16, &parent, &sib, &cur)
            } else {
                merge((h + 1) as u16, &parent, &cur, &sib)
            };
            let pp = pack_key(&parent);
            let hp: u16 = (h + 1) as u16;
            assert(hp as nat == h + 1);
            let ghost before = self.branches@;
            set_branch(&mut self.branches, hp, pp, d);
            proof {
                lemma_raise_bound(before, self.branches@, m, kb, value@, h as nat, p, d@, hp as nat, pp@);
            }
            cur = d;
            h = h + 1;
        }
        proof {
            assert(clear_below(kb, 256) =~= zero_path());
            lemma_restage(self.branches@, m2, m, 256, m2, m2, 0);
        }
        self.root = cur;
        Ok(cur)
    }
}

/// A well-formed tree holds no zero value.
pub proof fn lemma_no_zero_values(t: &SparseMerkleTree)
    requires
        t.wf(),
    ensures
        forall|q: Seq<bool>| #[trigger] t@.contains_key(q) ==> t@[q] != zero_digest(),
{
    assert forall|q: Seq<bool>| #[trigger] t@.contains_key(q) implies t@[q] != zero_digest() by {
        let j = choose|j: int| 0 <= j < t.entries().len() && #[trigger] key_bits(t.entries()[j].key@) == q;
        lemma_model_at(t.entries(), j);
    }
}

/// The empty tree has the zero root.
pub proof fn lemma_empty_root()
    ensures
        root_of(Map::<Seq<bool>, Seq<u8>>::empty()) == zero_digest(),
{
    lemma_empty_subtree(Map::<Seq<bool>, Seq<u8>>::empty(), 256, zero_path());
}

/// Whether the leaves satisfy `leaves_ok`.
fn check_leaves(leaves: &Vec<LeafNode>) -> (r: bool)
    ensures
        r == leaves_ok(leaves@),
{
    if leaves.len() > KEY_LIMIT {
        return false;
    }
    let n = leaves.len();
    let mut i: usize = 0;
    while i < n
        invariant
            n == leaves@.len(),
            i <= n,
            forall|j: int| 0 <= j < i ==> #[trigger] leaves@[j].value@ != zero_digest(),
            forall|a: int, b: int|
                0 <= a < i && 0 <= b < n && a != b ==> #[trigger] leaves@[a].key@ != #[trigger] leaves@[b].key@,
        decreases n - i,
    {
        if leaves[i].value.is_zero() {
            return false;
        }
        let mut j: usize = 0;
        while j < n
            invariant
                n == leaves@.len(),
                i < n,
                j <= n,
                forall|b: int| 0 <= b < j && b != i ==> leaves@[i as int].key@ != #[trigger] leaves@[b].key@,
            decreases n - j,
        {
            if j != i && leaves[i].key.same_as(&leaves[j].key) {
                return false;
            }
            j = j + 1;
        }
        i = i + 1;
    }
    true
}

impl SparseMerkleTree {
    /// Full consistency check: every stored leaf is non-zero, keys are
    /// distinct, and the cached root is the digest that the leaves give.
    pub fn validate(&self) -> (r: bool)
        ensures
            r == self.wf(),
    {
        if !check_leaves(&self.leaves) {
            return false;
        }
        let (root, rebuilt) = rebuild(&self.leaves);
        if !root.same_as(&self.root) {
            return false;
        }
        check_branches(&self.branches, &rebuilt, Ghost(model_of(self.leaves@)))
    }
}

/// Writing the same value twice leaves the same contents, and root, as writing it once.
pub proof fn lemma_update_idempotent(m: Map<Seq<bool>, Seq<u8>>, k: Seq<bool>, v: Seq<u8>)
    ensures
        apply_update(apply_update(m, k, v), k, v) == apply_update(m, k, v),
        root_of(apply_update(apply_update(m, k, v), k, v)) == root_of(apply_update(m, k, v)),
{
    assert(apply_update(apply_update(m, k, v), k, v) =~= apply_update(m, k, v));
}

/// Writing zero under an absent key changes neither the contents nor the root.
pub proof fn lemma_delete_absent(m: Map<Seq<bool>, Seq<u8>>, k: Seq<bool>)
    requires
        !m.contains_key(k),
    ensures
        apply_update(m, k, zero_digest()) == m,
        root_of(apply_update(m, k, zero_digest())) == root_of(m),
{
    assert(apply_update(m, k, zero_digest()) =~= m);
}

/// The contents after writing zero under each of `ks` in turn.
pub open spec fn delete_all(m: Map<Seq<bool>, Seq<u8>>, ks: Seq<Seq<bool>>) -> Map<
    Seq<bool>,
    Seq<u8>,
>
    decreases ks.len(),
{
    if ks.len() == 0 {
        m
    } else {
        apply_update(delete_all(m, ks.drop_last()), ks.last(), zero_digest())
    }
}

/// Deleting every written key empties the tree and brings the root back to zero.
pub proof fn lemma_delete_all(m: Map<Seq<bool>, Seq<u8>>, ks: Seq<Seq<bool>>)
    requires
        forall|k: Seq<bool>| #[trigger] m.contains_key(k) ==> ks.contains(k),
    ensures
        delete_all(m, ks) == Map::<Seq<bool>, Seq<u8>>::empty(),
        root_of(delete_all(m, ks)) == zero_digest(),
{
    lemma_delete_all_keys(m, ks);
    assert(delete_all(m, ks) =~= Map::<Seq<bool>, Seq<u8>>::empty());
    lemma_empty_root();
}

proof fn lemma_delete_all_keys(m: Map<Seq<bool>, Seq<u8>>, ks: Seq<Seq<bool>>)
    ensures
        forall|k: Seq<bool>| #[trigger] delete_all(m, ks).contains_key(k) <==> (m.contains_key(k) && !ks.contains(k)),
    decreases ks.len(),
{
    if ks.len() > 0 {
        lemma_delete_all_keys(m, ks.drop_last());
        assert(delete_all(m, ks) == delete_all(m, ks.drop_last()).remove(ks.last()));
        assert forall|k: Seq<bool>| #[trigger] delete_all(m, ks).contains_key(k) <==> (m.contains_key(k)
            && !ks.contains(k)) by {
            if ks.contains(k) && k != ks.last() {
                let i = choose|i: int| 0 <= i < ks.len() && ks[i] == k;
                assert(ks.drop_last()[i] == k);
            }
            if ks.drop_last().contains(k) {
                let i = choose|i: int| 0 <= i < ks.len() - 1 && ks.drop_last()[i] == k;
                assert(ks[i] == k);
            }
            if k == ks.last() {
                assert(ks[ks.len() - 1] == k);
            }
        }
    }
}

} // verus!
