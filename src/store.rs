//! The branch store: every non-zero branch of the tree, keyed by height and
//! position; an absent entry stands for the zero digest.
use vstd::prelude::*;

use crate::h256::{zero_digest, H256};
use crate::internal_key::{in_subtree, key_bits, lemma_pack_key_bits, lemma_unpack_pack, pack};
use crate::tree::{apply_update, node_hash};

verus! {

/// A stored branch: its height, its position (path bits packed into 32
/// bytes), and its non-zero digest.
#[derive(Debug, Clone, Copy)]
pub struct BranchNode {
    pub height: u16,
    pub node: H256,
    pub digest: H256,
}

/// `node` is a position at height `h`: 256 bits, those below `h` clear.
pub open spec fn cleared(node: Seq<bool>, h: int) -> bool {
    &&& node.len() == 256
    &&& forall|i: int| 0 <= i < h ==> !node[i]
}

/// Digest of the node at height `h` when the branches up to height `bound`
/// reflect contents `lo` and those above reflect `hi`.
pub open spec fn staged_hash(
    lo: Map<Seq<bool>, Seq<u8>>,
    hi: Map<Seq<bool>, Seq<u8>>,
    bound: nat,
    h: nat,
    node: Seq<bool>,
) -> Seq<u8> {
    if h <= bound {
        node_hash(lo, h, node)
    } else {
        node_hash(hi, h, node)
    }
}

/// Entry `e` sits at height `h` and position `node`.
pub open spec fn at(e: BranchNode, h: nat, node: Seq<u8>) -> bool {
    e.height == h && e.node@ == node
}

/// Some entry of `bs` sits at height `h` and position `node`.
pub open spec fn has_at(bs: Seq<BranchNode>, h: nat, node: Seq<u8>) -> bool {
    exists|j: int| 0 <= j < bs.len() && #[trigger] at(bs[j], h, node)
}

/// The branches hold exactly the non-zero nodes, each with its digest, taken
/// as `staged_hash` gives it; no position is held twice.
pub open spec fn branches_ok(
    bs: Seq<BranchNode>,
    lo: Map<Seq<bool>, Seq<u8>>,
    hi: Map<Seq<bool>, Seq<u8>>,
    bound: nat,
) -> bool {
    &&& forall|j: int|
        0 <= j < bs.len() ==> {
            let e = #[trigger] bs[j];
            &&& 1 <= e.height <= 256
            &&& cleared(key_bits(e.node@), e.height as int)
            &&& e.digest@ == staged_hash(lo, hi, bound, e.height as nat, key_bits(e.node@))
            &&& e.digest@ != zero_digest()
        }
    &&& forall|i: int, j: int|
        0 <= i < bs.len() && 0 <= j < bs.len() && i != j ==> !at(
            #[trigger] bs[i],
            bs[j].height as nat,
            (#[trigger] bs[j]).node@,
        )
    &&& forall|h: nat, node: Seq<bool>|
        1 <= h <= 256 && cleared(node, h as int) && #[trigger] staged_hash(lo, hi, bound, h, node)
            != zero_digest() ==> exists|j: int| 0 <= j < bs.len() && #[trigger] at(bs[j], h, pack(node))
}

/// The branches hold exactly the non-zero nodes of the tree holding `m`.
pub open spec fn branches_valid(bs: Seq<BranchNode>, m: Map<Seq<bool>, Seq<u8>>) -> bool {
    branches_ok(bs, m, m, 0)
}

/// Writing under a key leaves every node off its path unchanged.
pub proof fn lemma_frame(
    m: Map<Seq<bool>, Seq<u8>>,
    k: Seq<bool>,
    v: Seq<u8>,
    h: nat,
    node: Seq<bool>,
)
    requires
        node.len() == 256,
        h <= 256,
        !in_subtree(k, h as int, node),
    ensures
        node_hash(apply_update(m, k, v), h, node) == node_hash(m, h, node),
    decreases h,
{
    if h == 0 {
        if k == node {
            assert(in_subtree(k, 0, node));
        }
    } else {
        let r = node.update(h - 1, true);
        if in_subtree(k, h - 1, node) {
            assert(in_subtree(k, h as int, node));
        }
        if in_subtree(k, h - 1, r) {
            assert forall|i: int| h <= i < 256 implies k[i] == node[i] by {
                assert(k[i] == r[i]);
            }
            assert(in_subtree(k, h as int, node));
        }
        lemma_frame(m, k, v, (h - 1) as nat, node);
        lemma_frame(m, k, v, (h - 1) as nat, r);
    }
}

/// Index of the entry at height `h` and packed position `node`, if any.
pub fn find_branch(bs: &Vec<BranchNode>, h: u16, node: &H256) -> (r: Option<usize>)
    ensures
        match r {
            Some(j) => j < bs@.len() && at(bs@[j as int], h as nat, node@),
            None => forall|j: int| 0 <= j < bs@.len() ==> !#[trigger] at(bs@[j], h as nat, node@),
        },
{
    let mut j: usize = 0;
    while j < bs.len()
        invariant
            j <= bs@.len(),
            forall|t: int| 0 <= t < j ==> !#[trigger] at(bs@[t], h as nat, node@),
        decreases bs@.len() - j,
    {
        if bs[j].height == h && bs[j].node.same_as(node) {
            return Some(j);
        }
        j = j + 1;
    }
    None
}

/// The digest the branches give for height `h` and packed position `node`.
pub fn stored_branch(
    bs: &Vec<BranchNode>,
    h: u16,
    node: &H256,
    lo: Ghost<Map<Seq<bool>, Seq<u8>>>,
    hi: Ghost<Map<Seq<bool>, Seq<u8>>>,
    bound: Ghost<nat>,
    bits: Ghost<Seq<bool>>,
) -> (r: H256)
    requires
        branches_ok(bs@, lo@, hi@, bound@),
        1 <= h <= 256,
        cleared(bits@, h as int),
        node@ == pack(bits@),
    ensures
        r@ == staged_hash(lo@, hi@, bound@, h as nat, bits@),
{
    match find_branch(bs, h, node) {
        Some(j) => {
            proof {
                lemma_unpack_pack(bits@);
            }
            bs[j].digest
        },
        None => {
            proof {
                if staged_hash(lo@, hi@, bound@, h as nat, bits@) != zero_digest() {
                    let j = choose|j: int| 0 <= j < bs@.len() && #[trigger] at(bs@[j], h as nat, pack(bits@));
                    assert(!at(bs@[j], h as nat, node@));
                }
            }
            H256::zero()
        },
    }
}

/// Puts `d` at height `h` and position `node`, or removes the entry there
/// when `d` is zero; other entries stay.
pub fn set_branch(bs: &mut Vec<BranchNode>, h: u16, node: H256, d: H256)
    requires
        forall|i: int, j: int|
            0 <= i < old(bs)@.len() && 0 <= j < old(bs)@.len() && i != j ==> !at(
                #[trigger] old(bs)@[i],
                old(bs)@[j].height as nat,
                (#[trigger] old(bs)@[j]).node@,
            ),
    ensures
        forall|i: int, j: int|
            0 <= i < final(bs)@.len() && 0 <= j < final(bs)@.len() && i != j ==> !at(
                #[trigger] final(bs)@[i],
                final(bs)@[j].height as nat,
                (#[trigger] final(bs)@[j]).node@,
            ),
        forall|j: int|
            0 <= j < final(bs)@.len() ==> if at(#[trigger] final(bs)@[j], h as nat, node@) {
                final(bs)@[j].digest@ == d@ && d@ != zero_digest()
            } else {
                exists|i: int| 0 <= i < old(bs)@.len() && old(bs)@[i] == final(bs)@[j]
            },
        forall|i: int|
            0 <= i < old(bs)@.len() && !at(#[trigger] old(bs)@[i], h as nat, node@) ==> exists|j: int|
                0 <= j < final(bs)@.len() && final(bs)@[j] == old(bs)@[i],
        d@ != zero_digest() ==> exists|j: int|
            0 <= j < final(bs)@.len() && #[trigger] at(final(bs)@[j], h as nat, node@),
{
    let ghost o = bs@;
    let z = d.is_zero();
    match find_branch(bs, h, &node) {
        Some(j) => {
            if z {
                bs.remove(j);
                proof {
                    let f = bs@;
                    assert forall|a: int| 0 <= a < f.len() implies if at(#[trigger] f[a], h as nat, node@) {
                        f[a].digest@ == d@ && d@ != zero_digest()
                    } else {
                        exists|i: int| 0 <= i < o.len() && o[i] == f[a]
                    } by {
                        let b = if a < j { a } else { a + 1 };
                        assert(o[b] == f[a]);
                        assert(b != j);
                    }
                    assert forall|i: int| 0 <= i < o.len() && !at(#[trigger] o[i], h as nat, node@)
                        implies exists|a: int| 0 <= a < f.len() && f[a] == o[i] by {
                        let a = if i < j { i } else { i - 1 };
                        assert(f[a] == o[i]);
                    }
                    assert forall|a: int, b: int|
                        0 <= a < f.len() && 0 <= b < f.len() && a != b implies !at(
                            #[trigger] f[a],
                            f[b].height as nat,
                            (#[trigger] f[b]).node@,
                        ) by {
                        let a2 = if a < j { a } else { a + 1 };
                        let b2 = if b < j { b } else { b + 1 };
                        assert(o[a2] == f[a] && o[b2] == f[b]);
                    }
                }
            } else {
                bs.set(j, BranchNode { height: h, node, digest: d });
                proof {
                    let f = bs@;
                    assert forall|a: int| 0 <= a < f.len() implies if at(#[trigger] f[a], h as nat, node@) {
                        f[a].digest@ == d@ && d@ != zero_digest()
                    } else {
                        exists|i: int| 0 <= i < o.len() && o[i] == f[a]
                    } by {
                        if a != j {
                            assert(o[a] == f[a]);
                        }
                    }
                    assert forall|i: int| 0 <= i < o.len() && !at(#[trigger] o[i], h as nat, node@)
                        implies exists|a: int| 0 <= a < f.len() && f[a] == o[i] by {
                        assert(f[i] == o[i]);
                    }
                    assert(at(f[j as int], h as nat, node@));
                }
            }
        },
        None => {
            if !z {
                bs.push(BranchNode { height: h, node, digest: d });
                proof {
                    let f = bs@;
                    assert forall|a: int| 0 <= a < f.len() implies if at(#[trigger] f[a], h as nat, node@) {
                        f[a].digest@ == d@ && d@ != zero_digest()
                    } else {
                        exists|i: int| 0 <= i < o.len() && o[i] == f[a]
                    } by {
                        if a < o.len() {
                            assert(o[a] == f[a]);
                        }
                    }
                    assert forall|i: int| 0 <= i < o.len() && !at(#[trigger] o[i], h as nat, node@)
                        implies exists|a: int| 0 <= a < f.len() && f[a] == o[i] by {
                        assert(f[i] == o[i]);
                    }
                    assert(at(f[o.len() as int], h as nat, node@));
                }
            } else {
                proof {
                    assert forall|a: int| 0 <= a < bs@.len() implies if at(#[trigger] bs@[a], h as nat, node@) {
                        bs@[a].digest@ == d@ && d@ != zero_digest()
                    } else {
                        exists|i: int| 0 <= i < o.len() && o[i] == bs@[a]
                    } by {
                        assert(o[a] == bs@[a]);
                    }
                }
            }
        },
    }
}

} // verus!

verus! {

/// After the branch at height `h + 1` on path `k` is set to its digest under
/// the new contents `lo`, the branches reflect `lo` up to height `h + 1`.
pub proof fn lemma_raise_bound(
    b: Seq<BranchNode>,
    f: Seq<BranchNode>,
    m: Map<Seq<bool>, Seq<u8>>,
    k: Seq<bool>,
    v: Seq<u8>,
    h: nat,
    p: Seq<bool>,
    d: Seq<u8>,
    hp: nat,
    pn: Seq<u8>,
)
    requires
        h < 256,
        hp == h + 1,
        pn == pack(p),
        k.len() == 256,
        p == crate::internal_key::clear_below(k, h + 1 as int),
        d == node_hash(apply_update(m, k, v), h + 1, p),
        branches_ok(b, apply_update(m, k, v), m, h),
        forall|i: int, j: int|
            0 <= i < f.len() && 0 <= j < f.len() && i != j ==> !at(
                #[trigger] f[i],
                f[j].height as nat,
                (#[trigger] f[j]).node@,
            ),
        forall|j: int|
            0 <= j < f.len() ==> if at(#[trigger] f[j], hp, pn) {
                f[j].digest@ == d && d != zero_digest()
            } else {
                exists|i: int| 0 <= i < b.len() && b[i] == f[j]
            },
        forall|i: int|
            0 <= i < b.len() && !at(#[trigger] b[i], hp, pn) ==> exists|j: int|
                0 <= j < f.len() && f[j] == b[i],
        d != zero_digest() ==> exists|j: int| 0 <= j < f.len() && #[trigger] at(f[j], hp, pn),
    ensures
        branches_ok(f, apply_update(m, k, v), m, h + 1),
{
    let m2 = apply_update(m, k, v);
    lemma_unpack_pack(p);
    assert(cleared(p, h + 1 as int));
    // Off the path, the old and new contents give the same node digests.
    assert forall|n: Seq<bool>| cleared(n, h + 1 as int) && n != p implies #[trigger] node_hash(m2, h + 1, n)
        == node_hash(m, h + 1, n) by {
        if in_subtree(k, h + 1 as int, n) {
            assert(n =~= p);
        }
        lemma_frame(m, k, v, (h + 1) as nat, n);
    }
    assert forall|j: int| 0 <= j < f.len() implies {
        let e = #[trigger] f[j];
        &&& 1 <= e.height <= 256
        &&& cleared(key_bits(e.node@), e.height as int)
        &&& e.digest@ == staged_hash(m2, m, h + 1, e.height as nat, key_bits(e.node@))
        &&& e.digest@ != zero_digest()
    } by {
        let e = f[j];
        if at(e, h + 1, pack(p)) {
        } else {
            let i = choose|i: int| 0 <= i < b.len() && b[i] == f[j];
            assert(b[i] == e);
            let n = key_bits(e.node@);
            if e.height == h + 1 {
                lemma_pack_key_bits(e.node@);
                assert(n != p);
                assert(node_hash(m2, h + 1, n) == node_hash(m, h + 1, n));
            }
        }
    }
    assert forall|hh: nat, n: Seq<bool>|
        1 <= hh <= 256 && cleared(n, hh as int) && #[trigger] staged_hash(m2, m, h + 1, hh, n)
            != zero_digest() implies exists|j: int| 0 <= j < f.len() && #[trigger] at(f[j], hh, pack(n)) by {
        if hh == h + 1 && n == p {
        } else {
            if hh == h + 1 {
                assert(node_hash(m2, h + 1, n) == node_hash(m, h + 1, n));
            }
            assert(staged_hash(m2, m, h, hh, n) == staged_hash(m2, m, h + 1, hh, n));
            let i = choose|i: int| 0 <= i < b.len() && #[trigger] at(b[i], hh, pack(n));
            if hh == h + 1 {
                lemma_unpack_pack(n);
                assert(pack(n) != pack(p));
            }
            assert(!at(b[i], h + 1, pack(p)));
            let j = choose|j: int| 0 <= j < f.len() && f[j] == b[i];
            assert(at(f[j], hh, pack(n)));
        }
    }
}

} // verus!

verus! {

/// Branches that fit one staging fit any other that gives the same digests.
pub proof fn lemma_restage(
    bs: Seq<BranchNode>,
    lo: Map<Seq<bool>, Seq<u8>>,
    hi: Map<Seq<bool>, Seq<u8>>,
    bound: nat,
    lo2: Map<Seq<bool>, Seq<u8>>,
    hi2: Map<Seq<bool>, Seq<u8>>,
    bound2: nat,
)
    requires
        branches_ok(bs, lo, hi, bound),
        forall|h: nat, n: Seq<bool>|
            1 <= h <= 256 ==> #[trigger] staged_hash(lo, hi, bound, h, n) == staged_hash(
                lo2,
                hi2,
                bound2,
                h,
                n,
            ),
    ensures
        branches_ok(bs, lo2, hi2, bound2),
{
    assert forall|h: nat, node: Seq<bool>|
        1 <= h <= 256 && cleared(node, h as int) && #[trigger] staged_hash(lo2, hi2, bound2, h, node)
            != zero_digest() implies exists|j: int| 0 <= j < bs.len() && #[trigger] at(bs[j], h, pack(node)) by {
        assert(staged_hash(lo, hi, bound, h, node) == staged_hash(lo2, hi2, bound2, h, node));
    }
    assert forall|j: int| 0 <= j < bs.len() implies {
        let e = #[trigger] bs[j];
        e.digest@ == staged_hash(lo2, hi2, bound2, e.height as nat, key_bits(e.node@))
    } by {
        let e = bs[j];
        assert(staged_hash(lo, hi, bound, e.height as nat, key_bits(e.node@)) == staged_hash(lo2, hi2, bound2, e.height as nat, key_bits(e.node@)));
    }
}

} // verus!
