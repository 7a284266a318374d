//! Compact proofs of inclusion and exclusion, and their verification.
use vstd::prelude::*;

use crate::error::Error;
use crate::h256::{zero_digest, H256};
use crate::internal_key::{clear_below, clear_bits_below, in_subtree, key_bits, pack_key, path_bits};
use crate::merge::{hash_leaf, leaf_digest, merge, merge_digest};
use crate::store::{branches_valid, stored_branch};
use crate::tree::{
    leaf_node_digest, leaves_ok, lookup, model_of, node_hash, root_of, zero_path, SparseMerkleTree,
};

verus! {

/// Position of the sibling, at height `h`, of the path `b`.
pub open spec fn sibling_node(b: Seq<bool>, h: int) -> Seq<bool> {
    clear_below(b, h + 1).update(h, !b[h])
}

/// Digest of the sibling at height `h` of path `b` in the tree holding `m`.
pub open spec fn sibling_digest(m: Map<Seq<bool>, Seq<u8>>, b: Seq<bool>, h: int) -> Seq<u8> {
    node_hash(m, h as nat, sibling_node(b, h))
}

/// Hint bits of path `b`: bit `h` is set when the sibling at height `h` is zero.
pub open spec fn path_hints(m: Map<Seq<bool>, Seq<u8>>, b: Seq<bool>) -> Seq<bool> {
    Seq::new(256, |h: int| sibling_digest(m, b, h) == zero_digest())
}

/// Some path of `earlier` runs through the node at height `h` of path `b`,
/// and so has the same sibling there.
pub open spec fn meets_earlier(earlier: Seq<Seq<bool>>, b: Seq<bool>, h: int) -> bool {
    exists|j: int| 0 <= j < earlier.len() && in_subtree(#[trigger] earlier[j], h, b)
}

/// The siblings of path `b` from height `h` up, lowest first, that the proof
/// carries: the non-zero ones that no path of `earlier` has already given.
pub open spec fn path_siblings(
    m: Map<Seq<bool>, Seq<u8>>,
    b: Seq<bool>,
    earlier: Seq<Seq<bool>>,
    h: nat,
) -> Seq<Seq<u8>>
    decreases 256 - h,
{
    if h >= 256 {
        Seq::empty()
    } else {
        let s = sibling_digest(m, b, h as int);
        let here = if s == zero_digest() || meets_earlier(earlier, b, h as int) {
            Seq::empty()
        } else {
            seq![s]
        };
        here + path_siblings(m, b, earlier, h + 1)
    }
}

/// The path bits of `ks[..i]`.
pub open spec fn prefix_bits(ks: Seq<Seq<u8>>, i: int) -> Seq<Seq<bool>> {
    Seq::new(i as nat, |j: int| key_bits(ks[j]))
}

/// The 256 sibling digests of path `b`, lowest first.
pub open spec fn all_path_siblings(m: Map<Seq<bool>, Seq<u8>>, b: Seq<bool>) -> Seq<Seq<u8>> {
    Seq::new(256, |h: int| sibling_digest(m, b, h))
}

/// The sibling that the first path of `prev[j..]` meeting path `b` at height
/// `h` used there.
pub open spec fn shared_from(prev: Seq<(Seq<bool>, Seq<Seq<u8>>)>, b: Seq<bool>, h: int, j: nat) -> Option<
    Seq<u8>,
>
    decreases prev.len() - j,
{
    if j >= prev.len() {
        None
    } else if in_subtree(prev[j as int].0, h, b) {
        Some(prev[j as int].1[h])
    } else {
        shared_from(prev, b, h, j + 1)
    }
}

/// The siblings of the paths of `ks[i..]`, one path after the other.
pub open spec fn all_siblings(m: Map<Seq<bool>, Seq<u8>>, ks: Seq<Seq<u8>>, i: nat) -> Seq<
    Seq<u8>,
>
    decreases ks.len() - i,
{
    if i >= ks.len() {
        Seq::empty()
    } else {
        path_siblings(m, key_bits(ks[i as int]), prefix_bits(ks, i as int), 0) + all_siblings(m, ks, (i + 1) as nat)
    }
}

/// `s` with later repetitions removed, first occurrences kept in order.
pub open spec fn dedup(s: Seq<Seq<u8>>) -> Seq<Seq<u8>>
    decreases s.len(),
{
    if s.len() == 0 {
        s
    } else {
        let d = dedup(s.drop_last());
        if d.contains(s.last()) {
            d
        } else {
            d.push(s.last())
        }
    }
}

/// Digest a leaf contributes: zero for the zero value.
pub open spec fn leaf_start(b: Seq<bool>, v: Seq<u8>) -> Seq<u8> {
    if v == zero_digest() {
        zero_digest()
    } else {
        leaf_digest(b, v)
    }
}

/// Climbs path `b` from height `h`, holding digest `cur`. Where the hint bit
/// is clear, the sibling is the one an earlier path of `prev` meeting this one
/// used, or else the next of `sibs` at cursor `c`. Gives the digest reached at
/// the top, the cursor after it, and the siblings used from height `h` up; or
/// nothing if `sibs` runs short.
pub open spec fn fold_path(
    b: Seq<bool>,
    cur: Seq<u8>,
    hints: Seq<bool>,
    sibs: Seq<Seq<u8>>,
    prev: Seq<(Seq<bool>, Seq<Seq<u8>>)>,
    h: nat,
    c: nat,
) -> Option<(Seq<u8>, nat, Seq<Seq<u8>>)>
    decreases 256 - h,
{
    if h >= 256 {
        Some((cur, c, Seq::empty()))
    } else {
        let sh = shared_from(prev, b, h as int, 0);
        if !hints[h as int] && sh is None && c >= sibs.len() {
            None
        } else {
            let sib = if hints[h as int] {
                zero_digest()
            } else if sh is Some {
                sh->0
            } else {
                sibs[c as int]
            };
            let c2 = if hints[h as int] || sh is Some {
                c
            } else {
                c + 1
            };
            let parent = clear_below(b, h + 1 as int);
            let next = if b[h as int] {
                merge_digest(h + 1, parent, sib, cur)
            } else {
                merge_digest(h + 1, parent, cur, sib)
            };
            match fold_path(b, next, hints, sibs, prev, h + 1, c2) {
                None => None,
                Some((d, c3, used)) => Some((d, c3, seq![sib] + used)),
            }
        }
    }
}

/// Verification of the leaves `i..` from cursor `c`: whether all paths reach
/// `root`, or nothing when the siblings run short or are left over.
pub open spec fn verify_from(
    root: Seq<u8>,
    keys: Seq<Seq<bool>>,
    vals: Seq<Seq<u8>>,
    hints: Seq<Seq<bool>>,
    sibs: Seq<Seq<u8>>,
    prev: Seq<(Seq<bool>, Seq<Seq<u8>>)>,
    i: nat,
    c: nat,
) -> Option<bool>
    decreases keys.len() - i,
{
    if i >= keys.len() {
        if c == sibs.len() {
            Some(true)
        } else {
            None
        }
    } else {
        match fold_path(keys[i as int], leaf_start(keys[i as int], vals[i as int]), hints[i as int], sibs, prev, 0, c) {
            None => None,
            Some((d, c2, used)) => match verify_from(root, keys, vals, hints, sibs, prev.push((keys[i as int], used)), i + 1, c2) {
                None => None,
                Some(ok) => Some(ok && d == root),
            },
        }
    }
}

/// What earlier paths hand on: each with its path bits and all its siblings.
pub open spec fn prev_ok(
    prev: Seq<(Seq<bool>, Seq<Seq<u8>>)>,
    m: Map<Seq<bool>, Seq<u8>>,
    earlier: Seq<Seq<bool>>,
) -> bool {
    &&& prev.len() == earlier.len()
    &&& forall|j: int|
        0 <= j < prev.len() ==> (#[trigger] prev[j]).0 == earlier[j] && prev[j].1 == all_path_siblings(
            m,
            earlier[j],
        )
}

proof fn lemma_shared(
    prev: Seq<(Seq<bool>, Seq<Seq<u8>>)>,
    m: Map<Seq<bool>, Seq<u8>>,
    earlier: Seq<Seq<bool>>,
    b: Seq<bool>,
    h: int,
    j: nat,
)
    requires
        prev_ok(prev, m, earlier),
        b.len() == 256,
        0 <= h < 256,
        j <= prev.len(),
    ensures
        (shared_from(prev, b, h, j) is Some) == (exists|t: int|
            j <= t < earlier.len() && in_subtree(#[trigger] earlier[t], h, b)),
        shared_from(prev, b, h, j) is Some ==> shared_from(prev, b, h, j)->0 == sibling_digest(m, b, h),
    decreases prev.len() - j,
{
    if j < prev.len() {
        lemma_shared(prev, m, earlier, b, h, j + 1);
        let e = earlier[j as int];
        assert(prev[j as int].0 == e);
        if in_subtree(e, h, b) {
            assert(sibling_node(e, h) =~= sibling_node(b, h));
        } else {
            assert forall|t: int| j <= t < earlier.len() && in_subtree(#[trigger] earlier[t], h, b) implies j + 1
                <= t by {
            }
        }
    }
}

/// Climbing a path from height `h` with the hints and siblings the tree
/// gives reaches the root, consuming exactly the siblings the proof carries
/// for that path, and using all the path's siblings.
proof fn lemma_climb(
    m: Map<Seq<bool>, Seq<u8>>,
    b: Seq<bool>,
    earlier: Seq<Seq<bool>>,
    prev: Seq<(Seq<bool>, Seq<Seq<u8>>)>,
    sibs: Seq<Seq<u8>>,
    h: nat,
    c: nat,
)
    requires
        b.len() == 256,
        h <= 256,
        prev_ok(prev, m, earlier),
        c + path_siblings(m, b, earlier, h).len() <= sibs.len(),
        sibs.subrange(c as int, (c + path_siblings(m, b, earlier, h).len()) as int) == path_siblings(m, b, earlier, h),
    ensures
        fold_path(b, node_hash(m, h, clear_below(b, h as int)), path_hints(m, b), sibs, prev, h, c)
            == Some((root_of(m), c + path_siblings(m, b, earlier, h).len(), all_path_siblings(m, b).subrange(h as int, 256))),
    decreases 256 - h,
{
    if h >= 256 {
        assert(clear_below(b, h as int) =~= zero_path());
        assert(all_path_siblings(m, b).subrange(h as int, 256) =~= Seq::<Seq<u8>>::empty());
    } else {
        let hh = h as int;
        let p = clear_below(b, hh + 1);
        let s = sibling_digest(m, b, hh);
        let hints = path_hints(m, b);
        let rest = path_siblings(m, b, earlier, h + 1);
        let mine = path_siblings(m, b, earlier, h);
        lemma_shared(prev, m, earlier, b, hh, 0);
        let sh = shared_from(prev, b, hh, 0);
        if b[hh] {
            assert(clear_below(b, hh) =~= p.update(hh, true));
            assert(sibling_node(b, hh) =~= p);
        } else {
            assert(clear_below(b, hh) =~= p);
            assert(sibling_node(b, hh) =~= p.update(hh, true));
        }
        assert(node_hash(m, h + 1, p) == merge_digest(
            h + 1,
            p,
            node_hash(m, h, p),
            node_hash(m, h, p.update(hh, true)),
        ));
        let c2: nat = if hints[hh] || sh is Some {
            c
        } else {
            c + 1
        };
        if !hints[hh] && sh is None {
            assert(!meets_earlier(earlier, b, hh));
            assert(mine == seq![s] + rest);
            assert(sibs.subrange(c as int, (c + mine.len()) as int)[0] == s);
            assert(sibs[c as int] == s);
        } else {
            if sh is Some {
                assert(meets_earlier(earlier, b, hh));
            }
            assert(mine =~= rest);
        }
        assert(sibs.subrange(c2 as int, (c2 + rest.len()) as int) =~= rest) by {
            assert forall|i: int| 0 <= i < rest.len() implies sibs[c2 + i] == rest[i] by {
                assert(sibs.subrange(c as int, (c + mine.len()) as int)[(c2 - c) + i] == mine[(c2 - c) + i]);
            }
        }
        lemma_climb(m, b, earlier, prev, sibs, h + 1, c2);
        assert(seq![s] + all_path_siblings(m, b).subrange(hh + 1, 256) =~= all_path_siblings(m, b).subrange(hh, 256));
    }
}

/// A leaf holding what the tree holds under its path gives the tree's leaf digest.
proof fn lemma_leaf_start(m: Map<Seq<bool>, Seq<u8>>, b: Seq<bool>)
    requires
        b.len() == 256,
        forall|k: Seq<bool>| #[trigger] m.contains_key(k) ==> m[k] != zero_digest(),
    ensures
        leaf_start(b, lookup(m, b)) == node_hash(m, 0, clear_below(b, 0)),
{
    assert(clear_below(b, 0) =~= b);
}

/// Round trip: for any contents and any list of keys, the proof the tree
/// gives for those keys, checked against the tree's root with the values the
/// tree holds under them, verifies.
pub proof fn lemma_round_trip(m: Map<Seq<bool>, Seq<u8>>, ks: Seq<Seq<u8>>)
    requires
        forall|k: Seq<bool>| #[trigger] m.contains_key(k) ==> m[k] != zero_digest(),
    ensures
        verify_from(
            root_of(m),
            ks.map_values(|k: Seq<u8>| key_bits(k)),
            ks.map_values(|k: Seq<u8>| lookup(m, key_bits(k))),
            ks.map_values(|k: Seq<u8>| path_hints(m, key_bits(k))),
            all_siblings(m, ks, 0),
            Seq::empty(),
            0,
            0,
        ) == Some(true),
{
    let all = all_siblings(m, ks, 0);
    assert(all.subrange(0, all.len() as int) =~= all);
    assert(prev_of(m, ks, 0) =~= Seq::<(Seq<bool>, Seq<Seq<u8>>)>::empty());
    lemma_round_trip_from(m, ks, 0, 0);
}

/// What the paths of `ks[..i]` hand on to later ones.
pub open spec fn prev_of(m: Map<Seq<bool>, Seq<u8>>, ks: Seq<Seq<u8>>, i: int) -> Seq<(Seq<bool>, Seq<Seq<u8>>)> {
    Seq::new(i as nat, |j: int| (key_bits(ks[j]), all_path_siblings(m, key_bits(ks[j]))))
}

proof fn lemma_round_trip_from(m: Map<Seq<bool>, Seq<u8>>, ks: Seq<Seq<u8>>, i: nat, c: nat)
    requires
        forall|k: Seq<bool>| #[trigger] m.contains_key(k) ==> m[k] != zero_digest(),
        i <= ks.len(),
        c + all_siblings(m, ks, i).len() == all_siblings(m, ks, 0).len(),
        all_siblings(m, ks, 0).subrange(c as int, all_siblings(m, ks, 0).len() as int)
            == all_siblings(m, ks, i),
    ensures
        verify_from(
            root_of(m),
            ks.map_values(|k: Seq<u8>| key_bits(k)),
            ks.map_values(|k: Seq<u8>| lookup(m, key_bits(k))),
            ks.map_values(|k: Seq<u8>| path_hints(m, key_bits(k))),
            all_siblings(m, ks, 0),
            prev_of(m, ks, i as int),
            i,
            c,
        ) == Some(true),
    decreases ks.len() - i,
{
    let all = all_siblings(m, ks, 0);
    if i < ks.len() {
        let b = key_bits(ks[i as int]);
        let earlier = prefix_bits(ks, i as int);
        let prev = prev_of(m, ks, i as int);
        assert(prev_ok(prev, m, earlier));
        let mine = path_siblings(m, b, earlier, 0);
        let rest = all_siblings(m, ks, i + 1);
        assert(all_siblings(m, ks, i) == mine + rest);
        assert(all.subrange(c as int, (c + mine.len()) as int) =~= mine) by {
            assert forall|t: int| 0 <= t < mine.len() implies all[c + t] == mine[t] by {
                assert(all.subrange(c as int, all.len() as int)[t] == all_siblings(m, ks, i)[t]);
            }
        }
        lemma_leaf_start(m, b);
        lemma_climb(m, b, earlier, prev, all, 0, c);
        let c2 = c + mine.len();
        assert(all.subrange(c2 as int, all.len() as int) =~= rest) by {
            assert forall|t: int| 0 <= t < rest.len() implies all[c2 + t] == rest[t] by {
                assert(all.subrange(c as int, all.len() as int)[mine.len() + t] == all_siblings(m, ks, i)[mine.len() + t]);
            }
        }
        assert(all_path_siblings(m, b).subrange(0, 256) =~= all_path_siblings(m, b));
        assert(prev.push((b, all_path_siblings(m, b))) =~= prev_of(m, ks, i + 1 as int));
        lemma_round_trip_from(m, ks, i + 1, c2);
    } else {
        assert(all_siblings(m, ks, i).len() == 0);
    }
}

/// Exclusion: for a key the tree does not hold, the proof the tree gives for
/// it, checked with the zero value, verifies against the tree's root.
pub proof fn lemma_exclusion(m: Map<Seq<bool>, Seq<u8>>, k: Seq<u8>)
    requires
        forall|q: Seq<bool>| #[trigger] m.contains_key(q) ==> m[q] != zero_digest(),
        !m.contains_key(key_bits(k)),
    ensures
        verify_from(
            root_of(m),
            seq![key_bits(k)],
            seq![zero_digest()],
            seq![path_hints(m, key_bits(k))],
            all_siblings(m, seq![k], 0),
            Seq::empty(),
            0,
            0,
        ) == Some(true),
{
    let ks = seq![k];
    lemma_round_trip(m, ks);
    assert(ks.map_values(|q: Seq<u8>| key_bits(q)) =~= seq![key_bits(k)]);
    assert(ks.map_values(|q: Seq<u8>| lookup(m, key_bits(q))) =~= seq![zero_digest()]);
    assert(ks.map_values(|q: Seq<u8>| path_hints(m, key_bits(q))) =~= seq![path_hints(m, key_bits(k))]);
}

/// The views of a list of hint vectors.
pub open spec fn hints_view(h: Seq<Vec<bool>>) -> Seq<Seq<bool>> {
    h.map_values(|v: Vec<bool>| v@)
}

/// The views of a list of digests.
pub open spec fn digests_view(s: Seq<H256>) -> Seq<Seq<u8>> {
    s.map_values(|d: H256| d@)
}

/// The path bits of each leaf key.
pub open spec fn leaf_keys(leaves: Seq<(H256, H256)>) -> Seq<Seq<bool>> {
    leaves.map_values(|l: (H256, H256)| key_bits(l.0@))
}

/// The value of each leaf.
pub open spec fn leaf_values(leaves: Seq<(H256, H256)>) -> Seq<Seq<u8>> {
    leaves.map_values(|l: (H256, H256)| l.1@)
}

/// There are `n` hint vectors of 256 bits each.
pub open spec fn shaped(hints: Seq<Seq<bool>>, n: nat) -> bool {
    &&& hints.len() == n
    &&& forall|i: int| 0 <= i < n ==> (#[trigger] hints[i]).len() == 256
}

/// What verifying `leaves` against `root` with hints `hints` and siblings
/// `sibs` gives: `Err(MalformedProof)` when the proof does not fit the leaves
/// or its siblings run short or are left over, else whether every path
/// reaches `root`.
pub open spec fn verify_outcome(
    hints: Seq<Seq<bool>>,
    sibs: Seq<Seq<u8>>,
    root: Seq<u8>,
    leaves: Seq<(H256, H256)>,
) -> Result<bool, Error> {
    if !shaped(hints, leaves.len()) {
        Err(Error::MalformedProof)
    } else {
        match verify_from(root, leaf_keys(leaves), leaf_values(leaves), hints, sibs, Seq::empty(), 0, 0) {
            None => Err(Error::MalformedProof),
            Some(b) => Ok(b),
        }
    }
}

pub open spec fn and_opt(o: Option<bool>, ok: bool) -> Option<bool> {
    match o {
        None => None,
        Some(x) => Some(x && ok),
    }
}

/// A proof for a list of keys: per key, 256 hint bits (set where the sibling
/// is zero and left out); and the non-zero siblings of every path, lowest
/// first, one path after the other.
pub struct MerkleProof {
    hints: Vec<Vec<bool>>,
    siblings: Vec<H256>,
}

impl MerkleProof {
    pub closed spec fn hints_spec(&self) -> Seq<Seq<bool>> {
        hints_view(self.hints@)
    }

    pub closed spec fn siblings_spec(&self) -> Seq<Seq<u8>> {
        digests_view(self.siblings@)
    }

    /// Each key has 256 hint bits, and there is one hint vector per leaf.
    pub open spec fn shaped_for(&self, n: nat) -> bool {
        shaped(self.hints_spec(), n)
    }

    /// Hint bits of key `i`.
    pub fn hint_bits(&self, i: usize) -> (r: &Vec<bool>)
        requires
            i < self.hints_spec().len(),
        ensures
            r@ == self.hints_spec()[i as int],
    {
        &self.hints[i]
    }

    /// A proof made of the given hints and siblings.
    pub fn new(hints: Vec<Vec<bool>>, siblings: Vec<H256>) -> (r: MerkleProof)
        ensures
            r.hints_spec() == hints_view(hints@),
            r.siblings_spec() == digests_view(siblings@),
    {
        MerkleProof { hints, siblings }
    }

    /// Number of keys the proof is for.
    pub fn key_count(&self) -> (r: usize)
        ensures
            r == self.hints_spec().len(),
    {
        self.hints.len()
    }

    /// Number of sibling digests carried.
    pub fn sibling_count(&self) -> (r: usize)
        ensures
            r == self.siblings_spec().len(),
    {
        self.siblings.len()
    }

    /// Hint bit `h` of key `i`.
    pub fn hint(&self, i: usize, h: usize) -> (r: bool)
        requires
            i < self.hints_spec().len(),
            h < self.hints_spec()[i as int].len(),
        ensures
            r == self.hints_spec()[i as int][h as int],
    {
        self.hints[i][h]
    }

    /// Sibling digest `i`.
    pub fn sibling(&self, i: usize) -> (r: H256)
        requires
            i < self.siblings_spec().len(),
        ensures
            r@ == self.siblings_spec()[i as int],
    {
        self.siblings[i]
    }

    /// Checks that `leaves`, in the order the proof was made for, belong to
    /// the tree with root `root`. A leaf with the zero value claims absence.
    /// `Err(MalformedProof)` when the proof does not fit the leaves or its
    /// siblings run short or are left over.
    pub fn verify(&self, root: &H256, leaves: &Vec<(H256, H256)>) -> (r: Result<bool, Error>)
        ensures
            r == verify_outcome(self.hints_spec(), self.siblings_spec(), root@, leaves@),
    {
        let ghost keys = leaf_keys(leaves@);
        let ghost vals = leaf_values(leaves@);
        let ghost hs = self.hints_spec();
        let ghost ss = self.siblings_spec();
        if self.hints.len() != leaves.len() {
            return Err(Error::MalformedProof);
        }
        let n = leaves.len();
        let mut i: usize = 0;
        while i < n
            invariant
                n == leaves@.len(),
                n == self.hints@.len(),
                i <= n,
                hs == hints_view(self.hints@),
                forall|t: int| 0 <= t < i ==> (#[trigger] self.hints@[t])@.len() == 256,
            decreases n - i,
        {
            if self.hints[i].len() != 256 {
                assert(hs[i as int] == self.hints@[i as int]@);
                assert(!self.shaped_for(n as nat));
                return Err(Error::MalformedProof);
            }
            i = i + 1;
        }
        let mut c: usize = 0;
        let mut ok = true;
        let mut prev: Vec<(Vec<bool>, Vec<H256>)> = Vec::new();
        proof {
            assert(prev_view(prev@) =~= Seq::<(Seq<bool>, Seq<Seq<u8>>)>::empty());
        }
        i = 0;
        while i < n
            invariant
                n == leaves@.len(),
                i <= n,
                self.shaped_for(n as nat),
                c <= self.siblings@.len(),
                keys == leaf_keys(leaves@),
                vals == leaf_values(leaves@),
                hs == self.hints_spec(),
                ss == self.siblings_spec(),
                ss.len() == self.siblings@.len(),
                forall|j: int| 0 <= j < prev@.len() ==> (#[trigger] prev@[j]).1@.len() == 256 && prev@[j].0@.len() == 256,
                verify_from(root@, keys, vals, hs, ss, Seq::empty(), 0, 0) == and_opt(
                    verify_from(root@, keys, vals, hs, ss, prev_view(prev@), i as nat, c as nat),
                    ok,
                ),
            decreases n - i,
        {
            let bits = path_bits(&leaves[i].0);
            let value = leaves[i].1;
            let start = if value.is_zero() {
                H256::zero()
            } else {
                hash_leaf(&bits, &value)
            };
            assert(self.hints@[i as int]@ == hs[i as int]);
            assert(bits@ == keys[i as int]);
            match climb(&bits, start, &self.hints[i], &self.siblings, &prev, c) {
                None => {
                    return Err(Error::MalformedProof);
                },
                Some((d, c2, used)) => {
                    ok = ok && d.same_as(root);
                    c = c2;
                    let ghost pv = prev_view(prev@);
                    prev.push((bits, used));
                    proof {
                        assert(prev_view(prev@) =~= pv.push((keys[i as int], digests_view(used@))));
                    }
                },
            }
            i = i + 1;
        }
        if c != self.siblings.len() {
            return Err(Error::MalformedProof);
        }
        Ok(ok)
    }
}

/// The view of what earlier paths hand on.
pub open spec fn prev_view(p: Seq<(Vec<bool>, Vec<H256>)>) -> Seq<(Seq<bool>, Seq<Seq<u8>>)> {
    p.map_values(|x: (Vec<bool>, Vec<H256>)| (x.0@, digests_view(x.1@)))
}

/// Whether path `a` runs through the node at height `h` of path `b`.
fn in_subtree_exec(a: &Vec<bool>, h: usize, b: &Vec<bool>) -> (r: bool)
    requires
        a@.len() == 256,
        b@.len() == 256,
    ensures
        r == in_subtree(a@, h as int, b@),
{
    let mut i: usize = h;
    while i < 256
        invariant
            a@.len() == 256,
            b@.len() == 256,
            h <= i,
            forall|t: int| h <= t < i ==> a@[t] == b@[t],
        decreases 256 - i,
    {
        if a[i] != b[i] {
            assert(a@[i as int] != b@[i as int]);
            return false;
        }
        i = i + 1;
    }
    true
}

/// The sibling at height `h` that an earlier path meeting `bits` there used.
fn shared_sibling(prev: &Vec<(Vec<bool>, Vec<H256>)>, bits: &Vec<bool>, h: usize) -> (r: Option<H256>)
    requires
        bits@.len() == 256,
        h < 256,
        forall|j: int| 0 <= j < prev@.len() ==> (#[trigger] prev@[j]).1@.len() == 256 && prev@[j].0@.len() == 256,
    ensures
        match shared_from(prev_view(prev@), bits@, h as int, 0) {
            None => r is None,
            Some(s) => match r {
                Some(x) => x@ == s,
                None => false,
            },
        },
{
    let ghost pv = prev_view(prev@);
    let mut j: usize = 0;
    while j < prev.len()
        invariant
            j <= prev@.len(),
            pv == prev_view(prev@),
            bits@.len() == 256,
            h < 256,
            forall|t: int| 0 <= t < prev@.len() ==> (#[trigger] prev@[t]).1@.len() == 256 && prev@[t].0@.len() == 256,
            shared_from(pv, bits@, h as int, 0) == shared_from(pv, bits@, h as int, j as nat),
        decreases prev@.len() - j,
    {
        assert(pv[j as int] == (prev@[j as int].0@, digests_view(prev@[j as int].1@)));
        assert(prev@[j as int].1@.len() == 256 && prev@[j as int].0@.len() == 256);
        let entry = &prev[j];
        assert(entry.1@.len() == 256);
        if in_subtree_exec(&entry.0, h, bits) {
            let x = entry.1[h];
            assert(digests_view(entry.1@)[h as int] == x@);
            return Some(x);
        }
        j = j + 1;
    }
    None
}

/// Climbs path `bits` from the leaf digest `start`, as `fold_path` does.
fn climb(
    bits: &Vec<bool>,
    start: H256,
    hints: &Vec<bool>,
    sibs: &Vec<H256>,
    prev: &Vec<(Vec<bool>, Vec<H256>)>,
    c0: usize,
) -> (r: Option<(H256, usize, Vec<H256>)>)
    requires
        bits@.len() == 256,
        hints@.len() == 256,
        c0 <= sibs@.len(),
        forall|j: int| 0 <= j < prev@.len() ==> (#[trigger] prev@[j]).1@.len() == 256 && prev@[j].0@.len() == 256,
    ensures
        match fold_path(bits@, start@, hints@, digests_view(sibs@), prev_view(prev@), 0, c0 as nat) {
            None => r is None,
            Some((d, c, u)) => match r {
                Some((rd, rc, ru)) => rd@ == d && rc == c && c <= sibs@.len() && digests_view(ru@) == u
                    && ru@.len() == 256,
                None => false,
            },
        },
{
    let ghost ss = digests_view(sibs@);
    let ghost pv = prev_view(prev@);
    let mut cur = start;
    let mut c = c0;
    let mut used: Vec<H256> = Vec::new();
    let mut h: usize = 0;
    while h < 256
        invariant
            bits@.len() == 256,
            hints@.len() == 256,
            h <= 256,
            c <= sibs@.len(),
            ss == digests_view(sibs@),
            ss.len() == sibs@.len(),
            pv == prev_view(prev@),
            used@.len() == h,
            forall|j: int| 0 <= j < prev@.len() ==> (#[trigger] prev@[j]).1@.len() == 256 && prev@[j].0@.len() == 256,
            fold_path(bits@, start@, hints@, ss, pv, 0, c0 as nat) == match fold_path(
                bits@,
                cur@,
                hints@,
                ss,
                pv,
                h as nat,
                c as nat,
            ) {
                None => None,
                Some((d, c3, u)) => Some((d, c3, digests_view(used@) + u)),
            },
        decreases 256 - h,
    {
        let sib = if hints[h] {
            H256::zero()
        } else {
            match shared_sibling(prev, bits, h) {
                Some(s) => s,
                None => {
                    if c >= sibs.len() {
                        return None;
                    }
                    let s = sibs[c];
                    c = c + 1;
                    s
                },
            }
        };
        let parent = clear_bits_below(bits, h + 1);
        let next = if bits[h] {
            merge((h + 1) as u16, &parent, &sib, &cur)
        } else {
            merge((h + 1) as u16, &parent, &cur, &sib)
        };
        let ghost before = digests_view(used@);
        used.push(sib);
        proof {
            assert(digests_view(used@) =~= before + seq![sib@]);
            assert forall|u: Seq<Seq<u8>>| before + (seq![sib@] + u) =~= digests_view(used@) + u by {}
        }
        cur = next;
        h = h + 1;
    }
    proof {
        assert(digests_view(used@) + Seq::<Seq<u8>>::empty() =~= digests_view(used@));
    }
    Some((cur, c, used))
}

/// Whether some path of `earlier` runs through the node at height `h` of path `b`.
fn meets_any(earlier: &Vec<Vec<bool>>, b: &Vec<bool>, h: usize) -> (r: bool)
    requires
        b@.len() == 256,
        forall|t: int| 0 <= t < earlier@.len() ==> (#[trigger] earlier@[t])@.len() == 256,
    ensures
        r == meets_earlier(earlier@.map_values(|v: Vec<bool>| v@), b@, h as int),
{
    let ghost ev = earlier@.map_values(|v: Vec<bool>| v@);
    let mut j: usize = 0;
    while j < earlier.len()
        invariant
            j <= earlier@.len(),
            ev == earlier@.map_values(|v: Vec<bool>| v@),
            b@.len() == 256,
            forall|t: int| 0 <= t < earlier@.len() ==> (#[trigger] earlier@[t])@.len() == 256,
            forall|t: int| 0 <= t < j ==> !in_subtree(#[trigger] ev[t], h as int, b@),
        decreases earlier@.len() - j,
    {
        if in_subtree_exec(&earlier[j], h, b) {
            assert(in_subtree(ev[j as int], h as int, b@));
            return true;
        }
        j = j + 1;
    }
    false
}

/// Whether `k` is among `v`.
fn contains_digest(v: &Vec<H256>, k: &H256) -> (r: bool)
    ensures
        r == digests_view(v@).contains(k@),
{
    let mut i: usize = 0;
    while i < v.len()
        invariant
            i <= v@.len(),
            forall|t: int| 0 <= t < i ==> v@[t]@ != k@,
        decreases v@.len() - i,
    {
        if v[i].same_as(k) {
            assert(digests_view(v@)[i as int] == k@);
            return true;
        }
        i = i + 1;
    }
    proof {
        if digests_view(v@).contains(k@) {
            let t = choose|t: int| 0 <= t < v@.len() && digests_view(v@)[t] == k@;
            assert(v@[t]@ == k@);
        }
    }
    false
}

/// `keys` with later repetitions removed.
pub fn dedup_keys(keys: &Vec<H256>) -> (r: Vec<H256>)
    ensures
        digests_view(r@) == dedup(digests_view(keys@)),
{
    let ghost ks = digests_view(keys@);
    let mut r: Vec<H256> = Vec::new();
    let mut i: usize = 0;
    while i < keys.len()
        invariant
            i <= keys@.len(),
            ks == digests_view(keys@),
            digests_view(r@) == dedup(ks.take(i as int)),
        decreases keys@.len() - i,
    {
        proof {
            let t = ks.take(i as int + 1);
            assert(t.drop_last() =~= ks.take(i as int));
            assert(t.last() == keys@[i as int]@);
        }
        if !contains_digest(&r, &keys[i]) {
            r.push(keys[i]);
            assert(digests_view(r@) =~= dedup(ks.take(i as int + 1)));
        }
        i = i + 1;
    }
    assert(ks.take(keys@.len() as int) =~= ks);
    r
}

impl SparseMerkleTree {
    /// The proof for `keys` (repetitions collapsed, first occurrences kept in
    /// order): for each key its hint bits, and all non-zero siblings.
    /// `Err(InvalidInput)` when `keys` is empty.
    pub fn merkle_proof(&self, keys: Vec<H256>) -> (r: Result<MerkleProof, Error>)
        requires
            self.wf(),
        ensures
            keys@.len() == 0 ==> r == Err::<MerkleProof, Error>(Error::InvalidInput),
            keys@.len() > 0 ==> match r {
                Ok(p) => {
                    let dk = dedup(digests_view(keys@));
                    &&& p.hints_spec() == dk.map_values(|k: Seq<u8>| path_hints(self@, key_bits(k)))
                    &&& p.siblings_spec() == all_siblings(self@, dk, 0)
                },
                Err(_) => false,
            },
    {
        if keys.len() == 0 {
            return Err(Error::InvalidInput);
        }
        let dk = dedup_keys(&keys);
        let ghost dks = digests_view(dk@);
        let leaves = self.leaves();
        let branches = self.branches();
        let ghost m = self@;
        let mut hints: Vec<Vec<bool>> = Vec::new();
        let mut earlier: Vec<Vec<bool>> = Vec::new();
        let mut sibs: Vec<H256> = Vec::new();
        let mut i: usize = 0;
        proof {
            assert(digests_view(sibs@) + all_siblings(m, dks, 0) =~= all_siblings(m, dks, 0));
        }
        while i < dk.len()
            invariant
                i <= dk@.len(),
                dks == digests_view(dk@),
                leaves_ok(leaves@),
                m == model_of(leaves@),
                branches_valid(branches@, m),
                hints@.len() == i,
                forall|t: int| 0 <= t < i ==> (#[trigger] hints@[t])@ == path_hints(m, key_bits(dks[t])),
                earlier@.len() == i,
                forall|t: int| 0 <= t < i ==> (#[trigger] earlier@[t])@ == key_bits(dks[t]),
                digests_view(sibs@) + all_siblings(m, dks, i as nat) == all_siblings(m, dks, 0),
            decreases dk@.len() - i,
        {
            let kb = path_bits(&dk[i]);
            let ghost b = kb@;
            let ghost ebits = prefix_bits(dks, i as int);
            proof {
                assert(earlier@.map_values(|v: Vec<bool>| v@) =~= ebits);
            }
            let mut hv: Vec<bool> = Vec::new();
            let mut h: usize = 0;
            proof {
                assert(b == key_bits(dks[i as int]));
                assert(all_siblings(m, dks, i as nat) == path_siblings(m, b, ebits, 0) + all_siblings(m, dks, (i + 1) as nat));
                assert(digests_view(sibs@) + path_siblings(m, b, ebits, 0) + all_siblings(m, dks, (i + 1) as nat)
                    =~= all_siblings(m, dks, 0));
            }
            while h < 256
                invariant
                    h <= 256,
                    i < dk@.len(),
                    b == kb@,
                    b.len() == 256,
                    leaves_ok(leaves@),
                    m == model_of(leaves@),
                    branches_valid(branches@, m),
                    hv@.len() == h,
                    earlier@.len() == i,
                    ebits == prefix_bits(dks, i as int),
                    earlier@.map_values(|v: Vec<bool>| v@) == ebits,
                    forall|t: int| 0 <= t < i ==> (#[trigger] earlier@[t])@.len() == 256,
                    forall|t: int| 0 <= t < h ==> (#[trigger] hv@[t]) == (sibling_digest(m, b, t) == zero_digest()),
                    digests_view(sibs@) + path_siblings(m, b, ebits, h as nat) + all_siblings(m, dks, (i + 1) as nat)
                        == all_siblings(m, dks, 0),
                decreases 256 - h,
            {
                let mut sn = clear_bits_below(&kb, h + 1);
                let flip = !kb[h];
                sn.set(h, flip);
                proof {
                    assert(sn@ =~= sibling_node(b, h as int));
                }
                let sp = pack_key(&sn);
                let d = if h == 0 {
                    leaf_node_digest(&leaves, &sn, &sp)
                } else {
                    stored_branch(&branches, h as u16, &sp, Ghost(m), Ghost(m), Ghost(0), Ghost(sn@))
                };
                let z = d.is_zero();
                hv.push(z);
                let met = meets_any(&earlier, &kb, h);
                let ghost before = digests_view(sibs@);
                if !z && !met {
                    sibs.push(d);
                }
                proof {
                    let here = if d@ == zero_digest() || meets_earlier(ebits, b, h as int) {
                        Seq::<Seq<u8>>::empty()
                    } else {
                        seq![d@]
                    };
                    assert(path_siblings(m, b, ebits, h as nat) == here + path_siblings(m, b, ebits, (h + 1) as nat));
                    assert(digests_view(sibs@) =~= before + here);
                    assert(digests_view(sibs@) + path_siblings(m, b, ebits, (h + 1) as nat) + all_siblings(m, dks, (i + 1) as nat)
                        =~= before + path_siblings(m, b, ebits, h as nat) + all_siblings(m, dks, (i + 1) as nat));
                }
                h = h + 1;
            }
            proof {
                assert(hv@ =~= path_hints(m, b));
                assert(path_siblings(m, b, ebits, 256) =~= Seq::<Seq<u8>>::empty());
                assert(digests_view(sibs@) + all_siblings(m, dks, (i + 1) as nat)
                    =~= digests_view(sibs@) + path_siblings(m, b, ebits, 256) + all_siblings(m, dks, (i + 1) as nat));
            }
            hints.push(hv);
            let ghost eb = earlier@;
            earlier.push(kb);
            proof {
                assert forall|t: int| 0 <= t < i + 1 implies (#[trigger] earlier@[t])@ == key_bits(dks[t]) by {
                    if t < i {
                        assert(earlier@[t] == eb[t]);
                    }
                }
            }
            i = i + 1;
        }
        proof {
            assert(all_siblings(m, dks, i as nat) =~= Seq::<Seq<u8>>::empty());
            assert(digests_view(sibs@) =~= digests_view(sibs@) + all_siblings(m, dks, i as nat));
            assert(hints_view(hints@) =~= dks.map_values(|k: Seq<u8>| path_hints(m, key_bits(k))));
        }
        Ok(MerkleProof { hints, siblings: sibs })
    }
}

} // verus!
