//! The byte-packed form of a proof.
//!
//! Layout: the number of keys `n` (u32, little endian), the length of the hint
//! bitmaps in bytes, `32 * n` (u32, little endian), then each key's 256 hint
//! bits packed into 32 bytes, then the sibling digests, 32 bytes each.
use vstd::prelude::*;

use crate::error::Error;
use crate::h256::H256;
use crate::internal_key::{key_bits, lemma_unpack_pack, pack, pack_bits};
use crate::merkle_proof::{digests_view, hints_view, verify_outcome, MerkleProof};

verus! {

/// `x` as four little-endian bytes.
pub open spec fn u32_le(x: nat) -> Seq<u8> {
    seq![
        (x % 256) as u8,
        ((x / 256) % 256) as u8,
        ((x / 65536) % 256) as u8,
        ((x / 16777216) % 256) as u8,
    ]
}

/// The little-endian u32 at offset `at` of `b`.
pub open spec fn read_u32_le(b: Seq<u8>, at: int) -> nat {
    (b[at] + 256 * b[at + 1] + 65536 * b[at + 2] + 16777216 * b[at + 3]) as nat
}

/// The bytes of a proof with hint bits `h` and siblings `s`.
pub open spec fn encode(h: Seq<Seq<bool>>, s: Seq<Seq<u8>>) -> Seq<u8> {
    u32_le(h.len()) + u32_le(32 * h.len()) + Seq::new(32 * h.len(), |k: int| pack(h[k / 32])[k % 32])
        + Seq::new(32 * s.len(), |k: int| s[k / 32][k % 32])
}

/// The hint bits and siblings that bytes `b` hold, if they are well formed.
pub open spec fn decode(b: Seq<u8>) -> Option<(Seq<Seq<bool>>, Seq<Seq<u8>>)> {
    if b.len() < 8 {
        None
    } else {
        let n = read_u32_le(b, 0);
        let hl = read_u32_le(b, 4);
        if hl != 32 * n || b.len() < 8 + hl || (b.len() - 8 - hl) % 32 != 0 {
            None
        } else {
            Some(
                (
                    Seq::new(n, |i: int| key_bits(b.subrange(8 + 32 * i, 8 + 32 * i + 32))),
                    Seq::new(
                        ((b.len() - 8 - hl) / 32) as nat,
                        |j: int| b.subrange(8 + hl + 32 * j, 8 + hl + 32 * j + 32),
                    ),
                ),
            )
        }
    }
}

proof fn lemma_u32_le(x: nat)
    requires
        x < 0x1_0000_0000,
    ensures
        read_u32_le(u32_le(x), 0) == x,
{
}

proof fn lemma_encode_parts(h: Seq<Seq<bool>>, s: Seq<Seq<u8>>)
    ensures
        encode(h, s).len() == 8 + 32 * h.len() + 32 * s.len(),
        encode(h, s).subrange(0, 4) == u32_le(h.len()),
        encode(h, s).subrange(4, 8) == u32_le(32 * h.len()),
        forall|i: int, t: int|
            0 <= i < h.len() && 0 <= t < 32 ==> #[trigger] encode(h, s)[8 + 32 * i + t] == pack(
                h[i],
            )[t],
        forall|j: int, t: int|
            0 <= j < s.len() && 0 <= t < 32 ==> #[trigger] encode(h, s)[8 + 32 * h.len() + 32 * j
                + t] == s[j][t],
{
    let b = encode(h, s);
    let n = h.len();
    let hl = 32 * n;
    let c = Seq::new(hl, |k: int| pack(h[k / 32])[k % 32]);
    let d = Seq::new(32 * s.len(), |k: int| s[k / 32][k % 32]);
    assert(b == u32_le(n) + u32_le(hl) + c + d);
    assert(b.subrange(0, 4) =~= u32_le(n));
    assert(b.subrange(4, 8) =~= u32_le(hl));
    assert forall|i: int, t: int| 0 <= i < n && 0 <= t < 32 implies #[trigger] b[8 + 32 * i + t]
        == pack(h[i])[t] by {
        assert((32 * i + t) / 32 == i);
        assert((32 * i + t) % 32 == t);
        assert(b[8 + 32 * i + t] == c[32 * i + t]);
    }
    assert forall|j: int, t: int| 0 <= j < s.len() && 0 <= t < 32 implies #[trigger] b[8 + hl + 32
        * j + t] == s[j][t] by {
        assert((32 * j + t) / 32 == j);
        assert((32 * j + t) % 32 == t);
        assert(b[8 + hl + 32 * j + t] == d[32 * j + t]);
    }
}

/// Decoding the bytes of a proof gives back its hint bits and siblings.
pub proof fn lemma_decode_encode(h: Seq<Seq<bool>>, s: Seq<Seq<u8>>)
    requires
        32 * h.len() < 0x1_0000_0000,
        forall|i: int| 0 <= i < h.len() ==> (#[trigger] h[i]).len() == 256,
        forall|j: int| 0 <= j < s.len() ==> (#[trigger] s[j]).len() == 32,
    ensures
        decode(encode(h, s)) == Some((h, s)),
{
    let b = encode(h, s);
    let n = h.len();
    let hl = 32 * n;
    lemma_encode_parts(h, s);
    lemma_u32_le(n);
    lemma_u32_le(hl);
    assert(read_u32_le(b, 0) == read_u32_le(b.subrange(0, 4), 0));
    assert(read_u32_le(b, 4) == read_u32_le(b.subrange(4, 8), 0));
    assert((b.len() - 8 - hl) / 32 == s.len());
    let dh = Seq::new(n, |i: int| key_bits(b.subrange(8 + 32 * i, 8 + 32 * i + 32)));
    let ds = Seq::new(s.len(), |j: int| b.subrange(8 + hl + 32 * j, 8 + hl + 32 * j + 32));
    assert forall|i: int| 0 <= i < n implies dh[i] == h[i] by {
        assert(b.subrange(8 + 32 * i, 8 + 32 * i + 32) =~= pack(h[i])) by {
            assert forall|t: int| 0 <= t < 32 implies b.subrange(8 + 32 * i, 8 + 32 * i + 32)[t]
                == pack(h[i])[t] by {
                assert(b[8 + 32 * i + t] == pack(h[i])[t]);
            }
        }
        lemma_unpack_pack(h[i]);
    }
    assert forall|j: int| 0 <= j < s.len() implies ds[j] == s[j] by {
        assert(b.subrange(8 + hl + 32 * j, 8 + hl + 32 * j + 32) =~= s[j]) by {
            assert forall|t: int| 0 <= t < 32 implies b.subrange(8 + hl + 32 * j, 8 + hl + 32 * j
                + 32)[t] == s[j][t] by {
                assert(b[8 + hl + 32 * j + t] == s[j][t]);
            }
        }
    }
    assert(dh =~= h);
    assert(ds =~= s);
}

} // verus!

verus! {

/// A proof in its byte-packed form.
pub struct CompiledMerkleProof {
    bytes: Vec<u8>,
}

impl View for CompiledMerkleProof {
    type V = Seq<u8>;

    closed spec fn view(&self) -> Seq<u8> {
        self.bytes@
    }
}

fn push_u32_le(out: &mut Vec<u8>, x: u32)
    ensures
        final(out)@ == old(out)@ + u32_le(x as nat),
{
    out.push((x % 256) as u8);
    out.push(((x / 256) % 256) as u8);
    out.push(((x / 65536) % 256) as u8);
    out.push(((x / 16777216) % 256) as u8);
    assert(final(out)@ =~= old(out)@ + u32_le(x as nat));
}

fn read_u32_le_exec(b: &Vec<u8>, at: usize) -> (r: u64)
    requires
        at + 4 <= b@.len(),
    ensures
        r == read_u32_le(b@, at as int),
{
    let blen = b.len();
    let x0 = b[at] as u64;
    let x1 = b[at + 1] as u64;
    let x2 = b[at + 2] as u64;
    let x3 = b[at + 3] as u64;
    assert(x0 < 256 && x1 < 256 && x2 < 256 && x3 < 256);
    x0 + 256 * x1 + 65536 * x2 + 16777216 * x3
}

/// The path bits of the 32 bytes at offset `at`.
fn bits_at(b: &Vec<u8>, at: usize) -> (r: Vec<bool>)
    requires
        at + 32 <= b@.len(),
    ensures
        r@ == key_bits(b@.subrange(at as int, at + 32)),
{
    let ghost k = b@.subrange(at as int, at + 32);
    let blen = b.len();
    let mut r: Vec<bool> = Vec::new();
    let mut i: usize = 0;
    while i < 256
        invariant
            i <= 256,
            at + 32 <= b@.len(),
            k == b@.subrange(at as int, at + 32),
            blen == b@.len(),
            r@.len() == i,
            forall|j: int| 0 <= j < i ==> r@[j] == key_bits(k)[j],
        decreases 256 - i,
    {
        assert(i / 8 < 32);
        let byte = b[at + i / 8];
        assert(byte == k[i as int / 8]);
        r.push(((byte >> ((i % 8) as u8)) & 1u8) == 1u8);
        i = i + 1;
    }
    assert(r@ =~= key_bits(k));
    r
}

/// The digest made of the 32 bytes at offset `at`.
fn digest_at(b: &Vec<u8>, at: usize) -> (r: H256)
    requires
        at + 32 <= b@.len(),
    ensures
        r@ == b@.subrange(at as int, at + 32),
{
    let blen = b.len();
    let mut a = [0u8; 32];
    let mut t: usize = 0;
    while t < 32
        invariant
            t <= 32,
            at + 32 <= b@.len(),
            a@.len() == 32,
            blen == b@.len(),
            forall|j: int| 0 <= j < t ==> a@[j] == b@[at + j],
        decreases 32 - t,
    {
        a[t] = b[at + t];
        t = t + 1;
    }
    let r = H256::new(a);
    assert(r@ =~= b@.subrange(at as int, at + 32));
    r
}

impl MerkleProof {
    /// The byte-packed form of the proof.
    pub fn compile(&self) -> (r: CompiledMerkleProof)
        requires
            self.shaped_for(self.hints_spec().len()),
            32 * self.hints_spec().len() < 0x1_0000_0000,
        ensures
            r@ == encode(self.hints_spec(), self.siblings_spec()),
    {
        let ghost h = self.hints_spec();
        let ghost s = self.siblings_spec();
        let n = self.key_count();
        let mut out: Vec<u8> = Vec::new();
        push_u32_le(&mut out, n as u32);
        push_u32_le(&mut out, (32 * n) as u32);
        let ghost head = out@;
        let mut i: usize = 0;
        while i < n
            invariant
                n == h.len(),
                i <= n,
                h == self.hints_spec(),
                self.shaped_for(n as nat),
                head == u32_le(n as nat) + u32_le(32 * n as nat),
                out@ == head + Seq::new(32 * i as nat, |k: int| pack(h[k / 32])[k % 32]),
            decreases n - i,
        {
            let packed = pack_bits(self.hint_bits(i));
            let ghost before = out@;
            out.extend_from_slice(packed.as_slice());
            proof {
                let f = |k: int| pack(h[k / 32])[k % 32];
                assert forall|k: int| 32 * i <= k < 32 * (i + 1) implies #[trigger] f(k) == pack(h[i as int])[k - 32 * i] by {
                    assert(k / 32 == i);
                    assert(k % 32 == k - 32 * i);
                }
                assert(Seq::new(32 * (i + 1) as nat, f) =~= Seq::new(32 * i as nat, f) + pack(h[i as int]));
                assert(out@ =~= head + Seq::new(32 * (i + 1) as nat, f));
            }
            i = i + 1;
        }
        let ghost mid = out@;
        let m = self.sibling_count();
        let mut j: usize = 0;
        while j < m
            invariant
                m == s.len(),
                j <= m,
                s == self.siblings_spec(),
                out@ == mid + Seq::new(32 * j as nat, |k: int| s[k / 32][k % 32]),
            decreases m - j,
        {
            let d = self.sibling(j);
            out.extend_from_slice(d.as_slice());
            proof {
                let f = |k: int| s[k / 32][k % 32];
                assert forall|k: int| 32 * j <= k < 32 * (j + 1) implies #[trigger] f(k) == s[j as int][k - 32 * j] by {
                    assert(k / 32 == j);
                    assert(k % 32 == k - 32 * j);
                }
                assert(Seq::new(32 * (j + 1) as nat, f) =~= Seq::new(32 * j as nat, f) + d@);
            }
            j = j + 1;
        }
        proof {
            assert(out@ =~= encode(h, s));
        }
        CompiledMerkleProof { bytes: out }
    }
}

impl CompiledMerkleProof {
    /// Wraps bytes of a compiled proof.
    pub fn new(bytes: Vec<u8>) -> (r: CompiledMerkleProof)
        ensures
            r@ == bytes@,
    {
        CompiledMerkleProof { bytes }
    }

    /// The bytes.
    pub fn as_slice(&self) -> (r: &[u8])
        ensures
            r@ == self@,
    {
        self.bytes.as_slice()
    }

    /// The proof these bytes hold; `Err(MalformedProof)` when they are not well formed.
    pub fn decompile(&self) -> (r: Result<MerkleProof, Error>)
        ensures
            match r {
                Ok(p) => decode(self@) == Some((p.hints_spec(), p.siblings_spec())),
                Err(e) => e == Error::MalformedProof && decode(self@) is None,
            },
    {
        let b = &self.bytes;
        if b.len() < 8 {
            return Err(Error::MalformedProof);
        }
        let n = read_u32_le_exec(b, 0);
        let hl = read_u32_le_exec(b, 4);
        let len = b.len() as u64;
        if hl != 32 * n || len < 8 + hl || (len - 8 - hl) % 32 != 0 {
            return Err(Error::MalformedProof);
        }
        let n = n as usize;
        let hl = hl as usize;
        let blen: usize = b.len();
        let mut hints: Vec<Vec<bool>> = Vec::new();
        let mut i: usize = 0;
        while i < n
            invariant
                i <= n,
                8 + 32 * n <= b@.len(),
                blen == b@.len(),
                hints@.len() == i,
                forall|t: int| 0 <= t < i ==> (#[trigger] hints@[t])@ == key_bits(b@.subrange(8 + 32 * t, 8 + 32 * t + 32)),
            decreases n - i,
        {
            hints.push(bits_at(b, 8 + 32 * i));
            i = i + 1;
        }
        let count = (b.len() - 8 - hl) / 32;
        assert(32 * count == b@.len() - 8 - hl);
        let mut sibs: Vec<H256> = Vec::new();
        let mut j: usize = 0;
        while j < count
            invariant
                j <= count,
                count == (b@.len() - 8 - hl) / 32,
                (b@.len() - 8 - hl) % 32 == 0,
                8 + hl <= b@.len(),
                blen == b@.len(),
                32 * count == b@.len() - 8 - hl,
                sibs@.len() == j,
                forall|t: int| 0 <= t < j ==> (#[trigger] sibs@[t])@ == b@.subrange(8 + hl + 32 * t, 8 + hl + 32 * t + 32),
            decreases count - j,
        {
            sibs.push(digest_at(b, 8 + hl + 32 * j));
            j = j + 1;
        }
        let p = MerkleProof::new(hints, sibs);
        proof {
            let (dh, ds) = decode(b@)->0;
            assert(p.hints_spec() =~= dh);
            assert(p.siblings_spec() =~= ds);
        }
        Ok(p)
    }

    /// Decompiles the proof and verifies `leaves` against `root` with it.
    pub fn verify(&self, root: &H256, leaves: &Vec<(H256, H256)>) -> (r: Result<bool, Error>)
        ensures
            r == match decode(self@) {
                None => Err(Error::MalformedProof),
                Some((h, s)) => verify_outcome(h, s, root@, leaves@),
            },
    {
        match self.decompile() {
            Err(e) => Err(e),
            Ok(p) => p.verify(root, leaves),
        }
    }
}

} // verus!
