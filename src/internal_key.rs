//! Keys seen as 256-bit paths: bit `i` of a key picks the child at height `i`.
use vstd::prelude::*;

use crate::h256::H256;

verus! {

/// Bit `i` (least significant first) of byte `b`.
pub open spec fn bit_of(b: u8, i: u8) -> bool {
    ((b >> i) & 1u8) == 1u8
}

/// The 256 path bits of a 32-byte key: bit `i` is bit `i % 8` of byte `i / 8`.
pub open spec fn key_bits(k: Seq<u8>) -> Seq<bool> {
    Seq::new(256, |i: int| bit_of(k[i / 8], (i % 8) as u8))
}

/// The path bits of `bits` at and above height `h`, with every lower bit cleared:
/// the position of the node at height `h` on that path.
pub open spec fn clear_below(bits: Seq<bool>, h: int) -> Seq<bool> {
    Seq::new(256, |i: int| i >= h && bits[i])
}

pub open spec fn bit_byte(b: bool) -> u8 {
    if b {
        1u8
    } else {
        0u8
    }
}

/// The byte made of the eight bits `bits[s..s + 8]`, least significant first.
pub open spec fn byte_from(bits: Seq<bool>, s: int) -> u8 {
    bit_byte(bits[s]) | (bit_byte(bits[s + 1]) << 1u8) | (bit_byte(bits[s + 2]) << 2u8) | (
    bit_byte(bits[s + 3]) << 3u8) | (bit_byte(bits[s + 4]) << 4u8) | (bit_byte(bits[s + 5])
        << 5u8) | (bit_byte(bits[s + 6]) << 6u8) | (bit_byte(bits[s + 7]) << 7u8)
}

/// 256 path bits packed into 32 bytes.
pub open spec fn pack(bits: Seq<bool>) -> Seq<u8> {
    Seq::new(32, |j: int| byte_from(bits, 8 * j))
}

proof fn lemma_byte_bits_eq(x: u8, y: u8)
    requires
        (x >> 0u8) & 1u8 == (y >> 0u8) & 1u8,
        (x >> 1u8) & 1u8 == (y >> 1u8) & 1u8,
        (x >> 2u8) & 1u8 == (y >> 2u8) & 1u8,
        (x >> 3u8) & 1u8 == (y >> 3u8) & 1u8,
        (x >> 4u8) & 1u8 == (y >> 4u8) & 1u8,
        (x >> 5u8) & 1u8 == (y >> 5u8) & 1u8,
        (x >> 6u8) & 1u8 == (y >> 6u8) & 1u8,
        (x >> 7u8) & 1u8 == (y >> 7u8) & 1u8,
    ensures
        x == y,
{
    assert(x == y) by (bit_vector)
        requires
            (x >> 0u8) & 1u8 == (y >> 0u8) & 1u8,
            (x >> 1u8) & 1u8 == (y >> 1u8) & 1u8,
            (x >> 2u8) & 1u8 == (y >> 2u8) & 1u8,
            (x >> 3u8) & 1u8 == (y >> 3u8) & 1u8,
            (x >> 4u8) & 1u8 == (y >> 4u8) & 1u8,
            (x >> 5u8) & 1u8 == (y >> 5u8) & 1u8,
            (x >> 6u8) & 1u8 == (y >> 6u8) & 1u8,
            (x >> 7u8) & 1u8 == (y >> 7u8) & 1u8,
    ;
}

proof fn lemma_bit_is_0_or_1(x: u8, i: u8)
    ensures
        (x >> i) & 1u8 == 0u8 || (x >> i) & 1u8 == 1u8,
{
    assert((x >> i) & 1u8 == 0u8 || (x >> i) & 1u8 == 1u8) by (bit_vector);
}

proof fn lemma_bit_eq_at(a: Seq<u8>, b: Seq<u8>, j: int, i: int)
    requires
        a.len() == 32,
        b.len() == 32,
        key_bits(a) == key_bits(b),
        0 <= j < 32,
        0 <= i < 8,
    ensures
        (a[j] >> (i as u8)) & 1u8 == (b[j] >> (i as u8)) & 1u8,
{
    assert(key_bits(a)[8 * j + i] == key_bits(b)[8 * j + i]);
    assert((8 * j + i) / 8 == j);
    assert((8 * j + i) % 8 == i);
    let k = 8 * j + i;
    assert(0 <= k < 256);
    assert(key_bits(a)[k] == bit_of(a[k / 8], (k % 8) as u8));
    assert(key_bits(b)[k] == bit_of(b[k / 8], (k % 8) as u8));
    assert(bit_of(a[j], i as u8) == bit_of(b[j], i as u8));
    lemma_bit_is_0_or_1(a[j], i as u8);
    lemma_bit_is_0_or_1(b[j], i as u8);
}

/// Distinct keys have distinct paths.
pub proof fn lemma_key_bits_injective(a: Seq<u8>, b: Seq<u8>)
    requires
        a.len() == 32,
        b.len() == 32,
        key_bits(a) == key_bits(b),
    ensures
        a == b,
{
    assert forall|j: int| 0 <= j < 32 implies a[j] == b[j] by {
        lemma_bit_eq_at(a, b, j, 0);
        lemma_bit_eq_at(a, b, j, 1);
        lemma_bit_eq_at(a, b, j, 2);
        lemma_bit_eq_at(a, b, j, 3);
        lemma_bit_eq_at(a, b, j, 4);
        lemma_bit_eq_at(a, b, j, 5);
        lemma_bit_eq_at(a, b, j, 6);
        lemma_bit_eq_at(a, b, j, 7);
        lemma_byte_bits_eq(a[j], b[j]);
    }
    assert(a =~= b);
}

/// The path bits of a key.
pub fn path_bits(key: &H256) -> (r: Vec<bool>)
    ensures
        r@ == key_bits(key@),
{
    let mut r: Vec<bool> = Vec::new();
    let mut i: usize = 0;
    while i < 256
        invariant
            i <= 256,
            key@.len() == 32,
            r@.len() == i,
            forall|j: int| 0 <= j < i ==> r@[j] == key_bits(key@)[j],
        decreases 256 - i,
    {
        let b = key.byte(i / 8);
        r.push(((b >> ((i % 8) as u8)) & 1u8) == 1u8);
        i = i + 1;
    }
    assert(r@ =~= key_bits(key@));
    r
}

fn bit_byte_exec(b: bool) -> (r: u8)
    ensures
        r == bit_byte(b),
{
    if b {
        1u8
    } else {
        0u8
    }
}

/// Packs 256 path bits into 32 bytes.
pub fn pack_bits(bits: &Vec<bool>) -> (r: Vec<u8>)
    requires
        bits@.len() == 256,
    ensures
        r@ == pack(bits@),
{
    let mut r: Vec<u8> = Vec::new();
    let mut j: usize = 0;
    while j < 32
        invariant
            j <= 32,
            bits@.len() == 256,
            r@.len() == j,
            forall|k: int| 0 <= k < j ==> r@[k] == byte_from(bits@, 8 * k),
        decreases 32 - j,
    {
        let s = 8 * j;
        let byte = bit_byte_exec(bits[s]) | (bit_byte_exec(bits[s + 1]) << 1u8) | (bit_byte_exec(
            bits[s + 2],
        ) << 2u8) | (bit_byte_exec(bits[s + 3]) << 3u8) | (bit_byte_exec(bits[s + 4]) << 4u8) | (
        bit_byte_exec(bits[s + 5]) << 5u8) | (bit_byte_exec(bits[s + 6]) << 6u8) | (bit_byte_exec(
            bits[s + 7],
        ) << 7u8);
        r.push(byte);
        j = j + 1;
    }
    assert(r@ =~= pack(bits@));
    r
}

/// `bits` with every bit below height `h` cleared.
pub fn clear_bits_below(bits: &Vec<bool>, h: usize) -> (r: Vec<bool>)
    requires
        bits@.len() == 256,
    ensures
        r@ == clear_below(bits@, h as int),
{
    let mut r: Vec<bool> = Vec::new();
    let mut i: usize = 0;
    while i < 256
        invariant
            i <= 256,
            bits@.len() == 256,
            r@.len() == i,
            forall|j: int| 0 <= j < i ==> r@[j] == (j >= h && bits@[j]),
        decreases 256 - i,
    {
        r.push(i >= h && bits[i]);
        i = i + 1;
    }
    assert(r@ =~= clear_below(bits@, h as int));
    r
}

} // verus!

verus! {

/// Path `k` runs through the node at height `h` and position `node`.
pub open spec fn in_subtree(k: Seq<bool>, h: int, node: Seq<bool>) -> bool {
    forall|i: int| h <= i < 256 ==> k[i] == node[i]
}

proof fn lemma_byte_bits(x0: u8, x1: u8, x2: u8, x3: u8, x4: u8, x5: u8, x6: u8, x7: u8)
    requires
        x0 <= 1 && x1 <= 1 && x2 <= 1 && x3 <= 1 && x4 <= 1 && x5 <= 1 && x6 <= 1 && x7 <= 1,
    ensures
        ({
            let y = x0 | (x1 << 1u8) | (x2 << 2u8) | (x3 << 3u8) | (x4 << 4u8) | (x5 << 5u8) | (x6
                << 6u8) | (x7 << 7u8);
            &&& (y >> 0u8) & 1u8 == x0
            &&& (y >> 1u8) & 1u8 == x1
            &&& (y >> 2u8) & 1u8 == x2
            &&& (y >> 3u8) & 1u8 == x3
            &&& (y >> 4u8) & 1u8 == x4
            &&& (y >> 5u8) & 1u8 == x5
            &&& (y >> 6u8) & 1u8 == x6
            &&& (y >> 7u8) & 1u8 == x7
        }),
{
    let y = x0 | (x1 << 1u8) | (x2 << 2u8) | (x3 << 3u8) | (x4 << 4u8) | (x5 << 5u8) | (x6 << 6u8)
        | (x7 << 7u8);
    assert((y >> 0u8) & 1u8 == x0 && (y >> 1u8) & 1u8 == x1 && (y >> 2u8) & 1u8 == x2 && (y >> 3u8)
        & 1u8 == x3 && (y >> 4u8) & 1u8 == x4 && (y >> 5u8) & 1u8 == x5 && (y >> 6u8) & 1u8 == x6 && (y
        >> 7u8) & 1u8 == x7) by (bit_vector)
        requires
            x0 <= 1 && x1 <= 1 && x2 <= 1 && x3 <= 1 && x4 <= 1 && x5 <= 1 && x6 <= 1 && x7 <= 1,
            y == x0 | (x1 << 1u8) | (x2 << 2u8) | (x3 << 3u8) | (x4 << 4u8) | (x5 << 5u8) | (x6
                << 6u8) | (x7 << 7u8),
    ;
}

/// Unpacking packed path bits gives them back.
pub proof fn lemma_unpack_pack(bits: Seq<bool>)
    requires
        bits.len() == 256,
    ensures
        key_bits(pack(bits)) == bits,
{
    assert forall|k: int| 0 <= k < 256 implies key_bits(pack(bits))[k] == bits[k] by {
        let j = k / 8;
        let s = 8 * j;
        lemma_byte_bits(
            bit_byte(bits[s]),
            bit_byte(bits[s + 1]),
            bit_byte(bits[s + 2]),
            bit_byte(bits[s + 3]),
            bit_byte(bits[s + 4]),
            bit_byte(bits[s + 5]),
            bit_byte(bits[s + 6]),
            bit_byte(bits[s + 7]),
        );
        assert(pack(bits)[j] == byte_from(bits, s));
        assert(s + k % 8 == k);
    }
    assert(key_bits(pack(bits)) =~= bits);
}

proof fn lemma_byte_recompose(y: u8)
    ensures
        y == ((y >> 0u8) & 1u8) | (((y >> 1u8) & 1u8) << 1u8) | (((y >> 2u8) & 1u8) << 2u8) | (((y
            >> 3u8) & 1u8) << 3u8) | (((y >> 4u8) & 1u8) << 4u8) | (((y >> 5u8) & 1u8) << 5u8) | (((y
            >> 6u8) & 1u8) << 6u8) | (((y >> 7u8) & 1u8) << 7u8),
{
    assert(y == ((y >> 0u8) & 1u8) | (((y >> 1u8) & 1u8) << 1u8) | (((y >> 2u8) & 1u8) << 2u8) | (((
    y >> 3u8) & 1u8) << 3u8) | (((y >> 4u8) & 1u8) << 4u8) | (((y >> 5u8) & 1u8) << 5u8) | (((y
        >> 6u8) & 1u8) << 6u8) | (((y >> 7u8) & 1u8) << 7u8)) by (bit_vector);
}

proof fn lemma_bit_byte_of(y: u8, i: u8)
    requires
        i < 8,
    ensures
        bit_byte(bit_of(y, i)) == (y >> i) & 1u8,
{
    lemma_bit_is_0_or_1(y, i);
}

/// Packing the path bits of a key gives the key back.
pub proof fn lemma_pack_key_bits(k: Seq<u8>)
    requires
        k.len() == 32,
    ensures
        pack(key_bits(k)) == k,
{
    let b = key_bits(k);
    assert forall|j: int| 0 <= j < 32 implies pack(b)[j] == k[j] by {
        let s = 8 * j;
        assert forall|i: int| 0 <= i < 8 implies #[trigger] b[s + i] == bit_of(k[j], i as u8) by {
            assert((s + i) / 8 == j);
            assert((s + i) % 8 == i);
        }
        lemma_bit_byte_of(k[j], 0);
        lemma_bit_byte_of(k[j], 1);
        lemma_bit_byte_of(k[j], 2);
        lemma_bit_byte_of(k[j], 3);
        lemma_bit_byte_of(k[j], 4);
        lemma_bit_byte_of(k[j], 5);
        lemma_bit_byte_of(k[j], 6);
        lemma_bit_byte_of(k[j], 7);
        assert(b[s] == bit_of(k[j], 0));
        assert(b[s + 1] == bit_of(k[j], 1));
        assert(b[s + 2] == bit_of(k[j], 2));
        assert(b[s + 3] == bit_of(k[j], 3));
        assert(b[s + 4] == bit_of(k[j], 4));
        assert(b[s + 5] == bit_of(k[j], 5));
        assert(b[s + 6] == bit_of(k[j], 6));
        assert(b[s + 7] == bit_of(k[j], 7));
        lemma_byte_recompose(k[j]);
    }
    assert(pack(b) =~= k);
}

/// 256 path bits packed into a digest-sized value.
pub fn pack_key(bits: &Vec<bool>) -> (r: H256)
    requires
        bits@.len() == 256,
    ensures
        r@ == pack(bits@),
{
    let v = pack_bits(bits);
    let mut a = [0u8; 32];
    let mut t: usize = 0;
    while t < 32
        invariant
            t <= 32,
            v@.len() == 32,
            a@.len() == 32,
            forall|j: int| 0 <= j < t ==> a@[j] == v@[j],
        decreases 32 - t,
    {
        a[t] = v[t];
        t = t + 1;
    }
    let r = H256::new(a);
    assert(r@ =~= v@);
    r
}

} // verus!
