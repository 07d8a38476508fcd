use vstd::prelude::*;

use crate::bencode::{compare_bytes, lex_lt};

verus! {

/// The XOR distance between two 160-bit identifiers, byte by byte.
pub open spec fn xor_distance(a: Seq<u8>, b: Seq<u8>) -> Seq<u8> {
    Seq::new(20, |i: int| a[i] ^ b[i])
}

/// Byte-wise OR of two 20-byte strings.
pub open spec fn or_bytes(a: Seq<u8>, b: Seq<u8>) -> Seq<u8> {
    Seq::new(20, |i: int| a[i] | b[i])
}

/// The 160-bit zero.
pub open spec fn zero_id() -> Seq<u8> {
    Seq::new(20, |i: int| 0u8)
}

/// `d` is no greater than `e` as a big-endian unsigned number (both 20 bytes).
pub open spec fn distance_le(d: Seq<u8>, e: Seq<u8>) -> bool {
    !lex_lt(e, d)
}

/// The big-endian unsigned value of some bytes.
pub open spec fn be_value(s: Seq<u8>) -> nat
    decreases s.len(),
{
    if s.len() == 0 {
        0
    } else {
        be_value(s.drop_last()) * 256 + s.last() as nat
    }
}

pub open spec fn pow256(k: nat) -> nat
    decreases k,
{
    if k == 0 {
        1
    } else {
        256 * pow256((k - 1) as nat)
    }
}

/// Bitwise XOR of two identifiers: the Kademlia distance between them.
pub fn get_distance(a: &[u8; 20], b: &[u8; 20]) -> (r: [u8; 20])
    ensures
        r@ == xor_distance(a@, b@),
{
    let mut result: [u8; 20] = [0; 20];
    let mut i: usize = 0;
    while i < 20
        invariant
            0 <= i <= 20,
            forall|j: int| 0 <= j < i ==> result@[j] == a@[j] ^ b@[j],
        decreases 20 - i,
    {
        result[i] = a[i] ^ b[i];
        i += 1;
    }
    assert(result@ =~= xor_distance(a@, b@));
    result
}

proof fn lemma_pow256_mono(k: nat, m: nat)
    requires
        k <= m,
    ensures
        pow256(k) <= pow256(m),
    decreases m,
{
    if k < m {
        lemma_pow256_mono(k, (m - 1) as nat);
    }
}

/// The big-endian value of the bytes of `s` from `from` to `to`.
fn be_range(s: &[u8; 20], from: usize, to: usize) -> (r: u128)
    requires
        from <= to <= 20,
        to - from <= 16,
    ensures
        r == be_value(s@.subrange(from as int, to as int)),
        r < pow256((to - from) as nat),
{
    let mut acc: u128 = 0;
    let mut i: usize = from;
    assert(s@.subrange(from as int, from as int) =~= Seq::<u8>::empty());
    assert(pow256(16) == 0x1_0000_0000_0000_0000_0000_0000_0000_0000) by {
        reveal_with_fuel(pow256, 17);
    }
    while i < to
        invariant
            from <= i <= to <= 20,
            to - from <= 16,
            acc == be_value(s@.subrange(from as int, i as int)),
            acc < pow256((i - from) as nat),
            pow256(16) == 0x1_0000_0000_0000_0000_0000_0000_0000_0000,
        decreases to - i,
    {
        proof {
            let t = s@.subrange(from as int, i as int + 1);
            assert(t.drop_last() =~= s@.subrange(from as int, i as int));
            lemma_pow256_mono((i + 1 - from) as nat, 16);
            assert(pow256((i + 1 - from) as nat) == 256 * pow256((i - from) as nat));
            assert(acc * 256 + 255 < 0x1_0000_0000_0000_0000_0000_0000_0000_0000);
        }
        acc = acc * 256 + s[i] as u128;
        i += 1;
    }
    acc
}

proof fn lemma_be_value_bound(s: Seq<u8>)
    ensures
        be_value(s) < pow256(s.len()),
    decreases s.len(),
{
    if s.len() > 0 {
        let d = s.drop_last();
        lemma_be_value_bound(d);
        let x = be_value(d);
        let p = pow256(d.len());
        let l = s.last() as nat;
        assert(x * 256 + l < 256 * p) by (nonlinear_arith)
            requires
                x < p,
                l < 256,
        ;
    }
}

/// The value of `a` followed by `b` is that of `a` shifted past `b`, plus that of `b`.
pub proof fn lemma_be_value_concat(a: Seq<u8>, b: Seq<u8>)
    ensures
        be_value(a + b) == be_value(a) * pow256(b.len()) + be_value(b),
    decreases b.len(),
{
    if b.len() == 0 {
        assert(a + b =~= a);
        assert(be_value(b) == 0);
        assert(pow256(0) == 1);
    } else {
        let d = b.drop_last();
        assert(pow256(b.len()) == 256 * pow256(d.len()));
        assert(be_value(b) == be_value(d) * 256 + b.last() as nat);
        lemma_be_value_concat(a, d);
        assert((a + b).drop_last() =~= a + d);
        assert((a + b).last() == b.last());
        assert((a + b).len() > 0);
        assert(be_value(a + b) == be_value((a + b).drop_last()) * 256 + (a + b).last() as nat);
        let x = be_value(a);
        let p = pow256(d.len());
        let y = be_value(d);
        assert((x * p + y) * 256 == x * (256 * p) + y * 256) by (nonlinear_arith);
    }
}

/// For byte strings of one length, raw-byte order is the order of their big-endian values:
/// comparing distances as numbers and comparing them byte by byte agree.
pub proof fn lemma_be_value_order(a: Seq<u8>, b: Seq<u8>)
    requires
        a.len() == b.len(),
    ensures
        lex_lt(a, b) <==> be_value(a) < be_value(b),
    decreases a.len(),
{
    if a.len() > 0 {
        let ta = a.drop_first();
        let tb = b.drop_first();
        lemma_be_value_order(ta, tb);
        assert(a =~= seq![a[0]] + ta);
        assert(b =~= seq![b[0]] + tb);
        lemma_be_value_concat(seq![a[0]], ta);
        lemma_be_value_concat(seq![b[0]], tb);
        assert(seq![a[0]].drop_last() =~= Seq::<u8>::empty());
        assert(seq![b[0]].drop_last() =~= Seq::<u8>::empty());
        assert(be_value(seq![a[0]].drop_last()) == 0);
        assert(be_value(seq![b[0]].drop_last()) == 0);
        assert(be_value(seq![a[0]]) == a[0] as nat);
        assert(be_value(seq![b[0]]) == b[0] as nat);
        lemma_be_value_bound(ta);
        lemma_be_value_bound(tb);
        let p = pow256(ta.len());
        let x = a[0] as nat;
        let y = b[0] as nat;
        let u = be_value(ta);
        let v = be_value(tb);
        if x < y {
            assert(x * p + u < y * p + v) by (nonlinear_arith)
                requires
                    x < y,
                    u < p,
            ;
        } else if x > y {
            assert(y * p + v < x * p + u) by (nonlinear_arith)
                requires
                    y < x,
                    v < p,
            ;
        }
    }
}

/// A distance as a 160-bit number: its first four bytes (`r.0`) and its last sixteen
/// (`r.1`), so that comparing the pairs compares the distances.
pub fn distance_to_integer(distance: &[u8; 20]) -> (r: (u32, u128))
    ensures
        r.0 as nat == be_value(distance@.subrange(0, 4)),
        r.1 as nat == be_value(distance@.subrange(4, 20)),
        be_value(distance@) == r.0 as nat * pow256(16) + r.1 as nat,
{
    let high = be_range(distance, 0, 4);
    let low = be_range(distance, 4, 20);
    proof {
        assert(pow256(4) == 0x1_0000_0000) by {
            reveal_with_fuel(pow256, 5);
        }
        assert(distance@ =~= distance@.subrange(0, 4) + distance@.subrange(4, 20));
        lemma_be_value_concat(distance@.subrange(0, 4), distance@.subrange(4, 20));
    }
    (high as u32, low)
}

/// Whether distance `d` is smaller than distance `e`, comparing all 160 bits.
pub fn distance_less(d: &[u8; 20], e: &[u8; 20]) -> (r: bool)
    ensures
        r == lex_lt(d@, e@),
{
    let c = compare_bytes(d.as_slice(), e.as_slice());
    matches!(c, core::cmp::Ordering::Less)
}

/// Every id is at distance zero from itself.
pub proof fn lemma_distance_self(a: Seq<u8>)
    requires
        a.len() == 20,
    ensures
        xor_distance(a, a) == zero_id(),
{
    assert forall|i: int| 0 <= i < 20 implies xor_distance(a, a)[i] == zero_id()[i] by {
        let x = a[i];
        assert(x ^ x == 0u8) by (bit_vector);
    }
    assert(xor_distance(a, a) =~= zero_id());
}

/// Distance does not depend on the order of its arguments.
pub proof fn lemma_distance_symmetric(a: Seq<u8>, b: Seq<u8>)
    requires
        a.len() == 20,
        b.len() == 20,
    ensures
        xor_distance(a, b) == xor_distance(b, a),
{
    assert forall|i: int| 0 <= i < 20 implies xor_distance(a, b)[i] == xor_distance(b, a)[i] by {
        let x = a[i];
        let y = b[i];
        assert(x ^ y == y ^ x) by (bit_vector);
    }
    assert(xor_distance(a, b) =~= xor_distance(b, a));
}

proof fn lemma_bytewise_le(d: Seq<u8>, e: Seq<u8>)
    requires
        d.len() == e.len(),
        forall|i: int| 0 <= i < d.len() ==> d[i] <= e[i],
    ensures
        !lex_lt(e, d),
    decreases d.len(),
{
    if d.len() > 0 {
        lemma_bytewise_le(d.drop_first(), e.drop_first());
    }
}

/// The distance from `a` to `c` sets no bit that neither the distance from `a` to `b` nor
/// that from `b` to `c` sets; so, as a 160-bit number, it is at most their bitwise OR.
pub proof fn lemma_distance_or_bound(a: Seq<u8>, b: Seq<u8>, c: Seq<u8>)
    requires
        a.len() == 20,
        b.len() == 20,
        c.len() == 20,
    ensures
        forall|i: int|
            0 <= i < 20 ==> #[trigger] xor_distance(a, c)[i] & !or_bytes(
                xor_distance(a, b),
                xor_distance(b, c),
            )[i] == 0u8,
        distance_le(xor_distance(a, c), or_bytes(xor_distance(a, b), xor_distance(b, c))),
{
    let d = xor_distance(a, c);
    let e = or_bytes(xor_distance(a, b), xor_distance(b, c));
    assert forall|i: int| 0 <= i < 20 implies #[trigger] d[i] & !e[i] == 0u8 && d[i] <= e[i] by {
        let x = a[i];
        let y = b[i];
        let z = c[i];
        assert((x ^ z) & !((x ^ y) | (y ^ z)) == 0u8) by (bit_vector);
        assert((x ^ z) <= ((x ^ y) | (y ^ z))) by (bit_vector);
    }
    lemma_bytewise_le(d, e);
}

} // verus!
