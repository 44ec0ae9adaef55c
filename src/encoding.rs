//! Canonical little-endian encoding of fixed-width integers.
use vstd::arithmetic::div_mod::lemma_fundamental_div_mod_converse;
use vstd::prelude::*;

verus! {

/// The number that a little-endian byte sequence denotes: the first byte is the
/// least significant.
pub open spec fn le_value(s: Seq<u8>) -> nat
    decreases s.len(),
{
    if s.len() == 0 {
        0
    } else {
        s[0] as nat + 256 * le_value(s.drop_first())
    }
}


/// The `width` bytes of `n` in little-endian order, least significant first.
pub open spec fn le_encoding(n: nat, width: nat) -> Seq<u8>
    decreases width,
{
    if width == 0 {
        Seq::empty()
    } else {
        seq![(n % 256) as u8] + le_encoding(n / 256, (width - 1) as nat)
    }
}

/// A byte sequence is the little-endian encoding, at its own length, of the
/// number it denotes.
proof fn lemma_le_value_encoding(s: Seq<u8>)
    ensures
        s == le_encoding(le_value(s), s.len()),
    decreases s.len(),
{
    if s.len() > 0 {
        let rest = s.drop_first();
        lemma_le_value_encoding(rest);
        lemma_fundamental_div_mod_converse(le_value(s) as int, 256, le_value(rest) as int, s[0] as int);
        assert(s =~= seq![s[0]] + rest);
    } else {
        assert(s =~= Seq::<u8>::empty());
    }
}

/// `le_value` of the suffix of `s` that starts at `i`, written by position.
spec fn le_value_from(s: Seq<u8>, i: int) -> nat
    decreases s.len() - i,
{
    if i < 0 || i >= s.len() {
        0
    } else {
        s[i] as nat + 256 * le_value_from(s, i + 1)
    }
}

proof fn lemma_le_value_from(s: Seq<u8>, i: int)
    requires
        0 <= i <= s.len(),
    ensures
        le_value(s.skip(i)) == le_value_from(s, i),
    decreases s.len() - i,
{
    if i < s.len() {
        lemma_le_value_from(s, i + 1);
        assert(s.skip(i).drop_first() =~= s.skip(i + 1));
    } else {
        assert(s.skip(i) =~= Seq::<u8>::empty());
    }
}

/// Unfolds `le_value` of `s` into a sum over its positions.
proof fn lemma_le_value_positions(s: Seq<u8>)
    ensures
        le_value(s) == le_value_from(s, 0),
{
    lemma_le_value_from(s, 0);
    assert(s.skip(0) =~= s);
}

proof fn lemma_u32_le(u: u32)
    by (bit_vector)
    ensures
        u == (u as u8) as u32 + 256 * ((u >> 8) as u8) as u32 + 65536 * ((u >> 16) as u8) as u32
            + 16777216 * ((u >> 24) as u8) as u32,
{
}

/// Encodes `u` in four bytes, least significant first.
pub fn u32_bytes(u: &u32) -> (r: [u8; 4])
    ensures
        r@ == le_encoding(*u as nat, 4),
        le_value(r@) == *u,
{
    let r = [*u as u8, (*u >> 8) as u8, (*u >> 16) as u8, (*u >> 24) as u8];
    proof {
        lemma_u32_le(*u);
        lemma_le_value_positions(r@);
        lemma_le_value_encoding(r@);
        reveal_with_fuel(le_value_from, 5);
    }
    r
}


proof fn lemma_u64_le(u: u64)
    by (bit_vector)
    ensures
        u == (u as u8) as u64
            + 256 * ((u >> 8) as u8) as u64
            + 65536 * ((u >> 16) as u8) as u64
            + 16777216 * ((u >> 24) as u8) as u64
            + 4294967296 * ((u >> 32) as u8) as u64
            + 1099511627776 * ((u >> 40) as u8) as u64
            + 281474976710656 * ((u >> 48) as u8) as u64
            + 72057594037927936 * ((u >> 56) as u8) as u64,
{
}

/// Encodes `u` in eight bytes, least significant first.
pub fn u64_bytes(u: &u64) -> (r: [u8; 8])
    ensures
        r@ == le_encoding(*u as nat, 8),
        le_value(r@) == *u,
{
    let r = [*u as u8, (*u >> 8) as u8, (*u >> 16) as u8, (*u >> 24) as u8, (*u >> 32) as u8, (*u >> 40) as u8, (*u >> 48) as u8, (*u >> 56) as u8];
    proof {
        lemma_u64_le(*u);
        lemma_le_value_positions(r@);
        lemma_le_value_encoding(r@);
        reveal_with_fuel(le_value_from, 9);
    }
    r
}

proof fn lemma_u128_le(u: u128)
    by (bit_vector)
    ensures
        u == (u as u8) as u128
            + 256 * ((u >> 8) as u8) as u128
            + 65536 * ((u >> 16) as u8) as u128
            + 16777216 * ((u >> 24) as u8) as u128
            + 4294967296 * ((u >> 32) as u8) as u128
            + 1099511627776 * ((u >> 40) as u8) as u128
            + 281474976710656 * ((u >> 48) as u8) as u128
            + 72057594037927936 * ((u >> 56) as u8) as u128
            + 18446744073709551616 * ((u >> 64) as u8) as u128
            + 4722366482869645213696 * ((u >> 72) as u8) as u128
            + 1208925819614629174706176 * ((u >> 80) as u8) as u128
            + 309485009821345068724781056 * ((u >> 88) as u8) as u128
            + 79228162514264337593543950336 * ((u >> 96) as u8) as u128
            + 20282409603651670423947251286016 * ((u >> 104) as u8) as u128
            + 5192296858534827628530496329220096 * ((u >> 112) as u8) as u128
            + 1329227995784915872903807060280344576 * ((u >> 120) as u8) as u128,
{
}

/// Encodes `u` in sixteen bytes, least significant first.
pub fn u128_bytes(u: &u128) -> (r: [u8; 16])
    ensures
        r@ == le_encoding(*u as nat, 16),
        le_value(r@) == *u,
{
    let r = [
        *u as u8,
        (*u >> 8) as u8,
        (*u >> 16) as u8,
        (*u >> 24) as u8,
        (*u >> 32) as u8,
        (*u >> 40) as u8,
        (*u >> 48) as u8,
        (*u >> 56) as u8,
        (*u >> 64) as u8,
        (*u >> 72) as u8,
        (*u >> 80) as u8,
        (*u >> 88) as u8,
        (*u >> 96) as u8,
        (*u >> 104) as u8,
        (*u >> 112) as u8,
        (*u >> 120) as u8,
    ];
    proof {
        lemma_u128_le(*u);
        lemma_le_value_positions(r@);
        lemma_le_value_encoding(r@);
        reveal_with_fuel(le_value_from, 17);
    }
    r
}


/// The integer that a 32-byte hash or difficulty target stands for in the
/// proof-of-work comparison: its upper sixteen bytes, little-endian.
pub open spec fn high_half_value(h: Seq<u8>) -> nat {
    le_value(h.subrange(16, 32))
}

proof fn lemma_or_of_bytes(b0: u8, b1: u8, b2: u8, b3: u8, b4: u8, b5: u8, b6: u8, b7: u8, b8: u8, b9: u8, b10: u8, b11: u8, b12: u8, b13: u8, b14: u8, b15: u8)
    by (bit_vector)
    ensures
        (b0 as u128) << 0u128
            | (b1 as u128) << 8u128
            | (b2 as u128) << 16u128
            | (b3 as u128) << 24u128
            | (b4 as u128) << 32u128
            | (b5 as u128) << 40u128
            | (b6 as u128) << 48u128
            | (b7 as u128) << 56u128
            | (b8 as u128) << 64u128
            | (b9 as u128) << 72u128
            | (b10 as u128) << 80u128
            | (b11 as u128) << 88u128
            | (b12 as u128) << 96u128
            | (b13 as u128) << 104u128
            | (b14 as u128) << 112u128
            | (b15 as u128) << 120u128
            == b0 as u128
            + 256 * b1 as u128
            + 65536 * b2 as u128
            + 16777216 * b3 as u128
            + 4294967296 * b4 as u128
            + 1099511627776 * b5 as u128
            + 281474976710656 * b6 as u128
            + 72057594037927936 * b7 as u128
            + 18446744073709551616 * b8 as u128
            + 4722366482869645213696 * b9 as u128
            + 1208925819614629174706176 * b10 as u128
            + 309485009821345068724781056 * b11 as u128
            + 79228162514264337593543950336 * b12 as u128
            + 20282409603651670423947251286016 * b13 as u128
            + 5192296858534827628530496329220096 * b14 as u128
            + 1329227995784915872903807060280344576 * b15 as u128,
{
}

/// Reads bytes 16 to 31 of `v` as a little-endian 128-bit integer; the lower
/// sixteen bytes do not take part.
pub fn difficulty_bytes_as_u128(v: &Vec<u8>) -> (r: u128)
    requires
        v@.len() >= 32,
    ensures
        r == high_half_value(v@),
{
    let r = (v[16] as u128) << 0u128
        | (v[17] as u128) << 8u128
        | (v[18] as u128) << 16u128
        | (v[19] as u128) << 24u128
        | (v[20] as u128) << 32u128
        | (v[21] as u128) << 40u128
        | (v[22] as u128) << 48u128
        | (v[23] as u128) << 56u128
        | (v[24] as u128) << 64u128
        | (v[25] as u128) << 72u128
        | (v[26] as u128) << 80u128
        | (v[27] as u128) << 88u128
        | (v[28] as u128) << 96u128
        | (v[29] as u128) << 104u128
        | (v[30] as u128) << 112u128
        | (v[31] as u128) << 120u128;
    proof {
        lemma_or_of_bytes(v@[16], v@[17], v@[18], v@[19], v@[20], v@[21], v@[22], v@[23], v@[24], v@[25], v@[26], v@[27], v@[28], v@[29], v@[30], v@[31]);
        let h = v@.subrange(16, 32);
        lemma_le_value_positions(h);
        reveal_with_fuel(le_value_from, 17);
    }
    r
}

/// `256` to the power `w`.
pub open spec fn pow256(w: nat) -> nat
    decreases w,
{
    if w == 0 {
        1
    } else {
        256 * pow256((w - 1) as nat)
    }
}

/// Reading back the encoding of a number that fits gives the number.
pub proof fn lemma_encoding_value(n: nat, w: nat)
    requires
        n < pow256(w),
    ensures
        le_value(le_encoding(n, w)) == n,
        le_encoding(n, w).len() == w,
    decreases w,
{
    if w > 0 {
        let e = le_encoding(n, w);
        let p = pow256((w - 1) as nat);
        assert(n / 256 < p) by (nonlinear_arith)
            requires
                n < 256 * p,
        ;
        lemma_encoding_value(n / 256, (w - 1) as nat);
        assert(e.drop_first() =~= le_encoding(n / 256, (w - 1) as nat));
        assert(n == 256 * (n / 256) + n % 256) by (nonlinear_arith);
    }
}

/// The encoding at a fixed width tells apart any two numbers that fit it.
pub proof fn lemma_encoding_injective(n: nat, m: nat, w: nat)
    requires
        n < pow256(w),
        m < pow256(w),
        le_encoding(n, w) == le_encoding(m, w),
    ensures
        n == m,
{
    lemma_encoding_value(n, w);
    lemma_encoding_value(m, w);
}

/// A byte sequence reads as no more than one of the same length that is at
/// least as large at every position.
pub proof fn lemma_le_value_monotone(s: Seq<u8>, t: Seq<u8>)
    requires
        s.len() == t.len(),
        forall|i: int| 0 <= i < s.len() ==> s[i] <= t[i],
    ensures
        le_value(s) <= le_value(t),
    decreases s.len(),
{
    if s.len() > 0 {
        lemma_le_value_monotone(s.drop_first(), t.drop_first());
    }
}

/// Equal sequences that end alike begin alike.
pub proof fn lemma_cancel_suffix(x: Seq<u8>, y: Seq<u8>, z: Seq<u8>)
    requires
        x + z == y + z,
    ensures
        x == y,
{
    assert(x =~= (x + z).subrange(0, x.len() as int));
    assert(y =~= (y + z).subrange(0, y.len() as int));
}

/// Equal sequences that begin alike end alike.
pub proof fn lemma_cancel_prefix(z: Seq<u8>, x: Seq<u8>, y: Seq<u8>)
    requires
        z + x == z + y,
    ensures
        x == y,
{
    assert(x =~= (z + x).subrange(z.len() as int, (z + x).len() as int));
    assert(y =~= (z + y).subrange(z.len() as int, (z + y).len() as int));
}

} // verus!
