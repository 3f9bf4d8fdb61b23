//! Integer arithmetic shared by the codec: 32-bit wrap-around, floor
//! division by a power of two, and little-endian words.
use vstd::prelude::*;
use vstd::arithmetic::power2::{pow2, lemma_pow2_pos, lemma_pow2_unfold, lemma_pow2_strictly_increases, lemma2_to64, lemma2_to64_rest};

verus! {

/// The `i32` congruent to `v` modulo 2^32: what a 32-bit register keeps of `v`.
pub open spec fn wrap32(v: int) -> i32 {
    ((v + 0x8000_0000) % 0x1_0000_0000 - 0x8000_0000) as i32
}

/// The `u32` congruent to `v` modulo 2^32.
pub open spec fn wrap_u32(v: int) -> u32 {
    (v % 0x1_0000_0000) as u32
}

/// `wrap32` depends on its argument modulo 2^32 only, and is the identity on `i32`.
pub proof fn lemma_wrap32(a: int, b: int)
    ensures
        i32::MIN <= a <= i32::MAX ==> wrap32(a) == a,
        wrap32(wrap32(a) + b) == wrap32(a + b),
        wrap32(b + wrap32(a)) == wrap32(b + a),
        wrap32(b - wrap32(a)) == wrap32(b - a),
        wrap32(wrap32(a) - b) == wrap32(a - b),
{
    let k = (a + 0x8000_0000) / 0x1_0000_0000;
    assert(wrap32(a) == a - 0x1_0000_0000 * k);
    lemma_wrap32_multiple(a + b, -k);
    lemma_wrap32_multiple(b - a, k);
    lemma_wrap32_multiple(a - b, -k);
}

/// Multiples of 2^32 leave no trace.
pub proof fn lemma_wrap32_multiple(v: int, k: int)
    ensures
        wrap32(v + 0x1_0000_0000 * k) == wrap32(v),
{
    vstd::arithmetic::div_mod::lemma_mod_multiples_vanish(k, v + 0x8000_0000, 0x1_0000_0000);
}

/// Keeps the low 32 bits of `v`.
pub fn wrap_i32(v: i64) -> (r: i32)
    ensures
        r == wrap32(v as int),
{
    proof {
        assert(v as i32 == (v + 0x8000_0000) % 0x1_0000_0000 - 0x8000_0000) by (bit_vector);
    }
    v as i32
}

/// `a + b` in a 32-bit register.
pub fn add32(a: i32, b: i32) -> (r: i32)
    ensures
        r == wrap32(a + b),
{
    wrap_i32(a as i64 + b as i64)
}

/// `a - b` in a 32-bit register.
pub fn sub32(a: i32, b: i32) -> (r: i32)
    ensures
        r == wrap32(a - b),
{
    wrap_i32(a as i64 - b as i64)
}

/// Powers of two that fit in 64 bits.
pub fn pow2_u64(k: u32) -> (r: u64)
    requires
        k < 64,
    ensures
        r == pow2(k as nat),
        r > 0,
{
    proof {
        lemma2_to64();
        lemma2_to64_rest();
        if k < 63 {
            lemma_pow2_strictly_increases(k as nat, 63);
        }
        lemma_pow2_pos(k as nat);
        vstd::bits::lemma_u64_shl_is_mul(1, k as u64);
    }
    1u64 << k
}

/// Floor division by 2^k: the arithmetic right shift.
pub fn floor_shr(x: i64, k: u32) -> (r: i64)
    requires
        k < 63,
    ensures
        r == x as int / pow2(k as nat) as int,
        x >= 0 ==> 0 <= r <= x,
        x < 0 ==> x <= r < 0,
{
    let p: u64 = pow2_u64(k);
    if x >= 0 {
        let q: u64 = x as u64 / p;
        proof {
            vstd::arithmetic::div_mod::lemma_div_is_ordered_by_denominator(x as int, 1, p as int);
        }
        q as i64
    } else {
        let m: u64 = (-(x + 1)) as u64;
        let q: u64 = m / p;
        proof {
            vstd::arithmetic::div_mod::lemma_div_is_ordered_by_denominator(m as int, 1, p as int);
            lemma_floor_negative(x as int, p as int);
        }
        -(q as i64) - 1
    }
}

proof fn lemma_floor_negative(x: int, p: int)
    requires
        x < 0,
        p > 0,
    ensures
        x / p == -((-(x + 1)) / p) - 1,
{
    let m = -(x + 1);
    let q = m / p;
    let r = m % p;
    vstd::arithmetic::div_mod::lemma_fundamental_div_mod(m, p);
    assert(x == (-q - 1) * p + (p - 1 - r)) by (nonlinear_arith)
        requires
            m == -(x + 1),
            m == p * q + r,
    ;
    vstd::arithmetic::div_mod::lemma_fundamental_div_mod_converse(x, p, -q - 1, p - 1 - r);
}

/// `v * 2^k` in a 32-bit register; only the low five bits of `k` count.
pub open spec fn shifted(v: i32, k: nat) -> i32 {
    wrap32(v * pow2(k % 32))
}

/// Shifts a 32-bit register left.
pub fn shl32(v: i32, k: u32) -> (r: i32)
    ensures
        r == shifted(v, k as nat),
        r == wrap32((v * pow2((k % 32) as nat)) as int),
{
    proof {
        lemma2_to64();
        if k % 32 < 31 {
            lemma_pow2_strictly_increases((k % 32) as nat, 31);
        }
    }
    let p: u64 = pow2_u64(k % 32);
    assert(-0x4000_0000_0000_0000 <= v * p <= 0x4000_0000_0000_0000) by (nonlinear_arith)
        requires
            -0x8000_0000 <= v <= 0x7fff_ffff,
            0 <= p <= 0x8000_0000,
    ;
    wrap_i32(v as i64 * p as i64)
}

/// The two's-complement reading of a 32-bit word.
pub open spec fn as_signed(w: u32) -> i32 {
    if w < 0x8000_0000 {
        w as i32
    } else {
        (w - 0x1_0000_0000) as i32
    }
}

/// Reinterprets a 32-bit word as a signed value.
pub fn signed_word(w: u32) -> (r: i32)
    ensures
        r == as_signed(w),
        r == wrap32(w as int),
{
    if w < 0x8000_0000 {
        w as i32
    } else {
        (w as i64 - 0x1_0000_0000) as i32
    }
}

/// The 32-bit word of a signed value.
pub fn unsigned_word(v: i32) -> (r: u32)
    ensures
        r == wrap_u32(v as int),
        as_signed(r) == v,
{
    if v >= 0 {
        v as u32
    } else {
        (v as i64 + 0x1_0000_0000) as u32
    }
}

/// The little-endian bytes of a 16-bit word.
pub open spec fn le16(v: u16) -> Seq<u8> {
    seq![(v % 256) as u8, (v / 256) as u8]
}

/// The little-endian bytes of a 32-bit word.
pub open spec fn le32(v: u32) -> Seq<u8> {
    seq![
        (v % 256) as u8,
        (v / 256 % 256) as u8,
        (v / 65536 % 256) as u8,
        (v / 16777216) as u8,
    ]
}

/// The 16-bit word whose little-endian bytes stand at `at`.
pub open spec fn read_le16(s: Seq<u8>, at: int) -> u16 {
    (s[at] + 256 * s[at + 1]) as u16
}

/// The 32-bit word whose little-endian bytes stand at `at`.
pub open spec fn read_le32(s: Seq<u8>, at: int) -> u32 {
    (s[at] + 256 * s[at + 1] + 65536 * s[at + 2] + 16777216 * s[at + 3]) as u32
}

/// Reading back what `le16` and `le32` lay out gives the word.
pub proof fn lemma_le_roundtrip(v: u16, w: u32)
    ensures
        le16(v).len() == 2,
        read_le16(le16(v), 0) == v,
        le32(w).len() == 4,
        read_le32(le32(w), 0) == w,
{
}

/// Appends a little-endian 16-bit word.
pub fn push_le16(out: &mut Vec<u8>, v: u16)
    ensures
        final(out)@ == old(out)@ + le16(v),
{
    out.push((v % 256) as u8);
    out.push((v / 256) as u8);
    assert(out@ =~= old(out)@ + le16(v));
}

/// Appends a little-endian 32-bit word.
pub fn push_le32(out: &mut Vec<u8>, v: u32)
    ensures
        final(out)@ == old(out)@ + le32(v),
{
    out.push((v % 256) as u8);
    out.push((v / 256 % 256) as u8);
    out.push((v / 65536 % 256) as u8);
    out.push((v / 16777216) as u8);
    assert(out@ =~= old(out)@ + le32(v));
}

/// Reads a little-endian 16-bit word.
pub fn get_le16(s: &[u8], at: usize) -> (r: u16)
    requires
        at + 2 <= s.len(),
    ensures
        r == read_le16(s@, at as int),
{
    s[at] as u16 + 256 * s[at + 1] as u16
}

/// Reads a little-endian 32-bit word.
pub fn get_le32(s: &[u8], at: usize) -> (r: u32)
    requires
        at + 4 <= s.len(),
    ensures
        r == read_le32(s@, at as int),
{
    s[at] as u32 + 256 * s[at + 1] as u32 + 65536 * s[at + 2] as u32 + 16777216 * s[at + 3] as u32
}

/// The number of significant bits of `v`: the least `k` with `v < 2^k`.
pub open spec fn bit_length(v: nat) -> nat
    decreases v,
{
    if v == 0 {
        0
    } else {
        1 + bit_length(v / 2)
    }
}

/// `bit_length(v)` is the least exponent above `v`.
pub proof fn lemma_bit_length(v: nat)
    ensures
        v < pow2(bit_length(v)),
        v > 0 ==> bit_length(v) > 0 && pow2((bit_length(v) - 1) as nat) <= v,
    decreases v,
{
    lemma2_to64();
    if v > 0 {
        lemma_bit_length(v / 2);
        lemma_pow2_unfold(bit_length(v));
        if v / 2 > 0 {
            lemma_pow2_unfold((bit_length(v) - 1) as nat);
        }
    }
}

/// A bound on `v` bounds its length.
pub proof fn lemma_bit_length_bound(v: nat, k: nat)
    requires
        v < pow2(k),
    ensures
        bit_length(v) <= k,
    decreases k,
{
    lemma2_to64();
    if v > 0 {
        if k == 0 {
        } else {
            lemma_pow2_unfold(k);
            lemma_bit_length_bound(v / 2, (k - 1) as nat);
        }
    }
}

/// The number of significant bits of `v`.
pub fn bit_length_u64(v: u64) -> (r: u32)
    ensures
        r == bit_length(v as nat),
        r <= 64,
{
    let mut rest: u64 = v;
    let mut n: u32 = 0;
    proof {
        lemma2_to64();
        lemma2_to64_rest();
        lemma_bit_length_bound(v as nat, 64);
    }
    while rest > 0
        invariant
            n + bit_length(rest as nat) == bit_length(v as nat),
            bit_length(v as nat) <= 64,
        decreases rest,
    {
        rest = rest / 2;
        n = n + 1;
    }
    n
}

/// The number of significant bits of a 32-bit word.
pub fn bit_length_u32(v: u32) -> (r: u32)
    ensures
        r == bit_length(v as nat),
        r <= 32,
{
    proof {
        lemma2_to64();
        lemma_bit_length_bound(v as nat, 32);
    }
    bit_length_u64(v as u64)
}

} // verus!
