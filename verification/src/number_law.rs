//! How wide integers and floating-point patterns are taken apart.
use vstd::prelude::*;
use vstd::arithmetic::power2::{lemma2_to64, lemma_pow2_adds, lemma_pow2_pos, lemma_pow2_strictly_increases, lemma_pow2_unfold, pow2};
use crate::arith::{bit_length, lemma_bit_length, lemma_wrap32, shifted};
use crate::bits::bits_of;
use crate::crc::extension_over;
use crate::error::Error;
use crate::float::{FloatInfo, absolute, base_anchor, depth, exponent, flagged, float_crc_over, float_info_of, float_plan, float_word, full_mantissa, kept, literal_pattern, mantissa, negative, normal, pattern, plan_info, restore_float_one, scaled, shared_shift, some_denormal, some_exception, some_negative_zero, some_too_small, top_exponent, windowed, windows_ones, windows_uniform, windows_zero};
use crate::format_law::number_at;
use crate::header_law::lemma_low_zeros;
use crate::int32::{Int32Info, extension_payload, int32_info_of, int32_profile, literal_bits, literals, low_dups, low_ones, low_zeros, shared, width_over};
use crate::samples::magnitude;

verus! {

// ---------------------------------------------------------------------------
// Wide integers
// ---------------------------------------------------------------------------

/// A low run of `k` ones in a number is a low run of `k` zeros in the next.
proof fn lemma_low_ones(v: int, k: nat)
    requires
        v != -1,
    ensures
        (v + 1) % pow2(k) as int == 0 <==> k <= low_ones(v),
        low_ones(v) == low_zeros(v + 1),
    decreases (if v < 0 { -v } else { v }),
{
    lemma_ones_are_zeros(v);
    lemma_low_zeros(v + 1, k);
}

proof fn lemma_ones_are_zeros(v: int)
    requires
        v != -1,
    ensures
        low_ones(v) == low_zeros(v + 1),
    decreases (if v < 0 { -v } else { v }),
{
    if v % 2 == 1 {
        assert((v + 1) / 2 == v / 2 + 1);
        lemma_ones_are_zeros(v / 2);
    }
}

proof fn lemma_shared(x: Seq<i32>, f: spec_fn(int) -> nat, k: nat)
    requires
        x.len() > 0,
        k <= 24,
        forall|i: int| 0 <= i < x.len() ==> k <= f(#[trigger] x[i] as int),
    ensures
        k <= shared(x, f),
    decreases x.len(),
{
    assert(k <= f(x[x.len() - 1] as int));
    if x.len() > 1 {
        let y = x.drop_last();
        assert forall|i: int| 0 <= i < y.len() implies k <= f(#[trigger] y[i] as int) by {
            assert(y[i] == x[i]);
        }
        lemma_shared(y, f, k);
    }
}

/// A number that ends in `k` zero bits, in `k` one bits, or in `k` bits like the one
/// above them.
pub open spec fn ends_alike(v: i32, k: nat, kind: int) -> bool {
    if kind == 0 {
        v as int % pow2(k) as int == 0
    } else if kind == 1 {
        (v + 1) % pow2(k) as int == 0
    } else {
        v as int % pow2(k + 1) as int == 0 || (v + 1) % pow2(k + 1) as int == 0
    }
}

proof fn lemma_ends(v: i32, k: nat, kind: int)
    requires
        k <= 24,
        0 <= kind <= 2,
        ends_alike(v, k, kind),
    ensures
        kind == 0 ==> k <= low_zeros(v as int),
        kind == 1 ==> k <= low_ones(v as int),
        kind == 2 ==> k <= low_dups(v as int),
{
    if v != 0 {
        lemma_low_zeros(v as int, k);
        lemma_low_zeros(v as int, k + 1);
    }
    if v != -1 {
        lemma_low_ones(v as int, k);
        lemma_low_ones(v as int, k + 1);
    }
}

/// The pattern that is taken off wide integers is the longest that all of them
/// end in, up to 24 bits: zeros before ones, and ones before repeats, where two are
/// equally long. Of the three one at most is there.
pub proof fn the_longest_pattern_is_taken(x: Seq<i32>, k: nat, kind: int)
    requires
        x.len() > 0,
        k <= 24,
        0 <= kind <= 2,
        forall|i: int| 0 <= i < x.len() ==> ends_alike(#[trigger] x[i], k, kind),
    ensures
        ({
            let p = int32_profile(x);
            &&& p.zeros + p.ones + p.dups >= k
            &&& p.zeros + p.ones + p.dups == k && kind == 0 ==> p.zeros == k
            &&& p.zeros + p.ones + p.dups == k && kind == 1 ==> p.dups == 0
            &&& p.exclusive()
        }),
{
    let fz = |v: int| low_zeros(v);
    let fo = |v: int| low_ones(v);
    let fd = |v: int| low_dups(v);
    assert forall|i: int| 0 <= i < x.len() implies (kind == 0 ==> k <= fz(#[trigger] x[i] as int)) && (kind == 1 ==> k
        <= fo(x[i] as int)) && (kind == 2 ==> k <= fd(x[i] as int)) by {
        assert(ends_alike(x[i], k, kind));
        lemma_ends(x[i], k, kind);
    }
    if kind == 0 {
        lemma_shared(x, fz, k);
    } else if kind == 1 {
        lemma_shared(x, fo, k);
    } else {
        lemma_shared(x, fd, k);
    }
    lemma_shared_cap(x, fz);
    lemma_shared_cap(x, fo);
    lemma_shared_cap(x, fd);
}

proof fn lemma_shared_cap(x: Seq<i32>, f: spec_fn(int) -> nat)
    ensures
        shared(x, f) <= 24,
    decreases x.len(),
{
    if x.len() > 0 {
        lemma_shared_cap(x.drop_last(), f);
    }
}

proof fn lemma_width_met(x: Seq<i32>, k: nat)
    ensures
        width_over(x, k) > 0 ==> exists|i: int|
            0 <= i < x.len() && bit_length(magnitude((#[trigger] x[i] as int / pow2(k) as int) as i32)) == width_over(
                x,
                k,
            ),
    decreases x.len(),
{
    if x.len() > 0 {
        lemma_width_met(x.drop_last(), k);
        let last = bit_length(magnitude((x.last() as int / pow2(k) as int) as i32));
        if last > width_over(x.drop_last(), k) {
            assert(bit_length(magnitude((x[x.len() - 1] as int / pow2(k) as int) as i32)) == width_over(x, k));
        } else if width_over(x, k) > 0 {
            let y = x.drop_last();
            let i = choose|i: int|
                0 <= i < y.len() && bit_length(magnitude((#[trigger] y[i] as int / pow2(k) as int) as i32))
                    == width_over(y, k);
            assert(y[i] == x[i]);
        }
    }
}

/// No more bits are sent on their own than have to be: where some are, a sample has
/// just so many beyond 23, its pattern taken off.
pub proof fn no_more_bits_are_sent(x: Seq<i32>)
    ensures
        ({
            let p = int32_profile(x);
            let k = (p.zeros + p.ones + p.dups) as nat;
            p.sent_bits > 0 ==> exists|i: int|
                0 <= i < x.len() && bit_length(magnitude((#[trigger] x[i] as int / pow2(k) as int) as i32)) == 23
                    + p.sent_bits
        }),
{
    let fz = |v: int| low_zeros(v);
    let fo = |v: int| low_ones(v);
    let fd = |v: int| low_dups(v);
    lemma_shared_cap(x, fz);
    lemma_shared_cap(x, fo);
    lemma_shared_cap(x, fd);
    let p = int32_profile(x);
    let k = (p.zeros + p.ones + p.dups) as nat;
    lemma_width_met(x, k);
    lemma_width_cap(x, k);
}

proof fn lemma_width_cap(x: Seq<i32>, k: nat)
    ensures
        width_over(x, k) <= 32,
    decreases x.len(),
{
    if x.len() > 0 {
        lemma_width_cap(x.drop_last(), k);
        crate::header_law::lemma_short((x.last() as int / pow2(k) as int) as i32);
    }
}

/// A value gets its pattern back below its own bits: zeros, ones, or its lowest bit
/// again.
pub proof fn patterns_go_below(info: Int32Info, v: i32)
    requires
        info.exclusive(),
        info.zeros <= 24 && info.ones <= 24 && info.dups <= 24,
        -0x80 <= v < 0x80,
    ensures
        info.zeros > 0 ==> info.restored(v) == v * pow2(info.zeros as nat),
        info.ones > 0 ==> info.restored(v) == v * pow2(info.ones as nat) + pow2(info.ones as nat) - 1,
        info.dups > 0 && v as int % 2 == 0 ==> info.restored(v) == v * pow2(info.dups as nat),
        info.dups > 0 && v as int % 2 == 1 ==> info.restored(v) == v * pow2(info.dups as nat) + pow2(
            info.dups as nat,
        ) - 1,
        info.zeros == 0 && info.ones == 0 && info.dups == 0 ==> info.restored(v) == v,
{
    let k = if info.zeros > 0 {
        info.zeros as nat
    } else if info.ones > 0 {
        info.ones as nat
    } else {
        info.dups as nat
    };
    lemma2_to64();
    if k < 24 {
        lemma_pow2_strictly_increases(k, 24);
    }
    let p = pow2(k) as int;
    assert(-0x8000_0000 <= v * p && v * p + p - 1 <= 0x7fff_ffff) by (nonlinear_arith)
        requires
            -0x80 <= v < 0x80,
            0 < p <= 0x100_0000,
    ;
    lemma_wrap32(v * p, 0);
    lemma_wrap32(v * p + p - 1, 0);
    assert(v % 2 == v as int % 2);
    vstd::arithmetic::div_mod::lemma_small_mod(k, 32);
    reveal(shifted);
}

/// The four bytes of the wide-integer profile.
pub proof fn int32_profiles_hold_their_bytes(p: Seq<u8>)
    ensures
        int32_info_of(p) is Ok ==> {
            let i = int32_info_of(p)->Ok_0;
            p.len() == 4 && i.sent_bits == p[0] && i.zeros == p[1] && i.ones == p[2] && i.dups == p[3]
        },
        int32_info_of(p) is Ok <==> p.len() == 4 && !(p[1] > 0 && p[2] > 0) && !(p[1] > 0 && p[3] > 0) && !(p[2] > 0
            && p[3] > 0),
        p.len() != 4 ==> int32_info_of(p) == Err::<Int32Info, Error>(Error::Int32InfoLength(p.len() as usize)),
{
}

/// The check over words starts from all ones; a word moves it to nine times
/// itself, three times the word's lower half and its upper half.
pub proof fn word_checks_add_up(x: Seq<u32>, w: u32)
    ensures
        extension_over(Seq::empty()) == 0xffff_ffff,
        extension_over(x.push(w)) == (9 * extension_over(x) + 3 * (w as int % 0x1_0000) + w as int / 0x1_0000)
            % 0x1_0000_0000,
{
    assert(x.push(w).drop_last() =~= x);
}

/// Bits that are sent on their own start with their check, least significant
/// byte first.
pub proof fn extensions_start_with_their_check(crc: u32, bits: Seq<bool>)
    ensures
        extension_payload(crc, bits).len() >= 4,
        extension_payload(crc, bits).len() % 2 == 0,
        number_at(extension_payload(crc, bits), 0) == crc,
{
}

// ---------------------------------------------------------------------------
// Patterns
// ---------------------------------------------------------------------------

/// A pattern is its sign, eight bits of exponent and twenty-three of mantissa.
pub proof fn patterns_have_three_fields(b: u32)
    ensures
        b == (if negative(b) {
            0x8000_0000int
        } else {
            0
        }) + 0x80_0000 * exponent(b) + mantissa(b),
        exponent(b) <= 255,
        mantissa(b) < 0x80_0000,
        pattern(negative(b), exponent(b), mantissa(b)) == b,
        full_mantissa(b) == 0x80_0000 + mantissa(b),
{
}

proof fn lemma_thrice(a: int, e: int)
    ensures
        (3 * (a % 0x1_0000_0000) + e) % 0x1_0000_0000 == (3 * a + e) % 0x1_0000_0000,
{
    let q = a / 0x1_0000_0000;
    let r = a % 0x1_0000_0000;
    assert(a == 0x1_0000_0000 * q + r);
    assert(3 * a + e == 0x1_0000_0000 * (3 * q) + (3 * r + e));
    vstd::arithmetic::div_mod::lemma_mod_multiples_vanish(3 * q, 3 * r + e, 0x1_0000_0000);
}

/// The check over patterns starts from all ones and takes in mantissa, exponent
/// and sign, one behind the other.
pub proof fn pattern_checks_add_up(x: Seq<u32>, b: u32)
    ensures
        float_crc_over(Seq::empty()) == 0xffff_ffff,
        float_crc_over(x.push(b)) == (27 * float_crc_over(x) + 9 * mantissa(b) + 3 * exponent(b) + (if negative(b) {
            1int
        } else {
            0
        })) % 0x1_0000_0000,
{
    assert(x.push(b).drop_last() =~= x);
    let c = float_crc_over(x) as int;
    let m = mantissa(b) as int;
    let e = exponent(b) as int;
    let n: int = if negative(b) {
        1
    } else {
        0
    };
    lemma_thrice(3 * c + m, e);
    lemma_thrice(9 * c + 3 * m + e, n);
    assert(3 * (3 * c + m) + e == 9 * c + 3 * m + e);
    assert(3 * (9 * c + 3 * m + e) + n == 27 * c + 9 * m + 3 * e + n);
}

/// The four bytes of the pattern profile.
pub proof fn float_profiles_hold_their_bytes(p: Seq<u8>)
    ensures
        p.len() == 4 <==> float_info_of(p) is Ok,
        p.len() == 4 ==> {
            let i = float_info_of(p)->Ok_0;
            i.float_flags == p[0] && i.float_shift == p[1] && i.float_max_exp == p[2] && i.float_norm_exp == p[3]
        },
        p.len() != 4 ==> float_info_of(p) == Err::<FloatInfo, Error>(Error::FloatInfoLength(p.len() as usize)),
{
}

proof fn lemma_top_exponent(x: Seq<u32>)
    ensures
        forall|i: int|
            0 <= i < x.len() && normal(#[trigger] x[i]) ==> top_exponent(x) is Some && exponent(x[i]) <= top_exponent(
                x,
            )->Some_0,
        top_exponent(x) is Some ==> exists|i: int|
            0 <= i < x.len() && normal(#[trigger] x[i]) && exponent(x[i]) == top_exponent(x)->Some_0,
    decreases x.len(),
{
    if x.len() > 0 {
        let y = x.drop_last();
        lemma_top_exponent(y);
        assert forall|i: int| 0 <= i < x.len() && normal(#[trigger] x[i]) implies top_exponent(x) is Some && exponent(
            x[i],
        ) <= top_exponent(x)->Some_0 by {
            if i < y.len() {
                assert(y[i] == x[i]);
            }
        }
        if top_exponent(x) is Some {
            if normal(x.last()) && (top_exponent(y) is None || exponent(x.last()) > top_exponent(y)->Some_0) {
                assert(normal(x[x.len() - 1]));
            } else {
                let i = choose|i: int|
                    0 <= i < y.len() && normal(#[trigger] y[i]) && exponent(y[i]) == top_exponent(y)->Some_0;
                assert(normal(x[i]) && exponent(x[i]) == top_exponent(x)->Some_0);
            }
        }
    }
}

/// Patterns are scaled to the greatest exponent among the normal ones, or to one
/// more. Without a normal one they are scaled to that of a half, or one more.
pub proof fn patterns_scale_to_the_greatest(x: Seq<u32>, raised: bool)
    ensures
        ({
            let p = float_plan(x, raised);
            &&& forall|i: int| 0 <= i < x.len() && normal(#[trigger] x[i]) ==> exponent(x[i]) <= p.anchor
            &&& raised ==> forall|i: int| 0 <= i < x.len() && normal(#[trigger] x[i]) ==> exponent(x[i]) < p.anchor
            &&& (exists|i: int| 0 <= i < x.len() && normal(#[trigger] x[i])) ==> exists|i: int|
                0 <= i < x.len() && normal(#[trigger] x[i]) && exponent(x[i]) + 1 >= p.anchor
            &&& (forall|i: int| 0 <= i < x.len() ==> !normal(#[trigger] x[i])) ==> p.anchor == (if raised {
                127int
            } else {
                126
            })
        }),
{
    lemma_top_exponent(x);
    let p = float_plan(x, raised);
    if exists|i: int| 0 <= i < x.len() && normal(#[trigger] x[i]) {
        let j = choose|i: int| 0 <= i < x.len() && normal(#[trigger] x[i]);
        assert(top_exponent(x) is Some);
        let i = choose|i: int|
            0 <= i < x.len() && normal(#[trigger] x[i]) && exponent(x[i]) == top_exponent(x)->Some_0;
        assert(normal(x[i]) && exponent(x[i]) + 1 >= p.anchor);
    } else {
        assert(top_exponent(x) is None);
        assert forall|i: int| 0 <= i < x.len() && windowed(#[trigger] x[i], base_anchor(x, raised)) implies false by {
            assert(normal(x[i]));
        }
        reveal(windows_zero);
        assert(windows_zero(x, base_anchor(x, raised)));
    }
}

proof fn lemma_shared_shift(x: Seq<u32>, anchor: nat, i: int)
    requires
        0 <= i < x.len(),
        windowed(x[i], anchor),
    ensures
        shared_shift(x, anchor) is Some,
        shared_shift(x, anchor)->Some_0 <= low_zeros(kept(x[i], anchor) as int),
    decreases x.len(),
{
    if i < x.len() - 1 {
        lemma_shared_shift(x.drop_last(), anchor, i);
    }
}

/// The integer of a normal pattern within reach is the pattern at the common
/// scale, cut off towards zero, with all common zero bits taken off it: put back at
/// its scale it misses the mantissa by less than its last place.
pub proof fn integers_are_scaled_patterns(x: Seq<u32>, raised: bool, i: int)
    requires
        0 <= i < x.len(),
        windowed(x[i], float_plan(x, raised).anchor),
    ensures
        ({
            let p = float_plan(x, raised);
            let v = float_word(x[i], p).0;
            let place = pow2((p.anchor - exponent(x[i])) as nat);
            &&& p.shift <= 23
            &&& p.anchor >= exponent(x[i])
            &&& 0 <= full_mantissa(x[i]) - absolute(v) * pow2(p.shift) * place < place
            &&& v != 0 ==> (v < 0) == negative(x[i])
        }),
{
    let p = float_plan(x, raised);
    let b = x[i];
    patterns_scale_to_the_greatest(x, raised);
    assert(normal(x[i]));
    let d = depth(b, p.anchor) as nat;
    let place = pow2(d) as int;
    let f = full_mantissa(b) as int;
    let k = kept(b, p.anchor) as int;
    lemma_pow2_pos(d);
    vstd::arithmetic::div_mod::lemma_fundamental_div_mod(f, place);
    vstd::arithmetic::div_mod::lemma_mod_bound(f, place);
    assert(0 <= f - k * place < place) by (nonlinear_arith)
        requires
            f == place * (f / place) + f % place,
            0 <= f % place < place,
            k == f / place,
    ;
    lemma_shared_shift(x, p.anchor, i);
    let s = pow2(p.shift) as int;
    lemma_pow2_pos(p.shift);
    assert(0 <= k < 0x100_0000) by (nonlinear_arith)
        requires
            0 <= f - k * place < place,
            0 <= f < 0x100_0000,
            place > 0,
    ;
    if k != 0 {
        lemma_low_zeros(k, p.shift);
    } else {
        vstd::arithmetic::div_mod::lemma_small_mod(0, pow2(p.shift));
    }
    vstd::arithmetic::div_mod::lemma_fundamental_div_mod(k, s);
    assert(k / s * s == k) by (nonlinear_arith)
        requires
            k == s * (k / s) + k % s,
            k % s == 0,
    ;
    assert(0 <= k / s <= k) by (nonlinear_arith)
        requires
            k / s * s == k,
            s > 0,
            k >= 0,
    ;
    assert(absolute(float_word(b, p).0) == k / s);
}

proof fn lemma_shift_met(x: Seq<u32>, anchor: nat, k: nat)
    requires
        forall|i: int|
            0 <= i < x.len() && windowed(#[trigger] x[i], anchor) ==> k <= low_zeros(kept(x[i], anchor) as int),
    ensures
        shared_shift(x, anchor) is Some ==> k <= shared_shift(x, anchor)->Some_0,
    decreases x.len(),
{
    if x.len() > 0 {
        let y = x.drop_last();
        assert forall|i: int| 0 <= i < y.len() && windowed(#[trigger] y[i], anchor) implies k <= low_zeros(
            kept(y[i], anchor) as int,
        ) by {
            assert(y[i] == x[i]);
        }
        lemma_shift_met(y, anchor, k);
        if windowed(x.last(), anchor) {
            assert(windowed(x[x.len() - 1], anchor));
        }
    }
}

/// The shift of patterns is the greatest, up to 23, that the scaled integers of all
/// of them allow.
pub proof fn pattern_shifts_are_greatest(x: Seq<u32>, raised: bool, k: nat, j: int)
    requires
        k <= 23,
        0 <= j < x.len(),
        windowed(x[j], float_plan(x, raised).anchor),
        forall|i: int|
            0 <= i < x.len() && windowed(#[trigger] x[i], float_plan(x, raised).anchor) ==> full_mantissa(x[i]) as int
                / pow2((float_plan(x, raised).anchor - exponent(x[i])) as nat) as int % pow2(k) as int == 0,
    ensures
        k <= float_plan(x, raised).shift,
{
    let anchor = float_plan(x, raised).anchor;
    assert forall|i: int| 0 <= i < x.len() && windowed(#[trigger] x[i], anchor) implies k <= low_zeros(
        kept(x[i], anchor) as int,
    ) by {
        let v = kept(x[i], anchor) as int;
        if v != 0 {
            lemma_low_zeros(v, k);
        }
    }
    lemma_shift_met(x, anchor, k);
    lemma_shared_shift(x, anchor, j);
}

/// The bits of a pattern below the common scale, as a number of that many bits.
pub open spec fn cut_off(b: u32, anchor: nat) -> int {
    full_mantissa(b) as int % pow2((anchor - exponent(b)) as nat) as int
}

/// What is cut off patterns is sent as shortly as can be: not at all where it is all
/// zeros, or all ones; one bit each where it is the one or the other; else in full.
pub proof fn cut_off_bits_are_sent_shortly(x: Seq<u32>, raised: bool)
    ensures
        ({
            let p = float_plan(x, raised);
            let base = base_anchor(x, raised);
            &&& (forall|i: int|
                0 <= i < x.len() && windowed(#[trigger] x[i], base) ==> cut_off(x[i], base) == 0) ==> p.fill == 0
                && p.anchor == base
            &&& p.fill == 0 ==> forall|i: int|
                0 <= i < x.len() && windowed(#[trigger] x[i], p.anchor) ==> cut_off(x[i], p.anchor) == 0
            &&& p.fill == 1 ==> forall|i: int|
                0 <= i < x.len() && windowed(#[trigger] x[i], p.anchor) ==> cut_off(x[i], p.anchor) == pow2(
                    (p.anchor - exponent(x[i])) as nat,
                ) - 1
            &&& p.fill == 2 ==> forall|i: int|
                0 <= i < x.len() && windowed(#[trigger] x[i], p.anchor) ==> cut_off(x[i], p.anchor) == 0 || cut_off(
                    x[i],
                    p.anchor,
                ) == pow2((p.anchor - exponent(x[i])) as nat) - 1
            &&& p.fill == 4 ==> exists|i: int|
                0 <= i < x.len() && windowed(#[trigger] x[i], base) && cut_off(x[i], base) != 0
            &&& p.fill == 4 && raised ==> exists|i: int|
                0 <= i < x.len() && windowed(#[trigger] x[i], base) && cut_off(x[i], base) != 0 && cut_off(x[i], base)
                    != pow2((base - exponent(x[i])) as nat) - 1
            &&& p.fill == 4 && !raised ==> exists|i: int|
                0 <= i < x.len() && windowed(#[trigger] x[i], base + 1) && cut_off(x[i], base + 1) != 0 && cut_off(
                    x[i],
                    base + 1,
                ) != pow2((base + 1 - exponent(x[i])) as nat) - 1
            &&& p.fill == 2 || p.fill == 4 ==> exists|i: int|
                0 <= i < x.len() && windowed(#[trigger] x[i], base) && cut_off(x[i], base) != pow2(
                    (base - exponent(x[i])) as nat,
                ) - 1
            &&& p.anchor == (if p.fill == 2 && !raised {
                base + 1
            } else {
                base
            })
            &&& p.fill == 0 || p.fill == 1 || p.fill == 2 || p.fill == 4
        }),
{
    reveal(windows_zero);
    reveal(windows_ones);
    reveal(windows_uniform);
    let p = float_plan(x, raised);
    let base = base_anchor(x, raised);
    if p.fill == 2 || p.fill == 4 {
        let k = choose|i: int| 0 <= i < x.len() && windowed(#[trigger] x[i], base) && cut_off(x[i], base) != 0;
        assert(windowed(x[k], base) && cut_off(x[k], base) != 0);
        lemma_top_exponent(x);
        assert(normal(x[k]));
        lemma_deep(x[k], base);
        assert(depth(x[k], base) > 0);
    }
}

/// Only a pattern below the common scale has bits cut off.
proof fn lemma_deep(b: u32, anchor: nat)
    requires
        windowed(b, anchor),
        cut_off(b, anchor) != 0,
        anchor >= exponent(b),
    ensures
        depth(b, anchor) > 0,
{
    lemma2_to64();
    if depth(b, anchor) == 0 {
        assert(full_mantissa(b) as int % 1 == 0);
    }
}

proof fn lemma_bits_join(v: nat, w: nat, j: nat, k: nat)
    requires
        v < pow2(j),
    ensures
        bits_of(v, j) + bits_of(w, k) == bits_of(v + pow2(j) * w, j + k),
    decreases j,
{
    lemma2_to64();
    if j == 0 {
        assert(bits_of(v, 0) + bits_of(w, k) =~= bits_of(w, k));
        assert(v + pow2(0) * w == w);
    } else {
        lemma_pow2_unfold(j);
        let p = pow2((j - 1) as nat);
        let whole = v + pow2(j) * w;
        assert(whole == v + 2 * (p * w)) by (nonlinear_arith)
            requires
                whole == v + pow2(j) * w,
                pow2(j) == 2 * p,
        ;
        assert(whole / 2 == v / 2 + p * w && whole % 2 == v % 2);
        lemma_bits_join(v / 2, w, (j - 1) as nat, k);
        assert((j + k - 1) as nat == (j - 1) as nat + k);
        assert(bits_of(whole, j + k) == seq![whole % 2 == 1] + bits_of(whole / 2, (j + k - 1) as nat));
        assert(bits_of(v, j) + bits_of(w, k) =~= seq![v % 2 == 1] + (bits_of(v / 2, (j - 1) as nat) + bits_of(w, k)));
    }
}

/// A pattern that no integer stands for is sent as a one and its thirty-two bits,
/// least significant first.
pub proof fn patterns_are_sent_whole(b: u32)
    ensures
        literal_pattern(b) == seq![true] + bits_of(b as nat, 32),
{
    let m = mantissa(b);
    let e = exponent(b);
    let n: nat = if negative(b) {
        1
    } else {
        0
    };
    lemma2_to64();
    lemma_bits_join(m, e, 23, 8);
    lemma_bits_join(m + pow2(23) * e, n, 31, 1);
    assert(bits_of(n, 1) =~= seq![negative(b)]) by {
        assert(bits_of(n / 2, 0) =~= Seq::empty());
        assert(bits_of(n, 1) =~= seq![n % 2 == 1] + bits_of(n / 2, 0));
    }
    assert(b as nat == m + pow2(23) * e + pow2(31) * n);
    assert(literal_pattern(b) =~= seq![true] + (bits_of(m, 23) + bits_of(e, 8) + bits_of(n, 1)));
}

proof fn lemma_literals_at(x: Seq<i32>, info: Int32Info, i: int)
    requires
        0 <= i < x.len(),
    ensures
        literals(x, info).len() == x.len() * info.sent_bits,
        0 <= i * info.sent_bits,
        (i + 1) * info.sent_bits <= x.len() * info.sent_bits,
        literals(x, info).subrange(i * info.sent_bits, (i + 1) * info.sent_bits) == literal_bits(x[i], info),
    decreases x.len(),
{
    let n = info.sent_bits as int;
    let y = x.drop_last();
    lemma_literals_len(x, info);
    lemma_literals_len(y, info);
    crate::bits::lemma_bits_len(
        (crate::int32::without_pattern(x.last(), info) % pow2(info.sent_bits as nat) as int) as nat,
        info.sent_bits as nat,
    );
    assert(0 <= i * n && (i + 1) * n <= x.len() * n && (x.len() - 1) * n + n == x.len() * n && (i + 1) * n == i * n + n)
        by (nonlinear_arith)
        requires
            0 <= i < x.len(),
            n >= 0,
    ;
    if i == x.len() - 1 {
        assert(literals(x, info).subrange(i * n, (i + 1) * n) =~= literal_bits(x[i], info));
    } else {
        lemma_literals_at(y, info, i);
        assert((i + 1) * n <= y.len() * n) by (nonlinear_arith)
            requires
                i + 1 <= y.len(),
                n >= 0,
        ;
        assert(literals(x, info).subrange(i * n, (i + 1) * n) =~= literals(y, info).subrange(i * n, (i + 1) * n));
    }
}

proof fn lemma_literals_len(x: Seq<i32>, info: Int32Info)
    ensures
        literals(x, info).len() == x.len() * info.sent_bits,
    decreases x.len(),
{
    let n = info.sent_bits as int;
    if x.len() > 0 {
        lemma_literals_len(x.drop_last(), info);
        crate::bits::lemma_bits_len(
            (crate::int32::without_pattern(x.last(), info) % pow2(info.sent_bits as nat) as int) as nat,
            info.sent_bits as nat,
        );
        assert((x.len() - 1) * n + n == x.len() * n) by (nonlinear_arith);
    } else {
        assert(0 * n == 0) by (nonlinear_arith);
    }
}

/// The bits of a wide integer that are sent on their own are its lowest, its pattern
/// taken off: sample by sample, the least significant first.
pub proof fn sent_bits_are_the_lowest(x: Seq<i32>, i: int)
    requires
        0 <= i < x.len(),
    ensures
        ({
            let p = int32_profile(x);
            let n = p.sent_bits as int;
            let k = (p.zeros + p.ones + p.dups) as nat;
            let low = (x[i] as int / pow2(k) as int) % pow2(n as nat) as int;
            &&& literals(x, p).len() == x.len() * n
            &&& 0 <= i * n && (i + 1) * n <= x.len() * n
            &&& literals(x, p).subrange(i * n, (i + 1) * n) == bits_of(low as nat, n as nat)
        }),
{
    let p = int32_profile(x);
    lemma_shared_cap(x, |v: int| low_zeros(v));
    lemma_shared_cap(x, |v: int| low_ones(v));
    lemma_shared_cap(x, |v: int| low_dups(v));
    assert(p.redundancy() == p.zeros + p.ones + p.dups);
    lemma_literals_at(x, p, i);
}

/// A plan becomes the four bytes of its profile: a bit each for what is cut off, for
/// zeros that stand for something else, for negative zeros and for exceptions; the
/// shift; the scale, in a byte; and the exponent of one.
pub proof fn plans_become_profiles(x: Seq<u32>, raised: bool)
    ensures
        ({
            let p = float_plan(x, raised);
            let i = plan_info(p);
            &&& i.float_flags % 8 == p.fill
            &&& flagged(i.float_flags, 8) == p.zeros_sent
            &&& flagged(i.float_flags, 16) == p.neg_zeros
            &&& flagged(i.float_flags, 32) == p.exceptions
            &&& i.float_flags < 64
            &&& i.float_shift == p.shift
            &&& i.float_max_exp == (if p.anchor < 255 {
                p.anchor as int
            } else {
                255
            })
            &&& i.float_norm_exp == 127
            &&& p.neg_zeros <==> exists|k: int| 0 <= k < x.len() && #[trigger] x[k] == 0x8000_0000
            &&& p.exceptions <==> !raised && exists|k: int| 0 <= k < x.len() && exponent(#[trigger] x[k]) == 255
            &&& !p.zeros_sent ==> forall|k: int|
                0 <= k < x.len() ==> x[k] == 0 || windowed(#[trigger] x[k], p.anchor) || (!raised && exponent(x[k])
                    == 255)
            &&& (forall|k: int|
                0 <= k < x.len() ==> x[k] == 0 || windowed(#[trigger] x[k], p.anchor) || (!raised && exponent(x[k])
                    == 255)) ==> !p.zeros_sent
        }),
{
    let p = float_plan(x, raised);
    cut_off_bits_are_sent_shortly(x, raised);
    reveal(some_too_small);
    reveal(some_denormal);
    reveal(some_negative_zero);
    reveal(some_exception);
    if p.zeros_sent && (forall|k: int|
        0 <= k < x.len() ==> x[k] == 0 || windowed(#[trigger] x[k], p.anchor) || (!raised && exponent(x[k]) == 255)) {
        if some_too_small(x, p.anchor) {
            let k = choose|k: int| 0 <= k < x.len() && normal(#[trigger] x[k]) && depth(x[k], p.anchor) > 23;
            assert(!windowed(x[k], p.anchor));
        } else if some_denormal(x) {
            let k = choose|k: int| 0 <= k < x.len() && exponent(#[trigger] x[k]) == 0 && mantissa(x[k]) != 0;
            assert(!windowed(x[k], p.anchor));
        } else if some_negative_zero(x) {
            let k = choose|k: int| 0 <= k < x.len() && #[trigger] x[k] == 0x8000_0000u32;
            assert(!windowed(x[k], p.anchor));
        } else {
            let k = choose|k: int| 0 <= k < x.len() && exponent(#[trigger] x[k]) == 255;
            assert(!windowed(x[k], p.anchor));
        }
    }
    if !p.zeros_sent {
        assert forall|k: int| 0 <= k < x.len() implies x[k] == 0 || windowed(#[trigger] x[k], p.anchor) || (!raised
            && exponent(x[k]) == 255) by {
            patterns_have_three_fields(x[k]);
            assert(!(normal(x[k]) && depth(x[k], p.anchor) > 23));
            assert(!(exponent(x[k]) == 0 && mantissa(x[k]) != 0));
            assert(x[k] != 0x8000_0000u32);
        }
    }
}

/// Where nothing is sent a pattern is restored from its integer alone: the integer at
/// its scale, with zeros below.
pub proof fn bare_integers_become_patterns(v: i32, info: FloatInfo)
    requires
        v != 0,
        info.float_shift < 24,
        absolute(v) * pow2(info.float_shift as nat) < 0x100_0000,
        info.float_flags == 0,
        info.float_max_exp > 24,
    ensures
        ({
            let whole = absolute(v) * pow2(info.float_shift as nat);
            let n = (24 - bit_length(whole)) as nat;
            let r = restore_float_one(v, info, None, true);
            let b = r->Ok_0.0;
            &&& r is Ok
            &&& negative(b) == (v < 0)
            &&& exponent(b) == info.float_max_exp - n
            &&& full_mantissa(b) == whole * pow2(n)
        }),
{
    let whole = absolute(v) * pow2(info.float_shift as nat);
    lemma_pow2_pos(info.float_shift as nat);
    vstd::arithmetic::div_mod::lemma_small_mod(info.float_shift as nat, 32);
    assert(scaled(v, info) == whole);
    assert(whole > 0) by (nonlinear_arith)
        requires
            whole == absolute(v) * pow2(info.float_shift as nat),
            absolute(v) > 0,
            pow2(info.float_shift as nat) > 0,
    ;
    lemma_bit_length(whole);
    lemma2_to64();
    let w = bit_length(whole);
    if w > 24 {
        if w > 25 {
            lemma_pow2_strictly_increases(24, (w - 1) as nat);
        }
    }
    let n = (24 - w) as nat;
    lemma_pow2_adds(w, n);
    lemma_pow2_adds((w - 1) as nat, n);
    lemma_pow2_pos(n);
    let p = pow2(n);
    assert(0x80_0000 <= whole * p < 0x100_0000) by (nonlinear_arith)
        requires
            pow2((w - 1) as nat) <= whole < pow2(w),
            pow2((w - 1) as nat) * p == 0x80_0000,
            pow2(w) * p == 0x100_0000,
            p > 0,
    ;
    let exp = (info.float_max_exp - n) as nat;
    let man = ((whole * p) % 0x80_0000) as nat;
    assert(man == whole * p - 0x80_0000);
    patterns_have_three_fields(pattern(v < 0, exp, man));
}

} // verus!
