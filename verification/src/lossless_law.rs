//! Hybrid coding at a generous rate is lossless coding.
use vstd::prelude::*;
use crate::arith::lemma_wrap32;
use crate::decorrelation::{decode_mono, lemma_offset_mono};
use crate::error::Error;
use crate::hybrid::HybridState;
use crate::hybrid_words::{HybridCoder, Layout, encode_hybrid, lemma_residual_run, lemma_zero_slots_coder, offset, opens_run, plan_of, residual_run, slot_word, zero_slots};
use crate::logpack::lemma_log_bound;
use crate::packed_samples::{encode_words, second, silence, word_bits, zero_run};
use crate::samples::{count_code, magnitude};

verus! {

/// A rate that no level which words lead to can outrun.
pub open spec fn generous(s: HybridState) -> bool {
    s.level_a <= 2_200_000 && s.level_b <= 2_200_000 && s.bitrate >= 9000 && 0 <= s.balance <= 256
}

/// Under a generous rate there is no limit.
proof fn lemma_generous_limits(s: HybridState)
    requires
        generous(s),
    ensures
        s.limit(false) == 0,
        s.limit(true) == 0,
{
    reveal(HybridState::limit);
    let la = (s.level_a + 128) / 256;
    let lb = (s.level_b + 128) / 256;
    assert(0 <= la <= 8594 && 0 <= lb <= 8594);
    let d = (la - lb - s.balance) / 2;
    assert(2 * d <= la - lb - s.balance <= 2 * d + 1);
}

/// A generous rate stays generous, whatever the words.
pub proof fn generous_rates_stay_generous(s: HybridState, sec: bool, v: i32)
    requires
        generous(s),
    ensures
        generous(s.after(sec, v)),
{
    reveal(HybridState::after);
    lemma_log_bound(magnitude(v));
    assert(s.level_a - (s.level_a + 128) / 256 + 8447 <= 2_200_000);
    assert(s.level_b - (s.level_b + 128) / 256 + 8447 <= 2_200_000);
    assert(0 <= s.level_a - (s.level_a + 128) / 256);
    assert(0 <= s.level_b - (s.level_b + 128) / 256);
}

/// A state of a generous rate before slot `i`.
pub open spec fn unlimited(st: HybridCoder, i: int, m: Layout) -> bool {
    generous(st.level) && (second(i, m.stereo) ==> st.limit_b == 0)
}

proof fn lemma_begins(st: HybridCoder, i: int, m: Layout)
    requires
        unlimited(st, i, m),
    ensures
        ({
            let sec = second(i, m.stereo);
            let b = st.begin(sec, m.joint);
            &&& b.limit(sec) == 0 && b.limit_b == 0
            &&& b.level == st.level && b.coder == st.coder && b.a == st.a && b.b == st.b
        }),
{
    reveal(HybridCoder::begin);
    lemma_generous_limits(st.level);
}

proof fn lemma_finishes(b: HybridCoder, sec: bool, joint: bool, x: i32, exact: i32, coarse: i32, applied: i32)
    ensures
        ({
            let n = b.finish(sec, joint, x, exact, coarse, applied);
            &&& n.level == b.level.after(sec, coarse)
            &&& n.limit_b == b.limit_b
            &&& n.coder == b.coder
            &&& b.a.len() == 0 ==> n.a.len() == 0
            &&& b.b.len() == 0 ==> n.b.len() == 0
        }),
{
    reveal(HybridCoder::finish);
}

proof fn lemma_zero_slot_next(st: HybridCoder, i: int, m: Layout)
    requires
        unlimited(st, i, m),
    ensures
        ({
            let n = st.zero_slot(second(i, m.stereo), m.joint).0;
            &&& unlimited(n, i + 1, m)
            &&& st.a.len() == 0 ==> n.a.len() == 0
            &&& st.b.len() == 0 ==> n.b.len() == 0
        }),
{
    let sec = second(i, m.stereo);
    lemma_begins(st, i, m);
    let b = st.begin(sec, m.joint);
    lemma_finishes(b, sec, m.joint, offset(b.chain(sec)), 0, 0, 0);
    generous_rates_stay_generous(b.level, sec, 0);
}

proof fn lemma_zero_slots_next(st: HybridCoder, i: int, k: nat, m: Layout)
    requires
        unlimited(st, i, m),
    ensures
        ({
            let n = zero_slots(st, i, k, m).0;
            &&& unlimited(n, i + k, m)
            &&& st.a.len() == 0 ==> n.a.len() == 0
            &&& st.b.len() == 0 ==> n.b.len() == 0
        }),
    decreases k,
{
    if k > 0 {
        lemma_zero_slot_next(st, i, m);
        lemma_zero_slots_next(st.zero_slot(second(i, m.stereo), m.joint).0, i + 1, (k - 1) as nat, m);
    }
}

/// A word without a limit.
proof fn lemma_word_exact(x: Seq<i32>, i: int, m: Layout, st: HybridCoder, correction: bool)
    requires
        0 <= i < x.len(),
        unlimited(st, i, m),
        slot_word(x, i, m, st, correction) is Ok,
    ensures
        ({
            let w = slot_word(x, i, m, st, correction)->Ok_0;
            &&& w.lossy == x[i]
            &&& w.fix.len() == 0
            &&& unlimited(w.after, i + 1, m)
            &&& st.a.len() == 0 ==> w.after.a.len() == 0
            &&& st.b.len() == 0 ==> w.after.b.len() == 0
        }),
{
    reveal(slot_word);
    reveal(plan_of);
    let sec = second(i, m.stereo);
    lemma_begins(st, i, m);
    let b = st.begin(sec, m.joint);
    let wire = b.residual(sec, x[i]);
    let z = st.coder.medians(sec).zone_of(magnitude(wire));
    let off = offset(b.chain(sec));
    lemma_offset_mono(b.chain(sec), wire);
    lemma_wrap32(x[i] - off, off as int);
    lemma_wrap32(x[i] as int, 0);
    lemma_finishes(b.coded(sec, z), sec, m.joint, x[i], wire, wire, 0);
    generous_rates_stay_generous(b.level, sec, wire);
}

/// At a generous rate a hybrid stream is lossless by itself: the lossy samples are
/// the samples, and there is nothing to correct.
pub proof fn generous_rates_lose_nothing(x: Seq<i32>, i: int, m: Layout, st: HybridCoder, correction: bool)
    requires
        0 <= i <= x.len(),
        unlimited(st, i, m),
        encode_hybrid(x, i, m, st, correction) is Ok,
    ensures
        encode_hybrid(x, i, m, st, correction)->Ok_0.lossy == x.skip(i),
        encode_hybrid(x, i, m, st, correction)->Ok_0.fix.len() == 0,
    decreases x.len() - i,
{
    if i >= x.len() {
        assert(x.skip(i) =~= Seq::empty());
    } else if opens_run(x, i, m, st) {
        let n = residual_run(x, i, m, st);
        lemma_residual_run(x, i, m, st);
        lemma_zero_slots_next(st, i, n, m);
        generous_rates_lose_nothing(x, i + n, m, zero_slots(st, i, n, m).0.cleared(), correction);
        assert(x.subrange(i, i + n) + x.skip(i + n) =~= x.skip(i));
    } else {
        let w = slot_word(x, i, m, st, correction)->Ok_0;
        lemma_word_exact(x, i, m, st, correction);
        generous_rates_lose_nothing(x, i + 1, m, w.after, correction);
        assert(seq![x[i]] + x.skip(i + 1) =~= x.skip(i));
    }
}

/// No passes leave a sample as it is.
proof fn lemma_plain_residual(b: HybridCoder, sec: bool, v: i32)
    requires
        b.a.len() == 0,
        b.b.len() == 0,
    ensures
        b.residual(sec, v) == v,
{
    assert(decode_mono(b.chain(sec), 0).1 == 0);
    lemma_wrap32(v as int, 0);
}

proof fn lemma_plain_run(x: Seq<i32>, i: int, m: Layout, st: HybridCoder)
    requires
        0 <= i <= x.len(),
        unlimited(st, i, m),
        st.a.len() == 0,
        st.b.len() == 0,
    ensures
        residual_run(x, i, m, st) == zero_run(x, i),
    decreases x.len() - i,
{
    if i < x.len() {
        let sec = second(i, m.stereo);
        lemma_begins(st, i, m);
        lemma_plain_residual(st.begin(sec, m.joint), sec, x[i]);
        lemma_zero_slot_next(st, i, m);
        lemma_plain_run(x, i + 1, m, st.zero_slot(sec, m.joint).0);
    }
}

/// A word without a limit and without passes is the word of a lossless stream.
proof fn lemma_plain_word(x: Seq<i32>, i: int, m: Layout, st: HybridCoder, correction: bool)
    requires
        0 <= i < x.len(),
        unlimited(st, i, m),
        st.a.len() == 0,
        st.b.len() == 0,
        !(st.coder.run.last_zero && st.coder.run.last_one),
    ensures
        ({
            let sec = second(i, m.stereo);
            let meds = st.coder.medians(sec);
            let mag = magnitude(x[i]);
            let z = meds.zone_of(mag);
            match slot_word(x, i, m, st, correction) {
                Err(e) => mag > meds.high(z) && e == (Error::ValueNotInInterval {
                    value: mag as u32,
                    low: meds.low(z) as u32,
                    high: meds.high(z) as u32,
                }),
                Ok(w) => {
                    let next = st.coder.coded(sec, z);
                    let hold = crate::packed_samples::announces(x, i + 1, m.stereo, next);
                    &&& mag <= meds.high(z)
                    &&& crate::hybrid_words::lead(st.coder) + st.coder.run.prefix(w.zone, w.hold) + w.body
                        == word_bits(st.coder, sec, x[i], hold)
                    &&& w.after.coder == next.with_run(st.coder.run.after(hold))
                },
            }
        }),
{
    reveal(slot_word);
    reveal(plan_of);
    reveal(word_bits);
    let sec = second(i, m.stereo);
    lemma_begins(st, i, m);
    let b = st.begin(sec, m.joint);
    lemma_plain_residual(b, sec, x[i]);
    let meds = st.coder.medians(sec);
    let mag = magnitude(x[i]);
    let z = meds.zone_of(mag);
    if let Ok(w) = slot_word(x, i, m, st, correction) {
        let next = b.coded(sec, z).finish(sec, m.joint, x[i], x[i], x[i], 0);
        lemma_finishes(b.coded(sec, z), sec, m.joint, x[i], x[i], x[i], 0);
        generous_rates_stay_generous(b.level, sec, x[i]);
        assert(next.coder == st.coder.coded(sec, z));
        if i + 1 < x.len() {
            let other = second(i + 1, m.stereo);
            lemma_begins(next, i + 1, m);
            lemma_plain_residual(next.begin(other, m.joint), other, x[i + 1]);
        }
        let hold = crate::packed_samples::announces(x, i + 1, m.stereo, st.coder.coded(sec, z));
        assert(w.hold == hold);
        let lead = crate::hybrid_words::lead(st.coder);
        let prefix = st.coder.run.prefix(z, hold);
        assert(lead + prefix + w.body =~= word_bits(st.coder, sec, x[i], hold));
    }
}

/// At a generous rate a hybrid stream without passes is, bit for bit, the lossless
/// stream of the same samples, and fails just where that does.
pub proof fn generous_rates_write_lossless_words(x: Seq<i32>, i: int, m: Layout, st: HybridCoder, correction: bool)
    requires
        0 <= i <= x.len(),
        unlimited(st, i, m),
        st.a.len() == 0,
        st.b.len() == 0,
        !(st.coder.run.last_zero && st.coder.run.last_one),
    ensures
        match encode_hybrid(x, i, m, st, correction) {
            Ok(o) => encode_words(x, i, m.stereo, st.coder) == Ok::<Seq<bool>, Error>(o.main),
            Err(e) => encode_words(x, i, m.stereo, st.coder) == Err::<Seq<bool>, Error>(e),
        },
    decreases x.len() - i,
{
    if i < x.len() {
        let sec = second(i, m.stereo);
        lemma_begins(st, i, m);
        lemma_plain_residual(st.begin(sec, m.joint), sec, x[i]);
        lemma_plain_run(x, i, m, st);
        if opens_run(x, i, m, st) {
            let n = residual_run(x, i, m, st);
            let zero = zero_slots(st, i, n, m).0;
            lemma_residual_run(x, i, m, st);
            lemma_zero_slots_next(st, i, n, m);
            lemma_zero_slots_coder(st, i, n, m);
            assert(zero.cleared().coder == st.coder.cleared());
            generous_rates_write_lossless_words(x, i + n, m, zero.cleared(), correction);
        } else {
            lemma_plain_word(x, i, m, st, correction);
            if let Ok(w) = slot_word(x, i, m, st, correction) {
                lemma_word_exact(x, i, m, st, correction);
                generous_rates_write_lossless_words(x, i + 1, m, w.after, correction);
            }
        }
    }
}

proof fn lemma_silent_run(n: nat, i: int, m: Layout, st: HybridCoder)
    requires
        0 <= i <= n,
        st.a.len() == 0,
        st.b.len() == 0,
    ensures
        residual_run(silence(n), i, m, st) == n - i,
        zero_slots(st, i, (n - i) as nat, m).1 == silence((n - i) as nat),
    decreases n - i,
{
    let rest = silence((n - i) as nat);
    if i < n {
        let sec = second(i, m.stereo);
        let b = st.begin(sec, m.joint);
        assert(b.a == st.a && b.b == st.b) by {
            reveal(HybridCoder::begin);
        }
        lemma_plain_residual(b, sec, 0);
        assert(offset(b.chain(sec)) == 0);
        lemma_finishes(b, sec, m.joint, 0, 0, 0, 0);
        let next = st.zero_slot(sec, m.joint).0;
        lemma_silent_run(n, i + 1, m, next);
        assert(seq![0i32] + silence((n - i - 1) as nat) =~= rest);
    } else {
        assert(rest =~= Seq::empty());
    }
}

/// Silence from the start of a block is a single count in a hybrid stream too,
/// whatever the rate, and comes out as silence.
pub proof fn hybrid_silence_is_one_count(n: nat, m: Layout, st: HybridCoder, correction: bool)
    requires
        n > 0,
        st.a.len() == 0,
        st.b.len() == 0,
        st.coder.gate(),
    ensures
        ({
            let r = encode_hybrid(silence(n), 0, m, st, correction);
            &&& r is Ok
            &&& r->Ok_0.main == count_code(n)
            &&& r->Ok_0.fix.len() == 0
            &&& r->Ok_0.lossy == silence(n)
        }),
{
    let x = silence(n);
    lemma_silent_run(n, 0, m, st);
    let sec = second(0, m.stereo);
    let b = st.begin(sec, m.joint);
    assert(b.a == st.a && b.b == st.b) by {
        reveal(HybridCoder::begin);
    }
    lemma_plain_residual(b, sec, 0);
    assert(opens_run(x, 0, m, st));
    let zero = zero_slots(st, 0, n, m);
    let rest = encode_hybrid(x, n as int, m, zero.0.cleared(), correction)->Ok_0;
    assert(count_code(n) + rest.main =~= count_code(n));
    assert(zero.1 + rest.lossy =~= x);
}

/// A zero residual in a run moves levels, passes and shaping as it would as a word of
/// its own without a limit.
pub proof fn runs_move_as_words_do(x: Seq<i32>, i: int, m: Layout, st: HybridCoder, correction: bool)
    requires
        0 <= i < x.len(),
        slot_word(x, i, m, st, correction) is Ok,
        ({
            let sec = second(i, m.stereo);
            let b = st.begin(sec, m.joint);
            b.limit(sec) == 0 && b.residual(sec, x[i]) == 0
        }),
    ensures
        ({
            let sec = second(i, m.stereo);
            let w = slot_word(x, i, m, st, correction)->Ok_0;
            let z = st.zero_slot(sec, m.joint);
            &&& z.1 == x[i] && w.lossy == x[i]
            &&& z.0.level == w.after.level
            &&& z.0.a == w.after.a && z.0.b == w.after.b
            &&& z.0.shape == w.after.shape
        }),
{
    reveal(slot_word);
    reveal(plan_of);
    reveal(HybridCoder::finish);
    let sec = second(i, m.stereo);
    let b = st.begin(sec, m.joint);
    let off = offset(b.chain(sec));
    lemma_wrap32(x[i] - off, off as int);
    lemma_wrap32(x[i] as int, 0);
    lemma_wrap32(off as int, 0);
    assert(off == x[i]);
}

} // verus!
