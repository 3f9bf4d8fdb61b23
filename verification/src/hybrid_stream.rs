//! Reading and writing hybrid streams.
use vstd::prelude::*;
use crate::arith::{add32, bit_length_u32, floor_shr, sub32, wrap_i32};
use crate::bits::{BitReader, BitWriter, byte_bits, pack_bits};
use crate::crc::undo_joint_stereo;
use crate::decorrelation::{DecorrPass, PassState, advance_mono, offset_mono, states};
use crate::error::{Error, Result};
use crate::hybrid::{HybridState, ShapingState};
use crate::hybrid_words::{HybridCoder, HybridIn, HybridOut, Layout, SlotWord, announces_wire, bracket, decode_hybrid, encode_hybrid, hybrid_then, lead, lemma_begin, lemma_bracket, lemma_wire_fits, lemma_zero_slots_coder, lemma_finish, offset, plan_of, read_bracket, read_hybrid_word, residual_run, residual_width, samples_then, slot_read, slot_word, wider, wire_fits, wire_width, zero_slots};
use crate::packed_samples::{Coder, finish_padded, padded, second};
use crate::samples::{AdaptiveMedians, RunState, count_code, emit_count, emit_mantissa, join_sign, magnitude, split_sign, take_count, take_mantissa};

verus! {

/// The running state of a hybrid stream.
#[derive(Debug)]
pub struct HybridMachine {
    coder: Coder,
    level: HybridState,
    a: Vec<DecorrPass>,
    b: Vec<DecorrPass>,
    shape: ShapingState,
    limit_a: u32,
    limit_b: u32,
    temp: i32,
    left_temp: i32,
    right_temp: i32,
    mid: i32,
    mid_temp: i32,
    lossy_mid: i32,
}

impl View for HybridMachine {
    type V = HybridCoder;

    closed spec fn view(&self) -> HybridCoder {
        HybridCoder {
            coder: self.coder,
            level: self.level,
            a: states(self.a@),
            b: states(self.b@),
            shape: self.shape,
            limit_a: self.limit_a,
            limit_b: self.limit_b,
            temp: self.temp,
            left_temp: self.left_temp,
            right_temp: self.right_temp,
            mid: self.mid,
            mid_temp: self.mid_temp,
            lossy_mid: self.lossy_mid,
        }
    }
}

/// The state at the start of a block.
pub open spec fn hybrid_start(
    coder: Coder,
    level: HybridState,
    a: Seq<PassState>,
    b: Seq<PassState>,
    shape: ShapingState,
) -> HybridCoder {
    HybridCoder {
        coder,
        level,
        a,
        b,
        shape,
        limit_a: 0,
        limit_b: 0,
        temp: 0,
        left_temp: 0,
        right_temp: 0,
        mid: 0,
        mid_temp: 0,
        lossy_mid: 0,
    }
}

impl HybridMachine {
    /// The running levels.
    pub fn levels(&self) -> (r: HybridState)
        ensures
            r == self@.level,
    {
        self.level
    }

    /// The shaping filter.
    pub fn shaping(&self) -> (r: ShapingState)
        ensures
            r == self@.shape,
    {
        self.shape
    }

    /// The state at the start of a block.
    pub fn new(coder: Coder, level: HybridState, a: Vec<DecorrPass>, b: Vec<DecorrPass>, shape: ShapingState) -> (r:
        HybridMachine)
        ensures
            r@ == hybrid_start(coder, level, states(a@), states(b@), shape),
    {
        HybridMachine {
            coder,
            level,
            a,
            b,
            shape,
            limit_a: 0,
            limit_b: 0,
            temp: 0,
            left_temp: 0,
            right_temp: 0,
            mid: 0,
            mid_temp: 0,
            lossy_mid: 0,
        }
    }

    fn half_step(&self) -> (r: i32)
        ensures
            r == self@.half_step(),
    {
        proof {
            vstd::arithmetic::power2::lemma2_to64();
        }
        let whole: i64 = floor_shr(self.mid as i64, 1);
        let bare: i64 = floor_shr(sub32(self.mid, self.mid_temp) as i64, 1);
        wrap_i32(whole - bare)
    }

    fn begin(&mut self, sec: bool, joint: bool)
        requires
            old(self)@.wf(),
        ensures
            final(self)@ == old(self)@.begin(sec, joint),
            final(self)@.wf(),
    {
        proof {
            reveal(HybridCoder::begin);
        }
        if !sec {
            let limits: [u32; 2] = self.level.frame_limits();
            self.limit_a = limits[0];
            self.limit_b = limits[1];
        }
        if !joint {
            self.temp = self.shape.advance(if sec { 1 } else { 0 });
        } else if !sec {
            self.left_temp = self.shape.advance(0);
            self.right_temp = self.shape.advance(1);
            self.temp = sub32(self.left_temp, self.right_temp);
        } else {
            self.temp = add32(self.right_temp, self.half_step());
        }
        assert(self@ =~= old(self)@.begin(sec, joint));
    }

    fn predicted(&self, sec: bool) -> (r: i32)
        requires
            self@.wf(),
        ensures
            r == offset(self@.chain(sec)),
    {
        if sec {
            offset_mono(&self.b)
        } else {
            offset_mono(&self.a)
        }
    }

    fn limit(&self, sec: bool) -> (r: u32)
        ensures
            r == self@.limit(sec),
    {
        if sec {
            self.limit_b
        } else {
            self.limit_a
        }
    }

    fn wire(&self, sec: bool, x: i32) -> (r: (i32, i32))
        requires
            self@.wf(),
        ensures
            r.0 == self@.residual(sec, x),
            r.1 == self@.wire(sec, x),
    {
        let exact: i32 = sub32(x, self.predicted(sec));
        if self.limit(sec) == 0 {
            (exact, exact)
        } else {
            (exact, sub32(exact, self.temp))
        }
    }

    fn finish(&mut self, sec: bool, joint: bool, x: i32, exact: i32, coarse: i32, applied: i32) -> (out: i32)
        requires
            old(self)@.wf(),
        ensures
            final(self)@ == old(self)@.finish(sec, joint, x, exact, coarse, applied),
            final(self)@.wf(),
            out == old(self)@.lossy(sec, coarse),
    {
        proof {
            reveal(HybridCoder::finish);
        }
        let half: i32 = self.half_step();
        let ch: usize = if sec {
            1
        } else {
            0
        };
        self.level.update_signed(ch, coarse);
        let out: i32 = if sec {
            advance_mono(&mut self.b, coarse)
        } else {
            advance_mono(&mut self.a, coarse)
        };
        if !joint {
            self.shape.update(ch, exact, coarse, applied);
        } else if !sec {
            self.mid = x;
            self.mid_temp = applied;
            self.lossy_mid = out;
        } else {
            let right: i32 = sub32(applied, half);
            let left: i32 = add32(self.mid_temp, right);
            let source: (i32, i32) = undo_joint_stereo(self.mid, x);
            let lossy: (i32, i32) = undo_joint_stereo(self.lossy_mid, out);
            self.shape.update(0, source.0, lossy.0, left);
            self.shape.update(1, source.1, lossy.1, right);
        }
        assert(self@ =~= old(self)@.finish(sec, joint, x, exact, coarse, applied));
        out
    }

    fn emit_prefix(&mut self, w: &mut BitWriter, z: u32, hold: bool)
        requires
            old(w).wf(),
            z < 0x8000_0000,
            old(self)@.coder.run.allows(z as nat),
        ensures
            final(w).wf(),
            final(w)@ == old(w)@ + old(self)@.coder.run.prefix(z as nat, hold),
            final(self)@ == old(self)@.with_run(old(self)@.coder.run.after(hold)),
    {
        let mut run = self.coder.run;
        run.emit_prefix(w, z, hold);
        self.coder.run = run;
        assert(self@ =~= old(self)@.with_run(old(self)@.coder.run.after(hold)));
    }

    /// Passes a slot that has begun with a zero residual.
    fn finish_zero(&mut self, sec: bool, joint: bool) -> (x: i32)
        requires
            old(self)@.wf(),
        ensures
            x == offset(old(self)@.chain(sec)),
            final(self)@ == old(self)@.finish(sec, joint, x, 0, 0, 0),
            final(self)@.wf(),
    {
        let x: i32 = self.predicted(sec);
        self.finish(sec, joint, x, 0, 0, 0)
    }
}

// ---------------------------------------------------------------------------
// Brackets
// ---------------------------------------------------------------------------

fn narrow(low: u32, high: u32, limit: u32, mag: u32) -> (r: (u32, u32))
    requires
        low <= high < 0x8000_0000,
    ensures
        r.0 == bracket(low as nat, high as nat, limit as nat, mag as nat).1,
        r.1 == bracket(low as nat, high as nat, limit as nat, mag as nat).2,
        low <= r.0 <= r.1 <= high,
{
    let mut lo: u32 = low;
    let mut hi: u32 = high;
    let ghost whole = bracket(low as nat, high as nat, limit as nat, mag as nat);
    proof {
        lemma_bracket(low as nat, high as nat, limit as nat, mag as nat);
    }
    while hi - lo > limit
        invariant
            low <= lo <= hi <= high < 0x8000_0000,
            whole.1 == bracket(lo as nat, hi as nat, limit as nat, mag as nat).1,
            whole.2 == bracket(lo as nat, hi as nat, limit as nat, mag as nat).2,
        decreases hi - lo,
    {
        let mid: u32 = (lo + hi + 1) / 2;
        if mag >= mid {
            lo = mid;
        } else {
            hi = mid - 1;
        }
    }
    (lo, hi)
}

fn emit_bracket(w: &mut BitWriter, low: u32, high: u32, limit: u32, mag: u32)
    requires
        old(w).wf(),
        low <= high < 0x8000_0000,
    ensures
        final(w).wf(),
        final(w)@ == old(w)@ + bracket(low as nat, high as nat, limit as nat, mag as nat).0,
{
    let mut lo: u32 = low;
    let mut hi: u32 = high;
    let ghost whole = bracket(low as nat, high as nat, limit as nat, mag as nat).0;
    while hi - lo > limit
        invariant
            w.wf(),
            low <= lo <= hi <= high < 0x8000_0000,
            w@ + bracket(lo as nat, hi as nat, limit as nat, mag as nat).0 == old(w)@ + whole,
        decreases hi - lo,
    {
        let mid: u32 = (lo + hi + 1) / 2;
        let up: bool = mag >= mid;
        let ghost before = w@;
        w.write_bit(up);
        let ghost all = bracket(lo as nat, hi as nat, limit as nat, mag as nat).0;
        if up {
            lo = mid;
        } else {
            hi = mid - 1;
        }
        assert(before + all =~= w@ + bracket(lo as nat, hi as nat, limit as nat, mag as nat).0);
    }
    assert(w@ + Seq::<bool>::empty() =~= w@);
}

fn take_bracket(r: &mut BitReader, low: u32, high: u32, limit: u32) -> (n: Result<(u32, u32)>)
    requires
        old(r).wf(),
        low <= high < 0x8000_0000,
    ensures
        final(r).wf(),
        match read_bracket(old(r)@, low as nat, high as nat, limit as nat) {
            Ok(((lo, hi), rest)) => {
                &&& n == Ok::<(u32, u32), Error>((lo as u32, hi as u32))
                &&& low <= lo <= hi <= high
                &&& final(r)@ == rest
            },
            Err(e) => n == Err::<(u32, u32), Error>(e),
        },
{
    let mut lo: u32 = low;
    let mut hi: u32 = high;
    let ghost whole = read_bracket(r@, low as nat, high as nat, limit as nat);
    while hi - lo > limit
        invariant
            r.wf(),
            low <= lo <= hi <= high < 0x8000_0000,
            whole == read_bracket(old(r)@, low as nat, high as nat, limit as nat),
            whole == read_bracket(r@, lo as nat, hi as nat, limit as nat),
        decreases hi - lo,
    {
        let mid: u32 = (lo + hi + 1) / 2;
        match r.get_bit() {
            Err(e) => {
                return Err(e);
            }
            Ok(up) => {
                if up {
                    lo = mid;
                } else {
                    hi = mid - 1;
                }
            }
        }
    }
    Ok((lo, hi))
}

// ---------------------------------------------------------------------------
// Writing
// ---------------------------------------------------------------------------

/// A coded hybrid block.
#[derive(Debug)]
pub struct HybridStreams {
    /// The main payload.
    pub main: Vec<u8>,
    /// The correction payload, where one was asked for.
    pub wvc: Option<Vec<u8>>,
    /// The lossy samples.
    pub coarse_out: Vec<i32>,
    /// Greatest width of a coded or lossy residual.
    pub max_res_bits: u32,
}

proof fn lemma_then_chain(
    m1: Seq<bool>,
    f1: Seq<bool>,
    l1: Seq<i32>,
    w1: nat,
    m2: Seq<bool>,
    f2: Seq<bool>,
    l2: Seq<i32>,
    w2: nat,
    r: core::result::Result<HybridOut, Error>,
)
    ensures
        hybrid_then(m1, f1, l1, w1, hybrid_then(m2, f2, l2, w2, r)) == hybrid_then(
            m1 + m2,
            f1 + f2,
            l1 + l2,
            wider(w1, w2),
            r,
        ),
{
    if r is Ok {
        let o = r->Ok_0;
        assert(m1 + (m2 + o.main) =~= m1 + m2 + o.main);
        assert(f1 + (f2 + o.fix) =~= f1 + f2 + o.fix);
        assert(l1 + (l2 + o.lossy) =~= l1 + l2 + o.lossy);
    }
}

proof fn lemma_then_nothing(m: Seq<bool>, f: Seq<bool>, l: Seq<i32>, r: core::result::Result<HybridOut, Error>)
    requires
        m.len() == 0,
        f.len() == 0,
        l.len() == 0,
    ensures
        hybrid_then(m, f, l, 0, r) == r,
{
    if r is Ok {
        let o = r->Ok_0;
        assert(m + o.main =~= o.main);
        assert(f + o.fix =~= o.fix);
        assert(l + o.lossy =~= o.lossy);
    }
}

/// One more zero slot at the end.
proof fn lemma_zero_slots_push(st: HybridCoder, i: int, k: nat, m: Layout)
    ensures
        ({
            let before = zero_slots(st, i, k, m);
            let one = before.0.zero_slot(second(i + k, m.stereo), m.joint);
            zero_slots(st, i, k + 1, m) == (one.0, before.1.push(one.1))
        }),
    decreases k,
{
    let sec = second(i, m.stereo);
    let first = st.zero_slot(sec, m.joint);
    if k == 0 {
        reveal_with_fuel(zero_slots, 2);
        assert(seq![first.1] + Seq::<i32>::empty() =~= Seq::<i32>::empty().push(first.1));
    } else {
        lemma_zero_slots_push(first.0, i + 1, (k - 1) as nat, m);
        let inner = zero_slots(first.0, i + 1, (k - 1) as nat, m);
        let one = inner.0.zero_slot(second(i + k, m.stereo), m.joint);
        assert(seq![first.1] + inner.1.push(one.1) =~= (seq![first.1] + inner.1).push(one.1));
    }
}

/// Codes the run of zero residuals at slot `i`, which has begun; gives its length.
fn pass_run(x: &[i32], i: usize, m: Layout, st: &mut HybridMachine, out: &mut Vec<i32>, Ghost(base): Ghost<HybridCoder>) -> (n:
    usize)
    requires
        i < x.len(),
        base.wf(),
        old(st)@.wf(),
        old(st)@ == base.begin(second(i as int, m.stereo), m.joint),
    ensures
        n == residual_run(x@, i as int, m, base),
        i + n <= x.len(),
        final(out)@ == old(out)@ + zero_slots(base, i as int, n as nat, m).1,
        final(st)@.wf(),
        zero_slots(base, i as int, n as nat, m).0.wf(),
        final(st)@ == (if i + n < x.len() {
            zero_slots(base, i as int, n as nat, m).0.begin(second(i + n, m.stereo), m.joint)
        } else {
            zero_slots(base, i as int, n as nat, m).0
        }),
{
    let mut n: usize = 0;
    let ghost mut cur: HybridCoder = base;
    assert(out@ =~= old(out)@ + zero_slots(base, i as int, 0, m).1);
    while i + n < x.len()
        invariant
            i + n <= x.len(),
            cur == zero_slots(base, i as int, n as nat, m).0,
            cur.wf(),
            st@.wf(),
            st@ == (if i + n < x.len() {
                cur.begin(second(i + n, m.stereo), m.joint)
            } else {
                cur
            }),
            out@ == old(out)@ + zero_slots(base, i as int, n as nat, m).1,
            residual_run(x@, i as int, m, base) == n + residual_run(x@, i + n, m, cur),
        decreases x.len() - i - n,
    {
        let sec: bool = m.stereo && (i + n) % 2 == 1;
        let (exact, _wire) = st.wire(sec, x[i + n]);
        if exact != 0 {
            return n;
        }
        let v: i32 = st.finish_zero(sec, m.joint);
        out.push(v);
        proof {
            lemma_zero_slots_push(base, i as int, n as nat, m);
            let before = zero_slots(base, i as int, n as nat, m).1;
            assert(out@ =~= old(out)@ + before.push(v));
            cur = st@;
        }
        n = n + 1;
        if i + n < x.len() {
            let next: bool = m.stereo && (i + n) % 2 == 1;
            st.begin(next, m.joint);
        }
    }
    n
}

/// A planned word: the interval left around it, and its lossy residual.
struct Planned {
    low: u32,
    high: u32,
    coarse: i32,
}

fn plan_word(low: u32, high: u32, limit: u32, wire: i32, correction: bool) -> (r: Result<Planned>)
    requires
        low <= high < 0x8000_0000,
        low <= magnitude(wire),
    ensures
        match plan_of(low as nat, high as nat, limit, wire, correction) {
            Err(e) => r is Err && r->Err_0 == e,
            Ok(p) => {
                &&& r is Ok
                &&& r->Ok_0.coarse == p.coarse
                &&& limit == 0 ==> magnitude(wire) <= high
                &&& limit > 0 ==> ({
                    let b = bracket(low as nat, high as nat, limit as nat, magnitude(wire));
                    &&& r->Ok_0.low == b.1
                    &&& r->Ok_0.high == b.2
                    &&& r->Ok_0.high < 0x8000_0000
                    &&& correction ==> b.1 <= magnitude(wire) <= b.2
                })
            },
        },
{
    proof {
        reveal(plan_of);
    }
    let (mag, neg) = split_sign(wire);
    if limit == 0 {
        if mag > high {
            return Err(Error::ValueNotInInterval { value: mag, low, high });
        }
        return Ok(Planned { low, high, coarse: wire });
    }
    let (lo, hi) = narrow(low, high, limit, mag);
    if correction && !(lo <= mag && mag <= hi) {
        return Err(Error::ValueNotInInterval { value: mag, low: lo, high: hi });
    }
    let coarse: i32 = join_sign((lo + hi + 1) / 2, neg);
    Ok(Planned { low: lo, high: hi, coarse })
}

fn max_width(width: u32, v: i32) -> (r: u32)
    requires
        width <= 32,
    ensures
        r == wider(width as nat, residual_width(v)),
        r <= 32,
{
    let (mag, _neg) = split_sign(v);
    let n: u32 = bit_length_u32(mag);
    if width > n {
        width
    } else {
        n
    }
}

fn emit_body(w: &mut BitWriter, fix: &mut BitWriter, low: u32, high: u32, limit: u32, wire: i32, plan: &Planned, correction: bool)
    requires
        old(w).wf(),
        old(fix).wf(),
        low <= high < 0x8000_0000,
        low <= magnitude(wire),
        plan_of(low as nat, high as nat, limit, wire, correction) is Ok,
        limit == 0 ==> magnitude(wire) <= high,
        limit > 0 ==> ({
            let b = bracket(low as nat, high as nat, limit as nat, magnitude(wire));
            &&& plan.low == b.1
            &&& plan.high == b.2
            &&& plan.high < 0x8000_0000
            &&& correction ==> b.1 <= magnitude(wire) <= b.2
        }),
    ensures
        final(w).wf(),
        final(fix).wf(),
        final(w)@ == old(w)@ + plan_of(low as nat, high as nat, limit, wire, correction)->Ok_0.body,
        final(fix)@ == old(fix)@ + plan_of(low as nat, high as nat, limit, wire, correction)->Ok_0.fix,
{
    proof {
        reveal(plan_of);
    }
    let (mag, neg) = split_sign(wire);
    let ghost p = plan_of(low as nat, high as nat, limit, wire, correction)->Ok_0;
    if limit == 0 {
        emit_mantissa(w, mag - low, high - low);
        assert(fix@ =~= old(fix)@ + p.fix);
    } else {
        emit_bracket(w, low, high, limit, mag);
        if correction {
            emit_mantissa(fix, mag - plan.low, plan.high - plan.low);
        } else {
            assert(fix@ =~= old(fix)@ + p.fix);
        }
    }
    w.write_bit(neg);
    assert(w@ =~= old(w)@ + p.body);
}

/// Begins slot `i`, if there is one; gives what is announced of it.
fn begin_next(x: &[i32], i: usize, m: Layout, st: &mut HybridMachine) -> (hold: bool)
    requires
        i <= x.len(),
        old(st)@.wf(),
    ensures
        hold == announces_wire(x@, i as int, m, old(st)@),
        final(st)@ == (if i < x.len() {
            old(st)@.begin(second(i as int, m.stereo), m.joint)
        } else {
            old(st)@
        }),
        final(st)@.wf(),
{
    if i < x.len() {
        let sec: bool = m.stereo && i % 2 == 1;
        proof {
            lemma_begin(st@, st@, sec, m.joint, st@.coder.run);
        }
        st.begin(sec, m.joint);
        let (_exact, wire) = st.wire(sec, x[i]);
        let (mag, _neg) = split_sign(wire);
        let med: u32 = st.coder.get_medians(sec).get_med(0);
        mag >= med
    } else {
        false
    }
}

/// A word whose slot has been passed, before its bits are written.
struct Settled {
    zone: u32,
    low: u32,
    high: u32,
    limit: u32,
    wire: i32,
    plan: Planned,
    lossy: i32,
}

/// The state after a slot that was coded as a word, its prefix aside.
#[verifier::opaque]
spec fn settled_state(x: Seq<i32>, i: int, m: Layout, base: HybridCoder, coarse: i32) -> HybridCoder {
    let sec = second(i, m.stereo);
    let b = base.begin(sec, m.joint);
    let wire = b.wire(sec, x[i]);
    let z = base.coder.medians(sec).zone_of(magnitude(wire));
    let applied = if b.limit(sec) == 0 {
        0
    } else {
        b.temp
    };
    b.coded(sec, z).finish(sec, m.joint, x[i], b.residual(sec, x[i]), coarse, applied)
}

/// The parts of a slot's word, one by one.
proof fn lemma_slot_parts(x: Seq<i32>, i: int, m: Layout, base: HybridCoder, correction: bool)
    ensures
        ({
            let sec = second(i, m.stereo);
            let b = base.begin(sec, m.joint);
            let wire = b.wire(sec, x[i]);
            let meds = base.coder.medians(sec);
            let z = meds.zone_of(magnitude(wire));
            let plan = plan_of(meds.low(z), meds.high(z), b.limit(sec), wire, correction);
            match plan {
                Err(e) => slot_word(x, i, m, base, correction) == Err::<SlotWord, Error>(e),
                Ok(p) => {
                    let next = settled_state(x, i, m, base, p.coarse);
                    let hold = announces_wire(x, i + 1, m, next);
                    slot_word(x, i, m, base, correction) == Ok::<SlotWord, Error>(
                        SlotWord {
                            zone: z,
                            hold,
                            body: p.body,
                            fix: p.fix,
                            lossy: b.lossy(sec, p.coarse),
                            width: wider(residual_width(wire), residual_width(p.coarse)),
                            after: next.with_run(base.coder.run.after(hold)),
                        },
                    )
                },
            }
        }),
{
    reveal(slot_word);
    reveal(settled_state);
}

/// Plans the word of slot `i`, which has begun, and passes the slot.
fn settle_word(x: &[i32], i: usize, m: Layout, st: &mut HybridMachine, correction: bool, Ghost(base): Ghost<HybridCoder>) -> (r:
    Result<Settled>)
    requires
        i < x.len(),
        old(st)@.wf(),
        old(st)@ == base.begin(second(i as int, m.stereo), m.joint),
    ensures
        ({
            let sec = second(i as int, m.stereo);
            let b = old(st)@;
            let wire = b.wire(sec, x@[i as int]);
            let meds = base.coder.medians(sec);
            let z = meds.zone_of(magnitude(wire));
            let plan = plan_of(meds.low(z), meds.high(z), b.limit(sec), wire, correction);
            match plan {
                Err(e) => r is Err && r->Err_0 == e,
                Ok(p) => {
                    &&& r is Ok
                    &&& r->Ok_0.zone == z
                    &&& z < 0x8000_0000
                    &&& r->Ok_0.low == meds.low(z)
                    &&& r->Ok_0.high == meds.high(z)
                    &&& r->Ok_0.low <= r->Ok_0.high < 0x8000_0000
                    &&& r->Ok_0.low <= magnitude(wire)
                    &&& r->Ok_0.limit == b.limit(sec)
                    &&& r->Ok_0.wire == wire
                    &&& r->Ok_0.plan.coarse == p.coarse
                    &&& r->Ok_0.lossy == b.lossy(sec, p.coarse)
                    &&& r->Ok_0.limit == 0 ==> magnitude(wire) <= r->Ok_0.high
                    &&& r->Ok_0.limit > 0 ==> ({
                        let k = bracket(meds.low(z), meds.high(z), r->Ok_0.limit as nat, magnitude(wire));
                        &&& r->Ok_0.plan.low == k.1
                        &&& r->Ok_0.plan.high == k.2
                        &&& r->Ok_0.plan.high < 0x8000_0000
                        &&& correction ==> k.1 <= magnitude(wire) <= k.2
                    })
                    &&& final(st)@ == settled_state(x@, i as int, m, base, p.coarse)
                    &&& final(st)@.wf()
                    &&& final(st)@.coder == base.coder.coded(sec, z)
                },
            }
        }),
{
    let sec: bool = m.stereo && i % 2 == 1;
    let ghost b = st@;
    proof {
        lemma_begin(base, base, sec, m.joint, base.coder.run);
    }
    let (exact, wire) = st.wire(sec, x[i]);
    let limit: u32 = st.limit(sec);
    let meds = st.coder.get_medians(sec);
    let (mag, _neg) = split_sign(wire);
    let z: u32 = meds.zone_for_magnitude(mag);
    let range = meds.interval(z);
    let plan: Planned = match plan_word(range.low, range.high, limit, wire, correction) {
        Err(e) => {
            return Err(e);
        }
        Ok(p) => p,
    };
    st.coder.step(sec, z);
    assert(st@ =~= b.coded(sec, z as nat));
    let applied: i32 = if limit == 0 {
        0
    } else {
        st.temp
    };
    let lossy: i32 = st.finish(sec, m.joint, x[i], exact, plan.coarse, applied);
    proof {
        reveal(settled_state);
        lemma_finish(b.coded(sec, z as nat), b, sec, m.joint, x@[i as int], exact, applied, 0, 0, 0, plan.coarse);
    }
    Ok(Settled { zone: z, low: range.low, high: range.high, limit, wire, plan, lossy })
}

/// Whether a settled word holds what its plan says.
spec fn settled_ok(s: Settled, correction: bool) -> bool {
    &&& s.zone < 0x8000_0000
    &&& s.low <= s.high < 0x8000_0000
    &&& s.low <= magnitude(s.wire)
    &&& plan_of(s.low as nat, s.high as nat, s.limit, s.wire, correction) is Ok
    &&& s.limit == 0 ==> magnitude(s.wire) <= s.high
    &&& s.limit > 0 ==> ({
        let k = bracket(s.low as nat, s.high as nat, s.limit as nat, magnitude(s.wire));
        &&& s.plan.low == k.1
        &&& s.plan.high == k.2
        &&& s.plan.high < 0x8000_0000
        &&& correction ==> k.1 <= magnitude(s.wire) <= k.2
    })
}

/// Writes a settled word.
fn write_word(st: &mut HybridMachine, w: &mut BitWriter, fix: &mut BitWriter, s: &Settled, gate: bool, hold: bool, correction: bool)
    requires
        old(w).wf(),
        old(fix).wf(),
        settled_ok(*s, correction),
        old(st)@.coder.run.allows(s.zone as nat),
    ensures
        final(w).wf(),
        final(fix).wf(),
        ({
            let p = plan_of(s.low as nat, s.high as nat, s.limit, s.wire, correction)->Ok_0;
            let head = if gate {
                count_code(0)
            } else {
                Seq::empty()
            };
            &&& final(w)@ == old(w)@ + (head + old(st)@.coder.run.prefix(s.zone as nat, hold) + p.body)
            &&& final(fix)@ == old(fix)@ + p.fix
        }),
        final(st)@ == old(st)@.with_run(old(st)@.coder.run.after(hold)),
{
    if gate {
        emit_count(w, 0);
    } else {
        assert(w@ =~= old(w)@ + Seq::<bool>::empty());
    }
    st.emit_prefix(w, s.zone, hold);
    emit_body(w, fix, s.low, s.high, s.limit, s.wire, &s.plan, correction);
    proof {
        let p = plan_of(s.low as nat, s.high as nat, s.limit, s.wire, correction)->Ok_0;
        let head = if gate {
            count_code(0)
        } else {
            Seq::empty()
        };
        assert(w@ =~= old(w)@ + (head + old(st)@.coder.run.prefix(s.zone as nat, hold) + p.body));
    }
}

/// Codes the word of slot `i`, which has begun, and begins the next slot.
fn pass_word(
    x: &[i32],
    i: usize,
    m: Layout,
    st: &mut HybridMachine,
    w: &mut BitWriter,
    fix: &mut BitWriter,
    out: &mut Vec<i32>,
    width: &mut u32,
    correction: bool,
    Ghost(base): Ghost<HybridCoder>,
) -> (r: Result<()>)
    requires
        i < x.len(),
        old(w).wf(),
        old(fix).wf(),
        *old(width) <= 32,
        old(st)@.wf(),
        old(st)@ == base.begin(second(i as int, m.stereo), m.joint),
        wire_fits(x@, i as int, m, base),
    ensures
        match slot_word(x@, i as int, m, base, correction) {
            Err(e) => r == Err::<(), Error>(e),
            Ok(s) => {
                &&& r is Ok
                &&& final(w).wf()
                &&& final(fix).wf()
                &&& final(w)@ == old(w)@ + (lead(base.coder) + base.coder.run.prefix(s.zone, s.hold) + s.body)
                &&& final(fix)@ == old(fix)@ + s.fix
                &&& final(out)@ == old(out)@ + seq![s.lossy]
                &&& *final(width) == wider(*old(width) as nat, s.width)
                &&& *final(width) <= 32
                &&& s.after.wf()
                &&& final(st)@.wf()
                &&& final(st)@ == (if i + 1 < x.len() {
                    s.after.begin(second(i + 1, m.stereo), m.joint)
                } else {
                    s.after
                })
                &&& wire_fits(x@, i + 1, m, s.after)
            },
        },
{
    proof {
        lemma_slot_parts(x@, i as int, m, base, correction);
        lemma_begin(base, base, second(i as int, m.stereo), m.joint, base.coder.run);
    }
    let gate: bool = st.coder.at_gate();
    let s: Settled = match settle_word(x, i, m, st, correction, Ghost(base)) {
        Err(e) => {
            return Err(e);
        }
        Ok(s) => s,
    };
    let ghost next = st@;
    out.push(s.lossy);
    *width = max_width(max_width(*width, s.wire), s.plan.coarse);
    let hold: bool = begin_next(x, i + 1, m, st);
    proof {
        lemma_wire_fits(x@, i + 1, m, next);
        if i + 1 < x@.len() {
            lemma_begin(next, next, second(i + 1, m.stereo), m.joint, next.coder.run.after(hold));
            lemma_begin(next, next, second(i + 1, m.stereo), m.joint, next.coder.run);
        }
    }
    write_word(st, w, fix, &s, gate, hold, correction);
    assert(out@ =~= old(out)@ + seq![s.lossy]);
    Ok(())
}

/// What a coded block holds.
pub open spec fn streams_match(r: HybridStreams, o: HybridOut, correction: bool) -> bool {
    &&& r.main@ == padded(pack_bits(o.main))
    &&& match r.wvc {
        Some(v) => correction && v@ == padded(pack_bits(o.fix)),
        None => !correction,
    }
    &&& r.coarse_out@ == o.lossy
    &&& r.max_res_bits == o.width
}

/// Codes a hybrid block.
pub fn hybrid_entropy(x: &[i32], m: Layout, st: &mut HybridMachine, correction: bool) -> (r: Result<HybridStreams>)
    requires
        old(st)@.wf(),
        !old(st)@.coder.run.last_zero,
        !old(st)@.coder.run.last_one,
    ensures
        match encode_hybrid(x@, 0, m, old(st)@, correction) {
            Err(e) => r is Err && r->Err_0 == e,
            Ok(o) => r is Ok && streams_match(r->Ok_0, o, correction) && final(st)@ == o.end && o.end.wf()
                && r->Ok_0.max_res_bits <= 32,
        },
{
    let mut w = BitWriter::new();
    let mut fix = BitWriter::new();
    let mut out: Vec<i32> = Vec::new();
    let mut width: u32 = 0;
    let mut i: usize = 0;
    let ghost mut base: HybridCoder = st@;
    let ghost whole = encode_hybrid(x@, 0, m, base, correction);
    proof {
        lemma_then_nothing(w@, fix@, out@, whole);
    }
    if x.len() > 0 {
        st.begin(false, m.joint);
    }
    while i < x.len()
        invariant
            w.wf(),
            fix.wf(),
            i <= x.len(),
            width <= 32,
            base.wf(),
            st@.wf(),
            st@ == (if i < x.len() {
                base.begin(second(i as int, m.stereo), m.joint)
            } else {
                base
            }),
            wire_fits(x@, i as int, m, base),
            whole == encode_hybrid(x@, 0, m, old(st)@, correction),
            whole == hybrid_then(w@, fix@, out@, width as nat, encode_hybrid(x@, i as int, m, base, correction)),
        decreases x.len() - i,
    {
        let sec: bool = m.stereo && i % 2 == 1;
        let ghost before = (w@, fix@, out@, width as nat);
        let (exact, wire) = st.wire(sec, x[i]);
        proof {
            lemma_begin(base, base, sec, m.joint, base.coder.run);
        }
        if st.coder.at_gate() && exact == 0 {
            let ghost was = base;
            let n: usize = pass_run(x, i, m, st, &mut out, Ghost(base));
            emit_count(&mut w, n as u64);
            width = max_width(width, wire);
            proof {
                let zero = zero_slots(was, i as int, n as nat, m);
                lemma_zero_slots_coder(was, i as int, n as nat, m);
                base = zero.0.cleared();
                if i + n < x@.len() {
                    lemma_begin(zero.0, zero.0, second(i + n, m.stereo), m.joint, zero.0.coder.run);
                }
                assert(fix@ + Seq::<bool>::empty() =~= fix@);
                lemma_then_chain(
                    before.0,
                    before.1,
                    before.2,
                    before.3,
                    count_code(n as nat),
                    Seq::empty(),
                    zero.1,
                    wire_width(x@, i as int, m, was),
                    encode_hybrid(x@, i + n, m, base, correction),
                );
            }
            let ghost begun = st@;
            st.coder.clear();
            proof {
                assert(st@ =~= begun.cleared());
                lemma_begin_cleared(x@, i + n, m, begun, base, zero_slots(was, i as int, n as nat, m).0);
            }
            i = i + n;
        } else {
            match pass_word(x, i, m, st, &mut w, &mut fix, &mut out, &mut width, correction, Ghost(base)) {
                Err(e) => {
                    return Err(e);
                }
                Ok(()) => {}
            }
            proof {
                let s = slot_word(x@, i as int, m, base, correction)->Ok_0;
                lemma_then_chain(
                    before.0,
                    before.1,
                    before.2,
                    before.3,
                    lead(base.coder) + base.coder.run.prefix(s.zone, s.hold) + s.body,
                    s.fix,
                    seq![s.lossy],
                    s.width,
                    encode_hybrid(x@, i + 1, m, s.after, correction),
                );
                base = s.after;
            }
            i = i + 1;
        }
    }
    proof {
        assert(w@ + Seq::<bool>::empty() =~= w@);
        assert(fix@ + Seq::<bool>::empty() =~= fix@);
        assert(out@ + Seq::<i32>::empty() =~= out@);
    }
    let main: Vec<u8> = finish_padded(w);
    let wvc: Option<Vec<u8>> = if correction {
        Some(finish_padded(fix))
    } else {
        None
    };
    Ok(HybridStreams { main, wvc, coarse_out: out, max_res_bits: width })
}

/// Clearing the medians and beginning a slot can change places.
proof fn lemma_begin_cleared(x: Seq<i32>, i: int, m: Layout, begun: HybridCoder, base: HybridCoder, zero: HybridCoder)
    requires
        base == zero.cleared(),
        begun == (if i < x.len() {
            zero.begin(second(i, m.stereo), m.joint)
        } else {
            zero
        }),
        !zero.coder.run.last_zero,
        !zero.coder.run.last_one,
    ensures
        begun.cleared() == (if i < x.len() {
            base.begin(second(i, m.stereo), m.joint)
        } else {
            base
        }),
        wire_fits(x, i, m, base),
{
    reveal(HybridCoder::begin);
    if i < x.len() {
        assert(begun.cleared() =~= base.begin(second(i, m.stereo), m.joint));
    }
}

// ---------------------------------------------------------------------------
// Reading
// ---------------------------------------------------------------------------

/// What a decoded hybrid block holds.
#[derive(Debug)]
pub struct HybridSamples {
    /// The lossy samples.
    pub lossy: Vec<i32>,
    /// The source samples, or the lossy samples where there is no correction.
    pub exact: Vec<i32>,
}

/// A word as it is read.
struct ReadWord {
    zone: u32,
    coarse: i32,
    wire: i32,
}

fn take_hybrid_word(
    r: &mut BitReader,
    fix: Option<&mut BitReader>,
    run: &mut RunState,
    meds: AdaptiveMedians,
    limit: u32,
) -> (n: Result<ReadWord>)
    requires
        old(r).wf(),
        fix is Some ==> fix->Some_0.wf(),
    ensures
        final(r).wf(),
        fix is Some ==> final(fix->Some_0).wf(),
        match read_hybrid_word(
            old(r)@,
            match fix {
                Some(f) => Some(f@),
                None => None,
            },
            *old(run),
            meds,
            limit,
        ) {
            Err(e) => n is Err && n->Err_0 == e,
            Ok(w) => {
                &&& n is Ok
                &&& n->Ok_0.zone == w.zone
                &&& n->Ok_0.coarse == w.coarse
                &&& n->Ok_0.wire == w.wire
                &&& *final(run) == w.run
                &&& final(r)@ == w.main
                &&& fix is Some ==> w.fix == Some(final(fix->Some_0)@)
                &&& fix is None ==> w.fix is None
            },
        },
{
    proof {
        reveal(read_hybrid_word);
    }
    let z: u32 = match run.take_zone(r) {
        Err(e) => {
            return Err(e);
        }
        Ok(z) => z,
    };
    let range = meds.interval(z);
    if limit == 0 {
        let code: u32 = match take_mantissa(r, range.high - range.low) {
            Err(e) => {
                return Err(e);
            }
            Ok(c) => c,
        };
        return match r.get_bit() {
            Err(e) => Err(e),
            Ok(neg) => {
                let v: i32 = join_sign(range.low + code, neg);
                Ok(ReadWord { zone: z, coarse: v, wire: v })
            }
        };
    }
    let (lo, hi): (u32, u32) = match take_bracket(r, range.low, range.high, limit) {
        Err(e) => {
            return Err(e);
        }
        Ok(b) => b,
    };
    let neg: bool = match r.get_bit() {
        Err(e) => {
            return Err(e);
        }
        Ok(b) => b,
    };
    let coarse: i32 = join_sign((lo + hi + 1) / 2, neg);
    match fix {
        None => Ok(ReadWord { zone: z, coarse, wire: coarse }),
        Some(f) => match take_mantissa(f, hi - lo) {
            Err(e) => Err(e),
            Ok(code) => Ok(ReadWord { zone: z, coarse, wire: join_sign(lo + code, neg) }),
        },
    }
}

/// The bits of a correction reader that is in use.
spec fn fix_view(fix: BitReader<'_>, paired: bool) -> Option<Seq<bool>> {
    if paired {
        Some(fix@)
    } else {
        None
    }
}

/// Reads the word of slot `i`; gives its lossy and its source sample.
fn take_slot(r: &mut BitReader, fix: &mut BitReader, paired: bool, i: usize, m: Layout, st: &mut HybridMachine) -> (n: Result<
    (i32, i32),
>)
    requires
        old(r).wf(),
        old(fix).wf(),
        old(st)@.wf(),
    ensures
        final(r).wf(),
        final(fix).wf(),
        match slot_read(old(r)@, fix_view(*old(fix), paired), i as int, m, old(st)@) {
            Err(e) => n is Err && n->Err_0 == e,
            Ok(w) => {
                &&& n == Ok::<(i32, i32), Error>((w.lossy, w.exact))
                &&& final(r)@ == w.main
                &&& fix_view(*final(fix), paired) == w.fix
                &&& final(st)@ == w.after
                &&& final(st)@.wf()
            },
        },
{
    proof {
        reveal(slot_read);
    }
    let sec: bool = m.stereo && i % 2 == 1;
    let ghost base = st@;
    proof {
        lemma_begin(base, base, sec, m.joint, base.coder.run);
    }
    st.begin(sec, m.joint);
    let ghost b = st@;
    let limit: u32 = st.limit(sec);
    let meds = st.coder.get_medians(sec);
    let mut run = st.coder.run;
    let read: Result<ReadWord> = if paired {
        take_hybrid_word(r, Some(&mut *fix), &mut run, meds, limit)
    } else {
        take_hybrid_word(r, None, &mut run, meds, limit)
    };
    let w: ReadWord = match read {
        Err(e) => {
            return Err(e);
        }
        Ok(w) => w,
    };
    let bare: bool = limit == 0 || !paired;
    let exact: i32 = if bare {
        w.wire
    } else {
        add32(w.wire, st.temp)
    };
    let applied: i32 = if bare {
        0
    } else {
        st.temp
    };
    let x: i32 = add32(exact, st.predicted(sec));
    st.coder.step(sec, w.zone);
    assert(st@ =~= b.coded(sec, w.zone as nat));
    let lossy: i32 = st.finish(sec, m.joint, x, exact, w.coarse, applied);
    let ghost next = st@;
    st.coder.run = run;
    assert(st@ =~= next.with_run(run));
    Ok((lossy, x))
}

proof fn lemma_samples_chain(l1: Seq<i32>, e1: Seq<i32>, l2: Seq<i32>, e2: Seq<i32>, r: core::result::Result<HybridIn, Error>)
    ensures
        samples_then(l1, e1, samples_then(l2, e2, r)) == samples_then(l1 + l2, e1 + e2, r),
{
    if r is Ok {
        assert(l1 + (l2 + r->Ok_0.lossy) =~= l1 + l2 + r->Ok_0.lossy);
        assert(e1 + (e2 + r->Ok_0.exact) =~= e1 + e2 + r->Ok_0.exact);
    }
}

/// What a decode hands back.
pub open spec fn samples_match(r: Result<HybridSamples>, d: core::result::Result<HybridIn, Error>) -> bool {
    match d {
        Err(e) => r is Err && r->Err_0 == e,
        Ok(s) => r is Ok && r->Ok_0.lossy@ == s.lossy && r->Ok_0.exact@ == s.exact,
    }
}

/// Decodes `n` samples of a hybrid block.
pub fn hybrid_decode(main: &[u8], fix: Option<&[u8]>, n: usize, m: Layout, st: &mut HybridMachine) -> (r: Result<HybridSamples>)
    requires
        old(st)@.wf(),
    ensures
        samples_match(
            r,
            decode_hybrid(
                byte_bits(main@),
                match fix {
                    Some(f) => Some(byte_bits(f@)),
                    None => None,
                },
                n as int,
                0,
                m,
                old(st)@,
            ),
        ),
{
    let mut reader = BitReader::new(main);
    let paired: bool = fix.is_some();
    let mut fixer = match fix {
        Some(f) => BitReader::new(f),
        None => BitReader::new(&[]),
    };
    let mut lossy: Vec<i32> = Vec::new();
    let mut exact: Vec<i32> = Vec::new();
    let mut i: usize = 0;
    let ghost whole = decode_hybrid(reader@, fix_view(fixer, paired), n as int, 0, m, st@);
    proof {
        if whole is Ok {
            assert(lossy@ + whole->Ok_0.lossy =~= whole->Ok_0.lossy);
            assert(exact@ + whole->Ok_0.exact =~= whole->Ok_0.exact);
        }
    }
    while i < n
        invariant
            reader.wf(),
            fixer.wf(),
            i <= n,
            st@.wf(),
            whole == decode_hybrid(
                byte_bits(main@),
                match fix {
                    Some(f) => Some(byte_bits(f@)),
                    None => None,
                },
                n as int,
                0,
                m,
                old(st)@,
            ),
            whole == samples_then(
                lossy@,
                exact@,
                decode_hybrid(reader@, fix_view(fixer, paired), n as int, i as int, m, st@),
            ),
        decreases n - i,
    {
        let ghost base = st@;
        let ghost before = (lossy@, exact@);
        let run: u32 = if st.coder.at_gate() {
            match take_count(&mut reader) {
                Err(e) => {
                    return Err(e);
                }
                Ok(k) => k,
            }
        } else {
            0
        };
        if run > 0 {
            let k: usize = if (run as u64) < (n - i) as u64 {
                run as usize
            } else {
                n - i
            };
            let mut j: usize = 0;
            proof {
                assert(lossy@ =~= before.0 + zero_slots(base, i as int, 0, m).1);
                assert(exact@ =~= before.1 + zero_slots(base, i as int, 0, m).1);
            }
            while j < k
                invariant
                    j <= k,
                    i + k <= n,
                    st@.wf(),
                    st@ == zero_slots(base, i as int, j as nat, m).0,
                    lossy@ == before.0 + zero_slots(base, i as int, j as nat, m).1,
                    exact@ == before.1 + zero_slots(base, i as int, j as nat, m).1,
                decreases k - j,
            {
                let sec: bool = m.stereo && (i + j) % 2 == 1;
                let ghost prior = zero_slots(base, i as int, j as nat, m).1;
                st.begin(sec, m.joint);
                let v: i32 = st.finish_zero(sec, m.joint);
                lossy.push(v);
                exact.push(v);
                proof {
                    lemma_zero_slots_push(base, i as int, j as nat, m);
                    assert(lossy@ =~= before.0 + prior.push(v));
                    assert(exact@ =~= before.1 + prior.push(v));
                }
                j = j + 1;
            }
            let ghost zeros = zero_slots(base, i as int, k as nat, m);
            let ghost passed = st@;
            st.coder.clear();
            proof {
                assert(st@ =~= passed.cleared());
                lemma_samples_chain(
                    before.0,
                    before.1,
                    zeros.1,
                    zeros.1,
                    decode_hybrid(reader@, fix_view(fixer, paired), n as int, i + k, m, st@),
                );
            }
            i = i + k;
        } else {
            match take_slot(&mut reader, &mut fixer, paired, i, m, st) {
                Err(e) => {
                    return Err(e);
                }
                Ok((l, x)) => {
                    lossy.push(l);
                    exact.push(x);
                    proof {
                        assert(lossy@ =~= before.0 + seq![l]);
                        assert(exact@ =~= before.1 + seq![x]);
                        lemma_samples_chain(
                            before.0,
                            before.1,
                            seq![l],
                            seq![x],
                            decode_hybrid(reader@, fix_view(fixer, paired), n as int, i + 1, m, st@),
                        );
                    }
                }
            }
            i = i + 1;
        }
    }
    assert(lossy@ + Seq::<i32>::empty() =~= lossy@);
    assert(exact@ + Seq::<i32>::empty() =~= exact@);
    Ok(HybridSamples { lossy, exact })
}

} // verus!
