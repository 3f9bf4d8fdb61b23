//! The lossless packed-samples stream: the words of one block, with runs of
//! zeros, read and written against adapting medians.
//!
//! A mono stream uses the first channel's medians only; the second channel's
//! stay at zero and never hold a run back. A stereo stream alternates.
use vstd::prelude::*;
use crate::bits::{BitReader, BitWriter, byte_bits, pack_bits, zeros, lemma_unpack};
use crate::error::{Error, Result};
use crate::samples::{AdaptiveMedians, Parsed, RunState, count_code, emit_count, emit_mantissa, join_sign, lemma_read_count, lemma_read_mantissa, lemma_zone, magnitude, mantissa_code, read_count, read_mantissa, split_sign, take_count, take_mantissa, with_sign};

verus! {

/// Borrowed packed-samples payload.
#[derive(Debug, Clone, Copy, PartialEq, Eq)]
pub struct PackedSamples<'a> {
    payload: &'a [u8],
}

impl<'a> View for PackedSamples<'a> {
    type V = Seq<u8>;

    closed spec fn view(&self) -> Seq<u8> {
        self.payload@
    }
}

impl<'a> PackedSamples<'a> {
    /// Wraps a payload.
    pub fn new(payload: &'a [u8]) -> (r: PackedSamples<'a>)
        ensures
            r@ == payload@,
    {
        PackedSamples { payload }
    }

    /// The payload.
    pub fn bytes(&self) -> (r: &'a [u8])
        ensures
            r@ == self@,
    {
        self.payload
    }

    /// Its length.
    pub fn len(&self) -> (r: usize)
        ensures
            r == self@.len(),
    {
        self.payload.len()
    }

    /// Whether it is empty.
    pub fn is_empty(&self) -> (r: bool)
        ensures
            r == (self@.len() == 0),
    {
        self.payload.len() == 0
    }
}

/// The state of the word coder between two words.
#[derive(Debug, Clone, Copy, PartialEq, Eq, Structural)]
pub struct Coder {
    /// Medians of the first channel.
    pub a: AdaptiveMedians,
    /// Medians of the second channel.
    pub b: AdaptiveMedians,
    /// What the last prefix announced.
    pub run: RunState,
    /// Whether a run of zeros has just ended.
    pub after_run: bool,
}

/// Whether slot `i` belongs to the second channel.
pub open spec fn second(i: int, stereo: bool) -> bool {
    stereo && i % 2 == 1
}

impl Coder {
    /// A coder at the start of a block.
    pub open spec fn start(a: AdaptiveMedians, b: AdaptiveMedians) -> Coder {
        Coder { a, b, run: RunState { last_zero: false, last_one: false }, after_run: false }
    }

    /// A coder at the start of a block.
    pub fn new(a: AdaptiveMedians, b: AdaptiveMedians) -> (r: Coder)
        ensures
            r == Coder::start(a, b),
    {
        Coder { a, b, run: RunState::new(), after_run: false }
    }

    /// Whether a run length stands before the next word.
    pub open spec fn gate(&self) -> bool {
        &&& self.a.m0 <= 1
        &&& self.b.m0 <= 1
        &&& !self.run.last_zero
        &&& !self.run.last_one
        &&& !self.after_run
    }

    /// Whether a run length stands before the next word.
    pub fn at_gate(&self) -> (r: bool)
        ensures
            r == self.gate(),
    {
        self.a.m0 <= 1 && self.b.m0 <= 1 && !self.run.last_zero && !self.run.last_one && !self.after_run
    }

    /// The coder after a run of zeros: every median starts over.
    pub open spec fn cleared(&self) -> Coder {
        let zero = AdaptiveMedians { m0: 0, m1: 0, m2: 0 };
        Coder { a: zero, b: zero, run: self.run, after_run: true }
    }

    /// Moves past a run of zeros.
    pub fn clear(&mut self)
        ensures
            *final(self) == old(self).cleared(),
    {
        self.a = AdaptiveMedians { m0: 0, m1: 0, m2: 0 };
        self.b = AdaptiveMedians { m0: 0, m1: 0, m2: 0 };
        self.after_run = true;
    }

    /// The medians of a channel.
    pub open spec fn medians(&self, sec: bool) -> AdaptiveMedians {
        if sec {
            self.b
        } else {
            self.a
        }
    }

    /// The medians of a channel.
    pub fn get_medians(&self, sec: bool) -> (r: AdaptiveMedians)
        ensures
            r == self.medians(sec),
    {
        if sec {
            self.b
        } else {
            self.a
        }
    }

    /// The coder after a word in zone `z`, its prefix aside.
    pub open spec fn coded(&self, sec: bool, z: nat) -> Coder {
        if sec {
            Coder { b: self.b.adapted(z), after_run: false, ..*self }
        } else {
            Coder { a: self.a.adapted(z), after_run: false, ..*self }
        }
    }

    /// Moves past a word in zone `z`, its prefix aside.
    pub fn step(&mut self, sec: bool, z: u32)
        ensures
            *final(self) == old(self).coded(sec, z as nat),
    {
        if sec {
            self.b.adapt(z);
        } else {
            self.a.adapt(z);
        }
        self.after_run = false;
    }

    /// The coder with another run state.
    pub open spec fn with_run(&self, run: RunState) -> Coder {
        Coder { run, ..*self }
    }

    /// Whether the word of magnitude `mag` lies above the first zone.
    pub open spec fn above(&self, sec: bool, mag: nat) -> bool {
        mag >= self.medians(sec).med(0)
    }

    /// Whether the announcement of the last prefix fits a word of magnitude `mag`.
    pub open spec fn fits(&self, sec: bool, mag: nat) -> bool {
        self.run.allows(self.medians(sec).zone_of(mag))
    }

    /// An announcement made by `above` fits the word it was made of.
    pub proof fn lemma_announced(self, sec: bool, mag: nat)
        ensures
            self.with_run(self.run.after(self.above(sec, mag))).fits(sec, mag) || self.run.last_zero && self.run.last_one,
    {
        lemma_zone(self.medians(sec), mag);
    }
}

/// The number of zeros from slot `i` on.
pub open spec fn zero_run(x: Seq<i32>, i: int) -> nat
    decreases x.len() - i,
{
    if 0 <= i < x.len() && x[i] == 0 {
        1 + zero_run(x, i + 1)
    } else {
        0
    }
}

/// A run of zeros is made of zeros and ends inside the buffer.
pub proof fn lemma_zero_run(x: Seq<i32>, i: int)
    requires
        0 <= i <= x.len(),
    ensures
        i + zero_run(x, i) <= x.len(),
        forall|k: int| i <= k < i + zero_run(x, i) ==> x[k] == 0,
    decreases x.len() - i,
{
    if i < x.len() && x[i] == 0 {
        lemma_zero_run(x, i + 1);
    }
}

/// Counts the zeros from slot `i` on.
pub fn count_zeros(x: &[i32], i: usize) -> (n: usize)
    requires
        i <= x.len(),
    ensures
        n == zero_run(x@, i as int),
        i + n <= x.len(),
{
    let mut n: usize = 0;
    while i + n < x.len() && x[i + n] == 0
        invariant
            i + n <= x.len(),
            n + zero_run(x@, i + n) == zero_run(x@, i as int),
        decreases x.len() - i - n,
    {
        n = n + 1;
    }
    n
}

/// `bits` before an encoded stream.
pub open spec fn prepend(bits: Seq<bool>, r: core::result::Result<Seq<bool>, Error>) -> core::result::Result<
    Seq<bool>,
    Error,
> {
    match r {
        Ok(rest) => Ok(bits + rest),
        Err(e) => Err(e),
    }
}

/// Whether the word in slot `i` exists and lies above the first zone.
pub open spec fn announces(x: Seq<i32>, i: int, stereo: bool, st: Coder) -> bool {
    0 <= i < x.len() && st.above(second(i, stereo), magnitude(x[i]))
}

/// The bits of a word: lead, prefix, mantissa and sign.
#[verifier::opaque]
pub open spec fn word_bits(st: Coder, sec: bool, v: i32, hold: bool) -> Seq<bool> {
    let m = st.medians(sec);
    let mag = magnitude(v);
    let z = m.zone_of(mag);
    let lead = if st.gate() {
        count_code(0)
    } else {
        Seq::empty()
    };
    lead + st.run.prefix(z, hold) + mantissa_code((mag - m.low(z)) as nat, (m.high(z) - m.low(z)) as nat) + seq![v < 0]
}

/// The packed stream of the slots from `i` on, coded from state `st`.
///
/// Where the medians are small and nothing was announced, the length of the
/// run of zeros at hand comes first; a run clears the medians. Otherwise the
/// word's zone stands in its prefix, which also announces whether the next
/// word lies above the first zone. A magnitude that its zone cannot carry is
/// refused.
pub open spec fn encode_words(x: Seq<i32>, i: int, stereo: bool, st: Coder) -> core::result::Result<Seq<bool>, Error>
    decreases x.len() - i,
{
    if i < 0 || i >= x.len() {
        Ok(Seq::empty())
    } else {
        let run = if st.gate() {
            zero_run(x, i)
        } else {
            0
        };
        if run > 0 {
            proof {
                lemma_zero_run(x, i);
            }
            prepend(count_code(run), encode_words(x, i + run, stereo, st.cleared()))
        } else {
            let sec = second(i, stereo);
            let m = st.medians(sec);
            let mag = magnitude(x[i]);
            let z = m.zone_of(mag);
            if mag > m.high(z) {
                Err(Error::ValueNotInInterval { value: mag as u32, low: m.low(z) as u32, high: m.high(z) as u32 })
            } else {
                let next = st.coded(sec, z);
                let hold = announces(x, i + 1, stereo, next);
                prepend(word_bits(st, sec, x[i], hold), encode_words(x, i + 1, stereo, next.with_run(st.run.after(hold))))
            }
        }
    }
}

/// `x` before a decoded stream.
pub open spec fn decoded_after(x: Seq<i32>, r: Parsed<Seq<i32>>) -> Parsed<Seq<i32>> {
    match r {
        Ok((rest, left)) => Ok((x + rest, left)),
        Err(e) => Err(e),
    }
}

/// The run length before a word, where one stands there.
pub open spec fn read_lead(s: Seq<bool>, st: Coder) -> Parsed<nat> {
    if st.gate() {
        read_count(s)
    } else {
        Ok((0, s))
    }
}

/// One word read from `s`: its sample and the coder after it.
#[verifier::opaque]
pub open spec fn read_word(s: Seq<bool>, sec: bool, st: Coder) -> Parsed<(i32, Coder)> {
    match st.run.read_zone(s) {
        Err(e) => Err(e),
        Ok(((z, run), s1)) => {
            let m = st.medians(sec);
            match read_mantissa(s1, (m.high(z) - m.low(z)) as nat) {
                Err(e) => Err(e),
                Ok((code, s2)) => if s2.len() == 0 {
                    Err(Error::Truncated)
                } else {
                    Ok(((with_sign(m.low(z) + code, s2[0]), st.coded(sec, z).with_run(run)), s2.drop_first()))
                },
            }
        }
    }
}

/// `n` zero samples.
pub open spec fn silence(n: nat) -> Seq<i32> {
    Seq::new(n, |k: int| 0i32)
}

/// The samples of slots `i..n` of a packed stream.
pub open spec fn decode_words(s: Seq<bool>, n: int, i: int, stereo: bool, st: Coder) -> Parsed<Seq<i32>>
    decreases n - i,
{
    if i >= n {
        Ok((Seq::empty(), s))
    } else {
        match read_lead(s, st) {
            Err(e) => Err(e),
            Ok((run, s1)) => if run > 0 {
                let k = if run < n - i {
                    run as int
                } else {
                    n - i
                };
                decoded_after(silence(k as nat), decode_words(s1, n, i + k, stereo, st.cleared()))
            } else {
                match read_word(s1, second(i, stereo), st) {
                    Err(e) => Err(e),
                    Ok(((v, next), s2)) => decoded_after(seq![v], decode_words(s2, n, i + 1, stereo, next)),
                }
            },
        }
    }
}

/// Reading one coded word gives its sample and the coder's next state.
pub proof fn lemma_read_word(st: Coder, sec: bool, v: i32, hold: bool, t: Seq<bool>)
    requires
        st.fits(sec, magnitude(v)),
        magnitude(v) <= st.medians(sec).high(st.medians(sec).zone_of(magnitude(v))),
    ensures
        ({
            let z = st.medians(sec).zone_of(magnitude(v));
            let lead = read_lead(word_bits(st, sec, v, hold) + t, st);
            &&& lead is Ok
            &&& lead->Ok_0.0 == 0
            &&& read_word(lead->Ok_0.1, sec, st) == Ok::<((i32, Coder), Seq<bool>), Error>(
                ((v, st.coded(sec, z).with_run(st.run.after(hold))), t),
            )
        }),
{
    reveal(word_bits);
    reveal(read_word);
    let m = st.medians(sec);
    let mag = magnitude(v);
    let z = m.zone_of(mag);
    lemma_zone(m, mag);
    let maxcode = (m.high(z) - m.low(z)) as nat;
    let code = (mag - m.low(z)) as nat;
    let c = mantissa_code(code, maxcode);
    let p = st.run.prefix(z, hold);
    let t2 = seq![v < 0] + t;
    let s = p + (c + t2);
    st.run.lemma_read_zone(z, hold, c + t2);
    lemma_read_mantissa(code, maxcode, t2);
    assert(t2.drop_first() =~= t);
    if st.gate() {
        lemma_read_count(0, s);
        assert(word_bits(st, sec, v, hold) + t =~= count_code(0) + s);
    } else {
        assert(word_bits(st, sec, v, hold) + t =~= s);
    }
}

/// Decoding an encoded stream gives the samples back.
pub proof fn lemma_words_roundtrip(x: Seq<i32>, i: int, stereo: bool, st: Coder, t: Seq<bool>)
    requires
        0 <= i <= x.len() < 0x1_0000_0000,
        encode_words(x, i, stereo, st) is Ok,
        i < x.len() ==> st.fits(second(i, stereo), magnitude(x[i])),
        !(st.run.last_zero && st.run.last_one),
    ensures
        decode_words(encode_words(x, i, stereo, st)->Ok_0 + t, x.len() as int, i, stereo, st) == Ok::<
            (Seq<i32>, Seq<bool>),
            Error,
        >((x.skip(i), t)),
    decreases x.len() - i,
{
    let n = x.len() as int;
    let e = encode_words(x, i, stereo, st)->Ok_0;
    if i >= n {
        assert(e + t =~= t);
        assert(x.skip(i) =~= Seq::empty());
    } else {
        let run = if st.gate() {
            zero_run(x, i)
        } else {
            0
        };
        lemma_zero_run(x, i);
        if run > 0 {
            let rest = encode_words(x, i + run, stereo, st.cleared())->Ok_0;
            assert(e == count_code(run) + rest);
            assert(st.cleared().fits(second(i + run, stereo), magnitude(x[i + run])));
            lemma_words_roundtrip(x, i + run, stereo, st.cleared(), t);
            lemma_read_count(run, rest + t);
            assert(e + t =~= count_code(run) + (rest + t));
            assert(silence(run) + x.skip(i + run) =~= x.skip(i));
        } else {
            let sec = second(i, stereo);
            let z = st.medians(sec).zone_of(magnitude(x[i]));
            let next = st.coded(sec, z);
            let hold = announces(x, i + 1, stereo, next);
            let after = next.with_run(st.run.after(hold));
            let rest = encode_words(x, i + 1, stereo, after)->Ok_0;
            assert(e == word_bits(st, sec, x[i], hold) + rest);
            if i + 1 < n {
                next.lemma_announced(second(i + 1, stereo), magnitude(x[i + 1]));
            }
            lemma_words_roundtrip(x, i + 1, stereo, after, t);
            lemma_read_word(st, sec, x[i], hold, rest + t);
            assert(e + t =~= word_bits(st, sec, x[i], hold) + (rest + t));
            assert(seq![x[i]] + x.skip(i + 1) =~= x.skip(i));
        }
    }
}

/// `s` with a zero byte after it where its length is odd.
pub open spec fn padded(s: Seq<u8>) -> Seq<u8> {
    if s.len() % 2 == 1 {
        s.push(0)
    } else {
        s
    }
}

/// The packed-samples payload of a coded stream, or its refusal.
pub open spec fn payload_of(r: core::result::Result<Seq<bool>, Error>) -> core::result::Result<Seq<u8>, Error> {
    match r {
        Ok(bits) => Ok(padded(pack_bits(bits))),
        Err(e) => Err(e),
    }
}

/// The bytes of a result.
pub open spec fn bytes_of(r: Result<Vec<u8>>) -> core::result::Result<Seq<u8>, Error> {
    match r {
        Ok(v) => Ok(v@),
        Err(e) => Err(e),
    }
}

/// The samples of a result.
pub open spec fn samples_of(r: Result<Vec<i32>>) -> core::result::Result<Seq<i32>, Error> {
    match r {
        Ok(v) => Ok(v@),
        Err(e) => Err(e),
    }
}

/// Finishes a writer into an even number of bytes.
pub fn finish_padded(w: BitWriter) -> (r: Vec<u8>)
    requires
        w.wf(),
    ensures
        r@ == padded(pack_bits(w@)),
{
    let mut out: Vec<u8> = w.finish();
    if out.len() % 2 == 1 {
        out.push(0);
    }
    out
}

/// A padded payload starts with the bits that were packed.
pub proof fn lemma_padded_bits(s: Seq<bool>)
    ensures
        exists|t: Seq<bool>| byte_bits(padded(pack_bits(s))) == s + t,
{
    lemma_unpack(s);
    let p = pack_bits(s);
    let pad = zeros(((8 - s.len() % 8) % 8) as nat);
    if p.len() % 2 == 1 {
        crate::bits::lemma_byte_bits_push(p, 0);
        let t = pad + crate::bits::bits_of(0, 8);
        assert(byte_bits(padded(p)) =~= s + t);
    } else {
        assert(byte_bits(padded(p)) == s + pad);
    }
}

/// Whether a word that follows, given by channel and sample, lies above the first zone.
pub open spec fn announces_next(next: Option<(bool, i32)>, st: Coder) -> bool {
    match next {
        Some((sec, v)) => st.above(sec, magnitude(v)),
        None => false,
    }
}

/// Writes one word; `next` is the word after it.
pub fn emit_word(w: &mut BitWriter, st: &mut Coder, sec: bool, v: i32, next: Option<(bool, i32)>) -> (r: Result<()>)
    requires
        old(w).wf(),
        old(st).fits(sec, magnitude(v)),
    ensures
        final(w).wf(),
        ({
            let m = old(st).medians(sec);
            let mag = magnitude(v);
            let z = m.zone_of(mag);
            let coded = old(st).coded(sec, z);
            let hold = announces_next(next, coded);
            if mag > m.high(z) {
                r == Err::<(), Error>(
                    Error::ValueNotInInterval { value: mag as u32, low: m.low(z) as u32, high: m.high(z) as u32 },
                )
            } else {
                &&& r is Ok
                &&& final(w)@ == old(w)@ + word_bits(*old(st), sec, v, hold)
                &&& *final(st) == coded.with_run(old(st).run.after(hold))
            }
        }),
{
    proof {
        reveal(word_bits);
    }
    let m = st.get_medians(sec);
    let (mag, neg) = split_sign(v);
    let z: u32 = m.zone_for_magnitude(mag);
    let range = m.interval(z);
    if mag > range.high {
        return Err(Error::ValueNotInInterval { value: mag, low: range.low, high: range.high });
    }
    if st.at_gate() {
        emit_count(w, 0);
    }
    st.step(sec, z);
    let hold: bool = match next {
        Some((nsec, nv)) => {
            let (nmag, _neg) = split_sign(nv);
            let med: u32 = st.get_medians(nsec).get_med(0);
            nmag >= med
        }
        None => false,
    };
    let mut run = st.run;
    run.emit_prefix(w, z, hold);
    st.run = run;
    emit_mantissa(w, mag - range.low, range.high - range.low);
    w.write_bit(neg);
    assert(w@ =~= old(w)@ + word_bits(*old(st), sec, v, hold));
    Ok(())
}

/// Writes the packed-samples payload of a block.
///
/// In a mono stream `b` stays unused and must not hold runs back.
pub fn encode_packed_samples(x: &[i32], stereo: bool, a: AdaptiveMedians, b: AdaptiveMedians) -> (r: Result<Vec<u8>>)
    ensures
        bytes_of(r) == payload_of(encode_words(x@, 0, stereo, Coder::start(a, b))),
{
    let mut w = BitWriter::new();
    let mut st = Coder::new(a, b);
    let mut i: usize = 0;
    let ghost whole = encode_words(x@, 0, stereo, st);
    proof {
        lemma_first_fits(st, second(0, stereo), if x@.len() > 0 { magnitude(x@[0]) } else { 0 });
        prepend_nothing(w@, whole);
    }
    while i < x.len()
        invariant
            w.wf(),
            i <= x.len(),
            whole == encode_words(x@, 0, stereo, Coder::start(a, b)),
            prepend(w@, encode_words(x@, i as int, stereo, st)) == whole,
            i < x.len() ==> st.fits(second(i as int, stereo), magnitude(x@[i as int])),
            !(st.run.last_zero && st.run.last_one),
        decreases x.len() - i,
    {
        let ghost before = w@;
        let ghost st0 = st;
        let run: usize = if st.at_gate() {
            count_zeros(x, i)
        } else {
            0
        };
        if run > 0 {
            emit_count(&mut w, run as u64);
            st.clear();
            i = i + run;
            proof {
                prepend_chain(before, count_code(run as nat), encode_words(x@, i as int, stereo, st));
                if i < x@.len() {
                    lemma_first_fits(st, second(i as int, stereo), magnitude(x@[i as int]));
                }
            }
        } else {
            let sec: bool = stereo && i % 2 == 1;
            let next: Option<(bool, i32)> = if i + 1 < x.len() {
                Some((stereo && (i + 1) % 2 == 1, x[i + 1]))
            } else {
                None
            };
            let ghost z = st0.medians(sec).zone_of(magnitude(x@[i as int]));
            let ghost coded = st0.coded(sec, z);
            let ghost hold = announces(x@, i + 1, stereo, coded);
            match emit_word(&mut w, &mut st, sec, x[i], next) {
                Err(e) => {
                    return Err(e);
                }
                Ok(()) => {}
            }
            i = i + 1;
            proof {
                if i < x@.len() {
                    coded.lemma_announced(second(i as int, stereo), magnitude(x@[i as int]));
                }
                prepend_chain(before, word_bits(st0, sec, x@[i - 1], hold), encode_words(x@, i as int, stereo, st));
            }
        }
    }
    assert(w@ + Seq::<bool>::empty() =~= w@);
    Ok(finish_padded(w))
}

proof fn lemma_first_fits(st: Coder, sec: bool, mag: nat)
    requires
        !st.run.last_zero,
        !st.run.last_one,
    ensures
        st.fits(sec, mag),
{
}

proof fn prepend_nothing(e: Seq<bool>, r: core::result::Result<Seq<bool>, Error>)
    requires
        e.len() == 0,
    ensures
        prepend(e, r) == r,
{
    if r is Ok {
        assert(e + r->Ok_0 =~= r->Ok_0);
    }
}

proof fn prepend_chain(a: Seq<bool>, b: Seq<bool>, r: core::result::Result<Seq<bool>, Error>)
    ensures
        prepend(a, prepend(b, r)) == prepend(a + b, r),
{
    if r is Ok {
        assert(a + (b + r->Ok_0) =~= a + b + r->Ok_0);
    }
}

/// The samples of a decode, without the bits left over.
pub open spec fn samples_only(r: Parsed<Seq<i32>>) -> core::result::Result<Seq<i32>, Error> {
    match r {
        Ok((x, _)) => Ok(x),
        Err(e) => Err(e),
    }
}

/// Reads one word.
pub fn take_word(r: &mut BitReader, sec: bool, st: &mut Coder) -> (v: Result<i32>)
    requires
        old(r).wf(),
    ensures
        final(r).wf(),
        final(r).source() == old(r).source(),
        match read_word(old(r)@, sec, *old(st)) {
            Ok(((x, next), rest)) => v == Ok::<i32, Error>(x) && *final(st) == next && final(r)@ == rest,
            Err(e) => v == Err::<i32, Error>(e),
        },
{
    proof {
        reveal(read_word);
    }
    let mut run = st.run;
    let z: u32 = match run.take_zone(r) {
        Err(e) => {
            return Err(e);
        }
        Ok(z) => z,
    };
    let range = st.get_medians(sec).interval(z);
    let code: u32 = match take_mantissa(r, range.high - range.low) {
        Err(e) => {
            return Err(e);
        }
        Ok(c) => c,
    };
    match r.get_bit() {
        Err(e) => Err(e),
        Ok(neg) => {
            st.step(sec, z);
            st.run = run;
            Ok(join_sign(range.low + code, neg))
        }
    }
}

/// Reads `n` samples from a packed-samples payload.
pub fn decode_packed_samples(payload: &[u8], n: usize, stereo: bool, a: AdaptiveMedians, b: AdaptiveMedians) -> (r:
    Result<Vec<i32>>)
    ensures
        samples_of(r) == samples_only(decode_words(byte_bits(payload@), n as int, 0, stereo, Coder::start(a, b))),
{
    let mut reader = BitReader::new(payload);
    let mut st = Coder::new(a, b);
    let mut out: Vec<i32> = Vec::new();
    let ghost whole = decode_words(reader@, n as int, 0, stereo, st);
    proof {
        decoded_nothing(out@, whole);
    }
    while out.len() < n
        invariant
            reader.wf(),
            out.len() <= n,
            whole == decode_words(byte_bits(payload@), n as int, 0, stereo, Coder::start(a, b)),
            decoded_after(out@, decode_words(reader@, n as int, out.len() as int, stereo, st)) == whole,
        decreases n - out.len(),
    {
        let ghost before = out@;
        let i: usize = out.len();
        let run: u32 = if st.at_gate() {
            match take_count(&mut reader) {
                Err(e) => {
                    return Err(e);
                }
                Ok(k) => k,
            }
        } else {
            0
        };
        if run > 0 {
            let k: usize = if (run as u64) < (n - i) as u64 {
                run as usize
            } else {
                n - i
            };
            st.clear();
            let mut j: usize = 0;
            while j < k
                invariant
                    j <= k,
                    out@ =~= before + silence(j as nat),
                decreases k - j,
            {
                out.push(0);
                j = j + 1;
            }
            proof {
                decoded_chain(before, silence(k as nat), decode_words(reader@, n as int, i + k, stereo, st));
            }
        } else {
            let sec: bool = stereo && i % 2 == 1;
            match take_word(&mut reader, sec, &mut st) {
                Err(e) => {
                    return Err(e);
                }
                Ok(v) => {
                    out.push(v);
                    proof {
                        assert(out@ =~= before + seq![v]);
                        decoded_chain(before, seq![v], decode_words(reader@, n as int, i + 1, stereo, st));
                    }
                }
            }
        }
    }
    assert(out@ + Seq::<i32>::empty() =~= out@);
    Ok(out)
}

proof fn decoded_nothing(e: Seq<i32>, r: Parsed<Seq<i32>>)
    requires
        e.len() == 0,
    ensures
        decoded_after(e, r) == r,
{
    if r is Ok {
        assert(e + r->Ok_0.0 =~= r->Ok_0.0);
    }
}

proof fn decoded_chain(a: Seq<i32>, b: Seq<i32>, r: Parsed<Seq<i32>>)
    ensures
        decoded_after(a, decoded_after(b, r)) == decoded_after(a + b, r),
{
    if r is Ok {
        assert(a + (b + r->Ok_0.0) =~= a + b + r->Ok_0.0);
    }
}

/// Reading back a written payload gives the samples.
pub proof fn payload_roundtrip(x: Seq<i32>, stereo: bool, a: AdaptiveMedians, b: AdaptiveMedians)
    requires
        x.len() < 0x1_0000_0000,
        payload_of(encode_words(x, 0, stereo, Coder::start(a, b))) is Ok,
    ensures
        ({
            let payload = payload_of(encode_words(x, 0, stereo, Coder::start(a, b)))->Ok_0;
            samples_only(decode_words(byte_bits(payload), x.len() as int, 0, stereo, Coder::start(a, b))) == Ok::<
                Seq<i32>,
                Error,
            >(x)
        }),
{
    let st = Coder::start(a, b);
    let bits = encode_words(x, 0, stereo, st)->Ok_0;
    lemma_padded_bits(bits);
    let t = choose|t: Seq<bool>| byte_bits(padded(pack_bits(bits))) == bits + t;
    lemma_words_roundtrip(x, 0, stereo, st, t);
    assert(x.skip(0) =~= x);
}

} // verus!
