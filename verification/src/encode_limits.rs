//! Which samples can always be encoded.
use vstd::prelude::*;
use vstd::arithmetic::power2::{pow2, lemma2_to64};
use crate::arith::{bit_length, lemma_bit_length_bound};
use crate::bits::{lemma_bits_len, lemma_unpack, pack_bits};
use crate::block_writer::{Config, block_bytes, block_entries, chain_bytes, config_ok, frames_of, narrowed, plain_config, residuals, working, zero_coder};
use crate::block_law::{float_format, int32_format};
use crate::encode::{format_config, pattern_integers};
use crate::encode_stream::{Coding, block_step, coded_block, stream_bytes, stream_from, window};
use crate::float::{pattern_payloads_are_small, scaled_integers_are_small};
use crate::int32::{int32_reduced, literal_payloads_are_small, narrowed_samples_are_small};
use crate::metadata::sub_bytes;
use crate::packed_samples::{Coder, announces, encode_words, lemma_zero_run, padded, second, word_bits, zero_run};
use crate::samples::{AdaptiveMedians, LIMIT_ONES, count_code, lemma_zone, magnitude, mantissa_code, prefix_code};

verus! {

/// Samples below this magnitude fit the interval of their zone, whatever the medians.
pub const SAFE_MAGNITUDE: u32 = 0x7000_0000;

/// So many samples fit a packed payload, whatever they are.
pub const SAFE_SAMPLES: usize = 0x1F_FFFF;

/// Whether every sample is below the safe magnitude.
pub open spec fn all_safe(x: Seq<i32>) -> bool {
    forall|i: int| 0 <= i < x.len() ==> magnitude(#[trigger] x[i]) < SAFE_MAGNITUDE
}

proof fn lemma_zone_holds(m: AdaptiveMedians, mag: nat)
    requires
        mag < SAFE_MAGNITUDE,
    ensures
        mag <= m.high(m.zone_of(mag)),
        m.high(m.zone_of(mag)) < 0x8000_0000,
        m.low(m.zone_of(mag)) <= mag,
{
    lemma_zone(m, mag);
    reveal(AdaptiveMedians::high);
    reveal(AdaptiveMedians::low);
}

proof fn lemma_count_len(n: nat, k: nat)
    requires
        n < pow2(k),
    ensures
        count_code(n).len() <= 2 * k + 1,
{
    reveal(count_code);
    lemma_bit_length_bound(n, k);
    let b = bit_length(n);
    lemma_bits_len(n, if b == 0 { 0 } else { (b - 1) as nat });
}

proof fn lemma_prefix_len(raw: nat)
    requires
        raw < 0x1_0000_0000,
    ensures
        prefix_code(raw).len() <= 84,
{
    reveal(prefix_code);
    lemma2_to64();
    if raw >= LIMIT_ONES {
        lemma_count_len((raw - LIMIT_ONES) as nat, 32);
    }
}

proof fn lemma_mantissa_len(code: nat, maxcode: nat)
    requires
        maxcode < 0x8000_0000,
    ensures
        mantissa_code(code, maxcode).len() <= 32,
{
    reveal(mantissa_code);
    lemma2_to64();
    lemma_bit_length_bound(maxcode, 31);
    let k = bit_length(maxcode);
    if k > 0 {
        let short = crate::samples::short_codes(maxcode);
        lemma_bits_len(code, (k - 1) as nat);
        lemma_bits_len((code + short) / 2, (k - 1) as nat);
    }
}

/// A word takes at most sixteen bytes.
proof fn lemma_word_len(st: Coder, sec: bool, v: i32, hold: bool)
    requires
        magnitude(v) < SAFE_MAGNITUDE,
        st.fits(sec, magnitude(v)),
    ensures
        word_bits(st, sec, v, hold).len() <= 128,
{
    reveal(word_bits);
    let m = st.medians(sec);
    let mag = magnitude(v);
    let z = m.zone_of(mag);
    lemma_zone(m, mag);
    lemma_zone_holds(m, mag);
    lemma2_to64();
    lemma_count_len(0, 0);
    if !st.run.last_zero {
        lemma_prefix_len(st.run.raw(z, hold));
    }
    lemma_mantissa_len((mag - m.low(z)) as nat, (m.high(z) - m.low(z)) as nat);
}

/// Safe samples have words, and few bits.
proof fn lemma_words_encode(x: Seq<i32>, i: int, stereo: bool, st: Coder)
    requires
        0 <= i <= x.len() < 0x1_0000_0000,
        all_safe(x),
        i < x.len() ==> st.fits(second(i, stereo), magnitude(x[i])),
        !(st.run.last_zero && st.run.last_one),
    ensures
        encode_words(x, i, stereo, st) is Ok,
        encode_words(x, i, stereo, st)->Ok_0.len() <= 128 * (x.len() - i),
    decreases x.len() - i,
{
    if i < x.len() {
        let run = if st.gate() {
            zero_run(x, i)
        } else {
            0
        };
        if run > 0 {
            lemma_zero_run(x, i);
            lemma2_to64();
            lemma_count_len(run, 32);
            if i + run < x.len() {
                lemma_cleared_fits(st, second(i + run as int, stereo), magnitude(x[i + run as int]));
            }
            lemma_words_encode(x, i + run, stereo, st.cleared());
        } else {
            let sec = second(i, stereo);
            let mag = magnitude(x[i]);
            assert(mag < SAFE_MAGNITUDE);
            let m = st.medians(sec);
            let z = m.zone_of(mag);
            lemma_zone_holds(m, mag);
            let next = st.coded(sec, z);
            let hold = announces(x, i + 1, stereo, next);
            lemma_word_len(st, sec, x[i], hold);
            if i + 1 < x.len() {
                next.lemma_announced(second(i + 1, stereo), magnitude(x[i + 1]));
            }
            lemma_words_encode(x, i + 1, stereo, next.with_run(st.run.after(hold)));
        }
    }
}

proof fn lemma_cleared_fits(st: Coder, sec: bool, mag: nat)
    requires
        st.gate(),
    ensures
        st.cleared().fits(sec, mag),
{
}

/// A payload that a sub-block can hold.
pub open spec fn payload_fits(p: Seq<u8>) -> bool {
    p.len() <= 0x1FF_FFFE
}

/// A chain of payloads that sub-blocks can hold can be written.
proof fn lemma_chain_fits(es: Seq<(u8, Seq<u8>)>)
    requires
        forall|i: int| 0 <= i < es.len() ==> payload_fits((#[trigger] es[i]).1),
    ensures
        chain_bytes(es) is Ok,
        chain_bytes(es)->Ok_0.len() <= es.len() * 0x200_0004,
    decreases es.len(),
{
    if es.len() > 0 {
        let rest = es.skip(1);
        assert forall|i: int| 0 <= i < rest.len() implies payload_fits((#[trigger] rest[i]).1) by {
            assert(rest[i] == es[i + 1]);
        }
        lemma_chain_fits(rest);
        assert(payload_fits(es[0].1));
        assert(sub_bytes(es[0].0, es[0].1) is Ok);
        assert(sub_bytes(es[0].0, es[0].1)->Ok_0.len() <= 0x200_0004);
    }
}

/// The payloads that a block is configured with, small enough for any block.
pub open spec fn config_small(c: Config) -> bool {
    &&& c.format is Some ==> payload_fits(c.format->Some_0.profile)
    &&& c.format is Some && c.format->Some_0.extension is Some ==> payload_fits(c.format->Some_0.extension->Some_0)
    &&& c.multichannel_info is Some ==> payload_fits(c.multichannel_info->Some_0)
    &&& c.decorr is Some ==> payload_fits(c.decorr->Some_0.terms) && payload_fits(c.decorr->Some_0.weights)
        && payload_fits(c.decorr->Some_0.samples)
}

proof fn lemma_entries_fit(c: Config, packed: Seq<u8>)
    requires
        config_small(c),
        payload_fits(packed),
    ensures
        forall|i: int| 0 <= i < block_entries(c, packed).len() ==> payload_fits((#[trigger] block_entries(c, packed)[i]).1),
        block_entries(c, packed).len() <= 8,
{
}

/// Blocks of integers always encode where their residuals are below the safe
/// magnitude and not too many.
pub proof fn safe_blocks_encode(x: Seq<i32>, c: Config, block_index: u32, total_samples: u32)
    requires
        config_ok(c),
        config_small(c),
        0 < x.len() <= SAFE_SAMPLES,
        !c.mono ==> x.len() % 2 == 0,
        narrowed(x, c.left_shift as nat) is Ok,
        ({
            let res = residuals(working(narrowed(x, c.left_shift as nat)->Ok_0, c.joint), c.decorr, c.mono);
            res is Ok && res->Ok_0.len() == x.len() && all_safe(res->Ok_0)
        }),
    ensures
        block_bytes(x, c, block_index, total_samples) is Ok,
{
    let y = narrowed(x, c.left_shift as nat)->Ok_0;
    let res = residuals(working(y, c.joint), c.decorr, c.mono)->Ok_0;
    lemma_words_encode(res, 0, !c.mono, zero_coder());
    let bits = encode_words(res, 0, !c.mono, zero_coder())->Ok_0;
    lemma_unpack(bits);
    let packed = padded(pack_bits(bits));
    assert(payload_fits(packed));
    lemma_entries_fit(c, packed);
    lemma_chain_fits(block_entries(c, packed));
}

/// A block without passes always encodes where its samples are below the safe
/// magnitude and not too many.
pub proof fn safe_plain_blocks_encode(
    x: Seq<i32>,
    mono: bool,
    bytes_per_sample: u8,
    block_index: u32,
    total_samples: u32,
)
    requires
        0 < x.len() <= SAFE_SAMPLES,
        !mono ==> x.len() % 2 == 0,
        all_safe(x),
    ensures
        block_bytes(x, plain_config(mono, bytes_per_sample), block_index, total_samples) is Ok,
{
    lemma_narrow_none(x);
    crate::block_law::lemma_narrow_zero(x);
    safe_blocks_encode(x, plain_config(mono, bytes_per_sample), block_index, total_samples);
}

proof fn lemma_narrow_none(x: Seq<i32>)
    ensures
        narrowed(x, 0) is Ok,
    decreases x.len(),
{
    lemma2_to64();
    if x.len() > 0 {
        lemma_narrow_none(x.drop_last());
    }
}

proof fn lemma_safe_coded(x: Seq<i32>, mono: bool, bytes_per_sample: u8, block_index: u32, total_samples: u32)
    requires
        0 < x.len() <= SAFE_SAMPLES,
        !mono ==> x.len() % 2 == 0,
        all_safe(x),
    ensures
        coded_block(x, mono, Coding::Plain(bytes_per_sample), block_index, total_samples) is Ok,
{
    reveal(coded_block);
    safe_plain_blocks_encode(x, mono, bytes_per_sample, block_index, total_samples);
}

proof fn lemma_safe_stream(
    x: Seq<i32>,
    step: int,
    mono: bool,
    bytes_per_sample: u8,
    index: int,
    total_samples: u32,
)
    requires
        0 < step,
        !mono ==> x.len() % 2 == 0 && step % 2 == 0,
        window(x, step).len() <= SAFE_SAMPLES,
        all_safe(x),
    ensures
        stream_from(x, step, mono, Coding::Plain(bytes_per_sample), index, total_samples) is Ok,
    decreases x.len(),
{
    if x.len() > 0 {
        let w = window(x, step);
        let rest = x.skip(w.len() as int);
        assert forall|i: int| 0 <= i < w.len() implies magnitude(#[trigger] w[i]) < SAFE_MAGNITUDE by {
            assert(w[i] == x[i]);
        }
        assert forall|i: int| 0 <= i < rest.len() implies magnitude(#[trigger] rest[i]) < SAFE_MAGNITUDE by {
            assert(rest[i] == x[i + w.len()]);
        }
        lemma_safe_coded(w, mono, bytes_per_sample, index as u32, total_samples);
        lemma_safe_stream(rest, step, mono, bytes_per_sample, index + frames_of(w, mono), total_samples);
    }
}

/// A plain stream always encodes where its samples are below the safe
/// magnitude and its blocks not too long.
pub proof fn safe_streams_encode(x: Seq<i32>, block_samples: usize, mono: bool, bytes_per_sample: u8)
    requires
        !mono ==> x.len() % 2 == 0,
        frames_of(x, mono) <= u32::MAX,
        block_step(block_samples, mono) <= SAFE_SAMPLES || x.len() <= SAFE_SAMPLES,
        all_safe(x),
    ensures
        stream_bytes(x, block_samples, mono, Coding::Plain(bytes_per_sample)) is Ok,
{
    lemma_safe_stream(x, block_step(block_samples, mono), mono, bytes_per_sample, 0, frames_of(x, mono) as u32);
}

/// Blocks of wide integers always encode, over their full range, where there
/// are not too many samples.
pub proof fn int32_blocks_encode(x: Seq<i32>, mono: bool, block_index: u32, total_samples: u32)
    requires
        0 < x.len() <= SAFE_SAMPLES,
        !mono ==> x.len() % 2 == 0,
    ensures
        block_bytes(int32_reduced(x), format_config(mono, int32_format(x)), block_index, total_samples) is Ok,
{
    let y = int32_reduced(x);
    let c = format_config(mono, int32_format(x));
    assert forall|i: int| 0 <= i < y.len() implies magnitude(#[trigger] y[i]) < SAFE_MAGNITUDE by {
        narrowed_samples_are_small(x, i);
    }
    literal_payloads_are_small(x);
    lemma_narrow_none(y);
    crate::block_law::lemma_narrow_zero(y);
    safe_blocks_encode(y, c, block_index, total_samples);
}

/// Blocks of patterns always encode, whatever the patterns, where there are
/// not too many.
pub proof fn float_blocks_encode(x: Seq<u32>, mono: bool, block_index: u32, total_samples: u32)
    requires
        0 < x.len() <= SAFE_SAMPLES,
        !mono ==> x.len() % 2 == 0,
    ensures
        block_bytes(pattern_integers(x), format_config(mono, float_format(x)), block_index, total_samples) is Ok,
{
    let y = pattern_integers(x);
    let c = format_config(mono, float_format(x));
    assert forall|i: int| 0 <= i < y.len() implies magnitude(#[trigger] y[i]) < SAFE_MAGNITUDE by {
        scaled_integers_are_small(x, false, i);
    }
    pattern_payloads_are_small(x, false);
    lemma_narrow_none(y);
    crate::block_law::lemma_narrow_zero(y);
    safe_blocks_encode(y, c, block_index, total_samples);
}

} // verus!
