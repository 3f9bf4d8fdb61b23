//! What the headers of a written hybrid stream say of its samples, and what
//! that makes of the samples.
use vstd::prelude::*;
use vstd::arithmetic::power2::{lemma2_to64, pow2};
use crate::arith::bit_length;
use crate::block::{Block, MAX_DECODE_SAMPLES_PER_BLOCK, blocks_of, clamped_all};
use crate::block_header::Flags;
use crate::block_writer::frames_of;
use crate::crc::{CRC_INIT, crc_over};
use crate::encode_stream::{block_frames, block_step, blocks_small, window};
use crate::error::Error;
use crate::header_law::{lemma_short, lemma_top};
use crate::hybrid_carry::{HybridCarry, HybridOptions};
use crate::hybrid_encode::{HybridProgress, SampleKind, hybrid_files, hybrid_from, hybrid_single, hybrid_unit, lossy_samples, progress_start, progress_with};
use crate::hybrid_law::{HybridSource, hybrid_block_lossy, hybrid_main_decodes, lemma_unit, lemma_unit_lossy, lossy_from, unit_lossy, unit_source};
use crate::samples::magnitude;
use crate::stream::{audio_of, stream_samples};
use crate::stream_law::lemma_audio_of_concat;

verus! {

/// What the flag word of a hybrid block says of its samples.
pub open spec fn states_samples(f: Flags, mono: bool, kind: SampleKind, opts: HybridOptions, shaped: bool) -> bool {
    &&& f.hybrid && f.hybrid_bitrate_noise && f.hybrid_balance_noise == !mono
    &&& f.mono == mono && !f.false_stereo
    &&& f.multichannel_start && f.multichannel_end
    &&& f.joint_stereo == (opts.joint && !mono)
    &&& f.float_data == (kind is Float)
    &&& f.int32_mode == (kind is Int32)
    &&& f.left_shift == 0
    &&& f.hybrid_noise_shaping == shaped && f.new_shaping == shaped
    &&& match kind {
        SampleKind::Plain(n) => if n < 1 {
            f.bytes_minus_one == 0
        } else if n > 4 {
            f.bytes_minus_one == 3
        } else {
            f.bytes_minus_one + 1 == n
        },
        _ => f.bytes_minus_one + 1 == 4,
    }
}

/// Whether noise shaping was asked for.
pub open spec fn asks_shaping(opts: HybridOptions) -> bool {
    !(opts.shaping is Off)
}

/// Samples that fit in `bits` bits, sign and all.
pub open spec fn fits_bits(x: Seq<i32>, bits: nat) -> bool {
    forall|i: int| 0 <= i < x.len() ==> -pow2((bits - 1) as nat) <= #[trigger] x[i] < pow2((bits - 1) as nat)
}

/// Every hybrid block says how its samples were given: the bytes per sample, the
/// channels, the format, and whether its noise is shaped. Its check covers the
/// lossy samples, that of its correction block the samples.
pub proof fn hybrid_blocks_state_samples(
    x: Seq<i32>,
    mono: bool,
    kind: SampleKind,
    opts: HybridOptions,
    carry: HybridCarry,
    block_index: u32,
    total_samples: u32,
)
    requires
        hybrid_unit(x, mono, kind, opts, carry, block_index, total_samples) is Ok,
        frames_of(x, mono) <= MAX_DECODE_SAMPLES_PER_BLOCK,
    ensures
        ({
            let u = hybrid_unit(x, mono, kind, opts, carry, block_index, total_samples)->Ok_0;
            let bs = audio_of(u.main)->Ok_0;
            let cs = audio_of(u.fix->Some_0)->Ok_0;
            &&& audio_of(u.main) is Ok && bs.len() == 1
            &&& states_samples(bs[0].header.flags, mono, kind, opts, carry.shaping is Some)
            &&& bs[0].header.block_index == block_index && bs[0].header.total_samples == total_samples
            &&& bs[0].header.block_samples == frames_of(x, mono)
            &&& opts.correction ==> {
                &&& u.fix is Some && audio_of(u.fix->Some_0) is Ok && cs.len() == 1
                &&& states_samples(cs[0].header.flags, mono, kind, opts, carry.shaping is Some)
                &&& cs[0].header.block_index == block_index && cs[0].header.total_samples == total_samples
                &&& cs[0].header.block_samples == frames_of(x, mono)
                &&& kind is Plain ==> cs[0].header.crc == crc_over(x, CRC_INIT)
            }
            &&& u.carry.shaping is Some == carry.shaping is Some
        }),
{
    lemma_unit(x, mono, kind, opts, carry, block_index, total_samples);
    let s = unit_source(x, mono, kind, opts, carry, block_index, total_samples);
    let u = hybrid_unit(x, mono, kind, opts, carry, block_index, total_samples)->Ok_0;
    assert(audio_of(u.main)->Ok_0 == seq![s.main_read()]);
    reveal(hybrid_unit);
}

/// The integers that a hybrid block codes, and the lossy ones that it decodes to
/// alone, are no longer than the magnitude that it states.
pub proof fn hybrid_magnitudes_hold(s: HybridSource, i: int)
    ensures
        0 <= i < s.x.len() ==> bit_length(magnitude(s.x[i])) <= s.main_read().header.flags.max_magnitude,
        0 <= i < lossy_samples(s.out(), s.mono, s.opts).len() ==> bit_length(
            magnitude(lossy_samples(s.out(), s.mono, s.opts)[i]),
        ) <= s.main_read().header.flags.max_magnitude,
{
    let y = lossy_samples(s.out(), s.mono, s.opts);
    if 0 <= i < s.x.len() {
        lemma_top(s.x, i);
        lemma_short(s.x[i]);
    }
    if 0 <= i < y.len() {
        lemma_top(y, i);
        lemma_short(y[i]);
    }
}

/// Samples that are kept within the range of `n` bytes.
proof fn lemma_kept(y: Seq<i32>, f: Flags, n: u8, i: int)
    requires
        1 <= n <= 4,
        f.bytes_minus_one + 1 == n,
        f.left_shift == 0,
        0 <= i < y.len(),
    ensures
        ({
            let top = pow2((8 * n - 1) as nat);
            let d = clamped_all(y, f)[i];
            &&& 0 < top <= 0x8000_0000
            &&& y[i] < -top ==> d == -top
            &&& -top <= y[i] < top ==> d == y[i]
            &&& y[i] >= top ==> d == top - 1
        }),
{
    lemma2_to64();
    assert(pow2(0) == 1);
    assert(8 * (f.bytes_minus_one + 1) - 1 == 8 * n - 1);
    assert(pow2((8 * n - 1) as nat) <= 0x8000_0000);
}

/// The bytes and the shift that the flags of a plain source state.
proof fn lemma_source_flags(s: HybridSource, n: u8)
    requires
        1 <= n <= 4,
        s.bytes_per_sample == n,
    ensures
        s.flags().bytes_minus_one + 1 == n,
        s.flags().left_shift == 0,
{
}

/// A hybrid block of `n` bytes per sample decoded alone gives the lossy samples
/// kept within the range of `n` bytes: one that lies within it comes out as it
/// is, and so does a sample that was coded exactly.
pub proof fn lossy_samples_keep_their_depth(
    x: Seq<i32>,
    mono: bool,
    n: u8,
    opts: HybridOptions,
    block_index: u32,
    total_samples: u32,
    mute: bool,
    i: int,
)
    requires
        1 <= n <= 4,
        hybrid_single(x, mono, SampleKind::Plain(n), opts, block_index, total_samples) is Ok,
        frames_of(x, mono) <= MAX_DECODE_SAMPLES_PER_BLOCK,
        0 <= i < x.len(),
    ensures
        ({
            let kind = SampleKind::Plain(n);
            let f = hybrid_single(x, mono, kind, opts, block_index, total_samples)->Ok_0;
            let s = unit_source(x, mono, kind, opts, HybridCarry::start(opts, mono), block_index, total_samples);
            let y = lossy_samples(s.out(), mono, opts)[i];
            let d = stream_samples(f.main, mute)->Ok_0.samples[i];
            let top = pow2((8 * n - 1) as nat);
            &&& stream_samples(f.main, mute) is Ok
            &&& lossy_samples(s.out(), mono, opts).len() == x.len()
            &&& y < -top ==> d == -top
            &&& -top <= y < top ==> d == y
            &&& y >= top ==> d == top - 1
            &&& y == x[i] && -top <= x[i] < top ==> d == x[i]
        }),
{
    let kind = SampleKind::Plain(n);
    let carry = HybridCarry::start(opts, mono);
    hybrid_block_lossy(x, mono, kind, opts, block_index, total_samples, mute);
    lemma_unit_lossy(x, mono, kind, opts, carry, block_index, total_samples);
    let s = unit_source(x, mono, kind, opts, carry, block_index, total_samples);
    let y = lossy_samples(s.out(), mono, opts);
    lemma_source_flags(s, n);
    assert(unit_lossy(x, mono, kind, opts, carry) == clamped_all(y, s.flags()));
    lemma_kept(y, s.flags(), n, i);
}

/// The lossy samples of a unit fit its bytes per sample.
proof fn lemma_unit_fits(x: Seq<i32>, mono: bool, n: u8, opts: HybridOptions, carry: HybridCarry)
    requires
        1 <= n <= 4,
    ensures
        fits_bits(unit_lossy(x, mono, SampleKind::Plain(n), opts, carry), (8 * n) as nat),
{
    lemma_unit_lossy(x, mono, SampleKind::Plain(n), opts, carry, 0, 0);
    let s = unit_source(x, mono, SampleKind::Plain(n), opts, carry, 0, 0);
    let y = lossy_samples(s.out(), mono, opts);
    lemma_source_flags(s, n);
    assert forall|i: int| 0 <= i < y.len() implies -pow2((8 * n - 1) as nat) <= #[trigger] clamped_all(y, s.flags())[i]
        < pow2((8 * n - 1) as nat) by {
        lemma_kept(y, s.flags(), n, i);
    }
}

proof fn lemma_lossy_fits(
    x: Seq<i32>,
    step: int,
    mono: bool,
    n: u8,
    opts: HybridOptions,
    total_samples: u32,
    done: HybridProgress,
)
    requires
        1 <= n <= 4,
    ensures
        fits_bits(lossy_from(x, step, mono, SampleKind::Plain(n), opts, total_samples, done), (8 * n) as nat),
    decreases x.len(),
{
    if x.len() > 0 && step > 0 {
        let kind = SampleKind::Plain(n);
        let w = window(x, step);
        lemma_unit_fits(w, mono, n, opts, done.carry);
        if let Ok(u) = hybrid_unit(w, mono, kind, opts, done.carry, done.index as u32, total_samples) {
            let next = progress_with(done, u, frames_of(w, mono));
            lemma_lossy_fits(x.skip(w.len() as int), step, mono, n, opts, total_samples, next);
        }
    }
}

/// The blocks of a hybrid stream, `frames` frames to a block.
pub open spec fn blocks_state(
    bs: Seq<Block>,
    mono: bool,
    kind: SampleKind,
    opts: HybridOptions,
    frames: int,
    total: int,
) -> bool {
    forall|k: int|
        0 <= k < bs.len() ==> {
            let h = #[trigger] bs[k].header;
            &&& states_samples(h.flags, mono, kind, opts, asks_shaping(opts))
            &&& h.block_index == k * frames
            &&& h.total_samples == total
            &&& h.block_samples == (if k + 1 < bs.len() {
                frames
            } else {
                total - k * frames
            })
        }
}

/// The blocks that are done, with `left` frames still to come.
pub open spec fn blocks_so_far(
    bs: Seq<Block>,
    mono: bool,
    kind: SampleKind,
    opts: HybridOptions,
    frames: int,
    total: int,
    left: int,
) -> bool {
    forall|k: int|
        0 <= k < bs.len() ==> {
            let h = #[trigger] bs[k].header;
            &&& states_samples(h.flags, mono, kind, opts, asks_shaping(opts))
            &&& h.block_index == k * frames
            &&& h.total_samples == total
            &&& h.block_samples == (if k + 1 < bs.len() || left > 0 {
                frames
            } else {
                total - k * frames
            })
        }
}

proof fn lemma_headers_from(
    x: Seq<i32>,
    frames: int,
    step: int,
    mono: bool,
    kind: SampleKind,
    opts: HybridOptions,
    total: u32,
    done: HybridProgress,
    bs: Seq<Block>,
)
    requires
        frames > 0,
        step == (if mono {
            frames
        } else {
            2 * frames
        }),
        !mono ==> x.len() % 2 == 0,
        frames_of(window(x, step), mono) <= MAX_DECODE_SAMPLES_PER_BLOCK,
        hybrid_from(x, step, mono, kind, opts, total, done) is Ok,
        audio_of(done.main) == Ok::<Seq<Block>, Error>(bs),
        done.carry.shaping is Some == asks_shaping(opts),
        done.index + frames_of(x, mono) == total,
        x.len() > 0 ==> done.index == bs.len() * frames,
        blocks_so_far(bs, mono, kind, opts, frames, total as int, frames_of(x, mono)),
    ensures
        ({
            let p = hybrid_from(x, step, mono, kind, opts, total, done)->Ok_0;
            &&& audio_of(p.main) is Ok
            &&& blocks_state(audio_of(p.main)->Ok_0, mono, kind, opts, frames, total as int)
        }),
    decreases x.len(),
{
    if x.len() > 0 {
        let w = window(x, step);
        let rest = x.skip(w.len() as int);
        let index = done.index as u32;
        let u = hybrid_unit(w, mono, kind, opts, done.carry, index, total)->Ok_0;
        hybrid_blocks_state_samples(w, mono, kind, opts, done.carry, index, total);
        lemma_audio_of_concat(done.main, u.main);
        let b = audio_of(u.main)->Ok_0[0];
        assert(audio_of(u.main)->Ok_0 =~= seq![b]);
        let more = bs + seq![b];
        assert(bs.len() * frames + frames == (bs.len() + 1) * frames) by (nonlinear_arith);
        assert(bs.len() * frames >= 0) by (nonlinear_arith)
            requires
                frames > 0,
        ;
        assert forall|k: int| 0 <= k < more.len() implies ({
            let h = #[trigger] more[k].header;
            &&& states_samples(h.flags, mono, kind, opts, asks_shaping(opts))
            &&& h.block_index == k * frames
            &&& h.total_samples == total
            &&& h.block_samples == (if k + 1 < more.len() || frames_of(rest, mono) > 0 {
                frames
            } else {
                total - k * frames
            })
        }) by {
            if k < bs.len() {
                assert(more[k] == bs[k]);
                assert(bs[k].header == bs[k].header);
            }
        }
        lemma_headers_from(
            rest,
            frames,
            step,
            mono,
            kind,
            opts,
            total,
            progress_with(done, u, frames_of(w, mono)),
            more,
        );
    }
}

/// The blocks of a hybrid stream say how its samples were given, and stand one
/// behind the other: all have the same number of frames but the last, which
/// has what is left.
pub proof fn hybrid_streams_state_samples(
    x: Seq<i32>,
    block_samples: usize,
    mono: bool,
    kind: SampleKind,
    opts: HybridOptions,
)
    requires
        hybrid_files(x, block_samples, mono, kind, opts) is Ok,
        blocks_small(x, block_samples, mono),
    ensures
        ({
            let f = hybrid_files(x, block_samples, mono, kind, opts)->Ok_0;
            &&& audio_of(f.main) is Ok
            &&& blocks_state(
                audio_of(f.main)->Ok_0,
                mono,
                kind,
                opts,
                block_frames(block_samples) as int,
                frames_of(x, mono),
            )
        }),
{
    let none = Seq::<Block>::empty();
    assert(blocks_of(Seq::<u8>::empty()) == Ok::<Seq<Block>, Error>(none));
    assert(crate::stream::audio_only(none) =~= none);
    lemma_headers_from(
        x,
        block_frames(block_samples) as int,
        block_step(block_samples, mono),
        mono,
        kind,
        opts,
        frames_of(x, mono) as u32,
        progress_start(opts, mono),
        none,
    );
}

/// A hybrid stream of `n` bytes per sample decoded alone gives samples that fit
/// in `n` bytes.
pub proof fn lossy_streams_keep_their_depth(
    x: Seq<i32>,
    block_samples: usize,
    mono: bool,
    n: u8,
    opts: HybridOptions,
    mute: bool,
)
    requires
        1 <= n <= 4,
        hybrid_files(x, block_samples, mono, SampleKind::Plain(n), opts) is Ok,
        blocks_small(x, block_samples, mono),
    ensures
        ({
            let f = hybrid_files(x, block_samples, mono, SampleKind::Plain(n), opts)->Ok_0;
            &&& stream_samples(f.main, mute) is Ok
            &&& fits_bits(stream_samples(f.main, mute)->Ok_0.samples, (8 * n) as nat)
        }),
{
    hybrid_main_decodes(x, block_samples, mono, SampleKind::Plain(n), opts, mute);
    lemma_lossy_fits(
        x,
        block_step(block_samples, mono),
        mono,
        n,
        opts,
        frames_of(x, mono) as u32,
        progress_start(opts, mono),
    );
}

} // verus!
