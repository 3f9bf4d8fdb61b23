//! What decoding a stream makes of checks, corrections and blocks without
//! samples.
use vstd::prelude::*;
use vstd::arithmetic::power2::{lemma2_to64, lemma_pow2_adds, lemma_pow2_pos, lemma_pow2_strictly_increases, pow2};
use crate::arith::{lemma_wrap32, shifted};
use crate::block::{Block, Decoded, MAX_DECODE_SAMPLES_PER_BLOCK, clamp_high, clamp_low, clamped, clamped_all, decode_block, decode_pair, heard, passes_in, rate_of, some_cross};
use crate::block_header::{Flags, WavPackBlockHeader};
use crate::block_law::lemma_shift_none;
use crate::crc::{CRC_INIT, crc_over};
use crate::decorrelation::cross;
use crate::error::Error;
use crate::fixup::shifted_all;
use crate::metadata::{SubBlockId, payload_in};
use crate::stream::{Paired, audio_of, audio_only, corrected_samples, decoded_blocks, first_rate, paired_blocks, paired_step, stream_samples};
use crate::stream_law::lemma_audio_of_concat;

verus! {

/// All samples are zero.
pub open spec fn silent(x: Seq<i32>) -> bool {
    forall|i: int| 0 <= i < x.len() ==> #[trigger] x[i] == 0
}

/// A block adds its samples behind those before it. Muted, a block whose check
/// fails adds as many zeros, and all others what they add unmuted.
pub proof fn muting_silences_failed_blocks(bs: Seq<Block>, b: Block)
    requires
        decoded_blocks(bs, false) is Ok,
        decode_block(b) is Ok,
    ensures
        ({
            let d = decode_block(b)->Ok_0;
            let plain = decoded_blocks(bs.push(b), false)->Ok_0;
            let muted = decoded_blocks(bs.push(b), true)->Ok_0;
            let n = decoded_blocks(bs, true)->Ok_0.samples.len() as int;
            &&& decoded_blocks(bs, true) is Ok
            &&& decoded_blocks(bs.push(b), false) is Ok && decoded_blocks(bs.push(b), true) is Ok
            &&& plain.samples == decoded_blocks(bs, false)->Ok_0.samples + d.samples
            &&& muted.samples.len() == plain.samples.len() == n + d.samples.len()
            &&& muted.samples.take(n) == decoded_blocks(bs, true)->Ok_0.samples
            &&& d.ok ==> muted.samples.skip(n) == d.samples
            &&& !d.ok ==> silent(muted.samples.skip(n))
            &&& plain.ok == muted.ok
            &&& plain.ok == (decoded_blocks(bs, false)->Ok_0.ok && d.ok)
            &&& plain.ok ==> muted.samples == plain.samples
        }),
    decreases bs.len(),
{
    let d = decode_block(b)->Ok_0;
    assert(bs.push(b).drop_last() =~= bs);
    if bs.len() > 0 {
        let most = bs.drop_last();
        assert(most.push(bs.last()) =~= bs);
        muting_silences_failed_blocks(most, bs.last());
    }
    let muted = decoded_blocks(bs.push(b), true)->Ok_0;
    let before = decoded_blocks(bs, true)->Ok_0;
    let n = before.samples.len() as int;
    assert(muted.samples.take(n) =~= before.samples);
    assert(muted.samples.skip(n) =~= heard(d));
}

/// A stream passes its checks just where every block does.
pub proof fn streams_pass_where_every_block_does(bs: Seq<Block>, mute: bool)
    requires
        decoded_blocks(bs, mute) is Ok,
    ensures
        forall|k: int| 0 <= k < bs.len() ==> decode_block(#[trigger] bs[k]) is Ok,
        decoded_blocks(bs, mute)->Ok_0.ok <==> (forall|k: int|
            0 <= k < bs.len() ==> decode_block(#[trigger] bs[k])->Ok_0.ok),
    decreases bs.len(),
{
    if bs.len() > 0 {
        let most = bs.drop_last();
        streams_pass_where_every_block_does(most, mute);
        assert forall|k: int| 0 <= k < bs.len() implies decode_block(#[trigger] bs[k]) is Ok by {
            if k < most.len() {
                assert(most[k] == bs[k]);
            }
        }
        if decoded_blocks(bs, mute)->Ok_0.ok {
            assert forall|k: int| 0 <= k < bs.len() implies decode_block(#[trigger] bs[k])->Ok_0.ok by {
                if k < most.len() {
                    assert(most[k] == bs[k]);
                }
            }
        }
        if forall|k: int| 0 <= k < bs.len() ==> decode_block(#[trigger] bs[k])->Ok_0.ok {
            assert forall|k: int| 0 <= k < most.len() implies decode_block(#[trigger] most[k])->Ok_0.ok by {
                assert(most[k] == bs[k]);
            }
            assert(decode_block(bs[bs.len() - 1])->Ok_0.ok);
        }
    }
}

/// The same block with another check.
pub open spec fn with_check(b: Block, crc: u32) -> Block {
    Block { header: WavPackBlockHeader { crc, ..b.header }, subs: b.subs }
}

/// The check of a block changes none of its samples, and only one check is
/// right. That of plain integers without a shift is the check over the samples
/// that come out.
pub proof fn checks_change_no_sample(b: Block, crc: u32)
    requires
        decode_block(b) is Ok,
    ensures
        ({
            let d = decode_block(b)->Ok_0;
            let e = decode_block(with_check(b, crc))->Ok_0;
            let f = b.header.flags;
            &&& decode_block(with_check(b, crc)) is Ok
            &&& e.samples == d.samples
            &&& d.ok && e.ok ==> crc == b.header.crc
            &&& !f.hybrid && !f.float_data && !f.int32_mode && f.left_shift == 0 && !f.false_stereo ==> (d.ok
                <==> b.header.crc == crc_over(d.samples, CRC_INIT))
        }),
{
    reveal(decode_block);
    let shape = crate::hybrid::ShapingState::seeded(None, !b.header.flags.one_stream());
    let x = crate::block::coded_samples(b, None, shape)->Ok_0.lossy;
    assert(crate::block::coded_samples(with_check(b, crc), None, shape) == crate::block::coded_samples(b, None, shape));
    lemma_shift_none(x);
    lemma_shift_none(crate::block::undo_joint(x));
}

/// The same block as one channel.
pub open spec fn as_mono(b: Block) -> Block {
    let flags = Flags { mono: true, false_stereo: false, ..b.header.flags };
    Block { header: WavPackBlockHeader { flags, ..b.header }, subs: b.subs }
}

/// A false stereo block gives every sample of its one channel to both channels, and
/// passes its check where that channel does.
pub proof fn false_stereo_doubles(b: Block, i: int)
    requires
        decode_block(b) is Ok,
        !b.header.flags.mono,
        b.header.flags.false_stereo,
        0 <= i,
        2 * i + 1 < decode_block(b)->Ok_0.samples.len(),
    ensures
        ({
            let d = decode_block(b)->Ok_0;
            let one = decode_block(as_mono(b))->Ok_0;
            &&& decode_block(as_mono(b)) is Ok
            &&& d.samples.len() == 2 * one.samples.len()
            &&& d.samples[2 * i] == one.samples[i]
            &&& d.samples[2 * i + 1] == one.samples[i]
            &&& d.ok == one.ok
        }),
{
    reveal(decode_block);
    let c = as_mono(b);
    let shape = crate::hybrid::ShapingState::seeded(None, false);
    assert(crate::block::coded_samples(c, None, shape) == crate::block::coded_samples(b, None, shape));
    let x = crate::block::coded_samples(b, None, shape)->Ok_0.lossy;
    let ext = payload_in(b.subs, SubBlockId::PackedOverflowBits);
    let lossy = b.header.flags.hybrid;
    assert(crate::block::restored_format(x, c.header.flags, c.subs, ext, lossy) == crate::block::restored_format(
        x,
        b.header.flags,
        b.subs,
        ext,
        lossy,
    ));
}

proof fn lemma_no_partners(bs: Seq<Block>, cs: Seq<Block>, mute: bool)
    requires
        cs.len() == 0 || (forall|k: int| 0 <= k < bs.len() ==> !(#[trigger] bs[k]).header.flags.hybrid),
    ensures
        decoded_blocks(bs, mute) is Ok ==> paired_blocks(bs, cs, mute) == Ok::<Paired, Error>(
            Paired { decoded: decoded_blocks(bs, mute)->Ok_0, used: 0 },
        ),
        decoded_blocks(bs, mute) is Err ==> paired_blocks(bs, cs, mute) == Err::<Paired, Error>(
            decoded_blocks(bs, mute)->Err_0,
        ),
    decreases bs.len(),
{
    if bs.len() > 0 {
        let most = bs.drop_last();
        if cs.len() > 0 {
            assert forall|k: int| 0 <= k < most.len() implies !(#[trigger] most[k]).header.flags.hybrid by {
                assert(most[k] == bs[k]);
            }
            assert(!bs[bs.len() - 1].header.flags.hybrid);
        }
        lemma_no_partners(most, cs, mute);
    }
}

/// Without a correction block a stream decodes with its correction stream as it
/// does alone. A lossless stream takes no correction block: one that is there is
/// left over.
pub proof fn corrections_are_for_hybrid_blocks(main: Seq<u8>, fix: Seq<u8>, mute: bool)
    requires
        audio_of(main) is Ok,
        audio_of(fix) is Ok,
    ensures
        audio_of(fix)->Ok_0.len() == 0 ==> corrected_samples(main, fix, mute) == stream_samples(main, mute),
        audio_of(fix)->Ok_0.len() > 0 && stream_samples(main, mute) is Ok && (forall|k: int|
            0 <= k < audio_of(main)->Ok_0.len() ==> !(#[trigger] audio_of(main)->Ok_0[k]).header.flags.hybrid)
            ==> corrected_samples(main, fix, mute) == Err::<Decoded, Error>(
            Error::CorrectionBlockSurplus(audio_of(fix)->Ok_0[0].header.block_index),
        ),
{
    let bs = audio_of(main)->Ok_0;
    let cs = audio_of(fix)->Ok_0;
    if cs.len() == 0 || (forall|k: int| 0 <= k < bs.len() ==> !(#[trigger] bs[k]).header.flags.hybrid) {
        lemma_no_partners(bs, cs, mute);
    }
}

/// A hybrid block is decoded with the next correction block where that starts no
/// later than itself, and alone otherwise; a pair has to start at one frame, to
/// be equally long and to have the same channels.
pub proof fn pairs_match(b: Block, cs: Seq<Block>, used: nat)
    requires
        b.header.flags.hybrid,
        used < cs.len(),
    ensures
        ({
            let c = cs[used as int];
            let r = paired_step(b, cs, used);
            &&& c.header.block_index > b.header.block_index ==> (match decode_block(b) {
                Ok(d) => r == Ok::<(Decoded, nat), Error>((d, used)),
                Err(e) => r == Err::<(Decoded, nat), Error>(e),
            })
            &&& c.header.block_index < b.header.block_index ==> r == Err::<(Decoded, nat), Error>(
                Error::CorrectionIndexMismatch { main: b.header.block_index, correction: c.header.block_index },
            )
            &&& c.header.block_index == b.header.block_index && c.header.block_samples != b.header.block_samples ==> r is Err
            &&& c.header.block_index == b.header.block_index && c.header.flags.mono != b.header.flags.mono ==> r is Err
            &&& c.header.block_index == b.header.block_index && c.header.block_samples == b.header.block_samples
                && c.header.flags.mono == b.header.flags.mono ==> (match decode_pair(b, c) {
                Ok(d) => r == Ok::<(Decoded, nat), Error>((d, used + 1)),
                Err(e) => r == Err::<(Decoded, nat), Error>(e),
            })
        }),
{
}

/// Blocks without samples in front of a stream, or behind it, change nothing of
/// what is heard.
pub proof fn blocks_without_samples_are_skipped(a: Seq<u8>, b: Seq<u8>, mute: bool)
    requires
        audio_of(a) is Ok,
        audio_of(a)->Ok_0.len() == 0,
        audio_of(b) is Ok,
    ensures
        stream_samples(a + b, mute) == stream_samples(b, mute),
        stream_samples(b + a, mute) == stream_samples(b, mute),
{
    let none = audio_of(a)->Ok_0;
    let bs = audio_of(b)->Ok_0;
    lemma_audio_of_concat(a, b);
    lemma_audio_of_concat(b, a);
    assert(none + bs =~= bs);
    assert(bs + none =~= bs);
}

/// Which blocks hold audio: those with samples, in their order.
pub proof fn audio_blocks_have_samples(bs: Seq<Block>)
    ensures
        audio_only(bs) == bs.filter(|b: Block| b.header.block_samples != 0),
    decreases bs.len(),
{
    reveal(Seq::filter);
    if bs.len() > 0 {
        audio_blocks_have_samples(bs.drop_last());
    }
}

/// The rate of a stream is that of its first block that states one.
pub proof fn the_first_stated_rate_counts(bs: Seq<Block>, k: int, rate: u32)
    requires
        0 <= k < bs.len(),
        forall|i: int| 0 <= i < k ==> rate_of(#[trigger] bs[i]) == Ok::<Option<u32>, Error>(None),
        rate_of(bs[k]) == Ok::<Option<u32>, Error>(Some(rate)),
    ensures
        first_rate(bs) == Ok::<Option<u32>, Error>(Some(rate)),
    decreases k,
{
    if k > 0 {
        let rest = bs.skip(1);
        assert(rate_of(bs[0]) == Ok::<Option<u32>, Error>(None));
        assert forall|i: int| 0 <= i < k - 1 implies rate_of(#[trigger] rest[i]) == Ok::<Option<u32>, Error>(None) by {
            assert(rest[i] == bs[i + 1]);
        }
        the_first_stated_rate_counts(rest, k - 1, rate);
    }
}

/// The integers of a hybrid block that is decoded alone stay within the range of
/// its bytes per sample, whatever its shift.
pub proof fn lossy_blocks_stay_in_range(b: Block, i: int)
    requires
        decode_block(b) is Ok,
        b.header.flags.hybrid,
        !b.header.flags.float_data,
        !b.header.flags.int32_mode,
        b.header.flags.bytes_minus_one < 4,
        b.header.flags.left_shift < 8 * (b.header.flags.bytes_minus_one + 1),
        0 <= i < decode_block(b)->Ok_0.samples.len(),
    ensures
        ({
            let top = pow2((8 * (b.header.flags.bytes_minus_one + 1) - 1) as nat);
            -top <= decode_block(b)->Ok_0.samples[i] < top
        }),
{
    reveal(decode_block);
    let f = b.header.flags;
    let shape = crate::hybrid::ShapingState::seeded(None, !f.one_stream());
    let x = crate::block::coded_samples(b, None, shape)->Ok_0.lossy;
    let y = if crate::block::layout_of(f).joint {
        crate::block::undo_joint(x)
    } else {
        x
    };
    let z = shifted_all(clamped_all(y, f), f.left_shift as nat);
    assert forall|k: int| 0 <= k < z.len() implies -pow2((8 * (f.bytes_minus_one + 1) - 1) as nat) <= #[trigger] z[k]
        < pow2((8 * (f.bytes_minus_one + 1) - 1) as nat) by {
        lemma_clamped_fits(y[k], (8 * (f.bytes_minus_one + 1)) as nat, f.left_shift as nat);
    }
}

proof fn lemma_clamped_fits(v: i32, bits: nat, shift: nat)
    requires
        8 <= bits <= 32,
        shift < bits,
    ensures
        ({
            let c = clamped(v, clamp_low(bits, shift), clamp_high(bits, shift));
            -pow2((bits - 1) as nat) <= shifted(c, shift) < pow2((bits - 1) as nat)
        }),
{
    let s = pow2(shift) as int;
    let t = pow2((bits - 1 - shift) as nat) as int;
    let top = pow2((bits - 1) as nat) as int;
    lemma2_to64();
    lemma_pow2_pos(shift);
    lemma_pow2_pos((bits - 1 - shift) as nat);
    lemma_pow2_adds((bits - 1 - shift) as nat, shift);
    if bits < 32 {
        lemma_pow2_strictly_increases((bits - 1) as nat, 31);
    }
    assert(top == t * s);
    let low = clamp_low(bits, shift);
    let high = clamp_high(bits, shift);
    assert(low == -t) by {
        assert(-top == s * (-t) + 0) by (nonlinear_arith)
            requires
                top == t * s,
        ;
        vstd::arithmetic::div_mod::lemma_fundamental_div_mod_converse(-top, s, -t, 0);
    }
    assert(high == t - 1) by {
        assert(top - 1 == s * (t - 1) + (s - 1)) by (nonlinear_arith)
            requires
                top == t * s,
        ;
        vstd::arithmetic::div_mod::lemma_fundamental_div_mod_converse(top - 1, s, t - 1, s - 1);
    }
    assert(t <= top) by (nonlinear_arith)
        requires
            top == t * s,
            s >= 1,
            t >= 1,
    ;
    let c = clamped(v, low, high);
    assert(-t <= c <= t - 1);
    assert(-top <= c * s <= top - s) by (nonlinear_arith)
        requires
            -t <= c <= t - 1,
            top == t * s,
            s >= 1,
    ;
    vstd::arithmetic::div_mod::lemma_small_mod(shift, 32);
    lemma_wrap32(c * s, 0);
}

/// A block decodes only where it has samples, and no more than a block may have, and
/// holds medians and packed words. A hybrid block needs its profile as well, and
/// runs no passes across channels.
pub proof fn blocks_need_their_parts(b: Block)
    ensures
        ({
            let h = b.header;
            let medians = payload_in(b.subs, SubBlockId::EntropyInfo);
            let words = payload_in(b.subs, SubBlockId::PackedSamples);
            let fits = 0 < h.block_samples <= MAX_DECODE_SAMPLES_PER_BLOCK;
            &&& h.block_samples == 0 ==> decode_block(b) == Err::<Decoded, Error>(Error::BlockHasNoAudio)
            &&& h.block_samples > MAX_DECODE_SAMPLES_PER_BLOCK ==> decode_block(b) == Err::<Decoded, Error>(
                Error::BlockSamplesTooLarge(h.block_samples),
            )
            &&& fits && medians is None ==> decode_block(b) == Err::<Decoded, Error>(Error::BlockMissingEntropyInfo)
            &&& fits && medians is Some && words is None ==> decode_block(b) == Err::<Decoded, Error>(
                Error::BlockMissingPackedSamples,
            )
            &&& decode_block(b) is Ok && h.flags.hybrid ==> {
                let ps = passes_in(b.subs, !h.flags.one_stream());
                &&& payload_in(b.subs, SubBlockId::HybridProfile) is Some
                &&& ps is Ok
                &&& forall|i: int| 0 <= i < ps->Ok_0.len() ==> (#[trigger] ps->Ok_0[i]).term >= 0
            }
        }),
{
    reveal(decode_block);
    if decode_block(b) is Ok && b.header.flags.hybrid {
        let ps = passes_in(b.subs, !b.header.flags.one_stream())->Ok_0;
        assert(!some_cross(ps));
        assert forall|i: int| 0 <= i < ps.len() implies (#[trigger] ps[i]).term >= 0 by {
            if cross(ps[i].term) {
                assert(some_cross(ps));
            }
        }
    }
}

} // verus!
