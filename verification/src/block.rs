//! Blocks and streams of blocks: reading them and decoding their samples.
use vstd::prelude::*;
use vstd::arithmetic::power2::{pow2, lemma_pow2_pos, lemma_pow2_strictly_increases, lemma2_to64};
use crate::arith::{floor_shr, get_le32, pow2_u64, read_le32, shifted, shl32};
use crate::bits::{BitReader, byte_bits};
use crate::block_header::{Flags, WavPackBlockHeader, flags_of, header_of, parse_block_header};
use crate::crc::{CRC_INIT, crc_mono, crc_over, extension_over, left_right, undo_joint_stereo};
use crate::decorrelation::{DecorrPass, PassState, cross, decode_mono_all, decode_stereo_all, decorrelate_mono, decorrelate_stereo, mono_ready, no_history, states};
use crate::error::{Error, Result, UnsupportedBlockFeature};
use crate::fixup::{apply_left_shift_buffer, shifted_all};
use crate::float::{FloatInfo, expand_float_info, float_crc_over, float_info_of, reassemble_float, reassemble_float_implied, restore_floats, signed_all};
use crate::hybrid::{HybridState, ShapingState, expand_hybrid_profile, payload_word};
use crate::hybrid_stream::{HybridMachine, HybridSamples, hybrid_decode, hybrid_start, samples_match};
use crate::hybrid_words::{HybridIn, Layout, decode_hybrid};
use crate::int32::{Int32Info, expand_int32_info, extension_bits, int32_info_of, reassemble_int32, restore_int32, words_of};
use crate::logpack::{exp_of, expand_log_word, word_of};
use crate::metadata::{MetadataSubBlock, Sub, SubBlockId, find_first, first_of, found, is_earliest, parse_non_standard_sample_rate, payload_in, rate_in, subs_of, subs_wf, walk, walk_metadata};
use crate::packed_samples::{Coder, decode_packed_samples, decode_words, samples_of, samples_only, silence};
use crate::passes::{assemble_passes, passes_of, ready, states_of};
use crate::samples::AdaptiveMedians;

verus! {

/// The most samples per channel that one block is decoded to.
pub const MAX_DECODE_SAMPLES_PER_BLOCK: u32 = 0x0100_0000;

// ---------------------------------------------------------------------------
// Blocks
// ---------------------------------------------------------------------------

/// A block as a value.
#[verifier::ext_equal]
pub struct Block {
    /// The header.
    pub header: WavPackBlockHeader,
    /// The sub-blocks.
    pub subs: Seq<Sub>,
}

/// The first block of a stream and the bytes after it.
pub open spec fn block_of(bytes: Seq<u8>) -> core::result::Result<(Block, Seq<u8>), Error> {
    match header_of(bytes) {
        Err(e) => Err(e),
        Ok(header) => if bytes.len() < header.block_len() {
            Err(Error::CkSizeExceedsBuffer { ck_size: header.ck_size, available: bytes.len() as usize })
        } else {
            match walk(bytes.subrange(32, header.block_len())) {
                Err(e) => Err(e),
                Ok(subs) => Ok((Block { header, subs }, bytes.skip(header.block_len()))),
            }
        },
    }
}

/// One block.
#[derive(Debug, Clone, PartialEq, Eq)]
pub struct WavPackBlock<'a> {
    /// The header.
    pub header: WavPackBlockHeader,
    /// The sub-blocks.
    pub sub_blocks: Vec<MetadataSubBlock<'a>>,
}

impl<'a> View for WavPackBlock<'a> {
    type V = Block;

    open spec fn view(&self) -> Block {
        Block { header: self.header, subs: subs_of(self.sub_blocks@) }
    }
}

impl<'a> WavPackBlock<'a> {
    /// The flags are those of their word.
    pub open spec fn wf(&self) -> bool {
        self.header.flags == flags_of(self.header.flags.raw)
    }
}

/// Reads the first block of a stream; gives it and the bytes after it.
pub fn parse_block<'a>(bytes: &'a [u8]) -> (r: Result<(WavPackBlock<'a>, &'a [u8])>)
    ensures
        match block_of(bytes@) {
            Err(e) => r is Err && r->Err_0 == e,
            Ok((b, rest)) => r is Ok && r->Ok_0.0@ == b && r->Ok_0.0.wf() && r->Ok_0.1@ == rest && subs_wf(
                r->Ok_0.0.sub_blocks@,
            ),
        },
        r is Ok ==> r->Ok_0.1@.len() < bytes@.len(),
{
    let (header, rest) = match parse_block_header(bytes) {
        Err(e) => {
            return Err(e);
        }
        Ok(p) => p,
    };
    proof {
        reveal(flags_of);
    }
    let need: u64 = 8 + header.ck_size as u64;
    if (bytes.len() as u64) < need {
        return Err(Error::CkSizeExceedsBuffer { ck_size: header.ck_size, available: bytes.len() });
    }
    let total: usize = need as usize;
    let region = &bytes[32..total];
    assert(region@ =~= bytes@.subrange(32, header.block_len()));
    match walk_metadata(region) {
        Err(e) => Err(e),
        Ok(sub_blocks) => {
            let tail = &bytes[total..bytes.len()];
            assert(tail@ =~= bytes@.skip(header.block_len()));
            Ok((WavPackBlock { header, sub_blocks }, tail))
        }
    }
}

/// The blocks of a stream.
pub open spec fn blocks_of(bytes: Seq<u8>) -> core::result::Result<Seq<Block>, Error>
    decreases bytes.len(),
{
    if bytes.len() == 0 {
        Ok(Seq::empty())
    } else {
        match block_of(bytes) {
            Err(e) => Err(e),
            Ok((b, rest)) => if rest.len() < bytes.len() {
                match blocks_of(rest) {
                    Err(e) => Err(e),
                    Ok(more) => Ok(seq![b] + more),
                }
            } else {
                Err(Error::Truncated)
            },
        }
    }
}

/// The values of a list of blocks.
pub open spec fn block_views(bs: Seq<WavPackBlock<'_>>) -> Seq<Block> {
    Seq::new(bs.len(), |i: int| bs[i]@)
}

/// Every block of the list is well formed.
pub open spec fn blocks_wf(bs: Seq<WavPackBlock<'_>>) -> bool {
    forall|i: int| 0 <= i < bs.len() ==> (#[trigger] bs[i]).wf()
}

/// Every sub-block of every block of the list is well formed.
pub open spec fn block_subs_wf(bs: Seq<WavPackBlock<'_>>) -> bool {
    forall|i: int| 0 <= i < bs.len() ==> subs_wf((#[trigger] bs[i]).sub_blocks@)
}

/// Reads every block of a stream.
pub fn parse_blocks<'a>(bytes: &'a [u8]) -> (r: Result<Vec<WavPackBlock<'a>>>)
    ensures
        match blocks_of(bytes@) {
            Err(e) => r is Err && r->Err_0 == e,
            Ok(bs) => r is Ok && block_views(r->Ok_0@) == bs && blocks_wf(r->Ok_0@) && block_subs_wf(r->Ok_0@),
        },
{
    let mut out: Vec<WavPackBlock<'a>> = Vec::new();
    let mut rest = bytes;
    let ghost whole = blocks_of(bytes@);
    proof {
        if whole is Ok {
            assert(block_views(out@) + whole->Ok_0 =~= whole->Ok_0);
        }
    }
    while rest.len() > 0
        invariant
            whole == blocks_of(bytes@),
            blocks_wf(out@),
            block_subs_wf(out@),
            match blocks_of(rest@) {
                Err(e) => whole == Err::<Seq<Block>, Error>(e),
                Ok(bs) => whole == Ok::<Seq<Block>, Error>(block_views(out@) + bs),
            },
        decreases rest.len(),
    {
        match parse_block(rest) {
            Err(e) => {
                return Err(e);
            }
            Ok((b, tail)) => {
                let ghost before = block_views(out@);
                let ghost one = b@;
                out.push(b);
                rest = tail;
                proof {
                    assert(block_views(out@) =~= before.push(one));
                    let later = blocks_of(rest@);
                    if later is Ok {
                        assert(before + (seq![one] + later->Ok_0) =~= block_views(out@) + later->Ok_0);
                    }
                }
            }
        }
    }
    assert(block_views(out@) + Seq::empty() =~= block_views(out@));
    Ok(out)
}

// ---------------------------------------------------------------------------
// What a block's payloads say
// ---------------------------------------------------------------------------

/// The median at word `i` of an entropy payload.
pub open spec fn median_at(payload: Seq<u8>, i: int) -> i32 {
    exp_of(word_of(payload[2 * i], payload[2 * i + 1]))
}

/// The medians in the three words from word `i` on; none where one is negative.
pub open spec fn medians_at(payload: Seq<u8>, i: int) -> Option<AdaptiveMedians> {
    let a = median_at(payload, i);
    let b = median_at(payload, i + 1);
    let c = median_at(payload, i + 2);
    if a >= 0 && b >= 0 && c >= 0 {
        Some(AdaptiveMedians { m0: a as u32, m1: b as u32, m2: c as u32 })
    } else {
        None
    }
}

/// All medians zero.
pub open spec fn zero_medians() -> AdaptiveMedians {
    AdaptiveMedians { m0: 0, m1: 0, m2: 0 }
}

/// The medians that a block starts from. A stereo block needs two sets; the
/// payload's length tells how many there are.
pub open spec fn medians_of(payload: Seq<u8>, stereo: bool) -> core::result::Result<
    (AdaptiveMedians, AdaptiveMedians),
    Error,
> {
    if payload.len() != 6 && payload.len() != 12 {
        Err(Error::EntropyInfoLength(payload.len() as usize))
    } else if !stereo {
        match medians_at(payload, 0) {
            None => Err(Error::InvalidEntropyInfoForMono),
            Some(a) => Ok((a, zero_medians())),
        }
    } else if payload.len() == 6 {
        Err(Error::InvalidEntropyInfoForStereo)
    } else {
        match (medians_at(payload, 0), medians_at(payload, 3)) {
            (Some(a), Some(b)) => Ok((a, b)),
            _ => Err(Error::InvalidEntropyInfoForStereo),
        }
    }
}

fn read_medians(payload: &[u8], i: usize) -> (r: Option<AdaptiveMedians>)
    requires
        2 * i + 6 <= payload.len(),
        i < 100,
    ensures
        r == medians_at(payload@, i as int),
{
    AdaptiveMedians::from_seed_values(
        [
            expand_log_word(payload[2 * i], payload[2 * i + 1]),
            expand_log_word(payload[2 * i + 2], payload[2 * i + 3]),
            expand_log_word(payload[2 * i + 4], payload[2 * i + 5]),
        ],
    )
}

fn take_medians(payload: &[u8], stereo: bool) -> (r: Result<(AdaptiveMedians, AdaptiveMedians)>)
    ensures
        r == medians_of(payload@, stereo),
{
    if payload.len() != 6 && payload.len() != 12 {
        return Err(Error::EntropyInfoLength(payload.len()));
    }
    if !stereo {
        return match read_medians(payload, 0) {
            None => Err(Error::InvalidEntropyInfoForMono),
            Some(a) => Ok((a, AdaptiveMedians { m0: 0, m1: 0, m2: 0 })),
        };
    }
    if payload.len() == 6 {
        return Err(Error::InvalidEntropyInfoForStereo);
    }
    match (read_medians(payload, 0), read_medians(payload, 3)) {
        (Some(a), Some(b)) => Ok((a, b)),
        _ => Err(Error::InvalidEntropyInfoForStereo),
    }
}

/// The payload of a sub-block, or nothing where it is missing.
pub open spec fn payload_or_empty(subs: Seq<Sub>, id: SubBlockId) -> Seq<u8> {
    match payload_in(subs, id) {
        Some(p) => p,
        None => Seq::empty(),
    }
}

/// The passes that a block's payloads describe.
pub open spec fn passes_in(subs: Seq<Sub>, stereo: bool) -> core::result::Result<Seq<PassState>, Error> {
    match payload_in(subs, SubBlockId::DecorrelationTerms) {
        None => if payload_in(subs, SubBlockId::DecorrelationWeights) is Some || payload_in(
            subs,
            SubBlockId::DecorrelationSamples,
        ) is Some {
            Err(Error::DecorrelationTermsMissing)
        } else {
            Ok(Seq::empty())
        },
        Some(terms) => passes_of(
            terms,
            payload_or_empty(subs, SubBlockId::DecorrelationWeights),
            payload_or_empty(subs, SubBlockId::DecorrelationSamples),
            stereo,
        ),
    }
}

fn find_payload<'a>(subs: &[MetadataSubBlock<'a>], id: SubBlockId) -> (r: Option<&'a [u8]>)
    ensures
        (match r {
            Some(p) => Some(p@),
            None => None,
        }) == payload_in(subs_of(subs@), id),
{
    match find_first(subs, id) {
        Some(s) => Some(s.payload),
        None => None,
    }
}

fn find_payload_or_empty<'a>(subs: &[MetadataSubBlock<'a>], id: SubBlockId) -> (r: &'a [u8])
    ensures
        r@ == payload_or_empty(subs_of(subs@), id),
{
    match find_payload(subs, id) {
        Some(p) => p,
        None => {
            let none: &'a [u8] = &[];
            assert(none@ =~= Seq::empty());
            none
        }
    }
}

fn find_passes(subs: &[MetadataSubBlock<'_>], stereo: bool) -> (r: Result<Vec<DecorrPass>>)
    ensures
        states_of(r) == passes_in(subs_of(subs@), stereo),
        r is Ok ==> ready(states(r->Ok_0@), stereo),
{
    match find_payload(subs, SubBlockId::DecorrelationTerms) {
        None => {
            if find_payload(subs, SubBlockId::DecorrelationWeights).is_some() || find_payload(
                subs,
                SubBlockId::DecorrelationSamples,
            ).is_some() {
                return Err(Error::DecorrelationTermsMissing);
            }
            let none: Vec<DecorrPass> = Vec::new();
            assert(states(none@) =~= Seq::empty());
            Ok(none)
        }
        Some(terms) => {
            let weights = find_payload_or_empty(subs, SubBlockId::DecorrelationWeights);
            let samples = find_payload_or_empty(subs, SubBlockId::DecorrelationSamples);
            assemble_passes(terms, weights, samples, stereo)
        }
    }
}

// ---------------------------------------------------------------------------
// Joint stereo over buffers
// ---------------------------------------------------------------------------

/// Every pair of a mid/side buffer as left and right.
pub open spec fn undo_joint(x: Seq<i32>) -> Seq<i32> {
    Seq::new(
        x.len(),
        |i: int|
            if i % 2 == 0 {
                left_right(x[i], x[i + 1]).0
            } else {
                left_right(x[i - 1], x[i]).1
            },
    )
}

/// Turns mid/side pairs into left and right, in place.
pub fn undo_joint_buffer(x: &mut [i32])
    requires
        old(x)@.len() % 2 == 0,
    ensures
        final(x)@ == undo_joint(old(x)@),
{
    let mut i: usize = 0;
    while i < x.len()
        invariant
            i <= x.len(),
            i % 2 == 0,
            x@.len() == old(x)@.len(),
            x@.len() % 2 == 0,
            forall|k: int| 0 <= k < i ==> x@[k] == undo_joint(old(x)@)[k],
            forall|k: int| i <= k < x@.len() ==> x@[k] == old(x)@[k],
        decreases x.len() - i,
    {
        let pair: (i32, i32) = undo_joint_stereo(x[i], x[i + 1]);
        x[i] = pair.0;
        x[i + 1] = pair.1;
        i = i + 2;
    }
    assert(x@ =~= undo_joint(old(x)@));
}

/// Every sample twice.
pub open spec fn doubled(x: Seq<i32>) -> Seq<i32> {
    Seq::new(2 * x.len(), |i: int| x[i / 2])
}

fn double_buffer(x: Vec<i32>) -> (r: Vec<i32>)
    ensures
        r@ == doubled(x@),
{
    let mut out: Vec<i32> = Vec::new();
    let mut i: usize = 0;
    while i < x.len()
        invariant
            i <= x.len(),
            out@.len() == 2 * i,
            forall|k: int| 0 <= k < 2 * i ==> out@[k] == x@[k / 2],
        decreases x.len() - i,
    {
        out.push(x[i]);
        out.push(x[i]);
        i = i + 1;
    }
    assert(out@ =~= doubled(x@));
    out
}

// ---------------------------------------------------------------------------
// Restoring the sample format
// ---------------------------------------------------------------------------

/// A decoded block: its samples, and whether its checks hold.
#[verifier::ext_equal]
pub struct Decoded {
    /// The samples, interleaved.
    pub samples: Seq<i32>,
    /// Whether every stored check matches.
    pub ok: bool,
}

/// A literal payload must hold its check.
pub open spec fn extension_of(payload: Option<Seq<u8>>) -> core::result::Result<Option<Seq<u8>>, Error> {
    match payload {
        None => Ok(None),
        Some(p) => if p.len() < 4 {
            Err(Error::Truncated)
        } else {
            Ok(Some(p))
        },
    }
}

/// The least value of a lossy sample: `bits` bits, narrowed by `shift`.
pub open spec fn clamp_low(bits: nat, shift: nat) -> int {
    -(pow2((bits - 1) as nat) as int) / pow2(shift) as int
}

/// The greatest value of a lossy sample.
pub open spec fn clamp_high(bits: nat, shift: nat) -> int {
    (pow2((bits - 1) as nat) - 1) / pow2(shift) as int
}

/// A value within bounds.
pub open spec fn clamped(v: i32, low: int, high: int) -> i32 {
    if v < low {
        low as i32
    } else if v > high {
        high as i32
    } else {
        v
    }
}

/// Lossy samples kept within the range of their depth.
pub open spec fn clamped_all(x: Seq<i32>, flags: Flags) -> Seq<i32> {
    let bits = (8 * (flags.bytes_minus_one + 1)) as nat;
    let shift = flags.left_shift as nat;
    Seq::new(x.len(), |i: int| clamped(x[i], clamp_low(bits, shift), clamp_high(bits, shift)))
}

/// Floating-point patterns of a block's integers. A lossy block without
/// literal bits takes zeros in their place.
pub open spec fn restored_float(x: Seq<i32>, profile: Seq<u8>, ext: Option<Seq<u8>>, lossy: bool) -> core::result::Result<
    Decoded,
    Error,
> {
    match float_info_of(profile) {
        Err(e) => Err(e),
        Ok(info) => {
            let bits = match ext {
                Some(p) => Some(extension_bits(p)),
                None => None,
            };
            let out = restore_floats(x, info, 0, Seq::empty(), bits, lossy && ext is None);
            match out.error {
                Some(e) => Err(e),
                None => Ok(
                    Decoded {
                        samples: signed_all(out.done),
                        ok: match ext {
                            Some(p) => float_crc_over(out.done) == read_le32(p, 0),
                            None => true,
                        },
                    },
                ),
            }
        }
    }
}

/// Wide integers of a block's narrowed ones. A lossy block without literal
/// bits takes zeros in place of literal bits and pattern.
pub open spec fn restored_int32(x: Seq<i32>, profile: Seq<u8>, ext: Option<Seq<u8>>, lossy: bool) -> core::result::Result<
    Decoded,
    Error,
> {
    match int32_info_of(profile) {
        Err(e) => Err(e),
        Ok(info) => if lossy && ext is None {
            Ok(Decoded { samples: shifted_all(x, (info.sent_bits + info.redundancy()) as nat), ok: true })
        } else {
            let bits = match ext {
                Some(p) => Some(extension_bits(p)),
                None => None,
            };
            let out = restore_int32(x, info, 0, Seq::empty(), bits);
            match out.error {
                Some(e) => Err(e),
                None => Ok(
                    Decoded {
                        samples: out.done,
                        ok: match ext {
                            Some(p) => extension_over(words_of(out.done)) == read_le32(p, 0),
                            None => true,
                        },
                    },
                ),
            }
        },
    }
}

/// The output samples of a block's decoded integers: the sample format
/// restored, then the container scale. `subs` holds the format profile,
/// `extension` the literal payload.
pub open spec fn restored_format(
    x: Seq<i32>,
    flags: Flags,
    subs: Seq<Sub>,
    extension: Option<Seq<u8>>,
    lossy: bool,
) -> core::result::Result<Decoded, Error> {
    match extension_of(extension) {
        Err(e) => Err(e),
        Ok(ext) => if flags.float_data {
            restored_float(x, payload_or_empty(subs, SubBlockId::FloatInfo), ext, lossy)
        } else if flags.int32_mode {
            match restored_int32(x, payload_or_empty(subs, SubBlockId::Int32Info), ext, lossy) {
                Err(e) => Err(e),
                Ok(d) => Ok(Decoded { samples: shifted_all(d.samples, flags.left_shift as nat), ok: d.ok }),
            }
        } else if lossy {
            Ok(Decoded { samples: shifted_all(clamped_all(x, flags), flags.left_shift as nat), ok: true })
        } else {
            Ok(Decoded { samples: shifted_all(x, flags.left_shift as nat), ok: true })
        },
    }
}

/// The samples of a result, with whether their checks hold.
pub open spec fn decoded_of(r: Result<(Vec<i32>, bool)>) -> core::result::Result<Decoded, Error> {
    match r {
        Ok((v, ok)) => Ok(Decoded { samples: v@, ok }),
        Err(e) => Err(e),
    }
}

fn restore_float_block(x: Vec<i32>, profile: &[u8], ext: Option<&[u8]>, lossy: bool) -> (r: Result<(Vec<i32>, bool)>)
    requires
        ext is Some ==> ext->Some_0@.len() >= 4,
    ensures
        decoded_of(r) == restored_float(
            x@,
            profile@,
            match ext {
                Some(p) => Some(p@),
                None => None,
            },
            lossy,
        ),
{
    let info: FloatInfo = match expand_float_info(profile) {
        Err(e) => {
            return Err(e);
        }
        Ok(i) => i,
    };
    let mut buffer = x;
    match ext {
        Some(p) => {
            let body = &p[4..p.len()];
            assert(body@ =~= p@.skip(4));
            let stored: u32 = get_le32(p, 0);
            let mut reader = BitReader::new(body);
            match reassemble_float(&mut buffer, &info, Some(&mut reader)) {
                Err(e) => Err(e),
                Ok(crc) => {
                    proof {
                        let out = restore_floats(x@, info, 0, Seq::empty(), Some(extension_bits(p@)), false);
                        lemma_restored_len(x@, info, 0, Seq::empty(), Some(extension_bits(p@)), false);
                        assert(buffer@ =~= signed_all(out.done));
                    }
                    Ok((buffer, crc == stored))
                }
            }
        }
        None => {
            proof {
                lemma_restored_len(x@, info, 0, Seq::empty(), None, lossy);
            }
            let ghost out = restore_floats(x@, info, 0, Seq::empty(), None, lossy);
            if lossy {
                match reassemble_float_implied(&mut buffer, &info) {
                    Err(e) => Err(e),
                    Ok(()) => {
                        assert(buffer@ =~= signed_all(out.done));
                        Ok((buffer, true))
                    }
                }
            } else {
                match reassemble_float(&mut buffer, &info, None) {
                    Err(e) => Err(e),
                    Ok(_crc) => {
                        assert(buffer@ =~= signed_all(out.done));
                        Ok((buffer, true))
                    }
                }
            }
        }
    }
}

/// Restored patterns are as many as their integers.
pub proof fn lemma_restored_len(
    x: Seq<i32>,
    info: FloatInfo,
    i: int,
    done: Seq<u32>,
    ext: Option<Seq<bool>>,
    implied: bool,
)
    requires
        0 <= i <= x.len(),
        done.len() == i,
    ensures
        restore_floats(x, info, i, done, ext, implied).error is None ==> restore_floats(
            x,
            info,
            i,
            done,
            ext,
            implied,
        ).done.len() == x.len(),
    decreases x.len() - i,
{
    if i < x.len() {
        match crate::float::restore_float_one(x[i], info, ext, implied) {
            Err(_) => {},
            Ok((b, left)) => {
                lemma_restored_len(x, info, i + 1, done.push(b), left, implied);
            },
        }
    }
}

proof fn lemma_restored_int_len(x: Seq<i32>, info: Int32Info, i: int, done: Seq<i32>, ext: Option<Seq<bool>>)
    requires
        0 <= i <= x.len(),
        done.len() == i,
    ensures
        restore_int32(x, info, i, done, ext).error is None ==> restore_int32(x, info, i, done, ext).done.len() == x.len(),
    decreases x.len() - i,
{
    if i < x.len() {
        if info.sent_bits == 0 {
            lemma_restored_int_len(x, info, i + 1, done.push(info.restored(x[i])), ext);
        } else if let Some(s) = ext {
            if s.len() >= info.sent_bits {
                let n = info.sent_bits as int;
                let literal = crate::bits::value_of(s.take(if n <= 32 { n } else { 32 })) as u32;
                let value = crate::int32::with_literal(x[i], n as nat, literal);
                lemma_restored_int_len(x, info, i + 1, done.push(info.restored(value)), Some(s.skip(n)));
            }
        }
    }
}

fn restore_int32_block(x: Vec<i32>, profile: &[u8], ext: Option<&[u8]>, lossy: bool) -> (r: Result<(Vec<i32>, bool)>)
    requires
        ext is Some ==> ext->Some_0@.len() >= 4,
    ensures
        decoded_of(r) == restored_int32(
            x@,
            profile@,
            match ext {
                Some(p) => Some(p@),
                None => None,
            },
            lossy,
        ),
{
    let info: Int32Info = match expand_int32_info(profile) {
        Err(e) => {
            return Err(e);
        }
        Ok(i) => i,
    };
    let mut buffer = x;
    match ext {
        Some(p) => {
            let body = &p[4..p.len()];
            assert(body@ =~= p@.skip(4));
            let stored: u32 = get_le32(p, 0);
            let mut reader = BitReader::new(body);
            match reassemble_int32(&mut buffer, &info, Some(&mut reader)) {
                Err(e) => Err(e),
                Ok(crc) => {
                    proof {
                        let out = restore_int32(x@, info, 0, Seq::empty(), Some(extension_bits(p@)));
                        lemma_restored_int_len(x@, info, 0, Seq::empty(), Some(extension_bits(p@)));
                        assert(buffer@ =~= out.done);
                    }
                    Ok((buffer, crc == stored))
                }
            }
        }
        None => {
            if lossy {
                let total: u32 = info.total_shift();
                assert(total == info.sent_bits + info.redundancy()) by {
                    let (z, o, d) = (info.zeros, info.ones, info.dups);
                    assert((z == 0 && o == 0 ==> z | o | d == d) && (z == 0 && d == 0 ==> z | o | d == o) && (o == 0 && d
                        == 0 ==> z | o | d == z)) by (bit_vector);
                }
                shift_buffer(&mut buffer, total);
                return Ok((buffer, true));
            }
            match reassemble_int32(&mut buffer, &info, None) {
                Err(e) => Err(e),
                Ok(_crc) => {
                    proof {
                        let out = restore_int32(x@, info, 0, Seq::empty(), None);
                        lemma_restored_int_len(x@, info, 0, Seq::empty(), None);
                        assert(buffer@ =~= out.done);
                    }
                    Ok((buffer, true))
                }
            }
        }
    }
}

fn shift_buffer(x: &mut [i32], k: u32)
    ensures
        final(x)@ == shifted_all(old(x)@, k as nat),
{
    let mut i: usize = 0;
    while i < x.len()
        invariant
            i <= x.len(),
            x@.len() == old(x)@.len(),
            forall|j: int| 0 <= j < i ==> x@[j] == shifted(old(x)@[j], k as nat),
            forall|j: int| i <= j < x@.len() ==> x@[j] == old(x)@[j],
        decreases x.len() - i,
    {
        x[i] = shl32(x[i], k);
        i = i + 1;
    }
    assert(x@ =~= shifted_all(old(x)@, k as nat));
}

fn clamp_buffer(x: &mut [i32], flags: &Flags)
    requires
        *flags == flags_of(flags.raw),
    ensures
        final(x)@ == clamped_all(old(x)@, *flags),
{
    proof {
        reveal(flags_of);
        lemma2_to64();
    }
    let bits: u32 = 8 * (flags.bytes_minus_one as u32 + 1);
    let shift: u32 = flags.left_shift as u32;
    proof {
        if bits - 1 < 31 {
            lemma_pow2_strictly_increases((bits - 1) as nat, 31);
        }
        lemma_pow2_pos((bits - 1) as nat);
    }
    let top: i64 = pow2_u64(bits - 1) as i64;
    let low: i64 = floor_shr(-top, shift);
    let high: i64 = floor_shr(top - 1, shift);
    assert(low == clamp_low(bits as nat, shift as nat));
    assert(high == clamp_high(bits as nat, shift as nat));
    let mut i: usize = 0;
    while i < x.len()
        invariant
            i <= x.len(),
            x@.len() == old(x)@.len(),
            -0x8000_0000 <= low <= high < 0x8000_0000,
            forall|j: int| 0 <= j < i ==> x@[j] == clamped(old(x)@[j], low as int, high as int),
            forall|j: int| i <= j < x@.len() ==> x@[j] == old(x)@[j],
        decreases x.len() - i,
    {
        let v: i64 = x[i] as i64;
        if v < low {
            x[i] = low as i32;
        } else if v > high {
            x[i] = high as i32;
        }
        i = i + 1;
    }
    assert(x@ =~= clamped_all(old(x)@, *flags));
}

/// The optional bytes behind an optional slice.
pub open spec fn slice_view(s: Option<&[u8]>) -> Option<Seq<u8>> {
    match s {
        Some(p) => Some(p@),
        None => None,
    }
}

fn restore_format(x: Vec<i32>, flags: &Flags, subs: &[MetadataSubBlock<'_>], extension: Option<&[u8]>, lossy: bool) -> (r:
    Result<(Vec<i32>, bool)>)
    requires
        *flags == flags_of(flags.raw),
    ensures
        decoded_of(r) == restored_format(x@, *flags, subs_of(subs@), slice_view(extension), lossy),
{
    if let Some(p) = extension {
        if p.len() < 4 {
            return Err(Error::Truncated);
        }
    }
    if flags.float_data {
        return restore_float_block(x, find_payload_or_empty(subs, SubBlockId::FloatInfo), extension, lossy);
    }
    if flags.int32_mode {
        return match restore_int32_block(x, find_payload_or_empty(subs, SubBlockId::Int32Info), extension, lossy) {
            Err(e) => Err(e),
            Ok((v, ok)) => {
                let mut out = v;
                apply_left_shift_buffer(&mut out, flags.left_shift);
                Ok((out, ok))
            }
        };
    }
    let mut out = x;
    if lossy {
        clamp_buffer(&mut out, flags);
    }
    apply_left_shift_buffer(&mut out, flags.left_shift);
    Ok((out, true))
}

// ---------------------------------------------------------------------------
// Decoding a block
// ---------------------------------------------------------------------------

/// The second channel's side of a pass, as a pass of its own.
pub open spec fn second_side(p: PassState) -> PassState {
    PassState { wa: p.wb, wb: 0, ha: p.hb, hb: no_history(), ..p }
}

/// The second channel's sides of a list of passes.
pub open spec fn second_sides(ps: Seq<PassState>) -> Seq<PassState> {
    Seq::new(ps.len(), |i: int| second_side(ps[i]))
}

/// Whether a list holds a cross-channel term.
pub open spec fn some_cross(ps: Seq<PassState>) -> bool {
    exists|i: int| 0 <= i < ps.len() && cross(#[trigger] ps[i].term)
}

/// The channel layout that flags announce.
pub open spec fn layout_of(flags: Flags) -> Layout {
    Layout { stereo: !flags.one_stream(), joint: !flags.one_stream() && flags.joint_stereo }
}

/// The levels that a profile payload seeds.
pub open spec fn levels_in(payload: Seq<u8>, stereo: bool) -> core::result::Result<HybridState, Error> {
    if payload.len() != (if stereo {
        8int
    } else {
        4
    }) {
        Err(Error::HybridProfileLength(payload.len() as usize))
    } else if stereo {
        Ok(
            HybridState::seeded(
                payload_word(payload, 0) as i16,
                payload_word(payload, 1) as i16,
                payload_word(payload, 2) as i32,
                payload_word(payload, 3) as i32,
                true,
            ),
        )
    } else {
        Ok(
            HybridState::seeded(
                payload_word(payload, 0) as i16,
                0,
                payload_word(payload, 1) as i32,
                0,
                false,
            ),
        )
    }
}

/// The samples of a lossless payload.
pub open spec fn lossless_coded(
    payload: Seq<u8>,
    count: int,
    stereo: bool,
    meds: (AdaptiveMedians, AdaptiveMedians),
    ps: Seq<PassState>,
) -> core::result::Result<Seq<i32>, Error> {
    match samples_only(decode_words(byte_bits(payload), count, 0, stereo, Coder::start(meds.0, meds.1))) {
        Err(e) => Err(e),
        Ok(r) => Ok(
            if stereo {
                decode_stereo_all(ps, r).1
            } else {
                decode_mono_all(ps, r).1
            },
        ),
    }
}

/// The samples of a hybrid payload, with or without its correction payload.
pub open spec fn hybrid_coded(
    payload: Seq<u8>,
    fix: Option<Seq<u8>>,
    count: int,
    layout: Layout,
    meds: (AdaptiveMedians, AdaptiveMedians),
    profile: Option<Seq<u8>>,
    ps: Seq<PassState>,
    shape: ShapingState,
) -> core::result::Result<HybridIn, Error> {
    match profile {
        None => Err(Error::UnsupportedBlockFeature(UnsupportedBlockFeature::HybridWithoutProfile)),
        Some(h) => match levels_in(h, layout.stereo) {
            Err(e) => Err(e),
            Ok(level) => if some_cross(ps) {
                Err(Error::UnsupportedBlockFeature(UnsupportedBlockFeature::HybridCrossDecorrelation))
            } else {
                decode_hybrid(
                    byte_bits(payload),
                    match fix {
                        Some(f) => Some(byte_bits(f)),
                        None => None,
                    },
                    count,
                    0,
                    layout,
                    hybrid_start(Coder::start(meds.0, meds.1), level, ps, second_sides(ps), shape),
                )
            },
        },
    }
}

/// The packed slots of a block.
pub open spec fn slot_count(h: WavPackBlockHeader) -> int {
    if h.flags.one_stream() {
        h.block_samples as int
    } else {
        2 * h.block_samples
    }
}

/// The samples of a block as they were coded, before mid/side is undone.
pub open spec fn coded_samples(b: Block, fix: Option<Seq<u8>>, shape: ShapingState) -> core::result::Result<HybridIn, Error> {
    let stereo = !b.header.flags.one_stream();
    if b.header.block_samples == 0 {
        Err(Error::BlockHasNoAudio)
    } else if b.header.block_samples > MAX_DECODE_SAMPLES_PER_BLOCK {
        Err(Error::BlockSamplesTooLarge(b.header.block_samples))
    } else {
        match payload_in(b.subs, SubBlockId::EntropyInfo) {
            None => Err(Error::BlockMissingEntropyInfo),
            Some(entropy) => match payload_in(b.subs, SubBlockId::PackedSamples) {
                None => Err(Error::BlockMissingPackedSamples),
                Some(payload) => match medians_of(entropy, stereo) {
                    Err(e) => Err(e),
                    Ok(meds) => match passes_in(b.subs, stereo) {
                        Err(e) => Err(e),
                        Ok(ps) => if b.header.flags.hybrid {
                            hybrid_coded(
                                payload,
                                fix,
                                slot_count(b.header),
                                layout_of(b.header.flags),
                                meds,
                                payload_in(b.subs, SubBlockId::HybridProfile),
                                ps,
                                shape,
                            )
                        } else {
                            match lossless_coded(payload, slot_count(b.header), stereo, meds, ps) {
                                Err(e) => Err(e),
                                Ok(x) => Ok(HybridIn { lossy: x, exact: x }),
                            }
                        },
                    },
                },
            },
        }
    }
}

/// Decoded integers on their way out: mid/side undone, the check taken
/// against `crc`, the format restored, equal channels doubled.
pub open spec fn finished(x: Seq<i32>, b: Block, crc: u32, extension: Option<Seq<u8>>, lossy: bool) -> core::result::Result<
    Decoded,
    Error,
> {
    let y = if layout_of(b.header.flags).joint {
        undo_joint(x)
    } else {
        x
    };
    match restored_format(y, b.header.flags, b.subs, extension, lossy) {
        Err(e) => Err(e),
        Ok(d) => Ok(
            Decoded {
                samples: if !b.header.flags.mono && b.header.flags.false_stereo {
                    doubled(d.samples)
                } else {
                    d.samples
                },
                ok: crc_over(y, CRC_INIT) == crc && d.ok,
            },
        ),
    }
}

/// A block decoded on its own.
#[verifier::opaque]
pub open spec fn decode_block(b: Block) -> core::result::Result<Decoded, Error> {
    match coded_samples(b, None, ShapingState::seeded(None, !b.header.flags.one_stream())) {
        Err(e) => Err(e),
        Ok(c) => finished(
            c.lossy,
            b,
            b.header.crc,
            payload_in(b.subs, SubBlockId::PackedOverflowBits),
            b.header.flags.hybrid,
        ),
    }
}

/// A hybrid block decoded along with its correction block. The correction
/// block holds the check over the source samples, and literal bits of its own.
#[verifier::opaque]
pub open spec fn decode_pair(b: Block, c: Block) -> core::result::Result<Decoded, Error> {
    if !b.header.flags.hybrid {
        Err(Error::UnsupportedBlockFeature(UnsupportedBlockFeature::CorrectionOfLossless))
    } else {
        let shape = ShapingState::seeded(
            payload_in(c.subs, SubBlockId::NoiseShapingProfile),
            !b.header.flags.one_stream(),
        );
        match coded_samples(b, Some(payload_or_empty(c.subs, SubBlockId::PackedCorrectionData)), shape) {
            Err(e) => Err(e),
            Ok(d) => finished(
                d.exact,
                b,
                c.header.crc,
                payload_in(c.subs, SubBlockId::PackedOverflowBits),
                false,
            ),
        }
    }
}

/// The second channel's sides of a list of passes.
pub fn second_passes(passes: &Vec<DecorrPass>) -> (r: Vec<DecorrPass>)
    ensures
        states(r@) == second_sides(states(passes@)),
{
    let mut out: Vec<DecorrPass> = Vec::new();
    let mut i: usize = 0;
    while i < passes.len()
        invariant
            i <= passes.len(),
            out@.len() == i,
            forall|k: int| 0 <= k < i ==> (#[trigger] out@[k])@ == second_side(passes@[k]@),
        decreases passes.len() - i,
    {
        let p: DecorrPass = passes[i];
        let q = DecorrPass {
            term: p.term,
            delta: p.delta,
            weight_a: p.weight_b,
            weight_b: 0,
            history_a: p.history_b,
            history_b: [0, 0, 0, 0, 0, 0, 0, 0],
        };
        assert(q@.hb =~= no_history());
        assert(q@ =~= second_side(p@));
        out.push(q);
        i = i + 1;
    }
    assert(states(out@) =~= second_sides(states(passes@)));
    out
}

fn find_cross(passes: &Vec<DecorrPass>) -> (r: bool)
    ensures
        r == some_cross(states(passes@)),
{
    let ghost ps = states(passes@);
    let mut i: usize = 0;
    while i < passes.len()
        invariant
            ps == states(passes@),
            i <= passes.len(),
            forall|k: int| 0 <= k < i ==> !cross(#[trigger] ps[k].term),
        decreases passes.len() - i,
    {
        if passes[i].term < 0 {
            assert(cross(ps[i as int].term));
            return true;
        }
        assert(!cross(ps[i as int].term));
        i = i + 1;
    }
    false
}

fn read_levels(payload: &[u8], stereo: bool) -> (r: Result<HybridState>)
    ensures
        r == levels_in(payload@, stereo),
        r is Ok ==> r->Ok_0.wf(),
{
    match expand_hybrid_profile(payload, stereo) {
        Err(e) => Err(e),
        Ok(profile) => Ok(HybridState::from_profile(&profile)),
    }
}

fn decode_lossless(
    payload: &[u8],
    count: usize,
    stereo: bool,
    meds: (AdaptiveMedians, AdaptiveMedians),
    passes: Vec<DecorrPass>,
) -> (r: Result<Vec<i32>>)
    requires
        ready(states(passes@), stereo),
        stereo ==> count % 2 == 0,
    ensures
        samples_of(r) == lossless_coded(payload@, count as int, stereo, meds, states(passes@)),
{
    let mut ps = passes;
    match decode_packed_samples(payload, count, stereo, meds.0, meds.1) {
        Err(e) => Err(e),
        Ok(v) => {
            let mut x = v;
            proof {
                lemma_words_len(byte_bits(payload@), count as int, 0, stereo, Coder::start(meds.0, meds.1));
            }
            if stereo {
                decorrelate_stereo(&mut ps, &mut x);
            } else {
                decorrelate_mono(&mut ps, &mut x);
            }
            Ok(x)
        }
    }
}

/// A packed stream decodes to as many samples as were asked for.
pub proof fn lemma_words_len(s: Seq<bool>, n: int, i: int, stereo: bool, st: Coder)
    requires
        0 <= i <= n,
    ensures
        match decode_words(s, n, i, stereo, st) {
            Ok((x, _)) => x.len() == n - i,
            Err(_) => true,
        },
    decreases n - i,
{
    if i < n {
        match crate::packed_samples::read_lead(s, st) {
            Err(_) => {},
            Ok((run, s1)) => {
                if run > 0 {
                    let k = if run < n - i {
                        run as int
                    } else {
                        n - i
                    };
                    lemma_words_len(s1, n, i + k, stereo, st.cleared());
                } else {
                    match crate::packed_samples::read_word(s1, crate::packed_samples::second(i, stereo), st) {
                        Err(_) => {},
                        Ok(((v, next), s2)) => {
                            lemma_words_len(s2, n, i + 1, stereo, next);
                        },
                    }
                }
            },
        }
    }
}

/// A hybrid stream decodes to as many samples as were asked for.
pub proof fn lemma_hybrid_len(
    s: Seq<bool>,
    fix: Option<Seq<bool>>,
    n: int,
    i: int,
    m: Layout,
    st: crate::hybrid_words::HybridCoder,
)
    requires
        0 <= i <= n,
    ensures
        match decode_hybrid(s, fix, n, i, m, st) {
            Ok(d) => d.lossy.len() == n - i && d.exact.len() == n - i,
            Err(_) => true,
        },
    decreases n - i,
{
    if i < n {
        match crate::packed_samples::read_lead(s, st.coder) {
            Err(_) => {},
            Ok((run, s1)) => {
                if run > 0 {
                    let k = if run < n - i {
                        run as int
                    } else {
                        n - i
                    };
                    let zero = crate::hybrid_words::zero_slots(st, i, k as nat, m);
                    lemma_zero_slots_len(st, i, k as nat, m);
                    lemma_hybrid_len(s1, fix, n, i + k, m, zero.0.cleared());
                } else {
                    match crate::hybrid_words::slot_read(s1, fix, i, m, st) {
                        Err(_) => {},
                        Ok(w) => {
                            lemma_hybrid_len(w.main, w.fix, n, i + 1, m, w.after);
                        },
                    }
                }
            },
        }
    }
}

/// A run of zero slots has a sample for every slot.
pub proof fn lemma_zero_slots_len(st: crate::hybrid_words::HybridCoder, i: int, k: nat, m: Layout)
    ensures
        crate::hybrid_words::zero_slots(st, i, k, m).1.len() == k,
    decreases k,
{
    if k > 0 {
        let one = st.zero_slot(crate::packed_samples::second(i, m.stereo), m.joint);
        lemma_zero_slots_len(one.0, i + 1, (k - 1) as nat, m);
    }
}

impl<'a> WavPackBlock<'a> {
    fn decode_coded(&self, fix: Option<&[u8]>, shape: ShapingState) -> (r: Result<HybridSamples>)
        requires
            self.wf(),
        ensures
            samples_match(r, coded_samples(self@, slice_view(fix), shape)),
            r is Ok ==> r->Ok_0.lossy@.len() == slot_count(self.header) && r->Ok_0.exact@.len() == slot_count(
                self.header,
            ),
    {
        let flags = self.header.flags;
        let n: u32 = self.header.block_samples;
        let stereo: bool = flags.is_block_data_stereo();
        if n == 0 {
            return Err(Error::BlockHasNoAudio);
        }
        if n > MAX_DECODE_SAMPLES_PER_BLOCK {
            return Err(Error::BlockSamplesTooLarge(n));
        }
        let count: usize = if stereo {
            2 * n as usize
        } else {
            n as usize
        };
        let subs = self.sub_blocks.as_slice();
        let entropy = match find_payload(subs, SubBlockId::EntropyInfo) {
            None => {
                return Err(Error::BlockMissingEntropyInfo);
            }
            Some(p) => p,
        };
        let payload = match find_payload(subs, SubBlockId::PackedSamples) {
            None => {
                return Err(Error::BlockMissingPackedSamples);
            }
            Some(p) => p,
        };
        let meds: (AdaptiveMedians, AdaptiveMedians) = match take_medians(entropy, stereo) {
            Err(e) => {
                return Err(e);
            }
            Ok(m) => m,
        };
        let passes: Vec<DecorrPass> = match find_passes(subs, stereo) {
            Err(e) => {
                return Err(e);
            }
            Ok(p) => p,
        };
        if !flags.hybrid {
            return match decode_lossless(payload, count, stereo, meds, passes) {
                Err(e) => Err(e),
                Ok(x) => {
                    proof {
                        lemma_lossless_len(payload@, count as int, stereo, meds, states(passes@));
                    }
                    let copy: Vec<i32> = copy_samples(&x);
                    Ok(HybridSamples { lossy: copy, exact: x })
                }
            };
        }
        let profile = match find_payload(subs, SubBlockId::HybridProfile) {
            None => {
                return Err(Error::UnsupportedBlockFeature(UnsupportedBlockFeature::HybridWithoutProfile));
            }
            Some(p) => p,
        };
        let level: HybridState = match read_levels(profile, stereo) {
            Err(e) => {
                return Err(e);
            }
            Ok(l) => l,
        };
        if find_cross(&passes) {
            return Err(Error::UnsupportedBlockFeature(UnsupportedBlockFeature::HybridCrossDecorrelation));
        }
        let layout = Layout { stereo, joint: stereo && flags.joint_stereo };
        let seconds: Vec<DecorrPass> = second_passes(&passes);
        proof {
            lemma_sides_ready(states(passes@), stereo);
        }
        let mut machine = HybridMachine::new(Coder::new(meds.0, meds.1), level, passes, seconds, shape);
        proof {
            lemma_hybrid_len(
                byte_bits(payload@),
                match slice_view(fix) {
                    Some(f) => Some(byte_bits(f)),
                    None => None,
                },
                count as int,
                0,
                layout,
                machine@,
            );
        }
        hybrid_decode(payload, fix, count, layout, &mut machine)
    }

    fn finish(&self, x: Vec<i32>, crc: u32, extension: Option<&[u8]>, lossy: bool) -> (r: Result<(Vec<i32>, bool)>)
        requires
            self.wf(),
            x@.len() == slot_count(self.header),
        ensures
            decoded_of(r) == finished(x@, self@, crc, slice_view(extension), lossy),
    {
        let flags = self.header.flags;
        let mut y = x;
        if flags.is_block_data_stereo() && flags.joint_stereo {
            undo_joint_buffer(&mut y);
        }
        let sum: u32 = crc_mono(y.as_slice());
        match restore_format(y, &flags, self.sub_blocks.as_slice(), extension, lossy) {
            Err(e) => Err(e),
            Ok((v, ok)) => {
                let out: Vec<i32> = if !flags.mono && flags.false_stereo {
                    double_buffer(v)
                } else {
                    v
                };
                Ok((out, sum == crc && ok))
            }
        }
    }

    /// Decodes the block; gives its samples and whether its checks hold.
    pub fn decode_checked(&self) -> (r: Result<(Vec<i32>, bool)>)
        requires
            self.wf(),
        ensures
            decoded_of(r) == decode_block(self@),
    {
        proof {
            reveal(decode_block);
        }
        let shape = ShapingState::from_shaping_words(None, self.header.flags.is_block_data_stereo());
        match self.decode_coded(None, shape) {
            Err(e) => Err(e),
            Ok(c) => self.finish(
                c.lossy,
                self.header.crc,
                find_payload(self.sub_blocks.as_slice(), SubBlockId::PackedOverflowBits),
                self.header.flags.hybrid,
            ),
        }
    }

    /// Decodes the block along with its correction block.
    pub fn decode_checked_with_correction(&self, correction: &WavPackBlock<'_>) -> (r: Result<(Vec<i32>, bool)>)
        requires
            self.wf(),
            correction.wf(),
        ensures
            decoded_of(r) == decode_pair(self@, correction@),
    {
        proof {
            reveal(decode_pair);
        }
        if !self.header.flags.hybrid {
            return Err(Error::UnsupportedBlockFeature(UnsupportedBlockFeature::CorrectionOfLossless));
        }
        let subs = correction.sub_blocks.as_slice();
        let words = find_payload(subs, SubBlockId::NoiseShapingProfile);
        let shape = ShapingState::from_shaping_words(words, self.header.flags.is_block_data_stereo());
        let fix = find_payload_or_empty(subs, SubBlockId::PackedCorrectionData);
        match self.decode_coded(Some(fix), shape) {
            Err(e) => Err(e),
            Ok(c) => self.finish(
                c.exact,
                correction.header.crc,
                find_payload(subs, SubBlockId::PackedOverflowBits),
                false,
            ),
        }
    }
}

proof fn lemma_lossless_len(
    payload: Seq<u8>,
    count: int,
    stereo: bool,
    meds: (AdaptiveMedians, AdaptiveMedians),
    ps: Seq<PassState>,
)
    requires
        count >= 0,
        stereo ==> count % 2 == 0,
    ensures
        match lossless_coded(payload, count, stereo, meds, ps) {
            Ok(x) => x.len() == count,
            Err(_) => true,
        },
{
    let st = Coder::start(meds.0, meds.1);
    lemma_words_len(byte_bits(payload), count, 0, stereo, st);
    match samples_only(decode_words(byte_bits(payload), count, 0, stereo, st)) {
        Err(_) => {},
        Ok(r) => {
            if stereo {
                lemma_stereo_len(ps, r);
            } else {
                lemma_mono_len(ps, r);
            }
        },
    }
}

proof fn lemma_mono_len(ps: Seq<PassState>, r: Seq<i32>)
    ensures
        decode_mono_all(ps, r).1.len() == r.len(),
    decreases r.len(),
{
    if r.len() > 0 {
        lemma_mono_len(ps, r.drop_last());
    }
}

proof fn lemma_stereo_len(ps: Seq<PassState>, r: Seq<i32>)
    requires
        r.len() % 2 == 0,
    ensures
        decode_stereo_all(ps, r).1.len() == r.len(),
    decreases r.len(),
{
    if r.len() >= 2 {
        lemma_stereo_len(ps, r.take(r.len() - 2));
    }
}

/// Cross-free passes can run on each channel alone.
pub proof fn lemma_sides_ready(ps: Seq<PassState>, stereo: bool)
    requires
        ready(ps, stereo),
        !some_cross(ps),
    ensures
        mono_ready(ps),
        mono_ready(second_sides(ps)),
{
    assert forall|i: int| 0 <= i < ps.len() implies (#[trigger] ps[i]).wf() && !cross(ps[i].term) by {
        assert(!cross(ps[i].term));
    }
    let q = second_sides(ps);
    assert forall|i: int| 0 <= i < q.len() implies (#[trigger] q[i]).wf() && !cross(q[i].term) by {
        assert(ps[i].wf());
    }
}

/// A copy of a buffer.
pub fn copy_samples(x: &Vec<i32>) -> (r: Vec<i32>)
    ensures
        r@ == x@,
{
    let mut out: Vec<i32> = Vec::new();
    out.extend_from_slice(x.as_slice());
    assert(out@ =~= x@);
    out
}

/// The samples a reader hears: silence in place of samples whose checks fail.
pub open spec fn heard(d: Decoded) -> Seq<i32> {
    if d.ok {
        d.samples
    } else {
        silence(d.samples.len())
    }
}

/// Replaces samples whose checks fail by silence.
pub fn mute_unless(x: Vec<i32>, ok: bool) -> (r: Vec<i32>)
    ensures
        r@ == heard(Decoded { samples: x@, ok }),
{
    if ok {
        return x;
    }
    let n: usize = x.len();
    let mut out: Vec<i32> = Vec::new();
    let mut i: usize = 0;
    while i < n
        invariant
            i <= n,
            out@ == silence(i as nat),
        decreases n - i,
    {
        out.push(0);
        i = i + 1;
        assert(out@ =~= silence(i as nat));
    }
    assert(out@ =~= silence(n as nat));
    out
}

/// The rate that a block states, in its header or in a sub-block.
pub open spec fn rate_of(b: Block) -> core::result::Result<Option<u32>, Error> {
    match b.header.flags.table_rate() {
        Some(r) => Ok(Some(r)),
        None => match payload_in(b.subs, SubBlockId::NonStandardSampleRate) {
            None => Ok(None),
            Some(p) => if p.len() != 3 {
                Err(Error::SampleRatePayloadLength(p.len() as usize))
            } else {
                Ok(Some(rate_in(p)))
            },
        },
    }
}

impl<'a> WavPackBlock<'a> {
    /// The header.
    pub fn header(&self) -> (r: &WavPackBlockHeader)
        ensures
            *r == self.header,
    {
        &self.header
    }

    /// The flags.
    pub fn flags(&self) -> (r: &Flags)
        ensures
            *r == self.header.flags,
    {
        &self.header.flags
    }

    /// The sub-blocks.
    pub fn sub_blocks(&self) -> (r: &[MetadataSubBlock<'a>])
        ensures
            r@ == self.sub_blocks@,
    {
        self.sub_blocks.as_slice()
    }

    /// Index of the first sample in the file.
    pub fn block_index(&self) -> (r: u32)
        ensures
            r == self.header.block_index,
    {
        self.header.block_index
    }

    /// Samples per channel.
    pub fn block_samples(&self) -> (r: u32)
        ensures
            r == self.header.block_samples,
    {
        self.header.block_samples
    }

    /// The check that the header stores.
    pub fn crc(&self) -> (r: u32)
        ensures
            r == self.header.crc,
    {
        self.header.crc
    }

    /// Whether the samples are floating-point patterns.
    pub fn is_float(&self) -> (r: bool)
        ensures
            r == self.header.flags.float_data,
    {
        self.header.flags.float_data
    }

    /// Whether a correction block can refine this one.
    pub fn expects_correction(&self) -> (r: bool)
        ensures
            r == self.header.flags.hybrid,
    {
        self.header.flags.hybrid
    }

    /// The first sub-block of a kind.
    pub fn find_sub_block(&self, id: SubBlockId) -> (r: Option<&MetadataSubBlock<'a>>)
        ensures
            found(r) == first_of(self@.subs, id),
            is_earliest(r, self.sub_blocks@, id),
    {
        find_first(self.sub_blocks.as_slice(), id)
    }

    /// The first entropy sub-block.
    pub fn find_entropy_info_sub_block(&self) -> (r: Option<&MetadataSubBlock<'a>>)
        ensures
            found(r) == first_of(self@.subs, SubBlockId::EntropyInfo),
            is_earliest(r, self.sub_blocks@, SubBlockId::EntropyInfo),
    {
        self.find_sub_block(SubBlockId::EntropyInfo)
    }

    /// The first multichannel sub-block.
    pub fn find_multichannel_info_sub_block(&self) -> (r: Option<&MetadataSubBlock<'a>>)
        ensures
            found(r) == first_of(self@.subs, SubBlockId::MultichannelInfo),
            is_earliest(r, self.sub_blocks@, SubBlockId::MultichannelInfo),
    {
        self.find_sub_block(SubBlockId::MultichannelInfo)
    }

    /// The first shaping sub-block.
    pub fn find_noise_shaping_profile_sub_block(&self) -> (r: Option<&MetadataSubBlock<'a>>)
        ensures
            found(r) == first_of(self@.subs, SubBlockId::NoiseShapingProfile),
            is_earliest(r, self.sub_blocks@, SubBlockId::NoiseShapingProfile),
    {
        self.find_sub_block(SubBlockId::NoiseShapingProfile)
    }

    /// Whether literal bits are there.
    pub fn has_packed_overflow_bits(&self) -> (r: bool)
        ensures
            r == (payload_in(self@.subs, SubBlockId::PackedOverflowBits) is Some),
    {
        find_payload(self.sub_blocks.as_slice(), SubBlockId::PackedOverflowBits).is_some()
    }

    /// Whether correction data is there.
    pub fn has_packed_correction_data(&self) -> (r: bool)
        ensures
            r == (payload_in(self@.subs, SubBlockId::PackedCorrectionData) is Some),
    {
        find_payload(self.sub_blocks.as_slice(), SubBlockId::PackedCorrectionData).is_some()
    }

    /// The rate that the block states.
    pub fn sample_rate(&self) -> (r: Result<Option<u32>>)
        ensures
            r == rate_of(self@),
    {
        match self.header.flags.standard_sample_rate() {
            Some(r) => Ok(Some(r)),
            None => match find_payload(self.sub_blocks.as_slice(), SubBlockId::NonStandardSampleRate) {
                None => Ok(None),
                Some(p) => match parse_non_standard_sample_rate(p) {
                    Err(e) => Err(e),
                    Ok(r) => Ok(Some(r)),
                },
            },
        }
    }

    /// The samples, whether or not the checks hold.
    pub fn decode_samples(&self) -> (r: Result<Vec<i32>>)
        requires
            self.wf(),
        ensures
            match decode_block(self@) {
                Err(e) => r is Err && r->Err_0 == e,
                Ok(d) => r is Ok && r->Ok_0@ == d.samples,
            },
    {
        match self.decode_checked() {
            Err(e) => Err(e),
            Ok((x, _)) => Ok(x),
        }
    }

    /// The samples, or silence where the checks fail, and whether they hold.
    pub fn decode_samples_muted(&self) -> (r: Result<(Vec<i32>, bool)>)
        requires
            self.wf(),
        ensures
            match decode_block(self@) {
                Err(e) => r is Err && r->Err_0 == e,
                Ok(d) => r is Ok && r->Ok_0.0@ == heard(d) && r->Ok_0.1 == d.ok,
            },
    {
        match self.decode_checked() {
            Err(e) => Err(e),
            Ok((x, ok)) => Ok((mute_unless(x, ok), ok)),
        }
    }

    /// Whether the decoded samples meet the stored checks.
    pub fn verify_decoded_crc(&self) -> (r: Result<bool>)
        requires
            self.wf(),
        ensures
            match decode_block(self@) {
                Err(e) => r is Err && r->Err_0 == e,
                Ok(d) => r is Ok && r->Ok_0 == d.ok,
            },
    {
        match self.decode_checked() {
            Err(e) => Err(e),
            Ok((_, ok)) => Ok(ok),
        }
    }

    /// The samples of a hybrid block restored by its correction block.
    pub fn decode_samples_with_correction(&self, correction: &WavPackBlock<'_>) -> (r: Result<Vec<i32>>)
        requires
            self.wf(),
            correction.wf(),
        ensures
            match decode_pair(self@, correction@) {
                Err(e) => r is Err && r->Err_0 == e,
                Ok(d) => r is Ok && r->Ok_0@ == d.samples,
            },
    {
        match self.decode_checked_with_correction(correction) {
            Err(e) => Err(e),
            Ok((x, _)) => Ok(x),
        }
    }
}

/// A restored format keeps the number of samples.
proof fn lemma_format_len(x: Seq<i32>, flags: Flags, subs: Seq<Sub>, extension: Option<Seq<u8>>, lossy: bool)
    ensures
        match restored_format(x, flags, subs, extension, lossy) {
            Ok(d) => d.samples.len() == x.len(),
            Err(_) => true,
        },
{
    if let Ok(ext) = extension_of(extension) {
        let bits = match ext {
            Some(p) => Some(extension_bits(p)),
            None => None,
        };
        if flags.float_data {
            if let Ok(info) = float_info_of(payload_or_empty(subs, SubBlockId::FloatInfo)) {
                lemma_restored_len(x, info, 0, Seq::empty(), bits, lossy && ext is None);
            }
        } else if flags.int32_mode {
            if let Ok(info) = int32_info_of(payload_or_empty(subs, SubBlockId::Int32Info)) {
                lemma_restored_int_len(x, info, 0, Seq::empty(), bits);
            }
        }
    }
}

/// Coded samples fill the slots of their block.
proof fn lemma_coded_len(b: Block, fix: Option<Seq<u8>>, shape: ShapingState)
    ensures
        match coded_samples(b, fix, shape) {
            Ok(d) => d.lossy.len() == slot_count(b.header) && d.exact.len() == slot_count(b.header),
            Err(_) => true,
        },
{
    let stereo = !b.header.flags.one_stream();
    let n = slot_count(b.header);
    if let Some(entropy) = payload_in(b.subs, SubBlockId::EntropyInfo) {
        if let Some(payload) = payload_in(b.subs, SubBlockId::PackedSamples) {
            if let Ok(meds) = medians_of(entropy, stereo) {
                if let Ok(ps) = passes_in(b.subs, stereo) {
                    if b.header.flags.hybrid {
                        if let Some(h) = payload_in(b.subs, SubBlockId::HybridProfile) {
                            if let Ok(level) = levels_in(h, stereo) {
                                lemma_hybrid_len(
                                    byte_bits(payload),
                                    match fix {
                                        Some(f) => Some(byte_bits(f)),
                                        None => None,
                                    },
                                    n,
                                    0,
                                    layout_of(b.header.flags),
                                    hybrid_start(
                                        Coder::start(meds.0, meds.1),
                                        level,
                                        ps,
                                        second_sides(ps),
                                        shape,
                                    ),
                                );
                            }
                        }
                    } else {
                        lemma_lossless_len(payload, n, stereo, meds, ps);
                    }
                }
            }
        }
    }
}

/// A block decodes to as many samples as its header says.
pub proof fn lemma_decoded_len(b: Block)
    ensures
        match decode_block(b) {
            Ok(d) => d.samples.len() == (if b.header.flags.mono {
                b.header.block_samples as int
            } else {
                2 * b.header.block_samples
            }),
            Err(_) => true,
        },
{
    reveal(decode_block);
    let shape = ShapingState::seeded(None, !b.header.flags.one_stream());
    lemma_coded_len(b, None, shape);
    if let Ok(c) = coded_samples(b, None, shape) {
        let y = if layout_of(b.header.flags).joint {
            undo_joint(c.lossy)
        } else {
            c.lossy
        };
        lemma_format_len(
            y,
            b.header.flags,
            b.subs,
            payload_in(b.subs, SubBlockId::PackedOverflowBits),
            b.header.flags.hybrid,
        );
    }
}

} // verus!
