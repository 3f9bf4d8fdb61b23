//! Streams of blocks.
use vstd::prelude::*;
use crate::block::{Block, Decoded, WavPackBlock, block_subs_wf, block_views, blocks_of, blocks_wf, decode_block, decode_pair, decoded_of, heard, mute_unless, parse_block, parse_blocks, rate_of};
use crate::arith::unsigned_word;
use crate::error::{Error, Result, UnsupportedBlockFeature};
use crate::int32::words_of;

verus! {

/// The blocks that carry audio.
pub open spec fn audio_only(bs: Seq<Block>) -> Seq<Block>
    decreases bs.len(),
{
    if bs.len() == 0 {
        Seq::empty()
    } else {
        let before = audio_only(bs.drop_last());
        if bs.last().header.block_samples == 0 {
            before
        } else {
            before.push(bs.last())
        }
    }
}

/// The audio blocks of a stream.
pub open spec fn audio_of(bytes: Seq<u8>) -> core::result::Result<Seq<Block>, Error> {
    match blocks_of(bytes) {
        Err(e) => Err(e),
        Ok(bs) => Ok(audio_only(bs)),
    }
}

/// Reads the audio blocks of a stream.
pub fn parse_audio_blocks<'a>(bytes: &'a [u8]) -> (r: Result<Vec<WavPackBlock<'a>>>)
    ensures
        match audio_of(bytes@) {
            Err(e) => r is Err && r->Err_0 == e,
            Ok(bs) => r is Ok && block_views(r->Ok_0@) == bs && blocks_wf(r->Ok_0@) && block_subs_wf(r->Ok_0@),
        },
{
    let mut out: Vec<WavPackBlock<'a>> = Vec::new();
    let mut rest = bytes;
    let ghost whole = blocks_of(bytes@);
    let ghost mut seen: Seq<Block> = Seq::empty();
    proof {
        if whole is Ok {
            assert(seen + whole->Ok_0 =~= whole->Ok_0);
        }
        assert(block_views(out@) =~= audio_only(seen));
    }
    while rest.len() > 0
        invariant
            whole == blocks_of(bytes@),
            blocks_wf(out@),
            block_subs_wf(out@),
            block_views(out@) == audio_only(seen),
            match blocks_of(rest@) {
                Err(e) => whole == Err::<Seq<Block>, Error>(e),
                Ok(bs) => whole == Ok::<Seq<Block>, Error>(seen + bs),
            },
        decreases rest.len(),
    {
        match parse_block(rest) {
            Err(e) => {
                return Err(e);
            }
            Ok((b, tail)) => {
                let ghost before = seen;
                let ghost one = b@;
                let ghost kept = block_views(out@);
                rest = tail;
                proof {
                    seen = before.push(one);
                    assert(seen.drop_last() =~= before);
                    let later = blocks_of(rest@);
                    if later is Ok {
                        assert(before + (seq![one] + later->Ok_0) =~= seen + later->Ok_0);
                    }
                }
                if b.header.block_samples != 0 {
                    out.push(b);
                    assert(block_views(out@) =~= kept.push(one));
                }
            }
        }
    }
    assert(seen + Seq::empty() =~= seen);
    Ok(out)
}

/// The number of blocks of a stream.
pub fn block_count(bytes: &[u8]) -> (r: Result<usize>)
    ensures
        match blocks_of(bytes@) {
            Err(e) => r == Err::<usize, Error>(e),
            Ok(bs) => r is Ok && r->Ok_0 == bs.len(),
        },
{
    match parse_blocks(bytes) {
        Err(e) => Err(e),
        Ok(bs) => Ok(bs.len()),
    }
}

/// The number of audio blocks of a stream.
pub fn audio_block_count(bytes: &[u8]) -> (r: Result<usize>)
    ensures
        match audio_of(bytes@) {
            Err(e) => r == Err::<usize, Error>(e),
            Ok(bs) => r is Ok && r->Ok_0 == bs.len(),
        },
{
    match parse_audio_blocks(bytes) {
        Err(e) => Err(e),
        Ok(bs) => Ok(bs.len()),
    }
}

/// What a decoded block adds to a stream.
pub open spec fn joined(d: Decoded, e: Decoded, mute: bool) -> Decoded {
    Decoded {
        samples: d.samples + (if mute {
            heard(e)
        } else {
            e.samples
        }),
        ok: d.ok && e.ok,
    }
}

/// The samples of a list of audio blocks.
pub open spec fn decoded_blocks(bs: Seq<Block>, mute: bool) -> core::result::Result<Decoded, Error>
    decreases bs.len(),
{
    if bs.len() == 0 {
        Ok(Decoded { samples: Seq::empty(), ok: true })
    } else {
        match decoded_blocks(bs.drop_last(), mute) {
            Err(e) => Err(e),
            Ok(d) => match decode_block(bs.last()) {
                Err(e) => Err(e),
                Ok(b) => Ok(joined(d, b, mute)),
            },
        }
    }
}

/// The samples of a stream.
pub open spec fn stream_samples(bytes: Seq<u8>, mute: bool) -> core::result::Result<Decoded, Error> {
    match audio_of(bytes) {
        Err(e) => Err(e),
        Ok(bs) => decoded_blocks(bs, mute),
    }
}

/// An error of a prefix is an error of the list.
proof fn lemma_decoded_error(bs: Seq<Block>, k: int, mute: bool)
    requires
        0 <= k <= bs.len(),
        decoded_blocks(bs.take(k), mute) is Err,
    ensures
        decoded_blocks(bs, mute) == decoded_blocks(bs.take(k), mute),
    decreases bs.len(),
{
    if k < bs.len() {
        assert(bs.drop_last().take(k) =~= bs.take(k));
        lemma_decoded_error(bs.drop_last(), k, mute);
    } else {
        assert(bs.take(k) =~= bs);
    }
}

fn decode_all(bytes: &[u8], mute: bool) -> (r: Result<(Vec<i32>, bool)>)
    ensures
        decoded_of(r) == stream_samples(bytes@, mute),
{
    let blocks = match parse_audio_blocks(bytes) {
        Err(e) => {
            return Err(e);
        }
        Ok(b) => b,
    };
    let mut out: Vec<i32> = Vec::new();
    let mut all: bool = true;
    let ghost bs = block_views(blocks@);
    assert(out@ =~= Seq::empty());
    let mut i: usize = 0;
    while i < blocks.len()
        invariant
            i <= blocks.len(),
            bs == block_views(blocks@),
            blocks_wf(blocks@),
            audio_of(bytes@) == Ok::<Seq<Block>, Error>(bs),
            decoded_blocks(bs.take(i as int), mute) == Ok::<Decoded, Error>(Decoded { samples: out@, ok: all }),
        decreases blocks.len() - i,
    {
        proof {
            assert(bs.take(i + 1).drop_last() =~= bs.take(i as int));
            assert(bs[i as int] == blocks@[i as int]@);
        }
        match blocks[i].decode_checked() {
            Err(e) => {
                proof {
                    lemma_decoded_error(bs, i + 1, mute);
                }
                return Err(e);
            }
            Ok((x, ok)) => {
                let ghost before = out@;
                let piece: Vec<i32> = if mute {
                    mute_unless(x, ok)
                } else {
                    x
                };
                out.extend_from_slice(piece.as_slice());
                assert(out@ =~= before + piece@);
                all = all && ok;
            }
        }
        i = i + 1;
    }
    assert(bs.take(i as int) =~= bs);
    Ok((out, all))
}

/// Decodes a stream; the checks are not consulted.
pub fn decode_stream(bytes: &[u8]) -> (r: Result<Vec<i32>>)
    ensures
        match stream_samples(bytes@, false) {
            Err(e) => r is Err && r->Err_0 == e,
            Ok(d) => r is Ok && r->Ok_0@ == d.samples,
        },
{
    match decode_all(bytes, false) {
        Err(e) => Err(e),
        Ok((x, _)) => Ok(x),
    }
}

/// Decodes a stream with silence in place of each block whose checks fail;
/// tells whether all of them hold.
pub fn decode_stream_muted(bytes: &[u8]) -> (r: Result<(Vec<i32>, bool)>)
    ensures
        decoded_of(r) == stream_samples(bytes@, true),
{
    decode_all(bytes, true)
}

/// Whether every block of a list holds floating-point samples.
pub open spec fn all_float(bs: Seq<Block>) -> bool {
    forall|i: int| 0 <= i < bs.len() ==> (#[trigger] bs[i]).header.flags.float_data
}

fn check_float(bytes: &[u8]) -> (r: Result<()>)
    ensures
        match audio_of(bytes@) {
            Err(e) => r == Err::<(), Error>(e),
            Ok(bs) => if all_float(bs) {
                r is Ok
            } else {
                r == Err::<(), Error>(
                    Error::UnsupportedBlockFeature(UnsupportedBlockFeature::IntegerSamples),
                )
            },
        },
{
    let blocks = match parse_audio_blocks(bytes) {
        Err(e) => {
            return Err(e);
        }
        Ok(b) => b,
    };
    let ghost bs = block_views(blocks@);
    let mut i: usize = 0;
    while i < blocks.len()
        invariant
            i <= blocks.len(),
            bs == block_views(blocks@),
            audio_of(bytes@) == Ok::<Seq<Block>, Error>(bs),
            forall|k: int| 0 <= k < i ==> (#[trigger] bs[k]).header.flags.float_data,
        decreases blocks.len() - i,
    {
        assert(bs[i as int] == blocks@[i as int]@);
        if !blocks[i].is_float() {
            return Err(Error::UnsupportedBlockFeature(UnsupportedBlockFeature::IntegerSamples));
        }
        i = i + 1;
    }
    Ok(())
}

/// The bit patterns of a stream of floating-point samples.
pub open spec fn stream_patterns(bytes: Seq<u8>) -> core::result::Result<Seq<u32>, Error> {
    match audio_of(bytes) {
        Err(e) => Err(e),
        Ok(bs) => if !all_float(bs) {
            Err(Error::UnsupportedBlockFeature(UnsupportedBlockFeature::IntegerSamples))
        } else {
            match decoded_blocks(bs, false) {
                Err(e) => Err(e),
                Ok(d) => Ok(words_of(d.samples)),
            }
        },
    }
}

/// Decodes a stream of floating-point samples to their bit patterns.
pub fn decode_stream_patterns(bytes: &[u8]) -> (r: Result<Vec<u32>>)
    ensures
        match stream_patterns(bytes@) {
            Err(e) => r is Err && r->Err_0 == e,
            Ok(x) => r is Ok && r->Ok_0@ == x,
        },
{
    match check_float(bytes) {
        Err(e) => Err(e),
        Ok(()) => match decode_stream(bytes) {
            Err(e) => Err(e),
            Ok(x) => Ok(patterns(x.as_slice())),
        },
    }
}

/// The bit patterns of decoded samples.
pub fn patterns(x: &[i32]) -> (r: Vec<u32>)
    ensures
        r@ == words_of(x@),
{
    let mut out: Vec<u32> = Vec::new();
    let mut i: usize = 0;
    while i < x.len()
        invariant
            i <= x.len(),
            out@ == words_of(x@.take(i as int)),
        decreases x.len() - i,
    {
        out.push(unsigned_word(x[i]));
        i = i + 1;
        assert(out@ =~= words_of(x@.take(i as int)));
    }
    assert(x@.take(i as int) =~= x@);
    out
}

// ---------------------------------------------------------------------------
// Correction streams
// ---------------------------------------------------------------------------

/// How far a correction stream has been used up.
#[verifier::ext_equal]
pub struct Paired {
    /// The samples so far.
    pub decoded: Decoded,
    /// Correction blocks used so far.
    pub used: nat,
}

/// What makes a correction block unfit for a main block.
pub open spec fn pair_error(b: Block, c: Block) -> Option<Error> {
    if c.header.block_index < b.header.block_index {
        Some(
            Error::CorrectionIndexMismatch { main: b.header.block_index, correction: c.header.block_index },
        )
    } else if c.header.block_samples != b.header.block_samples {
        Some(
            Error::CorrectionSampleCountMismatch {
                main: b.header.block_samples,
                correction: c.header.block_samples,
            },
        )
    } else if c.header.flags.mono != b.header.flags.mono {
        Some(Error::CorrectionShapeMismatch(b.header.block_index))
    } else {
        None
    }
}

/// Whether a correction block stands for a main block rather than a later one.
pub open spec fn has_partner(b: Block, cs: Seq<Block>, used: nat) -> bool {
    b.header.flags.hybrid && used < cs.len() && cs[used as int].header.block_index <= b.header.block_index
}

/// One main block decoded, with its correction block where there is one.
pub open spec fn paired_step(b: Block, cs: Seq<Block>, used: nat) -> core::result::Result<(Decoded, nat), Error> {
    if has_partner(b, cs, used) {
        match pair_error(b, cs[used as int]) {
            Some(e) => Err(e),
            None => match decode_pair(b, cs[used as int]) {
                Err(e) => Err(e),
                Ok(d) => Ok((d, used + 1)),
            },
        }
    } else {
        match decode_block(b) {
            Err(e) => Err(e),
            Ok(d) => Ok((d, used)),
        }
    }
}

/// Main blocks decoded along with correction blocks.
pub open spec fn paired_blocks(bs: Seq<Block>, cs: Seq<Block>, mute: bool) -> core::result::Result<Paired, Error>
    decreases bs.len(),
{
    if bs.len() == 0 {
        Ok(Paired { decoded: Decoded { samples: Seq::empty(), ok: true }, used: 0 })
    } else {
        match paired_blocks(bs.drop_last(), cs, mute) {
            Err(e) => Err(e),
            Ok(p) => match paired_step(bs.last(), cs, p.used) {
                Err(e) => Err(e),
                Ok((d, used)) => Ok(Paired { decoded: joined(p.decoded, d, mute), used }),
            },
        }
    }
}

/// The samples of a main stream and its correction stream.
pub open spec fn corrected_samples(main: Seq<u8>, fix: Seq<u8>, mute: bool) -> core::result::Result<Decoded, Error> {
    match audio_of(main) {
        Err(e) => Err(e),
        Ok(bs) => match audio_of(fix) {
            Err(e) => Err(e),
            Ok(cs) => match paired_blocks(bs, cs, mute) {
                Err(e) => Err(e),
                Ok(p) => if p.used < cs.len() {
                    Err(Error::CorrectionBlockSurplus(cs[p.used as int].header.block_index))
                } else {
                    Ok(p.decoded)
                },
            },
        },
    }
}

proof fn lemma_paired_error(bs: Seq<Block>, k: int, cs: Seq<Block>, mute: bool)
    requires
        0 <= k <= bs.len(),
        paired_blocks(bs.take(k), cs, mute) is Err,
    ensures
        paired_blocks(bs, cs, mute) == paired_blocks(bs.take(k), cs, mute),
    decreases bs.len(),
{
    if k < bs.len() {
        assert(bs.drop_last().take(k) =~= bs.take(k));
        lemma_paired_error(bs.drop_last(), k, cs, mute);
    } else {
        assert(bs.take(k) =~= bs);
    }
}

fn find_pair_error(b: &WavPackBlock<'_>, c: &WavPackBlock<'_>) -> (r: Option<Error>)
    ensures
        r == pair_error(b@, c@),
{
    if c.header.block_index < b.header.block_index {
        Some(
            Error::CorrectionIndexMismatch { main: b.header.block_index, correction: c.header.block_index },
        )
    } else if c.header.block_samples != b.header.block_samples {
        Some(
            Error::CorrectionSampleCountMismatch {
                main: b.header.block_samples,
                correction: c.header.block_samples,
            },
        )
    } else if c.header.flags.mono != b.header.flags.mono {
        Some(Error::CorrectionShapeMismatch(b.header.block_index))
    } else {
        None
    }
}

fn decode_partnered(b: &WavPackBlock<'_>, cs: &Vec<WavPackBlock<'_>>, used: usize) -> (r: Result<((Vec<i32>, bool), usize)>)
    requires
        b.wf(),
        blocks_wf(cs@),
        used <= cs@.len(),
    ensures
        match paired_step(b@, block_views(cs@), used as nat) {
            Err(e) => r is Err && r->Err_0 == e,
            Ok((d, next)) => r is Ok && r->Ok_0.0.0@ == d.samples && r->Ok_0.0.1 == d.ok && r->Ok_0.1 == next
                && next <= cs@.len(),
        },
{
    let ghost views = block_views(cs@);
    if b.header.flags.hybrid && used < cs.len() && cs[used].header.block_index <= b.header.block_index {
        assert(views[used as int] == cs@[used as int]@);
        return match find_pair_error(b, &cs[used]) {
            Some(e) => Err(e),
            None => match b.decode_checked_with_correction(&cs[used]) {
                Err(e) => Err(e),
                Ok(d) => Ok((d, used + 1)),
            },
        };
    }
    match b.decode_checked() {
        Err(e) => Err(e),
        Ok(d) => Ok((d, used)),
    }
}

fn decode_paired(main: &[u8], fix: &[u8], mute: bool) -> (r: Result<(Vec<i32>, bool)>)
    ensures
        decoded_of(r) == corrected_samples(main@, fix@, mute),
{
    let blocks = match parse_audio_blocks(main) {
        Err(e) => {
            return Err(e);
        }
        Ok(b) => b,
    };
    let fixes = match parse_audio_blocks(fix) {
        Err(e) => {
            return Err(e);
        }
        Ok(b) => b,
    };
    let mut out: Vec<i32> = Vec::new();
    let mut all: bool = true;
    let mut used: usize = 0;
    let ghost bs = block_views(blocks@);
    let ghost cs = block_views(fixes@);
    assert(out@ =~= Seq::empty());
    let mut i: usize = 0;
    while i < blocks.len()
        invariant
            i <= blocks.len(),
            bs == block_views(blocks@),
            blocks_wf(blocks@),
            cs == block_views(fixes@),
            blocks_wf(fixes@),
            used <= fixes.len(),
            audio_of(main@) == Ok::<Seq<Block>, Error>(bs),
            audio_of(fix@) == Ok::<Seq<Block>, Error>(cs),
            paired_blocks(bs.take(i as int), cs, mute) == Ok::<Paired, Error>(
                Paired { decoded: Decoded { samples: out@, ok: all }, used: used as nat },
            ),
        decreases blocks.len() - i,
    {
        proof {
            assert(bs.take(i + 1).drop_last() =~= bs.take(i as int));
            assert(bs[i as int] == blocks@[i as int]@);
        }
        match decode_partnered(&blocks[i], &fixes, used) {
            Err(e) => {
                proof {
                    lemma_paired_error(bs, i + 1, cs, mute);
                }
                return Err(e);
            }
            Ok(((x, ok), next)) => {
                let ghost before = out@;
                let piece: Vec<i32> = if mute {
                    mute_unless(x, ok)
                } else {
                    x
                };
                out.extend_from_slice(piece.as_slice());
                assert(out@ =~= before + piece@);
                all = all && ok;
                used = next;
            }
        }
        i = i + 1;
    }
    assert(bs.take(i as int) =~= bs);
    if used < fixes.len() {
        assert(cs[used as int] == fixes@[used as int]@);
        return Err(Error::CorrectionBlockSurplus(fixes[used].header.block_index));
    }
    Ok((out, all))
}

/// Decodes a hybrid stream along with its correction stream.
pub fn decode_stream_with_correction(main: &[u8], fix: &[u8]) -> (r: Result<Vec<i32>>)
    ensures
        match corrected_samples(main@, fix@, false) {
            Err(e) => r is Err && r->Err_0 == e,
            Ok(d) => r is Ok && r->Ok_0@ == d.samples,
        },
{
    match decode_paired(main, fix, false) {
        Err(e) => Err(e),
        Ok((x, _)) => Ok(x),
    }
}

/// Decodes a hybrid stream along with its correction stream, with silence in
/// place of each block whose checks fail; tells whether all of them hold.
pub fn decode_stream_with_correction_muted(main: &[u8], fix: &[u8]) -> (r: Result<(Vec<i32>, bool)>)
    ensures
        decoded_of(r) == corrected_samples(main@, fix@, true),
{
    decode_paired(main, fix, true)
}

/// The bit patterns of a hybrid stream of floating-point samples.
pub open spec fn corrected_patterns(main: Seq<u8>, fix: Seq<u8>) -> core::result::Result<Seq<u32>, Error> {
    match audio_of(main) {
        Err(e) => Err(e),
        Ok(bs) => if !all_float(bs) {
            Err(Error::UnsupportedBlockFeature(UnsupportedBlockFeature::IntegerSamples))
        } else {
            match corrected_samples(main, fix, false) {
                Err(e) => Err(e),
                Ok(d) => Ok(words_of(d.samples)),
            }
        },
    }
}

/// Decodes a hybrid stream of floating-point samples along with its
/// correction stream, to bit patterns.
pub fn decode_stream_with_correction_patterns(main: &[u8], fix: &[u8]) -> (r: Result<Vec<u32>>)
    ensures
        match corrected_patterns(main@, fix@) {
            Err(e) => r is Err && r->Err_0 == e,
            Ok(x) => r is Ok && r->Ok_0@ == x,
        },
{
    match check_float(main) {
        Err(e) => Err(e),
        Ok(()) => match decode_stream_with_correction(main, fix) {
            Err(e) => Err(e),
            Ok(x) => Ok(patterns(x.as_slice())),
        },
    }
}

// ---------------------------------------------------------------------------
// Sample rate
// ---------------------------------------------------------------------------

/// The first rate that a block of the list states.
pub open spec fn first_rate(bs: Seq<Block>) -> core::result::Result<Option<u32>, Error>
    decreases bs.len(),
{
    if bs.len() == 0 {
        Ok(None)
    } else {
        match rate_of(bs[0]) {
            Err(e) => Err(e),
            Ok(Some(r)) => Ok(Some(r)),
            Ok(None) => first_rate(bs.skip(1)),
        }
    }
}

/// The rate of a stream.
pub open spec fn stream_rate(bytes: Seq<u8>) -> core::result::Result<Option<u32>, Error> {
    match blocks_of(bytes) {
        Err(e) => Err(e),
        Ok(bs) => first_rate(bs),
    }
}

/// The first rate that a block of the stream states.
pub fn stream_sample_rate(bytes: &[u8]) -> (r: Result<Option<u32>>)
    ensures
        r == stream_rate(bytes@),
{
    let blocks = match parse_blocks(bytes) {
        Err(e) => {
            return Err(e);
        }
        Ok(b) => b,
    };
    let ghost bs = block_views(blocks@);
    assert(bs.skip(0) =~= bs);
    let mut i: usize = 0;
    while i < blocks.len()
        invariant
            i <= blocks.len(),
            bs == block_views(blocks@),
            blocks_wf(blocks@),
            blocks_of(bytes@) == Ok::<Seq<Block>, Error>(bs),
            first_rate(bs) == first_rate(bs.skip(i as int)),
        decreases blocks.len() - i,
    {
        proof {
            assert(bs[i as int] == blocks@[i as int]@);
            assert(bs.skip(i as int)[0] == bs[i as int]);
            assert(bs.skip(i as int).skip(1) =~= bs.skip(i + 1));
        }
        match blocks[i].sample_rate() {
            Err(e) => {
                return Err(e);
            }
            Ok(Some(r)) => {
                return Ok(Some(r));
            }
            Ok(None) => {}
        }
        i = i + 1;
    }
    Ok(None)
}

} // verus!
