//! Stamping a sample rate into a stream.
//!
//! A standard rate is an index in every header. Any other rate is the custom
//! index in every header and a sub-block of its own in the stream's first
//! audio block.
use vstd::prelude::*;
use crate::arith::{get_le32, le32, lemma_le_roundtrip, push_le32, read_le32};
use crate::block::{Block, block_of, blocks_of, coded_samples, decode_block, rate_of};
use crate::block_header::{Flags, SAMPLE_RATE_INDEX_CUSTOM, STANDARD_SAMPLE_RATES, WavPackBlockHeader, flags_of, header_of, parse_block_header, rate_index_from, sample_rate_index_for};
use crate::error::{Error, Result};
use crate::metadata::{Sub, SubBlockId, append_sub_block, bytes_then, chains_join, first_from, payload_in, rate_in, sub_block_roundtrip, sub_bytes, sub_written, walk};
use crate::packed_samples::bytes_of;
use crate::stream::{audio_only, decoded_blocks, stream_rate, stream_samples};

verus! {

/// The header index of a rate, or why it has none.
pub open spec fn stamp_index(rate: u32) -> core::result::Result<u8, Error> {
    if rate == 0 {
        Err(Error::CustomSampleRateOutOfRange(rate))
    } else {
        match rate_index_from(rate, 0) {
            Some(i) => Ok(i),
            None => if rate > 0x00FF_FFFF {
                Err(Error::CustomSampleRateOutOfRange(rate))
            } else {
                Ok(SAMPLE_RATE_INDEX_CUSTOM)
            },
        }
    }
}

/// A flag word with another rate index.
pub open spec fn with_rate_index(raw: u32, index: u8) -> u32 {
    (raw - raw / 0x80_0000 % 16 * 0x80_0000 + index * 0x80_0000) as u32
}

/// The payload of a rate.
pub open spec fn rate_payload(rate: u32) -> Seq<u8> {
    seq![(rate % 256) as u8, (rate / 256 % 256) as u8, (rate / 65536 % 256) as u8]
}

/// A block with another rate index and `extra` bytes behind its metadata.
#[verifier::opaque]
pub open spec fn stamped_block(block: Seq<u8>, index: u8, extra: Seq<u8>) -> Seq<u8> {
    block.take(4) + le32((read_le32(block, 4) + extra.len()) as u32) + block.subrange(8, 24) + le32(
        with_rate_index(read_le32(block, 24), index),
    ) + block.skip(28) + extra
}

/// Whether a block takes the rate sub-block.
pub open spec fn takes_rate(header: WavPackBlockHeader, index: u8, placed: bool) -> bool {
    index == SAMPLE_RATE_INDEX_CUSTOM && !placed && header.block_samples > 0 && header.block_index == 0
}

/// The bytes that stamping adds to a block.
pub open spec fn rate_extra(header: WavPackBlockHeader, index: u8, rate: u32, placed: bool) -> Seq<u8> {
    if takes_rate(header, index, placed) {
        sub_bytes(0x27, rate_payload(rate))->Ok_0
    } else {
        Seq::empty()
    }
}

/// The blocks of a stream with a rate stamped in.
pub open spec fn stamped(bytes: Seq<u8>, index: u8, rate: u32, placed: bool) -> core::result::Result<Seq<u8>, Error>
    decreases bytes.len(),
{
    if bytes.len() == 0 {
        Ok(Seq::empty())
    } else {
        match header_of(bytes) {
            Err(e) => Err(e),
            Ok(header) => if bytes.len() < header.block_len() {
                Err(Error::Truncated)
            } else {
                bytes_then(
                    stamped_block(bytes.take(header.block_len()), index, rate_extra(header, index, rate, placed)),
                    stamped(
                        bytes.skip(header.block_len()),
                        index,
                        rate,
                        placed || takes_rate(header, index, placed),
                    ),
                )
            },
        }
    }
}

/// A stream with a rate stamped in.
pub open spec fn rate_stamped(bytes: Seq<u8>, rate: u32) -> core::result::Result<Seq<u8>, Error> {
    match stamp_index(rate) {
        Err(e) => Err(e),
        Ok(index) => stamped(bytes, index, rate, false),
    }
}

/// The block that takes the rate sub-block leaves room for it in its size field.
pub open spec fn room_for_rate(bytes: Seq<u8>, index: u8, placed: bool) -> bool
    decreases bytes.len(),
{
    match header_of(bytes) {
        Err(_) => true,
        Ok(header) => if bytes.len() < header.block_len() {
            true
        } else if takes_rate(header, index, placed) {
            header.ck_size <= u32::MAX - 6
        } else {
            room_for_rate(bytes.skip(header.block_len()), index, placed)
        },
    }
}

/// A stream leaves room for a rate.
pub open spec fn takes_stamp(bytes: Seq<u8>, rate: u32) -> bool {
    stamp_index(rate) is Ok ==> room_for_rate(bytes, stamp_index(rate)->Ok_0, false)
}

/// Where no rate sub-block is to be added, there is room for it.
proof fn lemma_room_unused(bytes: Seq<u8>, index: u8, placed: bool)
    requires
        placed || index != SAMPLE_RATE_INDEX_CUSTOM,
    ensures
        room_for_rate(bytes, index, placed),
    decreases bytes.len(),
{
    if let Ok(header) = header_of(bytes) {
        if bytes.len() >= header.block_len() {
            lemma_room_unused(bytes.skip(header.block_len()), index, placed);
        }
    }
}

/// Every stream takes a standard rate, and one below four gigabytes takes any.
pub proof fn short_streams_have_room(bytes: Seq<u8>, rate: u32)
    requires
        rate_index_from(rate, 0) is Some || bytes.len() <= u32::MAX,
    ensures
        takes_stamp(bytes, rate),
{
    if let Ok(index) = stamp_index(rate) {
        lemma_index_bound(rate, 0);
        if index == SAMPLE_RATE_INDEX_CUSTOM {
            lemma_room(bytes, index);
        } else {
            lemma_room_unused(bytes, index, false);
        }
    }
}

proof fn lemma_room(bytes: Seq<u8>, index: u8)
    requires
        bytes.len() <= u32::MAX,
    ensures
        room_for_rate(bytes, index, false),
    decreases bytes.len(),
{
    if let Ok(header) = header_of(bytes) {
        if bytes.len() >= header.block_len() {
            lemma_room(bytes.skip(header.block_len()), index);
        }
    }
}

proof fn lemma_rate_bytes(rate: u32)
    ensures
        sub_bytes(0x27, rate_payload(rate)) is Ok,
        sub_bytes(0x27, rate_payload(rate))->Ok_0.len() == 6,
{
}

fn push_range(out: &mut Vec<u8>, bytes: &[u8], from: usize, to: usize)
    requires
        from <= to <= bytes@.len(),
    ensures
        final(out)@ == old(out)@ + bytes@.subrange(from as int, to as int),
{
    let part = &bytes[from..to];
    out.extend_from_slice(part);
    assert(out@ =~= old(out)@ + bytes@.subrange(from as int, to as int));
}

/// Appends one stamped block.
fn append_stamped(out: &mut Vec<u8>, block: &[u8], index: u8, rate: u32, adds: bool)
    requires
        block@.len() >= 32,
        index < 16,
        adds ==> read_le32(block@, 4) <= u32::MAX - 6,
    ensures
        final(out)@ == old(out)@ + stamped_block(
            block@,
            index,
            if adds {
                sub_bytes(0x27, rate_payload(rate))->Ok_0
            } else {
                Seq::empty()
            },
        ),
{
    let ghost before = out@;
    let ghost extra = if adds {
        sub_bytes(0x27, rate_payload(rate))->Ok_0
    } else {
        Seq::empty()
    };
    proof {
        lemma_rate_bytes(rate);
    }
    let ck: u32 = get_le32(block, 4);
    let raw: u32 = get_le32(block, 24);
    push_range(out, block, 0, 4);
    push_le32(
        out,
        if adds {
            ck + 6
        } else {
            ck
        },
    );
    push_range(out, block, 8, 24);
    push_le32(out, raw - raw / 0x80_0000 % 16 * 0x80_0000 + index as u32 * 0x80_0000);
    push_range(out, block, 28, block.len());
    if adds {
        let payload: [u8; 3] = [(rate % 256) as u8, (rate / 256 % 256) as u8, (rate / 65536 % 256) as u8];
        assert(payload@ =~= rate_payload(rate));
        let _done: Result<()> = append_sub_block(out, 0x27, &payload);
    }
    proof {
        assert(block@.take(4) =~= block@.subrange(0, 4));
        assert(block@.skip(28) =~= block@.subrange(28, block@.len() as int));
        reveal(stamped_block);
        assert(out@ =~= before + stamped_block(block@, index, extra));
    }
}

/// Stamps a sample rate into every block of a stream.
pub fn set_stream_sample_rate(stream: &[u8], rate: u32) -> (r: Result<Vec<u8>>)
    requires
        takes_stamp(stream@, rate),
    ensures
        bytes_of(r) == rate_stamped(stream@, rate),
{
    if rate == 0 {
        return Err(Error::CustomSampleRateOutOfRange(rate));
    }
    let index: u8 = match sample_rate_index_for(rate) {
        Some(i) => i,
        None => {
            if rate > 0x00FF_FFFF {
                return Err(Error::CustomSampleRateOutOfRange(rate));
            }
            SAMPLE_RATE_INDEX_CUSTOM
        }
    };
    let custom: bool = index == SAMPLE_RATE_INDEX_CUSTOM;
    let ghost whole = stamped(stream@, index, rate, false);
    let mut out: Vec<u8> = Vec::new();
    let mut rest = stream;
    let mut placed: bool = false;
    proof {
        if whole is Ok {
            assert(out@ + whole->Ok_0 =~= whole->Ok_0);
        }
    }
    while rest.len() > 0
        invariant
            index < 16,
            custom == (index == SAMPLE_RATE_INDEX_CUSTOM),
            stamp_index(rate) == Ok::<u8, Error>(index),
            whole == stamped(stream@, index, rate, false),
            room_for_rate(rest@, index, placed),
            whole == bytes_then(out@, stamped(rest@, index, rate, placed)),
        decreases rest.len(),
    {
        let header: WavPackBlockHeader = match parse_block_header(rest) {
            Err(e) => {
                return Err(e);
            }
            Ok((h, _)) => h,
        };
        let total: u64 = 8 + header.ck_size as u64;
        if (rest.len() as u64) < total {
            return Err(Error::Truncated);
        }
        let n: usize = total as usize;
        let block = &rest[0..n];
        let tail = &rest[n..rest.len()];
        let adds: bool = custom && !placed && header.block_samples > 0 && header.block_index == 0;
        let ghost before = out@;
        proof {
            assert(block@ =~= rest@.take(header.block_len()));
            assert(tail@ =~= rest@.skip(header.block_len()));
            assert(read_le32(block@, 4) == header.ck_size);
        }
        append_stamped(&mut out, block, index, rate, adds);
        proof {
            if adds {
                lemma_room_unused(tail@, index, true);
            }
            let later = stamped(tail@, index, rate, placed || adds);
            let b = stamped_block(block@, index, rate_extra(header, index, rate, placed));
            if later is Ok {
                assert(before + (b + later->Ok_0) =~= out@ + later->Ok_0);
            }
        }
        placed = placed || adds;
        rest = tail;
    }
    assert(out@ + Seq::<u8>::empty() =~= out@);
    Ok(out)
}

// ---------------------------------------------------------------------------
// Reading a stamped stream
// ---------------------------------------------------------------------------

/// Digits below place `d * m * k` do not change with what stands above it.
proof fn lemma_digit_below(lo: int, h: int, d: int, m: int, k: int)
    requires
        d > 0,
        m > 0,
        k > 0,
        lo >= 0,
    ensures
        (lo + d * m * k * h) / d % m == lo / d % m,
{
    let j = m * k * h;
    assert(d * m * k * h == j * d) by (nonlinear_arith)
        requires
            j == m * k * h,
    ;
    vstd::arithmetic::div_mod::lemma_hoist_over_denominator(lo, j, d as nat);
    assert((lo + j * d) / d == lo / d + j);
    assert(j == m * (k * h)) by (nonlinear_arith)
        requires
            j == m * k * h,
    ;
    vstd::arithmetic::div_mod::lemma_mod_multiples_vanish(k * h, lo / d, m);
}

proof fn lemma_bit_below(raw: int, new: int, lo: int, h: int, g: int, d: int, k: int)
    requires
        d > 0,
        k > 0,
        lo >= 0,
        d * 2 * k == 0x80_0000,
        raw == lo + 0x80_0000 * h,
        new == lo + 0x80_0000 * g,
    ensures
        raw / d % 2 == new / d % 2,
{
    lemma_digit_below(lo, h, d, 2, k);
    lemma_digit_below(lo, g, d, 2, k);
}

/// Another rate index changes no other field.
proof fn lemma_rate_index(raw: u32, index: u8)
    requires
        index < 16,
    ensures
        flags_of(with_rate_index(raw, index)) == (Flags {
            raw: with_rate_index(raw, index),
            sample_rate_index: index,
            ..flags_of(raw)
        }),
{
    let r = raw as int;
    let lo = r % 0x80_0000;
    let h = r / 0x80_0000;
    let top = h / 16;
    let g = index + 16 * top;
    let n = lo + 0x80_0000 * g;
    assert(r == lo + 0x80_0000 * h);
    assert(h == h % 16 + 16 * top);
    assert(r - r / 0x80_0000 % 16 * 0x80_0000 + index * 0x80_0000 == n);
    assert(0 <= n <= u32::MAX);
    assert(with_rate_index(raw, index) == n);
    lemma_digit_below(lo, h, 1, 4, 0x20_0000);
    lemma_digit_below(lo, g, 1, 4, 0x20_0000);
    lemma_bit_below(r, n, lo, h, g, 0x4, 0x10_0000);
    lemma_bit_below(r, n, lo, h, g, 0x8, 0x8_0000);
    lemma_bit_below(r, n, lo, h, g, 0x10, 0x4_0000);
    lemma_bit_below(r, n, lo, h, g, 0x20, 0x2_0000);
    lemma_bit_below(r, n, lo, h, g, 0x40, 0x1_0000);
    lemma_bit_below(r, n, lo, h, g, 0x80, 0x8000);
    lemma_bit_below(r, n, lo, h, g, 0x100, 0x4000);
    lemma_bit_below(r, n, lo, h, g, 0x200, 0x2000);
    lemma_bit_below(r, n, lo, h, g, 0x400, 0x1000);
    lemma_bit_below(r, n, lo, h, g, 0x800, 0x800);
    lemma_bit_below(r, n, lo, h, g, 0x1000, 0x400);
    lemma_digit_below(lo, h, 0x2000, 32, 32);
    lemma_digit_below(lo, g, 0x2000, 32, 32);
    lemma_digit_below(lo, h, 0x4_0000, 32, 1);
    lemma_digit_below(lo, g, 0x4_0000, 32, 1);
    assert(n / 0x80_0000 == g && g % 16 == index && g / 16 == top);
    assert(r / 0x2000_0000 == h / 16 / 4 && n / 0x2000_0000 == g / 16 / 4);
    assert(r / 0x4000_0000 == h / 16 / 8 && n / 0x4000_0000 == g / 16 / 8);
    reveal(flags_of);
}

/// The header of a stamped block.
proof fn lemma_stamped_header(block: Seq<u8>, index: u8, extra: Seq<u8>, rest: Seq<u8>)
    requires
        header_of(block) is Ok,
        block.len() == header_of(block)->Ok_0.block_len(),
        header_of(block)->Ok_0.ck_size + extra.len() <= u32::MAX,
        index < 16,
    ensures
        ({
            let h = header_of(block)->Ok_0;
            let s = stamped_block(block, index, extra);
            &&& s.len() == block.len() + extra.len()
            &&& header_of(s + rest) == Ok::<WavPackBlockHeader, Error>(
                WavPackBlockHeader {
                    ck_size: (h.ck_size + extra.len()) as u32,
                    flags: flags_of(with_rate_index(read_le32(block, 24), index)),
                    ..h
                },
            )
            &&& (s + rest).subrange(32, s.len() as int) =~= block.skip(32) + extra
            &&& (s + rest).skip(s.len() as int) =~= rest
        }),
{
    let h = header_of(block)->Ok_0;
    let ck = (read_le32(block, 4) + extra.len()) as u32;
    let raw = with_rate_index(read_le32(block, 24), index);
    reveal(stamped_block);
    let s = stamped_block(block, index, extra);
    let b = s + rest;
    lemma_le_roundtrip(0, ck);
    lemma_le_roundtrip(0, raw);
    assert(b.take(4) =~= block.take(4));
    assert(b[4] == le32(ck)[0] && b[5] == le32(ck)[1] && b[6] == le32(ck)[2] && b[7] == le32(ck)[3]);
    assert(read_le32(b, 4) == read_le32(le32(ck), 0));
    assert forall|i: int| 8 <= i < 24 implies b[i] == block[i] by {}
    assert(b[24] == le32(raw)[0] && b[25] == le32(raw)[1] && b[26] == le32(raw)[2] && b[27] == le32(raw)[3]);
    assert(read_le32(b, 24) == read_le32(le32(raw), 0));
    assert forall|i: int| 28 <= i < block.len() implies b[i] == block[i] by {}
}

/// The sub-blocks that stamping adds to a block.
pub open spec fn rate_subs(header: WavPackBlockHeader, index: u8, rate: u32, placed: bool) -> Seq<Sub> {
    if takes_rate(header, index, placed) {
        seq![sub_written(0x27, rate_payload(rate))]
    } else {
        Seq::empty()
    }
}

proof fn lemma_rate_walk(header: WavPackBlockHeader, index: u8, rate: u32, placed: bool)
    ensures
        walk(rate_extra(header, index, rate, placed)) == Ok::<Seq<Sub>, Error>(
            rate_subs(header, index, rate, placed),
        ),
        rate_extra(header, index, rate, placed).len() <= 6,
{
    lemma_rate_bytes(rate);
    if takes_rate(header, index, placed) {
        let s = sub_bytes(0x27, rate_payload(rate))->Ok_0;
        let none = Seq::<u8>::empty();
        crate::metadata::lemma_walk_written(0x27, rate_payload(rate), none);
        assert(s + none =~= s);
        assert(seq![sub_written(0x27, rate_payload(rate))] + Seq::<Sub>::empty() =~= seq![
            sub_written(0x27, rate_payload(rate)),
        ]);
    }
}

/// A block after stamping.
pub open spec fn restamped(b: Block, index: u8, rate: u32, placed: bool) -> Block {
    let raw = with_rate_index(b.header.flags.raw, index);
    Block {
        header: WavPackBlockHeader {
            ck_size: (b.header.ck_size + rate_extra(b.header, index, rate, placed).len()) as u32,
            flags: Flags { raw, sample_rate_index: index, ..b.header.flags },
            ..b.header
        },
        subs: b.subs + rate_subs(b.header, index, rate, placed),
    }
}

/// A stamped block reads as the block with its rate changed.
proof fn lemma_stamped_block(bytes: Seq<u8>, index: u8, rate: u32, placed: bool, rest: Seq<u8>)
    requires
        block_of(bytes) is Ok,
        room_for_rate(bytes, index, placed),
        index < 16,
    ensures
        ({
            let b = block_of(bytes)->Ok_0.0;
            let block = bytes.take(b.header.block_len());
            block_of(stamped_block(block, index, rate_extra(b.header, index, rate, placed)) + rest) == Ok::<
                (Block, Seq<u8>),
                Error,
            >((restamped(b, index, rate, placed), rest))
        }),
{
    let b = block_of(bytes)->Ok_0.0;
    let n = b.header.block_len();
    let block = bytes.take(n);
    let extra = rate_extra(b.header, index, rate, placed);
    lemma_rate_walk(b.header, index, rate, placed);
    assert(block.take(4) =~= bytes.take(4));
    assert(header_of(block) == header_of(bytes));
    lemma_stamped_header(block, index, extra, rest);
    lemma_rate_index(read_le32(block, 24), index);
    assert(b.header.flags == flags_of(read_le32(block, 24)));
    assert(b.header.flags.raw == read_le32(block, 24)) by {
        reveal(flags_of);
    }
    assert(block.skip(32) =~= bytes.subrange(32, n));
    chains_join(block.skip(32), extra);
}

/// A sub-block of another kind behind a list does not change a lookup.
proof fn lemma_lookup_behind(subs: Seq<Sub>, more: Seq<Sub>, id: SubBlockId, i: int)
    requires
        0 <= i <= subs.len(),
        forall|k: int| 0 <= k < more.len() ==> (#[trigger] more[k]).id != id,
    ensures
        first_from(subs + more, id, i) == first_from(subs, id, i),
    decreases subs.len() - i,
{
    if i < subs.len() {
        assert((subs + more)[i] == subs[i]);
        lemma_lookup_behind(subs, more, id, i + 1);
    } else {
        lemma_lookup_none(subs, more, id, i);
    }
}

proof fn lemma_lookup_none(subs: Seq<Sub>, more: Seq<Sub>, id: SubBlockId, i: int)
    requires
        subs.len() <= i,
        forall|k: int| 0 <= k < more.len() ==> (#[trigger] more[k]).id != id,
    ensures
        first_from(subs + more, id, i) is None,
    decreases (subs + more).len() - i,
{
    if i < (subs + more).len() {
        assert((subs + more)[i] == more[i - subs.len()]);
        lemma_lookup_none(subs, more, id, i + 1);
    }
}

/// Stamping changes no lookup but that of the rate.
proof fn lemma_restamped_lookup(b: Block, index: u8, rate: u32, placed: bool, id: SubBlockId)
    requires
        id != SubBlockId::NonStandardSampleRate,
    ensures
        payload_in(restamped(b, index, rate, placed).subs, id) == payload_in(b.subs, id),
{
    sub_written_is_rate(rate);
    lemma_lookup_behind(b.subs, rate_subs(b.header, index, rate, placed), id, 0);
}

proof fn sub_written_is_rate(rate: u32)
    ensures
        sub_written(0x27, rate_payload(rate)).id == SubBlockId::NonStandardSampleRate,
        sub_written(0x27, rate_payload(rate)).payload == rate_payload(rate),
{
    lemma_rate_bytes(rate);
    sub_block_roundtrip(0x27, rate_payload(rate), Seq::empty());
}

/// Stamping changes no sample and no check.
proof fn lemma_restamped_decodes(b: Block, index: u8, rate: u32, placed: bool)
    ensures
        decode_block(restamped(b, index, rate, placed)) == decode_block(b),
{
    let c = restamped(b, index, rate, placed);
    lemma_restamped_lookup(b, index, rate, placed, SubBlockId::EntropyInfo);
    lemma_restamped_lookup(b, index, rate, placed, SubBlockId::PackedSamples);
    lemma_restamped_lookup(b, index, rate, placed, SubBlockId::DecorrelationTerms);
    lemma_restamped_lookup(b, index, rate, placed, SubBlockId::DecorrelationWeights);
    lemma_restamped_lookup(b, index, rate, placed, SubBlockId::DecorrelationSamples);
    lemma_restamped_lookup(b, index, rate, placed, SubBlockId::HybridProfile);
    lemma_restamped_lookup(b, index, rate, placed, SubBlockId::PackedOverflowBits);
    lemma_restamped_lookup(b, index, rate, placed, SubBlockId::FloatInfo);
    lemma_restamped_lookup(b, index, rate, placed, SubBlockId::Int32Info);
    reveal(decode_block);
    assert(coded_samples(c, None, crate::hybrid::ShapingState::seeded(None, !b.header.flags.one_stream()))
        == coded_samples(b, None, crate::hybrid::ShapingState::seeded(None, !b.header.flags.one_stream())));
}

/// The blocks of a stream after stamping.
pub open spec fn restamped_all(bs: Seq<Block>, index: u8, rate: u32, placed: bool) -> Seq<Block>
    decreases bs.len(),
{
    if bs.len() == 0 {
        Seq::empty()
    } else {
        seq![restamped(bs[0], index, rate, placed)] + restamped_all(
            bs.skip(1),
            index,
            rate,
            placed || takes_rate(bs[0].header, index, placed),
        )
    }
}

/// The first block of a stream, and what is behind it.
proof fn lemma_first_of(bytes: Seq<u8>)
    requires
        blocks_of(bytes) is Ok,
        bytes.len() > 0,
    ensures
        ({
            let (b, rest) = block_of(bytes)->Ok_0;
            &&& block_of(bytes) is Ok && header_of(bytes) == Ok::<WavPackBlockHeader, Error>(b.header)
            &&& b.header.block_len() <= bytes.len()
            &&& rest == bytes.skip(b.header.block_len()) && rest.len() < bytes.len()
            &&& blocks_of(rest) is Ok
            &&& blocks_of(bytes)->Ok_0 == seq![b] + blocks_of(rest)->Ok_0
        }),
{
}

/// A block in front of a stream.
proof fn lemma_in_front(one: Seq<u8>, b: Block, tail: Seq<u8>)
    requires
        one.len() > 0,
        block_of(one + tail) == Ok::<(Block, Seq<u8>), Error>((b, tail)),
        blocks_of(tail) is Ok,
    ensures
        blocks_of(one + tail) == Ok::<Seq<Block>, Error>(seq![b] + blocks_of(tail)->Ok_0),
{
}

/// Stamping a stream stamps its first block, and then the rest.
proof fn lemma_stamped_first(bytes: Seq<u8>, index: u8, rate: u32, placed: bool)
    requires
        blocks_of(bytes) is Ok,
        bytes.len() > 0,
        room_for_rate(bytes, index, placed),
    ensures
        ({
            let (b, rest) = block_of(bytes)->Ok_0;
            let later = placed || takes_rate(b.header, index, placed);
            let block = bytes.take(b.header.block_len());
            let one = stamped_block(block, index, rate_extra(b.header, index, rate, placed));
            &&& room_for_rate(rest, index, later)
            &&& one.len() > 0
            &&& stamped(rest, index, rate, later) is Ok ==> stamped(bytes, index, rate, placed) == Ok::<
                Seq<u8>,
                Error,
            >(one + stamped(rest, index, rate, later)->Ok_0)
        }),
{
    lemma_first_of(bytes);
    let (b, rest) = block_of(bytes)->Ok_0;
    let later = placed || takes_rate(b.header, index, placed);
    let extra = rate_extra(b.header, index, rate, placed);
    let one = stamped_block(bytes.take(b.header.block_len()), index, extra);
    if takes_rate(b.header, index, placed) {
        lemma_room_unused(rest, index, true);
    }
    let block = bytes.take(b.header.block_len());
    assert(block.len() >= 32);
    assert(one.len() == block.len() + extra.len()) by {
        reveal(stamped_block);
    }
    assert(stamped(bytes, index, rate, placed) == bytes_then(one, stamped(rest, index, rate, later)));
}

/// A stamped stream reads as its blocks with their rates changed.
proof fn lemma_stamped_blocks(bytes: Seq<u8>, index: u8, rate: u32, placed: bool)
    requires
        blocks_of(bytes) is Ok,
        room_for_rate(bytes, index, placed),
        index < 16,
    ensures
        stamped(bytes, index, rate, placed) is Ok,
        blocks_of(stamped(bytes, index, rate, placed)->Ok_0) == Ok::<Seq<Block>, Error>(
            restamped_all(blocks_of(bytes)->Ok_0, index, rate, placed),
        ),
    decreases bytes.len(),
{
    if bytes.len() > 0 {
        let (b, rest) = block_of(bytes)->Ok_0;
        let later = placed || takes_rate(b.header, index, placed);
        lemma_first_of(bytes);
        lemma_stamped_first(bytes, index, rate, placed);
        lemma_stamped_blocks(rest, index, rate, later);
        let tail = stamped(rest, index, rate, later)->Ok_0;
        lemma_stamped_block(bytes, index, rate, placed, tail);
        let block = bytes.take(b.header.block_len());
        let one = stamped_block(block, index, rate_extra(b.header, index, rate, placed));
        lemma_in_front(one, restamped(b, index, rate, placed), tail);
        let bs = blocks_of(bytes)->Ok_0;
        assert(bs.skip(1) =~= blocks_of(rest)->Ok_0);
    }
}

proof fn lemma_restamped_audio(bs: Seq<Block>, index: u8, rate: u32, placed: bool, mute: bool)
    ensures
        decoded_blocks(audio_only(restamped_all(bs, index, rate, placed)), mute) == decoded_blocks(audio_only(bs), mute),
{
    lemma_restamped_each(bs, index, rate, placed);
    lemma_alike_decodes(restamped_all(bs, index, rate, placed), bs, mute);
}

/// Two lists of blocks that sound the same, block by block.
pub open spec fn alike(a: Seq<Block>, b: Seq<Block>) -> bool {
    &&& a.len() == b.len()
    &&& forall|i: int|
        0 <= i < a.len() ==> (#[trigger] a[i]).header.block_samples == b[i].header.block_samples && decode_block(a[i])
            == decode_block(b[i])
}

proof fn lemma_restamped_each(bs: Seq<Block>, index: u8, rate: u32, placed: bool)
    ensures
        alike(restamped_all(bs, index, rate, placed), bs),
    decreases bs.len(),
{
    if bs.len() > 0 {
        let later = placed || takes_rate(bs[0].header, index, placed);
        lemma_restamped_each(bs.skip(1), index, rate, later);
        lemma_restamped_decodes(bs[0], index, rate, placed);
        let a = restamped_all(bs, index, rate, placed);
        let more = restamped_all(bs.skip(1), index, rate, later);
        assert forall|i: int| 0 <= i < a.len() implies (#[trigger] a[i]).header.block_samples
            == bs[i].header.block_samples && decode_block(a[i]) == decode_block(bs[i]) by {
            if i > 0 {
                assert(a[i] == more[i - 1]);
                assert(bs[i] == bs.skip(1)[i - 1]);
            }
        }
    }
}

proof fn lemma_alike_decodes(a: Seq<Block>, b: Seq<Block>, mute: bool)
    requires
        alike(a, b),
    ensures
        decoded_blocks(audio_only(a), mute) == decoded_blocks(audio_only(b), mute),
    decreases a.len(),
{
    if a.len() > 0 {
        let n = a.len() - 1;
        let x = a.drop_last();
        let y = b.drop_last();
        assert forall|i: int| 0 <= i < x.len() implies (#[trigger] x[i]).header.block_samples
            == y[i].header.block_samples && decode_block(x[i]) == decode_block(y[i]) by {
            assert(x[i] == a[i] && y[i] == b[i]);
        }
        lemma_alike_decodes(x, y, mute);
        assert(a[n].header.block_samples == b[n].header.block_samples);
        if a.last().header.block_samples != 0 {
            let ka = audio_only(x);
            let kb = audio_only(y);
            assert(ka.push(a.last()).drop_last() =~= ka);
            assert(kb.push(b.last()).drop_last() =~= kb);
        }
    }
}

/// Stamping a rate changes neither the samples of a stream nor its checks.
pub proof fn stamping_keeps_samples(bytes: Seq<u8>, rate: u32, mute: bool)
    requires
        blocks_of(bytes) is Ok,
        takes_stamp(bytes, rate),
        stamp_index(rate) is Ok,
    ensures
        rate_stamped(bytes, rate) is Ok,
        stream_samples(rate_stamped(bytes, rate)->Ok_0, mute) == stream_samples(bytes, mute),
{
    let index = stamp_index(rate)->Ok_0;
    lemma_index_bound(rate, 0);
    lemma_stamped_blocks(bytes, index, rate, false);
    lemma_restamped_audio(blocks_of(bytes)->Ok_0, index, rate, false, mute);
}

proof fn lemma_index_bound(rate: u32, i: int)
    requires
        0 <= i,
    ensures
        match rate_index_from(rate, i) {
            Some(k) => k < 15 && STANDARD_SAMPLE_RATES[k as int] == rate,
            None => true,
        },
    decreases 15 - i,
{
    if i < 15 && STANDARD_SAMPLE_RATES[i] != rate {
        lemma_index_bound(rate, i + 1);
    }
}

/// A stamped stream states its rate. A rate that is no standard one is stated
/// where the stream starts with its first audio and states no such rate there.
pub proof fn stamped_rate_reads_back(bytes: Seq<u8>, rate: u32)
    requires
        blocks_of(bytes) is Ok,
        bytes.len() > 0,
        takes_stamp(bytes, rate),
        stamp_index(rate) is Ok,
        stamp_index(rate)->Ok_0 == SAMPLE_RATE_INDEX_CUSTOM ==> {
            let first = blocks_of(bytes)->Ok_0[0];
            &&& first.header.block_samples > 0
            &&& first.header.block_index == 0
            &&& payload_in(first.subs, SubBlockId::NonStandardSampleRate) is None
        },
    ensures
        rate_stamped(bytes, rate) is Ok,
        stream_rate(rate_stamped(bytes, rate)->Ok_0) == Ok::<Option<u32>, Error>(Some(rate)),
{
    let index = stamp_index(rate)->Ok_0;
    lemma_index_bound(rate, 0);
    lemma_stamped_blocks(bytes, index, rate, false);
    let bs = blocks_of(bytes)->Ok_0;
    let first = bs[0];
    let out = restamped_all(bs, index, rate, false);
    let one = restamped(first, index, rate, false);
    assert(out[0] == one);
    lemma_restamped_rate(first, index, rate);
}

proof fn lemma_rate_value(rate: u32)
    requires
        rate <= 0x00FF_FFFF,
    ensures
        rate_in(rate_payload(rate)) == rate,
{
    let p = rate_payload(rate);
    assert(p[0] == rate % 256 && p[1] == rate / 256 % 256 && p[2] == rate / 65536 % 256);
}

/// A stamped block states its rate.
proof fn lemma_restamped_rate(first: Block, index: u8, rate: u32)
    requires
        stamp_index(rate) == Ok::<u8, Error>(index),
        index == SAMPLE_RATE_INDEX_CUSTOM ==> {
            &&& first.header.block_samples > 0
            &&& first.header.block_index == 0
            &&& payload_in(first.subs, SubBlockId::NonStandardSampleRate) is None
        },
    ensures
        rate_of(restamped(first, index, rate, false)) == Ok::<Option<u32>, Error>(Some(rate)),
{
    let one = restamped(first, index, rate, false);
    lemma_index_bound(rate, 0);
    assert(one.header.flags.sample_rate_index == index);
    if index == SAMPLE_RATE_INDEX_CUSTOM {
        let more = rate_subs(first.header, index, rate, false);
        sub_written_is_rate(rate);
        lemma_lookup_only(first.subs, more, SubBlockId::NonStandardSampleRate, 0);
        lemma_rate_value(rate);
        assert(payload_in(one.subs, SubBlockId::NonStandardSampleRate) == Some(rate_payload(rate)));
    }
}

proof fn lemma_lookup_only(subs: Seq<Sub>, more: Seq<Sub>, id: SubBlockId, i: int)
    requires
        0 <= i <= subs.len(),
        more.len() == 1,
        more[0].id == id,
        first_from(subs, id, i) is None,
    ensures
        first_from(subs + more, id, i) == Some(more[0]),
    decreases subs.len() - i,
{
    if i < subs.len() {
        assert((subs + more)[i] == subs[i]);
        lemma_lookup_only(subs, more, id, i + 1);
    } else {
        assert((subs + more)[i] == more[0]);
    }
}

/// A standard rate adds no byte; any other rate adds six at most.
pub proof fn stamping_adds_little(bytes: Seq<u8>, index: u8, rate: u32, placed: bool)
    requires
        stamped(bytes, index, rate, placed) is Ok,
    ensures
        ({
            let n = stamped(bytes, index, rate, placed)->Ok_0.len();
            &&& index != SAMPLE_RATE_INDEX_CUSTOM || placed ==> n == bytes.len()
            &&& n == bytes.len() || n == bytes.len() + 6
        }),
    decreases bytes.len(),
{
    lemma_rate_bytes(rate);
    if bytes.len() > 0 {
        let header = header_of(bytes)->Ok_0;
        let later = placed || takes_rate(header, index, placed);
        reveal(stamped_block);
        stamping_adds_little(bytes.skip(header.block_len()), index, rate, later);
    }
}

// ---------------------------------------------------------------------------
// Stamping twice
// ---------------------------------------------------------------------------

/// Two streams that differ in the rate index of their block headers alone:
/// bits 23 to 26 of each flag word.
pub open spec fn same_but_rate(s: Seq<u8>, t: Seq<u8>) -> bool
    decreases s.len(),
{
    if s.len() == 0 {
        t.len() == 0
    } else {
        match header_of(s) {
            Err(_) => false,
            Ok(header) => {
                let n = header.block_len();
                let a = read_le32(s, 24);
                let b = read_le32(t, 24);
                &&& n <= s.len() && n <= t.len()
                &&& forall|i: int| 0 <= i < n && !(24 <= i < 28) ==> (#[trigger] t[i]) == s[i]
                &&& b % 0x80_0000 == a % 0x80_0000
                &&& b / 0x800_0000 == a / 0x800_0000
                &&& same_but_rate(s.skip(n), t.skip(n))
            },
        }
    }
}

/// The flag word with another rate index keeps its other bits.
proof fn lemma_index_bits(raw: u32, index: u8)
    requires
        index < 16,
    ensures
        with_rate_index(raw, index) % 0x80_0000 == raw % 0x80_0000,
        with_rate_index(raw, index) / 0x800_0000 == raw / 0x800_0000,
        with_rate_index(raw, index) == raw / 0x800_0000 * 0x800_0000 + index * 0x80_0000 + raw % 0x80_0000,
{
    let lo = raw % 0x80_0000;
    let h = raw / 0x80_0000;
    let top = raw / 0x800_0000;
    assert(h / 16 == top && h == h % 16 + 16 * top);
    let n = top * 0x800_0000 + index * 0x80_0000 + lo;
    assert(raw - h % 16 * 0x80_0000 + index * 0x80_0000 == n);
    assert(0 <= n <= u32::MAX);
}

/// The last of two indices stays.
proof fn lemma_index_twice(raw: u32, a: u8, b: u8)
    requires
        a < 16,
        b < 16,
    ensures
        with_rate_index(with_rate_index(raw, a), b) == with_rate_index(raw, b),
{
    lemma_index_bits(raw, a);
    lemma_index_bits(raw, b);
    lemma_index_bits(with_rate_index(raw, a), b);
}

/// The last of two stamps on a block stays.
proof fn lemma_block_twice(block: Seq<u8>, a: u8, b: u8)
    requires
        header_of(block) is Ok,
        block.len() == header_of(block)->Ok_0.block_len(),
        a < 16,
        b < 16,
    ensures
        stamped_block(stamped_block(block, a, Seq::empty()), b, Seq::empty()) == stamped_block(block, b, Seq::empty()),
{
    let none = Seq::<u8>::empty();
    let one = stamped_block(block, a, none);
    let raw = read_le32(block, 24);
    lemma_stamped_bytes(block, a, none);
    lemma_index_twice(raw, a, b);
    reveal(stamped_block);
    assert(one.take(4) =~= block.take(4));
    assert(one.subrange(8, 24) =~= block.subrange(8, 24));
    assert(one.skip(28) =~= block.skip(28));
}

/// What stands where in a stamped block before more bytes.
proof fn lemma_stamped_bytes(block: Seq<u8>, index: u8, rest: Seq<u8>)
    requires
        block.len() >= 32,
        index < 16,
    ensures
        ({
            let one = stamped_block(block, index, Seq::empty());
            let all = one + rest;
            &&& one.len() == block.len()
            &&& read_le32(all, 4) == read_le32(block, 4)
            &&& read_le32(one, 4) == read_le32(block, 4)
            &&& read_le32(all, 24) == with_rate_index(read_le32(block, 24), index)
            &&& read_le32(one, 24) == with_rate_index(read_le32(block, 24), index)
            &&& forall|i: int| 0 <= i < block.len() && !(24 <= i < 28) ==> (#[trigger] all[i]) == block[i]
            &&& forall|i: int| 0 <= i < block.len() && !(24 <= i < 28) ==> (#[trigger] one[i]) == block[i]
        }),
{
    let none = Seq::<u8>::empty();
    let one = stamped_block(block, index, none);
    let all = one + rest;
    let ck = read_le32(block, 4);
    let raw = with_rate_index(read_le32(block, 24), index);
    reveal(stamped_block);
    lemma_le_roundtrip(0, ck);
    lemma_le_roundtrip(0, raw);
    lemma_le_bytes(block, 4);
    assert(one[4] == le32(ck)[0] && one[5] == le32(ck)[1] && one[6] == le32(ck)[2] && one[7] == le32(ck)[3]);
    assert(one[24] == le32(raw)[0] && one[25] == le32(raw)[1] && one[26] == le32(raw)[2] && one[27] == le32(raw)[3]);
    assert(read_le32(one, 4) == read_le32(le32(ck), 0));
    assert(read_le32(one, 24) == read_le32(le32(raw), 0));
    assert(all[4] == one[4] && all[5] == one[5] && all[6] == one[6] && all[7] == one[7]);
    assert(all[24] == one[24] && all[25] == one[25] && all[26] == one[26] && all[27] == one[27]);
    assert forall|i: int| 0 <= i < block.len() && !(24 <= i < 28) implies (#[trigger] one[i]) == block[i] by {
        if 4 <= i < 8 {
            assert(one[i] == le32(ck)[i - 4]);
        }
    }
    assert forall|i: int| 0 <= i < block.len() && !(24 <= i < 28) implies (#[trigger] all[i]) == block[i] by {
        assert(all[i] == one[i]);
    }
}

/// A word written again is its own bytes.
proof fn lemma_le_bytes(s: Seq<u8>, at: int)
    requires
        0 <= at,
        at + 4 <= s.len(),
    ensures
        le32(read_le32(s, at)) == seq![s[at], s[at + 1], s[at + 2], s[at + 3]],
{
    assert(le32(read_le32(s, at)) =~= seq![s[at], s[at + 1], s[at + 2], s[at + 3]]);
}

/// Stamping with an index that adds nothing.
proof fn lemma_stamp_twice(bytes: Seq<u8>, a: u8, b: u8, rate: u32, next: u32)
    requires
        a < SAMPLE_RATE_INDEX_CUSTOM,
        b < SAMPLE_RATE_INDEX_CUSTOM,
        stamped(bytes, a, rate, false) is Ok,
    ensures
        same_but_rate(bytes, stamped(bytes, a, rate, false)->Ok_0),
        stamped(bytes, a, rate, false)->Ok_0.len() == bytes.len(),
        stamped(stamped(bytes, a, rate, false)->Ok_0, b, next, false) == stamped(bytes, b, next, false),
    decreases bytes.len(),
{
    let none = Seq::<u8>::empty();
    if bytes.len() > 0 {
        let header = header_of(bytes)->Ok_0;
        let n = header.block_len();
        let block = bytes.take(n);
        let rest = bytes.skip(n);
        lemma_stamp_twice(rest, a, b, rate, next);
        let tail = stamped(rest, a, rate, false)->Ok_0;
        let one = stamped_block(block, a, none);
        let out = one + tail;
        assert(stamped(bytes, a, rate, false)->Ok_0 == out);
        assert(block.take(4) =~= bytes.take(4));
        assert(header_of(block) == header_of(bytes));
        assert(rate_extra(header, a, rate, false) =~= none);
        lemma_stamped_header(block, a, none, tail);
        lemma_stamped_bytes(block, a, tail);
        let after = header_of(out)->Ok_0;
        assert(after.block_len() == n);
        assert(out.take(n) =~= one);
        assert(out.skip(n) =~= tail);
        lemma_block_twice(block, a, b);
        assert(read_le32(bytes, 24) == read_le32(block, 24));
        lemma_index_bits(read_le32(block, 24), a);
        assert forall|i: int| 0 <= i < n && !(24 <= i < 28) implies (#[trigger] out[i]) == bytes[i] by {
            assert(block[i] == bytes[i]);
        }
    }
}

/// Stamping a standard rate changes the rate index of each block header and
/// nothing else, and of two standard rates the last one stays.
pub proof fn last_standard_rate_stays(bytes: Seq<u8>, rate: u32, next: u32)
    requires
        rate_index_from(rate, 0) is Some,
        rate_index_from(next, 0) is Some,
        rate_stamped(bytes, rate) is Ok,
    ensures
        rate_stamped(rate_stamped(bytes, rate)->Ok_0, next) == rate_stamped(bytes, next),
        rate_stamped(bytes, rate)->Ok_0.len() == bytes.len(),
        same_but_rate(bytes, rate_stamped(bytes, rate)->Ok_0),
{
    lemma_index_bound(rate, 0);
    lemma_index_bound(next, 0);
    lemma_stamp_twice(bytes, stamp_index(rate)->Ok_0, stamp_index(next)->Ok_0, rate, next);
}

/// Stamping a standard rate again changes nothing.
pub proof fn standard_rates_stamp_once(bytes: Seq<u8>, rate: u32)
    requires
        rate_index_from(rate, 0) is Some,
        rate_stamped(bytes, rate) is Ok,
    ensures
        rate_stamped(rate_stamped(bytes, rate)->Ok_0, rate) == rate_stamped(bytes, rate),
{
    last_standard_rate_stays(bytes, rate, rate);
}

/// A rate of its own goes behind the sub-blocks of one block at most: the first
/// that holds samples from the first frame on. Every block gets the index of the
/// rate, and keeps all else.
pub proof fn rates_go_to_the_first_frame(bs: Seq<Block>, index: u8, rate: u32, placed: bool, k: int)
    requires
        0 <= k < bs.len(),
    ensures
        ({
            let out = restamped_all(bs, index, rate, placed);
            let h = bs[k].header;
            let first = index == 15 && !placed && h.block_samples > 0 && h.block_index == 0 && (forall|j: int|
                0 <= j < k ==> (#[trigger] bs[j]).header.block_samples == 0 || bs[j].header.block_index != 0);
            &&& out.len() == bs.len()
            &&& out[k].header.flags.sample_rate_index == index
            &&& out[k].header.block_index == h.block_index && out[k].header.block_samples == h.block_samples
            &&& out[k].header.total_samples == h.total_samples && out[k].header.crc == h.crc
            &&& !first ==> out[k].subs == bs[k].subs
            &&& first ==> out[k].subs.len() == bs[k].subs.len() + 1 && out[k].subs.last().payload == rate_payload(rate)
        }),
    decreases k,
{
    let out = restamped_all(bs, index, rate, placed);
    let later = placed || takes_rate(bs[0].header, index, placed);
    sub_written_is_rate(rate);
    lemma_restamped_len(bs.skip(1), index, rate, later);
    if k == 0 {
        assert(out[0] == restamped(bs[0], index, rate, placed));
        assert(bs[0].subs + Seq::<Sub>::empty() =~= bs[0].subs);
    } else {
        let rest = bs.skip(1);
        rates_go_to_the_first_frame(rest, index, rate, later, k - 1);
        assert(out[k] == restamped_all(rest, index, rate, later)[k - 1]);
        assert(rest[k - 1] == bs[k]);
        let h = bs[k].header;
        let here = index == 15 && !placed && h.block_samples > 0 && h.block_index == 0 && (forall|j: int|
            0 <= j < k ==> (#[trigger] bs[j]).header.block_samples == 0 || bs[j].header.block_index != 0);
        let there = index == 15 && !later && h.block_samples > 0 && h.block_index == 0 && (forall|j: int|
            0 <= j < k - 1 ==> (#[trigger] rest[j]).header.block_samples == 0 || rest[j].header.block_index != 0);
        if here {
            assert(bs[0].header.block_samples == 0 || bs[0].header.block_index != 0);
            assert forall|j: int| 0 <= j < k - 1 implies (#[trigger] rest[j]).header.block_samples == 0
                || rest[j].header.block_index != 0 by {
                assert(rest[j] == bs[j + 1]);
            }
            assert(there);
        }
        if there {
            assert forall|j: int| 0 <= j < k implies (#[trigger] bs[j]).header.block_samples == 0
                || bs[j].header.block_index != 0 by {
                if j > 0 {
                    assert(bs[j] == rest[j - 1]);
                }
            }
            assert(here);
        }
    }
}

proof fn lemma_restamped_len(bs: Seq<Block>, index: u8, rate: u32, placed: bool)
    ensures
        restamped_all(bs, index, rate, placed).len() == bs.len(),
    decreases bs.len(),
{
    if bs.len() > 0 {
        lemma_restamped_len(bs.skip(1), index, rate, placed || takes_rate(bs[0].header, index, placed));
    }
}

} // verus!
