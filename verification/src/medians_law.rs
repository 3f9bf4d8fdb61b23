//! What the stored medians of a block are for: the first set for the words of
//! the first channel, the second set for those of the second.
use vstd::prelude::*;
use crate::bits::{byte_bits, pack_bits};
use crate::block::{Block, Decoded, MAX_DECODE_SAMPLES_PER_BLOCK, block_of, coded_samples, decode_block, layout_of, levels_in, median_at, medians_of, second_sides, slot_count, some_cross, zero_medians};
use crate::block_header::{Flags, MIN_CK_SIZE, fields_fit, flag_word, flag_word_roundtrip};
use crate::block_law::{Place, holds, lemma_framed, lemma_no_passes, lemma_shift_none, lemma_single};
use crate::block_writer::{chain_bytes, chain_subs, entropy_payload, framed, ids_fit, lemma_chain_lookup, lemma_entry_concat};
use crate::crc::{CRC_INIT, crc_over};
use crate::decorrelation::PassState;
use crate::encode_stream::lemma_holds_stream;
use crate::error::Error;
use crate::hybrid::{HybridState, ShapingState};
use crate::hybrid_stream::hybrid_start;
use crate::hybrid_words::{encode_hybrid, lemma_hybrid_roundtrip};
use crate::logpack::{lemma_word_roundtrip, quantized, signed_log, word_bytes};
use crate::metadata::{SubBlockId, id_named, payload_in};
use crate::packed_samples::{Coder, encode_words, lemma_padded_bits, padded, payload_of, payload_roundtrip, second};
use crate::samples::AdaptiveMedians;
use crate::stream::stream_samples;

verus! {

/// Medians that log words hold exactly.
pub open spec fn stored_exactly(m: AdaptiveMedians) -> bool {
    &&& m.m0 < 0x8000_0000 && quantized(m.m0 as i32) == m.m0
    &&& m.m1 < 0x8000_0000 && quantized(m.m1 as i32) == m.m1
    &&& m.m2 < 0x8000_0000 && quantized(m.m2 as i32) == m.m2
}

/// The three words of a set of medians.
pub open spec fn median_words(m: AdaptiveMedians) -> Seq<u8> {
    word_bytes(signed_log(m.m0 as i32)) + word_bytes(signed_log(m.m1 as i32)) + word_bytes(signed_log(m.m2 as i32))
}

/// The payload of the medians `a` of the first channel and `b` of the second.
pub open spec fn medians_payload(stereo: bool, a: AdaptiveMedians, b: AdaptiveMedians) -> Seq<u8> {
    if stereo {
        median_words(a) + median_words(b)
    } else {
        median_words(a)
    }
}

/// A payload of medians seeds its first set for the first channel, and its
/// second for the second.
pub proof fn medians_seed_their_channels(stereo: bool, a: AdaptiveMedians, b: AdaptiveMedians)
    requires
        stored_exactly(a),
        stored_exactly(b),
        !stereo ==> b == zero_medians(),
    ensures
        medians_of(medians_payload(stereo, a, b), stereo) == Ok::<(AdaptiveMedians, AdaptiveMedians), Error>((a, b)),
{
    let p = medians_payload(stereo, a, b);
    lemma_word_roundtrip(a.m0 as i32);
    lemma_word_roundtrip(a.m1 as i32);
    lemma_word_roundtrip(a.m2 as i32);
    lemma_word_roundtrip(b.m0 as i32);
    lemma_word_roundtrip(b.m1 as i32);
    lemma_word_roundtrip(b.m2 as i32);
    assert(median_at(p, 0) == a.m0 && median_at(p, 1) == a.m1 && median_at(p, 2) == a.m2);
    if stereo {
        assert(median_at(p, 3) == b.m0 && median_at(p, 4) == b.m1 && median_at(p, 5) == b.m2);
    }
}

/// A coder reads the first slot of a stereo block by the first set of medians
/// and the second by the second set, and so on in turn. A word moves the
/// medians of its own channel only.
pub proof fn coders_take_turns(a: AdaptiveMedians, b: AdaptiveMedians, i: int, z: nat)
    requires
        i >= 0,
    ensures
        Coder::start(a, b).medians(second(2 * i, true)) == a,
        Coder::start(a, b).medians(second(2 * i + 1, true)) == b,
        Coder::start(a, b).medians(second(i, false)) == a,
        Coder::start(a, b).coded(second(2 * i, true), z).b == b,
        Coder::start(a, b).coded(second(2 * i + 1, true), z).a == a,
{
}

/// A block without passes, shift, mid and side or a format of its own, whose
/// samples `x` are packed from the medians that it stores.
pub open spec fn packs_from_medians(b: Block, x: Seq<i32>, stereo: bool, a: AdaptiveMedians, c: AdaptiveMedians) -> bool {
    let f = b.header.flags;
    let packed = payload_of(encode_words(x, 0, stereo, Coder::start(a, c)));
    &&& f.mono == !stereo && !f.false_stereo && !f.joint_stereo && !f.hybrid
    &&& !f.float_data && !f.int32_mode && f.left_shift == 0
    &&& 0 < b.header.block_samples <= MAX_DECODE_SAMPLES_PER_BLOCK
    &&& x.len() == (if stereo {
        2 * b.header.block_samples
    } else {
        b.header.block_samples as int
    })
    &&& packed is Ok
    &&& payload_in(b.subs, SubBlockId::EntropyInfo) == Some(medians_payload(stereo, a, c))
    &&& payload_in(b.subs, SubBlockId::PackedSamples) == Some(packed->Ok_0)
    &&& payload_in(b.subs, SubBlockId::DecorrelationTerms) is None
    &&& payload_in(b.subs, SubBlockId::DecorrelationWeights) is None
    &&& payload_in(b.subs, SubBlockId::DecorrelationSamples) is None
    &&& payload_in(b.subs, SubBlockId::PackedOverflowBits) is None
}

/// A block decodes its first channel's words from the first set of medians that
/// it stores, and its second channel's from the second: it gives back the
/// samples that were packed from them, and its check is right where it is over
/// them.
pub proof fn stored_medians_decode(b: Block, x: Seq<i32>, stereo: bool, a: AdaptiveMedians, c: AdaptiveMedians)
    requires
        packs_from_medians(b, x, stereo, a, c),
        stored_exactly(a),
        stored_exactly(c),
        !stereo ==> c == zero_medians(),
    ensures
        decode_block(b) == Ok::<Decoded, Error>(
            Decoded { samples: x, ok: crc_over(x, CRC_INIT) == b.header.crc },
        ),
{
    reveal(decode_block);
    medians_seed_their_channels(stereo, a, c);
    payload_roundtrip(x, stereo, a, c);
    lemma_no_passes(x, !stereo);
    lemma_shift_none(x);
    let shape = ShapingState::seeded(None, stereo);
    assert(slot_count(b.header) == x.len());
    assert(coded_samples(b, None, shape)->Ok_0.lossy == x);
}

/// The entries of a block that holds medians and packed words only.
pub open spec fn median_entries(stereo: bool, a: AdaptiveMedians, b: AdaptiveMedians, packed: Seq<u8>) -> Seq<
    (u8, Seq<u8>),
> {
    seq![(0x05u8, medians_payload(stereo, a, b))] + seq![(0x0Au8, packed)]
}

proof fn lemma_median_entries(stereo: bool, a: AdaptiveMedians, b: AdaptiveMedians, packed: Seq<u8>)
    ensures
        ({
            let es = median_entries(stereo, a, b, packed);
            let subs = chain_subs(es);
            &&& ids_fit(es)
            &&& payload_in(subs, SubBlockId::EntropyInfo) == Some(medians_payload(stereo, a, b))
            &&& payload_in(subs, SubBlockId::PackedSamples) == Some(packed)
            &&& payload_in(subs, SubBlockId::DecorrelationTerms) is None
            &&& payload_in(subs, SubBlockId::DecorrelationWeights) is None
            &&& payload_in(subs, SubBlockId::DecorrelationSamples) is None
            &&& payload_in(subs, SubBlockId::PackedOverflowBits) is None
        }),
{
    let p = (0x05u8, medians_payload(stereo, a, b));
    let q = (0x0Au8, packed);
    let es = median_entries(stereo, a, b, packed);
    assert forall|id: u8| id < 64 implies #[trigger] payload_in(chain_subs(es), id_named(id)) == (if id == 5 {
        Some(p.1)
    } else if id == 10 {
        Some(q.1)
    } else {
        None
    }) by {
        lemma_chain_lookup(es, id);
        lemma_entry_concat(seq![p], seq![q], id);
        lemma_single(p, id);
        lemma_single(q, id);
    }
    assert(id_named(0x05) == SubBlockId::EntropyInfo);
    assert(id_named(0x0A) == SubBlockId::PackedSamples);
    assert(id_named(0x02) == SubBlockId::DecorrelationTerms);
    assert(id_named(0x03) == SubBlockId::DecorrelationWeights);
    assert(id_named(0x04) == SubBlockId::DecorrelationSamples);
    assert(id_named(0x0C) == SubBlockId::PackedOverflowBits);
}

/// The bytes of a block around stored medians and the samples `x` packed from
/// them decode to `x`, for all medians that log words hold.
pub proof fn stored_medians_roundtrip(
    x: Seq<i32>,
    f: Flags,
    a: AdaptiveMedians,
    b: AdaptiveMedians,
    block_index: u32,
    total_samples: u32,
    block_samples: u32,
    mute: bool,
)
    requires
        fields_fit(f),
        !f.false_stereo && !f.joint_stereo && !f.hybrid && !f.float_data && !f.int32_mode && f.left_shift == 0,
        0 < block_samples <= MAX_DECODE_SAMPLES_PER_BLOCK,
        x.len() == (if f.mono {
            block_samples as int
        } else {
            2 * block_samples
        }),
        stored_exactly(a),
        stored_exactly(b),
        f.mono ==> b == zero_medians(),
        payload_of(encode_words(x, 0, !f.mono, Coder::start(a, b))) is Ok,
        ({
            let packed = payload_of(encode_words(x, 0, !f.mono, Coder::start(a, b)))->Ok_0;
            let meta = chain_bytes(median_entries(!f.mono, a, b, packed));
            meta is Ok && meta->Ok_0.len() + MIN_CK_SIZE <= u32::MAX
        }),
    ensures
        ({
            let packed = payload_of(encode_words(x, 0, !f.mono, Coder::start(a, b)))->Ok_0;
            let meta = chain_bytes(median_entries(!f.mono, a, b, packed))->Ok_0;
            let bytes = framed(
                meta,
                block_index,
                total_samples,
                block_samples,
                flag_word(f) as u32,
                crc_over(x, CRC_INIT),
            )->Ok_0;
            stream_samples(bytes, mute) == Ok::<Decoded, Error>(Decoded { samples: x, ok: true })
        }),
{
    let packed = payload_of(encode_words(x, 0, !f.mono, Coder::start(a, b)))->Ok_0;
    let es = median_entries(!f.mono, a, b, packed);
    let meta = chain_bytes(es)->Ok_0;
    let word = flag_word(f) as u32;
    let crc = crc_over(x, CRC_INIT);
    let bytes = framed(meta, block_index, total_samples, block_samples, word, crc)->Ok_0;
    let none = Seq::<u8>::empty();
    lemma_median_entries(!f.mono, a, b, packed);
    flag_word_roundtrip(f);
    lemma_framed(es, block_index, total_samples, block_samples, word, crc, none);
    assert(bytes + none =~= bytes);
    let blk = block_of(bytes)->Ok_0.0;
    assert forall|rest: Seq<u8>| #[trigger]
        block_of(bytes + rest) == Ok::<(Block, Seq<u8>), Error>((blk, rest)) by {
        lemma_framed(es, block_index, total_samples, block_samples, word, crc, rest);
    }
    assert(packs_from_medians(blk, x, !f.mono, a, b));
    stored_medians_decode(blk, x, !f.mono, a, b);
    let at = Place {
        frames: block_samples as int,
        index: block_index,
        total: total_samples,
        mono: f.mono,
        float: false,
        start: f.multichannel_start,
        end: f.multichannel_end,
    };
    reveal(holds);
    assert(holds(bytes, x, at));
    lemma_holds_stream(bytes, x, at, mute);
}

/// A hybrid block without passes decodes its words from the medians that it
/// stores, each channel's from its own set: alone it gives the lossy samples of
/// the words that were coded from them, with the correction words the samples.
pub proof fn stored_medians_decode_hybrid(
    b: Block,
    x: Seq<i32>,
    a: AdaptiveMedians,
    c: AdaptiveMedians,
    level: HybridState,
    shape: ShapingState,
    correction: bool,
)
    requires
        b.header.flags.hybrid,
        0 < b.header.block_samples <= MAX_DECODE_SAMPLES_PER_BLOCK,
        x.len() == slot_count(b.header),
        stored_exactly(a),
        stored_exactly(c),
        b.header.flags.one_stream() ==> c == zero_medians(),
        payload_in(b.subs, SubBlockId::EntropyInfo) == Some(medians_payload(!b.header.flags.one_stream(), a, c)),
        payload_in(b.subs, SubBlockId::DecorrelationTerms) is None,
        payload_in(b.subs, SubBlockId::DecorrelationWeights) is None,
        payload_in(b.subs, SubBlockId::DecorrelationSamples) is None,
        payload_in(b.subs, SubBlockId::HybridProfile) is Some,
        levels_in(payload_in(b.subs, SubBlockId::HybridProfile)->Some_0, !b.header.flags.one_stream()) == Ok::<
            HybridState,
            Error,
        >(level),
        ({
            let start = hybrid_start(Coder::start(a, c), level, Seq::empty(), Seq::empty(), shape);
            let o = encode_hybrid(x, 0, layout_of(b.header.flags), start, correction);
            o is Ok && payload_in(b.subs, SubBlockId::PackedSamples) == Some(padded(pack_bits(o->Ok_0.main)))
        }),
    ensures
        ({
            let start = hybrid_start(Coder::start(a, c), level, Seq::empty(), Seq::empty(), shape);
            let o = encode_hybrid(x, 0, layout_of(b.header.flags), start, correction)->Ok_0;
            let alone = coded_samples(b, None, shape);
            let both = coded_samples(b, Some(padded(pack_bits(o.fix))), shape);
            &&& alone is Ok && alone->Ok_0.lossy == o.lossy
            &&& correction ==> both is Ok && both->Ok_0.lossy == o.lossy && both->Ok_0.exact == x
        }),
{
    let m = layout_of(b.header.flags);
    let none = Seq::<PassState>::empty();
    let start = hybrid_start(Coder::start(a, c), level, none, none, shape);
    let o = encode_hybrid(x, 0, m, start, correction)->Ok_0;
    medians_seed_their_channels(!b.header.flags.one_stream(), a, c);
    assert(second_sides(none) =~= none);
    assert(!some_cross(none));
    lemma_padded_bits(o.main);
    lemma_padded_bits(o.fix);
    let t1 = choose|t: Seq<bool>| byte_bits(padded(pack_bits(o.main))) == o.main + t;
    let t2 = choose|t: Seq<bool>| byte_bits(padded(pack_bits(o.fix))) == o.fix + t;
    lemma_hybrid_roundtrip(x, 0, m, start, start, correction, false, t1, t2);
    if correction {
        lemma_hybrid_roundtrip(x, 0, m, start, start, correction, true, t1, t2);
    }
    assert(x.skip(0) =~= x);
}

/// The payload that is written for medians is the payload that seeds them: the
/// sets one behind the other, three words each.
pub proof fn written_medians_are_stored(a: [i32; 3], b: [i32; 3])
    requires
        forall|k: int| 0 <= k < 3 ==> #[trigger] a[k] >= 0 && quantized(a[k]) == a[k],
        forall|k: int| 0 <= k < 3 ==> #[trigger] b[k] >= 0 && quantized(b[k]) == b[k],
    ensures
        ({
            let m = AdaptiveMedians { m0: a[0] as u32, m1: a[1] as u32, m2: a[2] as u32 };
            let n = AdaptiveMedians { m0: b[0] as u32, m1: b[1] as u32, m2: b[2] as u32 };
            &&& entropy_payload(seq![a]) == medians_payload(false, m, n)
            &&& entropy_payload(seq![a, b]) == medians_payload(true, m, n)
        }),
{
    assert(a[0] >= 0 && a[1] >= 0 && a[2] >= 0 && b[0] >= 0 && b[1] >= 0 && b[2] >= 0);
    let m = AdaptiveMedians { m0: a[0] as u32, m1: a[1] as u32, m2: a[2] as u32 };
    let n = AdaptiveMedians { m0: b[0] as u32, m1: b[1] as u32, m2: b[2] as u32 };
    assert(seq![a].drop_last() =~= Seq::empty());
    assert(entropy_payload(Seq::empty()) =~= Seq::<u8>::empty());
    assert(seq![a, b].drop_last() =~= seq![a]);
    assert(entropy_payload(seq![a]) =~= median_words(m));
    assert(entropy_payload(seq![a, b]) =~= median_words(m) + median_words(n));
}

/// Medians are one set or two, a stereo block needs two, and none of them is
/// negative.
pub proof fn medians_are_whole_sets(p: Seq<u8>, stereo: bool)
    ensures
        medians_of(p, stereo) is Ok <==> {
            &&& p.len() == 12 || (p.len() == 6 && !stereo)
            &&& median_at(p, 0) >= 0 && median_at(p, 1) >= 0 && median_at(p, 2) >= 0
            &&& stereo ==> median_at(p, 3) >= 0 && median_at(p, 4) >= 0 && median_at(p, 5) >= 0
        },
        medians_of(p, stereo) is Ok ==> {
            let (a, b) = medians_of(p, stereo)->Ok_0;
            &&& a.m0 == median_at(p, 0) && a.m1 == median_at(p, 1) && a.m2 == median_at(p, 2)
            &&& stereo ==> b.m0 == median_at(p, 3) && b.m1 == median_at(p, 4) && b.m2 == median_at(p, 5)
            &&& !stereo ==> b.m0 == 0 && b.m1 == 0 && b.m2 == 0
        },
        p.len() != 6 && p.len() != 12 ==> medians_of(p, stereo) == Err::<(AdaptiveMedians, AdaptiveMedians), Error>(
            Error::EntropyInfoLength(p.len() as usize),
        ),
{
}

} // verus!
