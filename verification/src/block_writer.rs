//! Writing one lossless block.
//!
//! The samples of a block are narrowed by its shift, turned into mid and side
//! where the block is joint, run through its decorrelation passes, and packed.
//! The header's check covers the narrowed samples.
use vstd::prelude::*;
use vstd::arithmetic::power2::{pow2, lemma_pow2_pos, lemma2_to64};
use crate::arith::{bit_length, bit_length_u32, floor_shr, pow2_u64, wrap_i32};
use crate::block_header::{Flags, MIN_CK_SIZE, flag_word, header_bytes, push_header};
use crate::crc::{CRC_INIT, crc_mono, crc_over, crc_stereo_interleaved, left_right, lemma_joint_inverse, mid_side};
use crate::decorrelation::{encode_mono_all, encode_stereo_all, recorrelate_mono, recorrelate_stereo};
use crate::error::{Error, Result};
use crate::int32::optional_bytes;
use crate::logpack::{expand_log_word, lemma_quantized_zero, lemma_word_roundtrip, pack_log_word, quantized, signed_log, word_bytes};
use crate::metadata::{Sub, append_sub_block, bytes_then, id_named, lemma_walk_written, payload_in, sub_bytes, sub_written, walk};
use crate::packed_samples::{Coder, bytes_of, encode_packed_samples, encode_words, payload_of, samples_of};
use crate::passes::{Payloads, assemble_passes, passes_of};
use crate::samples::{AdaptiveMedians, magnitude, split_sign};

verus! {

/// The version that written blocks carry.
pub const ENCODE_VERSION: u16 = 0x0410;

// ---------------------------------------------------------------------------
// Samples on their way in
// ---------------------------------------------------------------------------

/// Samples without the `k` zero bits below each; the first sample that has
/// another bit there is refused.
pub open spec fn narrowed(x: Seq<i32>, k: nat) -> core::result::Result<Seq<i32>, Error>
    decreases x.len(),
{
    if x.len() == 0 {
        Ok(Seq::empty())
    } else {
        match narrowed(x.drop_last(), k) {
            Err(e) => Err(e),
            Ok(y) => if x.last() as int % pow2(k) as int != 0 {
                Err(Error::EncodeLeftShiftLosesData(x.last()))
            } else {
                Ok(y.push((x.last() as int / pow2(k) as int) as i32))
            },
        }
    }
}

proof fn lemma_narrowed_error(x: Seq<i32>, i: int, k: nat)
    requires
        0 <= i <= x.len(),
        narrowed(x.take(i), k) is Err,
    ensures
        narrowed(x, k) == narrowed(x.take(i), k),
    decreases x.len(),
{
    if i < x.len() {
        assert(x.drop_last().take(i) =~= x.take(i));
        lemma_narrowed_error(x.drop_last(), i, k);
    } else {
        assert(x.take(i) =~= x);
    }
}

/// Drops the `left_shift` zero bits below each sample.
pub fn narrow_left_shift(buffer: &[i32], left_shift: u8) -> (r: Result<Vec<i32>>)
    requires
        left_shift < 32,
    ensures
        samples_of(r) == narrowed(buffer@, left_shift as nat),
{
    let unit: u64 = pow2_u64(left_shift as u32);
    proof {
        lemma2_to64();
        lemma_pow2_pos(left_shift as nat);
        if left_shift < 31 {
            vstd::arithmetic::power2::lemma_pow2_strictly_increases(left_shift as nat, 31);
        }
    }
    let mut out: Vec<i32> = Vec::new();
    assert(out@ =~= Seq::empty());
    let mut i: usize = 0;
    while i < buffer.len()
        invariant
            i <= buffer.len(),
            left_shift < 32,
            unit == pow2(left_shift as nat),
            0 < unit <= 0x8000_0000,
            narrowed(buffer@.take(i as int), left_shift as nat) == Ok::<Seq<i32>, Error>(out@),
        decreases buffer.len() - i,
    {
        let v: i32 = buffer[i];
        let q: i64 = floor_shr(v as i64, left_shift as u32);
        proof {
            let u = unit as int;
            assert(buffer@.take(i + 1).drop_last() =~= buffer@.take(i as int));
            vstd::arithmetic::div_mod::lemma_fundamental_div_mod(v as int, u);
            assert(-0x8000_0000 <= v as int / u <= 0x7fff_ffff && u * (v as int / u) <= v) by (nonlinear_arith)
                requires
                    u > 0,
                    -0x8000_0000 <= v <= 0x7fff_ffff,
            ;
            assert(-0x8000_0000 - u < u * (v as int / u)) by (nonlinear_arith)
                requires
                    u > 0,
                    v as int == u * (v as int / u) + v as int % u,
                    v as int % u < u,
                    -0x8000_0000 <= v,
            ;
            assert(u * q == u * (v as int / u));
            assert((v as int % u != 0) == (u * q != v));
            assert(u * q == unit as i64 * q);
        }
        if unit as i64 * q != v as i64 {
            proof {
                lemma_narrowed_error(buffer@, i + 1, left_shift as nat);
            }
            return Err(Error::EncodeLeftShiftLosesData(v));
        }
        out.push(q as i32);
        i = i + 1;
    }
    assert(buffer@.take(i as int) =~= buffer@);
    Ok(out)
}

/// The pairs of a buffer as mid and side.
pub open spec fn joined(x: Seq<i32>) -> Seq<i32> {
    Seq::new(
        x.len(),
        |i: int|
            if i % 2 == 0 {
                mid_side(x[i], x[i + 1]).0
            } else {
                mid_side(x[i - 1], x[i]).1
            },
    )
}

/// Mid and side of a pair.
pub fn forward_joint_stereo(left: i32, right: i32) -> (r: (i32, i32))
    ensures
        r == mid_side(left, right),
{
    let mid: i32 = crate::arith::sub32(left, right);
    proof {
        lemma2_to64();
    }
    let half: i64 = floor_shr(mid as i64, 1);
    (mid, wrap_i32(right as i64 + half))
}

/// A copy of a buffer with its pairs as mid and side.
pub fn join_stereo(x: &[i32]) -> (r: Vec<i32>)
    requires
        x@.len() % 2 == 0,
    ensures
        r@ == joined(x@),
{
    let mut out: Vec<i32> = Vec::new();
    let mut i: usize = 0;
    while i < x.len()
        invariant
            i <= x.len(),
            i % 2 == 0,
            x@.len() % 2 == 0,
            out@.len() == i,
            forall|k: int| 0 <= k < i ==> out@[k] == joined(x@)[k],
        decreases x.len() - i,
    {
        let pair: (i32, i32) = forward_joint_stereo(x[i], x[i + 1]);
        out.push(pair.0);
        out.push(pair.1);
        i = i + 2;
    }
    assert(out@ =~= joined(x@));
    out
}

proof fn lemma_pair_back(x: Seq<i32>, i: int)
    requires
        0 <= i,
        i + 1 < x.len(),
        i % 2 == 0,
    ensures
        left_right(joined(x)[i], joined(x)[i + 1]) == (x[i], x[i + 1]),
{
    assert((i + 1) % 2 == 1);
    let m = mid_side(x[i], x[i + 1]);
    assert(joined(x)[i] == m.0);
    assert(joined(x)[i + 1] == m.1);
    lemma_joint_inverse(x[i], x[i + 1]);
}

/// Undoing mid and side gives the pairs back.
pub proof fn joint_stereo_inverse(x: Seq<i32>)
    requires
        x.len() % 2 == 0,
    ensures
        crate::block::undo_joint(joined(x)) == x,
{
    let z = joined(x);
    let y = crate::block::undo_joint(z);
    assert forall|i: int| 0 <= i < x.len() implies y[i] == x[i] by {
        if i % 2 == 0 {
            assert(i + 1 < x.len());
            assert(y[i] == left_right(z[i], z[i + 1]).0);
            assert(y[i] == x[i]) by {
                lemma_pair_back(x, i);
            }
        } else {
            assert(y[i] == left_right(z[i - 1], z[i]).1);
            assert(y[i] == x[i]) by {
                lemma_pair_back(x, i - 1);
            }
        }
    }
    assert(y =~= x);
}

/// Shifting narrowed samples back up gives the samples.
pub proof fn narrowing_inverse(x: Seq<i32>, k: nat)
    requires
        k < 32,
        narrowed(x, k) is Ok,
    ensures
        narrowed(x, k)->Ok_0.len() == x.len(),
        crate::fixup::shifted_all(narrowed(x, k)->Ok_0, k) == x,
    decreases x.len(),
{
    let y = narrowed(x, k)->Ok_0;
    if x.len() > 0 {
        narrowing_inverse(x.drop_last(), k);
        let before = narrowed(x.drop_last(), k)->Ok_0;
        let v = x.last();
        let u = pow2(k) as int;
        lemma_pow2_pos(k);
        vstd::arithmetic::div_mod::lemma_fundamental_div_mod(v as int, u);
        let q = v as int / u;
        assert(-0x8000_0000 <= q <= 0x7fff_ffff) by (nonlinear_arith)
            requires
                u > 0,
                v as int == u * q,
                -0x8000_0000 <= v <= 0x7fff_ffff,
        ;
        assert(q * u == v) by (nonlinear_arith)
            requires
                v as int == u * q,
        ;
        assert(k % 32 == k) by {
            vstd::arithmetic::div_mod::lemma_small_mod(k, 32);
        }
        crate::arith::lemma_wrap32(v as int, 0);
        assert(crate::arith::shifted(q as i32, k) == v);
        let back = crate::fixup::shifted_all(y, k);
        assert forall|i: int| 0 <= i < x.len() implies back[i] == x[i] by {
            if i < x.len() - 1 {
                assert(back[i] == crate::fixup::shifted_all(before, k)[i]);
            }
        }
        assert(back =~= x);
    } else {
        assert(crate::fixup::shifted_all(y, k) =~= x);
    }
}

/// The bit length of the largest magnitude.
pub open spec fn top_magnitude(x: Seq<i32>) -> nat
    decreases x.len(),
{
    if x.len() == 0 {
        0
    } else {
        let before = top_magnitude(x.drop_last());
        let last = bit_length(magnitude(x.last()));
        if last > before {
            last
        } else {
            before
        }
    }
}

/// The bit length of the largest magnitude.
pub fn magnitude_bits(values: &[i32]) -> (r: u32)
    ensures
        r == top_magnitude(values@),
        r <= 32,
{
    let mut top: u32 = 0;
    let mut i: usize = 0;
    while i < values.len()
        invariant
            i <= values.len(),
            top == top_magnitude(values@.take(i as int)),
            top <= 32,
        decreases values.len() - i,
    {
        assert(values@.take(i + 1).drop_last() =~= values@.take(i as int));
        let folded: (u32, bool) = split_sign(values[i]);
        let n: u32 = bit_length_u32(folded.0);
        if n > top {
            top = n;
        }
        i = i + 1;
    }
    assert(values@.take(i as int) =~= values@);
    top
}

// ---------------------------------------------------------------------------
// Sub-block chains
// ---------------------------------------------------------------------------

/// The bytes of a chain of sub-blocks.
pub open spec fn chain_bytes(es: Seq<(u8, Seq<u8>)>) -> core::result::Result<Seq<u8>, Error>
    decreases es.len(),
{
    if es.len() == 0 {
        Ok(Seq::empty())
    } else {
        match sub_bytes(es[0].0, es[0].1) {
            Err(e) => Err(e),
            Ok(s) => bytes_then(s, chain_bytes(es.skip(1))),
        }
    }
}

/// Every ID of a chain lies within six bits.
pub open spec fn ids_fit(es: Seq<(u8, Seq<u8>)>) -> bool {
    forall|i: int| 0 <= i < es.len() ==> (#[trigger] es[i]).0 < 64
}

/// The sub-blocks of a chain.
pub open spec fn chain_subs(es: Seq<(u8, Seq<u8>)>) -> Seq<Sub> {
    Seq::new(es.len(), |i: int| sub_written(es[i].0, es[i].1))
}

/// The payload of the first entry that carries `id`.
pub open spec fn entry_in(es: Seq<(u8, Seq<u8>)>, id: u8) -> Option<Seq<u8>>
    decreases es.len(),
{
    if es.len() == 0 {
        None
    } else if es[0].0 == id {
        Some(es[0].1)
    } else {
        entry_in(es.skip(1), id)
    }
}

/// A sub-block to be written.
#[derive(Debug)]
pub struct Entry {
    /// The ID.
    pub id: u8,
    /// The payload.
    pub payload: Vec<u8>,
}

/// The entries as values.
pub open spec fn entries_view(es: Seq<Entry>) -> Seq<(u8, Seq<u8>)> {
    Seq::new(es.len(), |i: int| (es[i].id, es[i].payload@))
}

/// Writes a chain of sub-blocks.
pub fn write_chain(entries: &Vec<Entry>) -> (r: Result<Vec<u8>>)
    requires
        ids_fit(entries_view(entries@)),
    ensures
        bytes_of(r) == chain_bytes(entries_view(entries@)),
{
    let ghost es = entries_view(entries@);
    let mut out: Vec<u8> = Vec::new();
    let mut i: usize = 0;
    proof {
        assert(es.skip(0) =~= es);
        if chain_bytes(es) is Ok {
            assert(out@ + chain_bytes(es)->Ok_0 =~= chain_bytes(es)->Ok_0);
        }
    }
    while i < entries.len()
        invariant
            i <= entries.len(),
            es == entries_view(entries@),
            ids_fit(es),
            chain_bytes(es) == bytes_then(out@, chain_bytes(es.skip(i as int))),
        decreases entries.len() - i,
    {
        let ghost before = out@;
        proof {
            assert(es.skip(i as int)[0] == es[i as int]);
            assert(es[i as int].0 < 64);
            assert(es.skip(i as int).skip(1) =~= es.skip(i + 1));
        }
        match append_sub_block(&mut out, entries[i].id, entries[i].payload.as_slice()) {
            Err(e) => {
                return Err(e);
            }
            Ok(()) => {}
        }
        proof {
            let later = chain_bytes(es.skip(i + 1));
            let s = sub_bytes(es[i as int].0, es[i as int].1)->Ok_0;
            if later is Ok {
                assert(before + (s + later->Ok_0) =~= out@ + later->Ok_0);
            }
        }
        i = i + 1;
    }
    assert(es.skip(i as int) =~= Seq::empty());
    assert(out@ + Seq::<u8>::empty() =~= out@);
    Ok(out)
}

/// Reading a written chain gives its entries.
pub proof fn chain_roundtrip(es: Seq<(u8, Seq<u8>)>)
    requires
        ids_fit(es),
        chain_bytes(es) is Ok,
    ensures
        walk(chain_bytes(es)->Ok_0) == Ok::<Seq<Sub>, Error>(chain_subs(es)),
    decreases es.len(),
{
    if es.len() == 0 {
        assert(chain_subs(es) =~= Seq::empty());
    } else {
        let rest = es.skip(1);
        assert(ids_fit(rest)) by {
            assert forall|i: int| 0 <= i < rest.len() implies (#[trigger] rest[i]).0 < 64 by {
                assert(es[i + 1].0 < 64);
            }
        }
        chain_roundtrip(rest);
        assert(es[0].0 < 64);
        lemma_walk_written(es[0].0, es[0].1, chain_bytes(rest)->Ok_0);
        assert(chain_subs(es) =~= seq![sub_written(es[0].0, es[0].1)] + chain_subs(rest));
    }
}

/// Looking an ID up among the sub-blocks of a chain finds its entry.
pub proof fn lemma_chain_lookup(es: Seq<(u8, Seq<u8>)>, id: u8)
    requires
        ids_fit(es),
        id < 64,
    ensures
        payload_in(chain_subs(es), id_named(id)) == entry_in(es, id),
{
    assert(es.skip(0) =~= es);
    lemma_lookup_from(es, id, 0);
}

proof fn lemma_lookup_from(es: Seq<(u8, Seq<u8>)>, id: u8, i: int)
    requires
        ids_fit(es),
        id < 64,
        0 <= i <= es.len(),
    ensures
        match crate::metadata::first_from(chain_subs(es), id_named(id), i) {
            Some(s) => entry_in(es.skip(i), id) == Some(s.payload),
            None => entry_in(es.skip(i), id) is None,
        },
    decreases es.len() - i,
{
    if i < es.len() {
        lemma_lookup_from(es, id, i + 1);
        let e = es[i];
        assert(es.skip(i)[0] == e);
        assert(es.skip(i).skip(1) =~= es.skip(i + 1));
        assert(e.0 < 64);
        lemma_written_id(e.0, e.1);
        if e.0 != id {
            lemma_names_differ(e.0, id);
        }
    }
}

proof fn lemma_written_id(id: u8, payload: Seq<u8>)
    requires
        id < 64,
    ensures
        sub_written(id, payload).id == id_named(id),
{
    let s = sub_written(id, payload);
    assert(s.id_byte % 64 == id % 64);
}

proof fn lemma_names_differ(a: u8, b: u8)
    requires
        a < 64,
        b < 64,
        a != b,
    ensures
        id_named(a) != id_named(b),
{
}

/// Looking up in two chains, one behind the other.
pub proof fn lemma_entry_concat(a: Seq<(u8, Seq<u8>)>, b: Seq<(u8, Seq<u8>)>, id: u8)
    ensures
        entry_in(a + b, id) == (if entry_in(a, id) is Some {
            entry_in(a, id)
        } else {
            entry_in(b, id)
        }),
    decreases a.len(),
{
    if a.len() == 0 {
        assert(a + b =~= b);
    } else {
        assert((a + b)[0] == a[0]);
        assert((a + b).skip(1) =~= a.skip(1) + b);
        lemma_entry_concat(a.skip(1), b, id);
    }
}

// ---------------------------------------------------------------------------
// What a block is written from
// ---------------------------------------------------------------------------

/// A sample format's profile and literal payload.
#[verifier::ext_equal]
pub struct Format {
    /// Floating-point samples; wide integers otherwise.
    pub float: bool,
    /// The profile.
    pub profile: Seq<u8>,
    /// The literal payload.
    pub extension: Option<Seq<u8>>,
}

/// How a block is written.
#[verifier::ext_equal]
pub struct Config {
    /// One channel.
    pub mono: bool,
    /// Mid/side stereo.
    pub joint: bool,
    /// Zero bits below each sample.
    pub left_shift: u8,
    /// The decorrelation payloads.
    pub decorr: Option<Payloads>,
    /// Bytes per sample.
    pub bytes_per_sample: u8,
    /// First member of a multichannel set.
    pub start: bool,
    /// Last member of a multichannel set.
    pub end: bool,
    /// The multichannel payload.
    pub multichannel_info: Option<Seq<u8>>,
    /// The sample format.
    pub format: Option<Format>,
}

/// A block of its own with nothing but its channels.
pub open spec fn plain_config(mono: bool, bytes_per_sample: u8) -> Config {
    Config {
        mono,
        joint: false,
        left_shift: 0,
        decorr: None,
        bytes_per_sample,
        start: true,
        end: true,
        multichannel_info: None,
        format: None,
    }
}

/// The word of a median, or zeros where none holds it exactly.
pub open spec fn median_word(value: i32) -> Seq<u8> {
    if quantized(value) == value {
        word_bytes(signed_log(value))
    } else {
        seq![0u8, 0u8]
    }
}

/// The entropy payload of some median sets.
pub open spec fn entropy_payload(seeds: Seq<[i32; 3]>) -> Seq<u8>
    decreases seeds.len(),
{
    if seeds.len() == 0 {
        Seq::empty()
    } else {
        entropy_payload(seeds.drop_last()) + median_word(seeds.last()[0]) + median_word(seeds.last()[1]) + median_word(
            seeds.last()[2],
        )
    }
}

fn pack_median_word(value: i32) -> (r: Option<[u8; 2]>)
    ensures
        match r {
            Some(w) => quantized(value) == value && w@ == word_bytes(signed_log(value)),
            None => quantized(value) != value,
        },
{
    let word: [u8; 2] = pack_log_word(value);
    proof {
        lemma_word_roundtrip(value);
    }
    if expand_log_word(word[0], word[1]) == value {
        Some(word)
    } else {
        None
    }
}

fn push_median(out: &mut Vec<u8>, value: i32)
    ensures
        final(out)@ == old(out)@ + median_word(value),
{
    match pack_median_word(value) {
        Some(w) => {
            out.push(w[0]);
            out.push(w[1]);
        }
        None => {
            out.push(0);
            out.push(0);
        }
    }
    assert(out@ =~= old(out)@ + median_word(value));
}

/// Packs median sets into an entropy payload.
pub fn pack_entropy_info(seeds: &[[i32; 3]]) -> (r: Vec<u8>)
    ensures
        r@ == entropy_payload(seeds@),
{
    let mut out: Vec<u8> = Vec::new();
    assert(out@ =~= Seq::empty());
    let mut i: usize = 0;
    while i < seeds.len()
        invariant
            i <= seeds.len(),
            out@ == entropy_payload(seeds@.take(i as int)),
        decreases seeds.len() - i,
    {
        assert(seeds@.take(i + 1).drop_last() =~= seeds@.take(i as int));
        push_median(&mut out, seeds[i][0]);
        push_median(&mut out, seeds[i][1]);
        push_median(&mut out, seeds[i][2]);
        i = i + 1;
    }
    assert(seeds@.take(i as int) =~= seeds@);
    out
}

/// The entropy payload of a block that starts from zero medians.
pub open spec fn zero_entropy(mono: bool) -> Seq<u8> {
    Seq::new(
        if mono {
            6
        } else {
            12
        },
        |i: int| 0u8,
    )
}

/// The entropy payload of zero medians.
pub fn zero_seed_payload(mono: bool) -> (r: Vec<u8>)
    ensures
        r@ == zero_entropy(mono),
{
    proof {
        lemma_quantized_zero();
        assert(median_word(0) =~= seq![0u8, 0u8]);
        reveal_with_fuel(entropy_payload, 3);
    }
    let zero: [i32; 3] = [0, 0, 0];
    if mono {
        let seeds: [[i32; 3]; 1] = [zero];
        let out: Vec<u8> = pack_entropy_info(&seeds);
        assert(out@ =~= zero_entropy(true));
        out
    } else {
        let seeds: [[i32; 3]; 2] = [zero, zero];
        assert(seeds@.drop_last() =~= seq![zero]);
        assert(seq![zero].drop_last() =~= Seq::empty());
        let out: Vec<u8> = pack_entropy_info(&seeds);
        assert(out@ =~= zero_entropy(false));
        out
    }
}

/// The optional entry of an ID.
pub open spec fn entry_if(id: u8, payload: Option<Seq<u8>>) -> Seq<(u8, Seq<u8>)> {
    match payload {
        Some(p) => seq![(id, p)],
        None => Seq::empty(),
    }
}

/// The entries of the decorrelation payloads.
pub open spec fn decorr_entries(decorr: Option<Payloads>) -> Seq<(u8, Seq<u8>)> {
    match decorr {
        Some(p) => seq![(0x02u8, p.terms), (0x03u8, p.weights), (0x04u8, p.samples)],
        None => Seq::empty(),
    }
}

/// The profile entry of a sample format.
pub open spec fn profile_entries(format: Option<Format>) -> Seq<(u8, Seq<u8>)> {
    match format {
        Some(f) => seq![
            (
                if f.float {
                    0x08u8
                } else {
                    0x09u8
                },
                f.profile,
            ),
        ],
        None => Seq::empty(),
    }
}

/// The literal payload of a sample format.
pub open spec fn extension_in(format: Option<Format>) -> Option<Seq<u8>> {
    match format {
        Some(f) => f.extension,
        None => None,
    }
}

/// The sub-blocks of a block.
pub open spec fn block_entries(c: Config, packed: Seq<u8>) -> Seq<(u8, Seq<u8>)> {
    seq![(0x05u8, zero_entropy(c.mono))] + entry_if(0x0Du8, c.multichannel_info) + profile_entries(c.format)
        + decorr_entries(c.decorr) + seq![(0x0Au8, packed)] + entry_if(0x0Cu8, extension_in(c.format))
}

/// The residuals of samples under the passes that payloads describe.
pub open spec fn residuals(x: Seq<i32>, decorr: Option<Payloads>, mono: bool) -> core::result::Result<Seq<i32>, Error> {
    match decorr {
        None => Ok(x),
        Some(p) => match passes_of(p.terms, p.weights, p.samples, !mono) {
            Err(e) => Err(e),
            Ok(ps) => Ok(
                if mono {
                    encode_mono_all(ps, x).1
                } else {
                    encode_stereo_all(ps, x).1
                },
            ),
        },
    }
}

/// The fields of a written block's flag word.
pub open spec fn config_flags(c: Config, top: nat) -> Flags {
    Flags {
        raw: 0,
        bytes_minus_one: if c.bytes_per_sample <= 1 {
            0
        } else if c.bytes_per_sample >= 4 {
            3
        } else {
            (c.bytes_per_sample - 1) as u8
        },
        mono: c.mono,
        hybrid: false,
        joint_stereo: c.joint,
        cross_decorrelation: false,
        hybrid_noise_shaping: false,
        float_data: c.format is Some && c.format->Some_0.float,
        int32_mode: c.format is Some && !c.format->Some_0.float,
        hybrid_bitrate_noise: false,
        hybrid_balance_noise: false,
        multichannel_start: c.start,
        multichannel_end: c.end,
        left_shift: c.left_shift,
        max_magnitude: if top >= 31 {
            31
        } else {
            top as u8
        },
        sample_rate_index: 0,
        new_shaping: false,
        false_stereo: false,
    }
}

/// A header and a metadata region as a block.
pub open spec fn framed(
    meta: Seq<u8>,
    block_index: u32,
    total_samples: u32,
    block_samples: u32,
    flags: u32,
    crc: u32,
) -> core::result::Result<Seq<u8>, Error> {
    if meta.len() + MIN_CK_SIZE > u32::MAX {
        Err(Error::EncodeBlockTooLarge(meta.len() as usize))
    } else {
        Ok(
            header_bytes(
                (meta.len() + MIN_CK_SIZE) as u32,
                ENCODE_VERSION,
                total_samples,
                block_index,
                block_samples,
                flags,
                crc,
            ) + meta,
        )
    }
}

/// Puts a header in front of a metadata region.
pub fn build_block(
    metadata: &Vec<u8>,
    block_index: u32,
    total_samples: u32,
    block_samples: u32,
    flags_raw: u32,
    crc: u32,
) -> (r: Result<Vec<u8>>)
    ensures
        bytes_of(r) == framed(metadata@, block_index, total_samples, block_samples, flags_raw, crc),
{
    if metadata.len() as u64 > (u32::MAX - MIN_CK_SIZE) as u64 {
        return Err(Error::EncodeBlockTooLarge(metadata.len()));
    }
    let ck_size: u32 = metadata.len() as u32 + MIN_CK_SIZE;
    let mut out: Vec<u8> = Vec::new();
    push_header(&mut out, ck_size, ENCODE_VERSION, total_samples, block_index, block_samples, flags_raw, crc);
    let ghost head = out@;
    out.extend_from_slice(metadata.as_slice());
    proof {
        assert(head =~= header_bytes(
            ck_size,
            ENCODE_VERSION,
            total_samples,
            block_index,
            block_samples,
            flags_raw,
            crc,
        ));
        assert(out@ =~= head + metadata@);
    }
    Ok(out)
}

/// Frames in a buffer of one channel or two.
pub open spec fn frames_of(x: Seq<i32>, mono: bool) -> int {
    if mono {
        x.len() as int
    } else {
        x.len() as int / 2
    }
}

/// The bytes of a block from its narrowed samples `y` and their residuals.
pub open spec fn packed_block(
    x: Seq<i32>,
    y: Seq<i32>,
    res: Seq<i32>,
    c: Config,
    block_index: u32,
    total_samples: u32,
) -> core::result::Result<Seq<u8>, Error> {
    match payload_of(encode_words(res, 0, !c.mono, zero_coder())) {
        Err(e) => Err(e),
        Ok(packed) => match chain_bytes(block_entries(c, packed)) {
            Err(e) => Err(e),
            Ok(meta) => if frames_of(x, c.mono) > u32::MAX {
                Err(Error::EncodeBlockTooLarge(x.len() as usize))
            } else {
                framed(
                    meta,
                    block_index,
                    total_samples,
                    frames_of(x, c.mono) as u32,
                    flag_word(block_flags(c, y, res)) as u32,
                    crc_over(y, CRC_INIT),
                )
            },
        },
    }
}

/// The fields of a block's flag word, from its narrowed samples and their residuals.
pub open spec fn block_flags(c: Config, y: Seq<i32>, res: Seq<i32>) -> Flags {
    let a = top_magnitude(y);
    let b = top_magnitude(res);
    config_flags(
        c,
        if a >= b {
            a
        } else {
            b
        },
    )
}

/// A coder before its first word, all medians zero.
pub open spec fn zero_coder() -> Coder {
    Coder::start(crate::block::zero_medians(), crate::block::zero_medians())
}

/// The samples that a block's passes run on.
pub open spec fn working(y: Seq<i32>, joint: bool) -> Seq<i32> {
    if joint {
        joined(y)
    } else {
        y
    }
}

/// The bytes of a block.
pub open spec fn block_bytes(x: Seq<i32>, c: Config, block_index: u32, total_samples: u32) -> core::result::Result<
    Seq<u8>,
    Error,
> {
    if x.len() == 0 {
        Err(Error::EncodeEmptyAudio)
    } else if !c.mono && x.len() % 2 != 0 {
        Err(Error::EncodeStereoOddLength(x.len() as usize))
    } else {
        match narrowed(x, c.left_shift as nat) {
            Err(e) => Err(e),
            Ok(y) => match residuals(working(y, c.joint), c.decorr, c.mono) {
                Err(e) => Err(e),
                Ok(res) => packed_block(x, y, res, c, block_index, total_samples),
            },
        }
    }
}

// ---------------------------------------------------------------------------
// The writer
// ---------------------------------------------------------------------------

/// A sample format's profile and literal payload.
#[derive(Debug)]
pub struct FormatExtras {
    /// Floating-point samples; wide integers otherwise.
    pub float: bool,
    /// The profile.
    pub profile: Vec<u8>,
    /// The literal payload.
    pub extension: Option<Vec<u8>>,
}

impl View for FormatExtras {
    type V = Format;

    open spec fn view(&self) -> Format {
        Format { float: self.float, profile: self.profile@, extension: optional_bytes(self.extension) }
    }
}

/// How a block is written.
#[derive(Debug, Clone, Copy)]
pub struct BlockConfig<'a> {
    /// One channel.
    pub mono: bool,
    /// Mid/side stereo.
    pub joint: bool,
    /// Zero bits below each sample.
    pub left_shift: u8,
    /// The term, weight and seed payloads.
    pub decorr: Option<(&'a [u8], &'a [u8], &'a [u8])>,
    /// Bytes per sample.
    pub bytes_per_sample: u8,
    /// First member of a multichannel set.
    pub start: bool,
    /// Last member of a multichannel set.
    pub end: bool,
    /// Channel count and speaker mask.
    pub multichannel_info: Option<[u8; 2]>,
    /// The sample format.
    pub format: Option<&'a FormatExtras>,
}

impl<'a> View for BlockConfig<'a> {
    type V = Config;

    open spec fn view(&self) -> Config {
        Config {
            mono: self.mono,
            joint: self.joint,
            left_shift: self.left_shift,
            decorr: match self.decorr {
                Some((t, w, s)) => Some(Payloads { terms: t@, weights: w@, samples: s@ }),
                None => None,
            },
            bytes_per_sample: self.bytes_per_sample,
            start: self.start,
            end: self.end,
            multichannel_info: match self.multichannel_info {
                Some(b) => Some(b@),
                None => None,
            },
            format: match self.format {
                Some(f) => Some(f@),
                None => None,
            },
        }
    }
}

/// A block of its own with nothing but its channels.
pub fn raw_config(mono: bool, bytes_per_sample: u8) -> (r: BlockConfig<'static>)
    ensures
        r@ == plain_config(mono, bytes_per_sample),
        r.format is None,
{
    BlockConfig {
        mono,
        joint: false,
        left_shift: 0,
        decorr: None,
        bytes_per_sample,
        start: true,
        end: true,
        multichannel_info: None,
        format: None,
    }
}

/// A shift fits its field, and only pairs are joined.
pub open spec fn config_ok(c: Config) -> bool {
    c.left_shift < 32 && (c.joint ==> !c.mono)
}

/// A copy of some bytes.
pub fn copy_bytes(x: &[u8]) -> (r: Vec<u8>)
    ensures
        r@ == x@,
{
    let mut out: Vec<u8> = Vec::new();
    out.extend_from_slice(x);
    assert(out@ =~= x@);
    out
}

/// Adds an entry to a list.
pub fn push_entry(entries: &mut Vec<Entry>, id: u8, payload: Vec<u8>)
    ensures
        entries_view(final(entries)@) == entries_view(old(entries)@) + seq![(id, payload@)],
{
    let ghost before = entries_view(entries@);
    entries.push(Entry { id, payload });
    assert(entries_view(entries@) =~= before + seq![(id, payload@)]);
}

fn gather_entries(config: &BlockConfig<'_>, packed: Vec<u8>) -> (r: Vec<Entry>)
    ensures
        entries_view(r@) == block_entries(config@, packed@),
        ids_fit(entries_view(r@)),
{
    let ghost c = config@;
    let mut es: Vec<Entry> = Vec::new();
    assert(entries_view(es@) =~= Seq::empty());
    push_entry(&mut es, 0x05, zero_seed_payload(config.mono));
    let ghost part1 = seq![(0x05u8, zero_entropy(c.mono))];
    assert(entries_view(es@) =~= part1);
    if let Some(info) = config.multichannel_info {
        let mut payload: Vec<u8> = Vec::new();
        payload.push(info[0]);
        payload.push(info[1]);
        assert(payload@ =~= info@);
        push_entry(&mut es, 0x0D, payload);
    }
    let ghost part2 = part1 + entry_if(0x0Du8, c.multichannel_info);
    assert(entries_view(es@) =~= part2);
    if let Some(format) = config.format {
        push_entry(
            &mut es,
            if format.float {
                0x08
            } else {
                0x09
            },
            copy_bytes(format.profile.as_slice()),
        );
    }
    let ghost part3 = part2 + profile_entries(c.format);
    assert(entries_view(es@) =~= part3);
    if let Some((terms, weights, samples)) = config.decorr {
        push_entry(&mut es, 0x02, copy_bytes(terms));
        push_entry(&mut es, 0x03, copy_bytes(weights));
        push_entry(&mut es, 0x04, copy_bytes(samples));
    }
    let ghost part4 = part3 + decorr_entries(c.decorr);
    assert(entries_view(es@) =~= part4);
    push_entry(&mut es, 0x0A, packed);
    let ghost part5 = part4 + seq![(0x0Au8, packed@)];
    assert(entries_view(es@) =~= part5);
    if let Some(format) = config.format {
        if let Some(extension) = &format.extension {
            push_entry(&mut es, 0x0C, copy_bytes(extension.as_slice()));
        }
    }
    assert(entries_view(es@) =~= part5 + entry_if(0x0Cu8, extension_in(c.format)));
    proof {
        lemma_entry_ids(c, packed@);
    }
    es
}

/// The IDs of a block's entries lie within six bits.
pub proof fn lemma_entry_ids(c: Config, packed: Seq<u8>)
    ensures
        ids_fit(block_entries(c, packed)),
{
    let a = seq![(0x05u8, zero_entropy(c.mono))];
    let b = entry_if(0x0Du8, c.multichannel_info);
    let d = profile_entries(c.format);
    let e = decorr_entries(c.decorr);
    let f = seq![(0x0Au8, packed)];
    let g = entry_if(0x0Cu8, extension_in(c.format));
    lemma_ids_concat(a, b);
    lemma_ids_concat(a + b, d);
    lemma_ids_concat(a + b + d, e);
    lemma_ids_concat(a + b + d + e, f);
    lemma_ids_concat(a + b + d + e + f, g);
}

/// The IDs of two chains, one behind the other.
pub proof fn lemma_ids_concat(a: Seq<(u8, Seq<u8>)>, b: Seq<(u8, Seq<u8>)>)
    ensures
        ids_fit(a) && ids_fit(b) ==> ids_fit(a + b),
{
    if ids_fit(a) && ids_fit(b) {
        assert forall|i: int| 0 <= i < (a + b).len() implies (#[trigger] (a + b)[i]).0 < 64 by {
            if i < a.len() {
                assert(a[i].0 < 64);
            } else {
                assert(b[i - a.len()].0 < 64);
            }
        }
    }
}

fn make_flags(config: &BlockConfig<'_>, top: u32) -> (r: u32)
    requires
        config_ok(config@),
    ensures
        r == flag_word(config_flags(config@, top as nat)),
{
    let flags = Flags {
        raw: 0,
        bytes_minus_one: if config.bytes_per_sample <= 1 {
            0
        } else if config.bytes_per_sample >= 4 {
            3
        } else {
            config.bytes_per_sample - 1
        },
        mono: config.mono,
        hybrid: false,
        joint_stereo: config.joint,
        cross_decorrelation: false,
        hybrid_noise_shaping: false,
        float_data: match config.format {
            Some(f) => f.float,
            None => false,
        },
        int32_mode: match config.format {
            Some(f) => !f.float,
            None => false,
        },
        hybrid_bitrate_noise: false,
        hybrid_balance_noise: false,
        multichannel_start: config.start,
        multichannel_end: config.end,
        left_shift: config.left_shift,
        max_magnitude: if top >= 31 {
            31
        } else {
            top as u8
        },
        sample_rate_index: 0,
        new_shaping: false,
        false_stereo: false,
    };
    flags.to_raw()
}

fn run_passes(work: Vec<i32>, config: &BlockConfig<'_>) -> (r: Result<Vec<i32>>)
    requires
        !config.mono ==> work@.len() % 2 == 0,
    ensures
        samples_of(r) == residuals(work@, config@.decorr, config.mono),
{
    let mut x = work;
    match config.decorr {
        None => Ok(x),
        Some((terms, weights, samples)) => match assemble_passes(terms, weights, samples, !config.mono) {
            Err(e) => Err(e),
            Ok(passes) => {
                let mut ps = passes;
                if config.mono {
                    recorrelate_mono(&mut ps, &mut x);
                } else {
                    recorrelate_stereo(&mut ps, &mut x);
                }
                Ok(x)
            }
        },
    }
}

fn pack_block(
    x: &[i32],
    y: &Vec<i32>,
    res: &Vec<i32>,
    config: &BlockConfig<'_>,
    block_index: u32,
    total_samples: u32,
) -> (r: Result<Vec<u8>>)
    requires
        config_ok(config@),
        !config.mono ==> y@.len() % 2 == 0,
    ensures
        bytes_of(r) == packed_block(x@, y@, res@, config@, block_index, total_samples),
{
    let zero = AdaptiveMedians { m0: 0, m1: 0, m2: 0 };
    let packed: Vec<u8> = match encode_packed_samples(res.as_slice(), !config.mono, zero, zero) {
        Err(e) => {
            return Err(e);
        }
        Ok(p) => p,
    };
    let entries: Vec<Entry> = gather_entries(config, packed);
    let meta: Vec<u8> = match write_chain(&entries) {
        Err(e) => {
            return Err(e);
        }
        Ok(m) => m,
    };
    let frames: usize = if config.mono {
        x.len()
    } else {
        x.len() / 2
    };
    if frames as u64 > u32::MAX as u64 {
        return Err(Error::EncodeBlockTooLarge(x.len()));
    }
    let a: u32 = magnitude_bits(y.as_slice());
    let b: u32 = magnitude_bits(res.as_slice());
    let flags: u32 = make_flags(
        config,
        if a >= b {
            a
        } else {
            b
        },
    );
    let crc: u32 = if config.mono {
        crc_mono(y.as_slice())
    } else {
        crc_stereo_interleaved(y.as_slice())
    };
    build_block(&meta, block_index, total_samples, frames as u32, flags, crc)
}

/// Writes one block.
pub fn encode_block_core(pcm: &[i32], config: &BlockConfig<'_>, block_index: u32, total_samples: u32) -> (r: Result<Vec<u8>>)
    requires
        config_ok(config@),
    ensures
        bytes_of(r) == block_bytes(pcm@, config@, block_index, total_samples),
{
    if pcm.len() == 0 {
        return Err(Error::EncodeEmptyAudio);
    }
    if !config.mono && pcm.len() % 2 != 0 {
        return Err(Error::EncodeStereoOddLength(pcm.len()));
    }
    let y: Vec<i32> = match narrow_left_shift(pcm, config.left_shift) {
        Err(e) => {
            return Err(e);
        }
        Ok(v) => v,
    };
    proof {
        narrowing_inverse(pcm@, config.left_shift as nat);
    }
    let work: Vec<i32> = if config.joint {
        join_stereo(y.as_slice())
    } else {
        crate::block::copy_samples(&y)
    };
    let res: Vec<i32> = match run_passes(work, config) {
        Err(e) => {
            return Err(e);
        }
        Ok(v) => v,
    };
    pack_block(pcm, &y, &res, config, block_index, total_samples)
}

} // verus!
