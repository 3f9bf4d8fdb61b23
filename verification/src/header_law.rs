//! What the headers of written blocks say of their samples.
use vstd::prelude::*;
use vstd::arithmetic::power2::{lemma_pow2_pos, lemma_pow2_unfold, pow2};
use crate::arith::{bit_length, lemma_bit_length};
use crate::block::{Block, block_of, blocks_of, rate_of};
use crate::block_header::WavPackBlockHeader;
use crate::block_law::{block_bytes_roundtrip, block_narrow, block_residuals, float_format, int32_format, lemma_info_lookup, written_block};
use crate::block_writer::{Config, Format, block_bytes, config_ok, frames_of, plain_config, top_magnitude};
use crate::crc::{CRC_INIT, crc_over};
use crate::derive::DecorrProfile;
use crate::encode::{best_block, best_ints_block, format_config, member_config, pattern_integers, search_base, search_domain, searched_block, smallest_block};
use crate::encode_multichannel::{column, member_bytes, set_info};
use crate::encode_stream::{Coding, block_frames, block_step, coded_block, stream_bytes, stream_from, window};
use crate::error::Error;
use crate::int32::{int32_reduced, low_zeros, words_of};
use crate::metadata::{SubBlockId, payload_in};
use crate::samples::magnitude;
use crate::search::{Plan, best_plans, common_zeros, detected, detected_shift_is_exact, lemma_best_plans, lemma_searched_plans, plan_block, planned, plans_ok, search_block, search_is_least, searched_plans, smallest_of};
use crate::stream::{audio_of, audio_only};
use crate::stream_law::lemma_audio_of_concat;

verus! {

/// Bytes per sample as a header states them: one to four.
pub open spec fn states_bytes(h: WavPackBlockHeader, n: u8) -> bool {
    if n < 1 {
        h.flags.bytes_minus_one == 0
    } else if n > 4 {
        h.flags.bytes_minus_one == 3
    } else {
        h.flags.bytes_minus_one + 1 == n
    }
}

/// The header of a block that is one lossless block of its own.
pub open spec fn states_block(
    h: WavPackBlockHeader,
    size: nat,
    frames: int,
    mono: bool,
    block_index: u32,
    total_samples: u32,
) -> bool {
    let f = h.flags;
    &&& h.ck_size + 8 == size
    &&& h.version == 0x410 && h.track_number == 0 && h.track_sub_index == 0
    &&& h.block_samples == frames && h.block_index == block_index && h.total_samples == total_samples
    &&& f.mono == mono && !f.false_stereo
    &&& !f.hybrid && !f.hybrid_bitrate_noise && !f.hybrid_balance_noise && !f.hybrid_noise_shaping && !f.new_shaping
    &&& f.joint_stereo ==> !mono
}

/// A written block states its channels, bytes per sample, shift, format and
/// place in a set. Its check covers the narrowed samples, and no sample
/// is longer than the magnitude that it states.
pub proof fn blocks_state_their_samples(x: Seq<i32>, c: Config, block_index: u32, total_samples: u32, i: int)
    requires
        config_ok(c),
        block_bytes(x, c, block_index, total_samples) is Ok,
        frames_of(x, c.mono) <= u32::MAX,
    ensures
        ({
            let bytes = block_bytes(x, c, block_index, total_samples)->Ok_0;
            let h = block_of(bytes)->Ok_0.0.header;
            let y = block_narrow(x, c);
            &&& block_of(bytes) is Ok && block_of(bytes)->Ok_0.1.len() == 0
            &&& states_block(h, bytes.len(), frames_of(x, c.mono), c.mono, block_index, total_samples)
            &&& states_bytes(h, c.bytes_per_sample)
            &&& h.flags.joint_stereo == c.joint
            &&& h.flags.left_shift == c.left_shift
            &&& h.flags.multichannel_start == c.start && h.flags.multichannel_end == c.end
            &&& h.flags.float_data == (c.format is Some && c.format->Some_0.float)
            &&& h.flags.int32_mode == (c.format is Some && !c.format->Some_0.float)
            &&& h.crc == crc_over(y, CRC_INIT)
            &&& 0 <= i < y.len() ==> bit_length(magnitude(y[i])) <= h.flags.max_magnitude
        }),
{
    let bytes = block_bytes(x, c, block_index, total_samples)->Ok_0;
    let none = Seq::<u8>::empty();
    block_bytes_roundtrip(x, c, block_index, total_samples, none);
    assert(bytes + none =~= bytes);
    let b = written_block(x, c, block_index, total_samples);
    crate::block_law::lemma_block_size(x, c, block_index, total_samples);
    let y = block_narrow(x, c);
    if 0 <= i < y.len() {
        lemma_top(y, i);
        lemma_short(y[i]);
    }
}

pub proof fn lemma_top(y: Seq<i32>, i: int)
    requires
        0 <= i < y.len(),
    ensures
        bit_length(magnitude(y[i])) <= top_magnitude(y),
    decreases y.len(),
{
    if i < y.len() - 1 {
        lemma_top(y.drop_last(), i);
    }
}

pub proof fn lemma_short(v: i32)
    ensures
        bit_length(magnitude(v)) <= 31,
{
    let m = magnitude(v);
    lemma_bit_length(m);
    if bit_length(m) > 31 {
        vstd::arithmetic::power2::lemma2_to64();
        if bit_length(m) > 32 {
            vstd::arithmetic::power2::lemma_pow2_strictly_increases(31, (bit_length(m) - 1) as nat);
        }
    }
}

/// What the bytes of one block state, whatever their joining and their passes.
#[verifier::opaque]
pub open spec fn states_config(bytes: Seq<u8>, c: Config, frames: int, block_index: u32, total_samples: u32) -> bool {
    let h = block_of(bytes)->Ok_0.0.header;
    &&& block_of(bytes) is Ok
    &&& states_block(h, bytes.len(), frames, c.mono, block_index, total_samples)
    &&& states_bytes(h, c.bytes_per_sample)
    &&& h.flags.left_shift == c.left_shift
    &&& h.flags.multichannel_start == c.start && h.flags.multichannel_end == c.end
    &&& h.flags.float_data == (c.format is Some && c.format->Some_0.float)
    &&& h.flags.int32_mode == (c.format is Some && !c.format->Some_0.float)
}

proof fn lemma_planned_states(x: Seq<i32>, base: Config, plan: Plan, block_index: u32, total_samples: u32)
    requires
        plan.joint ==> !base.mono,
        base.left_shift < 32,
        frames_of(x, base.mono) <= u32::MAX,
        plan_block(x, base, plan, block_index, total_samples) is Ok,
    ensures
        states_config(
            plan_block(x, base, plan, block_index, total_samples)->Ok_0,
            base,
            frames_of(x, base.mono),
            block_index,
            total_samples,
        ),
{
    reveal(states_config);
    reveal(plan_block);
    blocks_state_their_samples(x, planned(base, plan), block_index, total_samples, 0);
}

/// What the block of a search states is what it was started with; of mid and
/// side and the passes the search decides.
proof fn lemma_searched_states(x: Seq<i32>, base: Config, plans: Seq<Plan>, block_index: u32, total_samples: u32)
    requires
        plans.len() > 0,
        plans_ok(plans, base.mono),
        base.left_shift < 32,
        frames_of(x, base.mono) <= u32::MAX,
        search_block(x, base, plans, block_index, total_samples) is Ok,
    ensures
        states_config(
            search_block(x, base, plans, block_index, total_samples)->Ok_0,
            base,
            frames_of(x, base.mono),
            block_index,
            total_samples,
        ),
{
    search_is_least(x, base, plans, block_index, total_samples);
    let found = search_block(x, base, plans, block_index, total_samples);
    let i = choose|i: int|
        0 <= i < plans.len() && plan_block(x, base, #[trigger] plans[i], block_index, total_samples) == found;
    let plan = plans[i];
    assert(plan.joint ==> !base.mono);
    assert(plan_block(x, base, plan, block_index, total_samples) is Ok);
    lemma_planned_states(x, base, plan, block_index, total_samples);
}

/// What a coding starts a block with.
pub open spec fn coding_config(x: Seq<i32>, mono: bool, coding: Coding) -> Config {
    match coding {
        Coding::Plain(n) => plain_config(mono, n),
        Coding::Best(_, n) => search_base(x, mono, n),
        Coding::Smallest(n) => search_base(x, mono, n),
        Coding::Float(_) => format_config(mono, float_format(words_of(x))),
        Coding::Int32(_) => format_config(mono, int32_format(x)),
    }
}

proof fn lemma_best_states(x: Seq<i32>, profile: DecorrProfile, mono: bool, n: u8, block_index: u32, total_samples: u32)
    requires
        best_block(x, profile, mono, n, block_index, total_samples) is Ok,
        frames_of(x, mono) <= u32::MAX,
    ensures
        states_config(
            best_block(x, profile, mono, n, block_index, total_samples)->Ok_0,
            search_base(x, mono, n),
            frames_of(x, mono),
            block_index,
            total_samples,
        ),
{
    detected_shift_is_exact(x);
    lemma_best_plans(search_domain(x), profile, mono);
    let plans = best_plans(search_domain(x), profile, mono);
    lemma_searched_states(x, search_base(x, mono, n), plans, block_index, total_samples);
}

proof fn lemma_term_search_states(x: Seq<i32>, most: usize, mono: bool, n: u8, block_index: u32, total_samples: u32)
    requires
        searched_block(x, most, mono, n, block_index, total_samples) is Ok,
        frames_of(x, mono) <= u32::MAX,
    ensures
        states_config(
            searched_block(x, most, mono, n, block_index, total_samples)->Ok_0,
            search_base(x, mono, n),
            frames_of(x, mono),
            block_index,
            total_samples,
        ),
{
    detected_shift_is_exact(x);
    lemma_searched_plans(search_domain(x), most, mono);
    let plans = searched_plans(search_domain(x), most, mono);
    lemma_searched_states(x, search_base(x, mono, n), plans, block_index, total_samples);
}

proof fn lemma_ints_state(
    ints: Seq<i32>,
    profile: DecorrProfile,
    mono: bool,
    format: Format,
    block_index: u32,
    total_samples: u32,
)
    requires
        best_ints_block(ints, profile, mono, format, block_index, total_samples) is Ok,
        frames_of(ints, mono) <= u32::MAX,
    ensures
        states_config(
            best_ints_block(ints, profile, mono, format, block_index, total_samples)->Ok_0,
            format_config(mono, format),
            frames_of(ints, mono),
            block_index,
            total_samples,
        ),
{
    lemma_best_plans(ints, profile, mono);
    let plans = best_plans(ints, profile, mono);
    lemma_searched_states(ints, format_config(mono, format), plans, block_index, total_samples);
}

proof fn lemma_plain_states(x: Seq<i32>, mono: bool, n: u8, block_index: u32, total_samples: u32)
    requires
        block_bytes(x, plain_config(mono, n), block_index, total_samples) is Ok,
        frames_of(x, mono) <= u32::MAX,
    ensures
        states_config(
            block_bytes(x, plain_config(mono, n), block_index, total_samples)->Ok_0,
            plain_config(mono, n),
            frames_of(x, mono),
            block_index,
            total_samples,
        ),
{
    reveal(states_config);
    blocks_state_their_samples(x, plain_config(mono, n), block_index, total_samples, 0);
}

proof fn lemma_smallest_states(x: Seq<i32>, mono: bool, n: u8, block_index: u32, total_samples: u32)
    requires
        smallest_block(x, mono, n, block_index, total_samples) is Ok,
        frames_of(x, mono) <= u32::MAX,
    ensures
        states_config(
            smallest_block(x, mono, n, block_index, total_samples)->Ok_0,
            search_base(x, mono, n),
            frames_of(x, mono),
            block_index,
            total_samples,
        ),
{
    lemma_best_states(x, DecorrProfile::Extra, mono, n, block_index, total_samples);
    lemma_term_search_states(x, 16, mono, n, block_index, total_samples);
}

#[verifier::spinoff_prover]
proof fn lemma_coded_states(x: Seq<i32>, mono: bool, coding: Coding, block_index: u32, total_samples: u32)
    requires
        coded_block(x, mono, coding, block_index, total_samples) is Ok,
        frames_of(x, mono) <= u32::MAX,
    ensures
        states_config(
            coded_block(x, mono, coding, block_index, total_samples)->Ok_0,
            coding_config(x, mono, coding),
            frames_of(x, mono),
            block_index,
            total_samples,
        ),
{
    reveal(coded_block);
    match coding {
        Coding::Plain(n) => {
            lemma_plain_states(x, mono, n, block_index, total_samples);
        },
        Coding::Best(profile, n) => {
            lemma_best_states(x, profile, mono, n, block_index, total_samples);
        },
        Coding::Smallest(n) => {
            lemma_smallest_states(x, mono, n, block_index, total_samples);
        },
        Coding::Float(profile) => {
            let words = words_of(x);
            lemma_ints_state(pattern_integers(words), profile, mono, float_format(words), block_index, total_samples);
        },
        Coding::Int32(profile) => {
            lemma_ints_state(int32_reduced(x), profile, mono, int32_format(x), block_index, total_samples);
        },
    }
}

/// However a block of a stream is coded, it states how its samples were given:
/// integers their bytes per sample, patterns and wide integers four. A search
/// states the greatest shift that its samples allow.
pub proof fn coded_blocks_state_their_samples(
    x: Seq<i32>,
    mono: bool,
    coding: Coding,
    block_index: u32,
    total_samples: u32,
)
    requires
        coded_block(x, mono, coding, block_index, total_samples) is Ok,
        frames_of(x, mono) <= u32::MAX,
    ensures
        ({
            let bytes = coded_block(x, mono, coding, block_index, total_samples)->Ok_0;
            let h = block_of(bytes)->Ok_0.0.header;
            &&& block_of(bytes) is Ok
            &&& states_block(h, bytes.len(), frames_of(x, mono), mono, block_index, total_samples)
            &&& h.flags.multichannel_start && h.flags.multichannel_end
            &&& h.flags.float_data == (coding is Float)
            &&& h.flags.int32_mode == (coding is Int32)
            &&& match coding {
                Coding::Plain(n) => states_bytes(h, n) && h.flags.left_shift == 0,
                Coding::Best(_, n) => states_bytes(h, n) && h.flags.left_shift == detected(x),
                Coding::Smallest(n) => states_bytes(h, n) && h.flags.left_shift == detected(x),
                _ => h.flags.bytes_minus_one == 3 && h.flags.left_shift == 0,
            }
        }),
{
    lemma_coded_states(x, mono, coding, block_index, total_samples);
    detected_shift_is_exact(x);
    reveal(states_config);
}

// ---------------------------------------------------------------------------
// Shifts
// ---------------------------------------------------------------------------

/// A number with `k` low zero bits is a multiple of 2^k, and of no higher power.
pub proof fn lemma_low_zeros(v: int, k: nat)
    requires
        v != 0,
    ensures
        v % pow2(k) as int == 0 <==> k <= low_zeros(v),
    decreases k,
{
    vstd::arithmetic::power2::lemma2_to64();
    if k == 0 {
        assert(v % 1 == 0);
    } else {
        lemma_pow2_unfold(k);
        lemma_pow2_pos((k - 1) as nat);
        let p = pow2((k - 1) as nat) as int;
        let q = v / 2;
        let d = q % p;
        let c = q / p;
        vstd::arithmetic::div_mod::lemma_fundamental_div_mod(q, p);
        vstd::arithmetic::div_mod::lemma_mod_bound(q, p);
        assert(v == (2 * p) * c + (2 * d + v % 2)) by (nonlinear_arith)
            requires
                v == 2 * q + v % 2,
                q == p * c + d,
        ;
        vstd::arithmetic::div_mod::lemma_fundamental_div_mod_converse(v, 2 * p, c, 2 * d + v % 2);
        if v % 2 == 0 {
            lemma_low_zeros(v / 2, (k - 1) as nat);
        } else {
            assert(v % 2 == 1);
            assert(low_zeros(v) == 0);
            vstd::arithmetic::div_mod::lemma_mod_bound(v / 2, p);
        }
    }
}

proof fn lemma_common_at(x: Seq<i32>, i: int)
    requires
        0 <= i < x.len(),
    ensures
        common_zeros(x) <= low_zeros(x[i] as int),
        common_zeros(x) <= 32,
    decreases x.len(),
{
    if x.len() == 1 {
        assert(common_zeros(x.drop_last()) == 32);
    } else {
        lemma_common_at(x.drop_last(), if i < x.len() - 1 { i } else { 0 });
    }
}

proof fn lemma_common_met(x: Seq<i32>)
    ensures
        common_zeros(x) <= 32,
        common_zeros(x) < 32 ==> exists|i: int| 0 <= i < x.len() && low_zeros(#[trigger] x[i] as int) == common_zeros(x),
    decreases x.len(),
{
    if x.len() > 0 {
        lemma_common_met(x.drop_last());
        if low_zeros(x.last() as int) < common_zeros(x.drop_last()) {
            assert(low_zeros(x[x.len() - 1] as int) == common_zeros(x));
        } else if common_zeros(x) < 32 {
            let i = choose|i: int|
                0 <= i < x.len() - 1 && low_zeros(#[trigger] x.drop_last()[i] as int) == common_zeros(x.drop_last());
            assert(low_zeros(x[i] as int) == common_zeros(x));
        }
    }
}

/// The detected shift is the greatest that all samples allow: each of them is a
/// multiple of its power of two, and some sample is no multiple of the next.
/// Silence has no shift.
pub proof fn detected_shift_is_greatest(x: Seq<i32>, k: nat)
    ensures
        forall|i: int| 0 <= i < x.len() ==> #[trigger] x[i] as int % pow2(detected(x)) as int == 0,
        (forall|i: int| 0 <= i < x.len() ==> #[trigger] x[i] == 0) ==> detected(x) == 0,
        k <= 31 && (forall|i: int| 0 <= i < x.len() ==> #[trigger] x[i] as int % pow2(k) as int == 0) && (exists|i: int|
            0 <= i < x.len() && #[trigger] x[i] != 0) ==> k <= detected(x),
{
    lemma_common_met(x);
    let d = detected(x);
    assert forall|i: int| 0 <= i < x.len() implies #[trigger] x[i] as int % pow2(d) as int == 0 by {
        lemma_common_at(x, i);
        lemma_pow2_pos(d);
        if x[i] != 0 {
            lemma_low_zeros(x[i] as int, d);
        } else {
            vstd::arithmetic::div_mod::lemma_small_mod(0, pow2(d));
        }
    }
    if forall|i: int| 0 <= i < x.len() ==> #[trigger] x[i] == 0 {
        if common_zeros(x) < 32 {
            let i = choose|i: int| 0 <= i < x.len() && low_zeros(#[trigger] x[i] as int) == common_zeros(x);
            assert(x[i] == 0);
        }
    }
    if k <= 31 && (forall|i: int| 0 <= i < x.len() ==> #[trigger] x[i] as int % pow2(k) as int == 0) && (exists|i: int|
        0 <= i < x.len() && #[trigger] x[i] != 0) {
        if common_zeros(x) < 32 {
            let i = choose|i: int| 0 <= i < x.len() && low_zeros(#[trigger] x[i] as int) == common_zeros(x);
            assert(x[i] as int % pow2(k) as int == 0);
            if x[i] != 0 {
                lemma_low_zeros(x[i] as int, k);
            }
        } else {
            let i = choose|i: int| 0 <= i < x.len() && #[trigger] x[i] != 0;
            lemma_common_at(x, i);
            lemma_zeros_short(x[i]);
        }
    }
}

pub proof fn lemma_zeros_short(v: i32)
    requires
        v != 0,
    ensures
        low_zeros(v as int) < 32,
{
    if low_zeros(v as int) >= 32 {
        lemma_low_zeros(v as int, 32);
        vstd::arithmetic::power2::lemma2_to64();
        assert(v as int % 0x1_0000_0000 == 0);
    }
}

/// Of plans whose blocks are equally small a search keeps the first.
pub proof fn searches_keep_the_first(x: Seq<i32>, base: Config, plans: Seq<Plan>, block_index: u32, total_samples: u32, k: int)
    requires
        0 <= k < plans.len(),
        smallest_of(x, base, plans, block_index, total_samples) is Ok,
        forall|i: int|
            0 <= i < plans.len() ==> plan_block(x, base, #[trigger] plans[i], block_index, total_samples) is Ok,
        forall|i: int|
            0 <= i < k ==> plan_block(x, base, #[trigger] plans[i], block_index, total_samples)->Ok_0.len()
                > plan_block(x, base, plans[k], block_index, total_samples)->Ok_0.len(),
        forall|i: int|
            k <= i < plans.len() ==> plan_block(x, base, #[trigger] plans[i], block_index, total_samples)->Ok_0.len()
                >= plan_block(x, base, plans[k], block_index, total_samples)->Ok_0.len(),
    ensures
        search_block(x, base, plans, block_index, total_samples) == plan_block(
            x,
            base,
            plans[k],
            block_index,
            total_samples,
        ),
    decreases plans.len(),
{
    let before = plans.drop_last();
    assert(plans.last() == plans[plans.len() - 1]);
    if k < before.len() {
        assert forall|i: int| 0 <= i < before.len() implies #[trigger] before[i] == plans[i] by {}
        searches_keep_the_first(x, base, before, block_index, total_samples, k);
        search_is_least(x, base, before, block_index, total_samples);
    } else if before.len() > 0 {
        search_is_least(x, base, before, block_index, total_samples);
        let i = choose|i: int|
            0 <= i < before.len() && plan_block(x, base, #[trigger] before[i], block_index, total_samples)
                == search_block(x, base, before, block_index, total_samples);
        assert(before[i] == plans[i]);
    }
}

// ---------------------------------------------------------------------------
// Members of a set, and rates
// ---------------------------------------------------------------------------

/// Every member of a multichannel set is a mono block of one channel. The first
/// opens the set and says how many channels there are, where a byte holds the number;
/// the last closes it.
pub proof fn members_state_their_place(
    x: Seq<i32>,
    channels: int,
    ch: int,
    from: int,
    n: int,
    bytes_per_sample: u8,
    block_index: u32,
    total_samples: u32,
)
    requires
        0 <= ch < channels,
        0 < n <= u32::MAX,
        member_bytes(x, channels, ch, from, n, bytes_per_sample, block_index, total_samples) is Ok,
    ensures
        ({
            let bytes = member_bytes(x, channels, ch, from, n, bytes_per_sample, block_index, total_samples)->Ok_0;
            let b = block_of(bytes)->Ok_0.0;
            let info = payload_in(b.subs, SubBlockId::MultichannelInfo);
            &&& block_of(bytes) is Ok
            &&& states_block(b.header, bytes.len(), n, true, block_index, total_samples)
            &&& states_bytes(b.header, bytes_per_sample)
            &&& b.header.flags.multichannel_start == (ch == 0)
            &&& b.header.flags.multichannel_end == (ch + 1 == channels)
            &&& info is Some <==> ch == 0 && 2 <= channels < 256
            &&& info is Some ==> info->Some_0.len() == 2 && info->Some_0[0] == channels && info->Some_0[1] == 0
        }),
{
    reveal(member_bytes);
    let c = member_config(bytes_per_sample, ch == 0, ch == channels - 1, set_info(channels, ch));
    let y = column(x, channels, ch, from, n);
    blocks_state_their_samples(y, c, block_index, total_samples, 0);
    lemma_info_lookup(y, c, block_index, total_samples);
    let bytes = block_bytes(y, c, block_index, total_samples)->Ok_0;
    block_bytes_roundtrip(y, c, block_index, total_samples, Seq::empty());
    assert(bytes + Seq::empty() =~= bytes);
}

/// The rate that an index stands for.
pub open spec fn rate_named(i: int) -> int {
    if i == 0 {
        6000
    } else if i == 1 {
        8000
    } else if i == 2 {
        9600
    } else if i == 3 {
        11025
    } else if i == 4 {
        12000
    } else if i == 5 {
        16000
    } else if i == 6 {
        22050
    } else if i == 7 {
        24000
    } else if i == 8 {
        32000
    } else if i == 9 {
        44100
    } else if i == 10 {
        48000
    } else if i == 11 {
        64000
    } else if i == 12 {
        88200
    } else if i == 13 {
        96000
    } else {
        192000
    }
}

/// The fifteen rates that a flag word can name, from the lowest up. Any other is
/// three bytes of its own, least significant first, which may be missing.
pub proof fn rates_have_their_index(b: Block)
    ensures
        ({
            let i = b.header.flags.sample_rate_index;
            let own = payload_in(b.subs, SubBlockId::NonStandardSampleRate);
            &&& i < 15 ==> rate_of(b) is Ok && rate_of(b)->Ok_0 is Some && rate_of(b)->Ok_0->Some_0 == rate_named(i as int)
            &&& i >= 15 && own is None ==> rate_of(b) == Ok::<Option<u32>, Error>(None)
            &&& i >= 15 && own is Some && own->Some_0.len() != 3 ==> rate_of(b) is Err
            &&& i >= 15 && own is Some && own->Some_0.len() == 3 ==> {
                &&& rate_of(b) is Ok && rate_of(b)->Ok_0 is Some
                &&& rate_of(b)->Ok_0->Some_0 == own->Some_0[0] + 0x100 * own->Some_0[1] + 0x1_0000 * own->Some_0[2]
            }
        }),
{
}

proof fn lemma_top_met(y: Seq<i32>)
    ensures
        top_magnitude(y) > 0 ==> exists|i: int|
            0 <= i < y.len() && bit_length(magnitude(#[trigger] y[i])) == top_magnitude(y),
    decreases y.len(),
{
    if y.len() > 0 {
        let z = y.drop_last();
        lemma_top_met(z);
        if bit_length(magnitude(y.last())) > top_magnitude(z) {
            assert(bit_length(magnitude(y[y.len() - 1])) == top_magnitude(y));
        } else if top_magnitude(y) > 0 {
            let i = choose|i: int| 0 <= i < z.len() && bit_length(magnitude(#[trigger] z[i])) == top_magnitude(z);
            assert(z[i] == y[i]);
        }
    }
}

/// The magnitude that a block states is no longer than it has to be: some sample, or
/// some residual, is just so long.
pub proof fn stated_magnitudes_are_met(x: Seq<i32>, c: Config, block_index: u32, total_samples: u32)
    ensures
        ({
            let y = block_narrow(x, c);
            let r = block_residuals(x, c);
            let top = written_block(x, c, block_index, total_samples).header.flags.max_magnitude;
            0 < top < 31 ==> (exists|i: int| 0 <= i < y.len() && bit_length(magnitude(#[trigger] y[i])) == top) || (exists|i: int|
                0 <= i < r.len() && bit_length(magnitude(#[trigger] r[i])) == top)
        }),
{
    lemma_top_met(block_narrow(x, c));
    lemma_top_met(block_residuals(x, c));
}

// ---------------------------------------------------------------------------
// Streams
// ---------------------------------------------------------------------------

/// Blocks of `frames` frames each from frame `from` on, but for the last, which goes
/// on to `end`.
pub open spec fn splits(bs: Seq<Block>, frames: int, from: int, end: int, mono: bool, total: u32) -> bool {
    forall|k: int|
        0 <= k < bs.len() ==> {
            let h = (#[trigger] bs[k]).header;
            &&& h.block_index == from + k * frames
            &&& h.block_samples == (if k + 1 < bs.len() {
                frames
            } else {
                end - from - k * frames
            })
            &&& h.total_samples == total
            &&& h.flags.mono == mono && h.flags.multichannel_start && h.flags.multichannel_end && !h.flags.hybrid
        }
}

proof fn lemma_splits_first(b: Block, bs: Seq<Block>, frames: int, from: int, end: int, mono: bool, total: u32)
    requires
        b.header.block_index == from,
        b.header.block_samples == (if bs.len() > 0 {
            frames
        } else {
            end - from
        }),
        b.header.total_samples == total,
        b.header.flags.mono == mono && b.header.flags.multichannel_start && b.header.flags.multichannel_end,
        !b.header.flags.hybrid,
        splits(bs, frames, from + frames, end, mono, total),
    ensures
        splits(seq![b] + bs, frames, from, end, mono, total),
{
    let all = seq![b] + bs;
    assert forall|k: int| 0 <= k < all.len() implies ({
        let h = (#[trigger] all[k]).header;
        &&& h.block_index == from + k * frames
        &&& h.block_samples == (if k + 1 < all.len() {
            frames
        } else {
            end - from - k * frames
        })
        &&& h.total_samples == total
        &&& h.flags.mono == mono && h.flags.multichannel_start && h.flags.multichannel_end && !h.flags.hybrid
    }) by {
        if k > 0 {
            assert(all[k] == bs[k - 1]);
            assert((k - 1) * frames + frames == k * frames) by (nonlinear_arith);
        } else {
            assert(0 * frames == 0) by (nonlinear_arith);
        }
    }
}

proof fn lemma_stream_splits(
    x: Seq<i32>,
    step: int,
    frames: int,
    mono: bool,
    coding: Coding,
    index: int,
    total: u32,
)
    requires
        frames > 0,
        step == (if mono {
            frames
        } else {
            2 * frames
        }),
        !mono ==> x.len() % 2 == 0,
        0 <= index,
        index + frames_of(x, mono) <= u32::MAX,
        stream_from(x, step, mono, coding, index, total) is Ok,
    ensures
        ({
            let bytes = stream_from(x, step, mono, coding, index, total)->Ok_0;
            let bs = audio_of(bytes)->Ok_0;
            &&& audio_of(bytes) is Ok
            &&& bs.len() > 0 <==> x.len() > 0
            &&& splits(bs, frames, index, index + frames_of(x, mono), mono, total)
        }),
    decreases x.len(),
{
    let none = Seq::<Block>::empty();
    assert(blocks_of(Seq::<u8>::empty()) == Ok::<Seq<Block>, Error>(none));
    assert(audio_only(none) =~= none);
    if x.len() > 0 {
        let w = window(x, step);
        let rest = x.skip(w.len() as int);
        let one = coded_block(w, mono, coding, index as u32, total)->Ok_0;
        coded_blocks_state_their_samples(w, mono, coding, index as u32, total);
        let b = block_of(one)->Ok_0.0;
        lemma_one_audio(one, w, mono, coding, index as u32, total);
        lemma_stream_splits(rest, step, frames, mono, coding, index + frames_of(w, mono), total);
        let tail = stream_from(rest, step, mono, coding, index + frames_of(w, mono), total)->Ok_0;
        lemma_audio_of_concat(one, tail);
        let more = audio_of(tail)->Ok_0;
        if more.len() == 0 {
            assert(splits(more, frames, index + frames, index + frames_of(x, mono), mono, total));
        }
        lemma_splits_first(b, more, frames, index, index + frames_of(x, mono), mono, total);
    }
}

proof fn lemma_one_audio(bytes: Seq<u8>, x: Seq<i32>, mono: bool, coding: Coding, block_index: u32, total_samples: u32)
    requires
        coded_block(x, mono, coding, block_index, total_samples) == Ok::<Seq<u8>, Error>(bytes),
        0 < frames_of(x, mono) <= u32::MAX,
    ensures
        audio_of(bytes) == Ok::<Seq<Block>, Error>(seq![block_of(bytes)->Ok_0.0]),
{
    lemma_coded_states(x, mono, coding, block_index, total_samples);
    reveal(states_config);
    let (b, rest) = block_of(bytes)->Ok_0;
    assert(rest.len() == 0);
    assert(blocks_of(rest) == Ok::<Seq<Block>, Error>(Seq::empty()));
    assert(seq![b] + Seq::<Block>::empty() =~= seq![b]);
    assert(blocks_of(bytes) == Ok::<Seq<Block>, Error>(seq![b]));
    assert(seq![b].drop_last() =~= Seq::empty());
    assert(audio_only(seq![b].drop_last()) =~= Seq::empty());
    assert(audio_only(seq![b]) =~= seq![b]);
}

/// A stream is split into blocks of equally many frames, one behind the other, and
/// a last one of what is left.
pub proof fn streams_split_evenly(x: Seq<i32>, block_samples: usize, mono: bool, coding: Coding)
    requires
        stream_bytes(x, block_samples, mono, coding) is Ok,
    ensures
        ({
            let bytes = stream_bytes(x, block_samples, mono, coding)->Ok_0;
            &&& audio_of(bytes) is Ok
            &&& splits(
                audio_of(bytes)->Ok_0,
                block_frames(block_samples),
                0,
                frames_of(x, mono),
                mono,
                frames_of(x, mono) as u32,
            )
        }),
{
    lemma_stream_splits(
        x,
        block_step(block_samples, mono),
        block_frames(block_samples),
        mono,
        coding,
        0,
        frames_of(x, mono) as u32,
    );
}

/// No samples make no block, and an odd number of them no stereo block or stream.
pub proof fn blocks_need_whole_frames(
    x: Seq<i32>,
    c: Config,
    coding: Coding,
    block_samples: usize,
    block_index: u32,
    total_samples: u32,
)
    ensures
        x.len() == 0 ==> block_bytes(x, c, block_index, total_samples) == Err::<Seq<u8>, Error>(Error::EncodeEmptyAudio),
        x.len() % 2 == 1 && !c.mono ==> block_bytes(x, c, block_index, total_samples) == Err::<Seq<u8>, Error>(
            Error::EncodeStereoOddLength(x.len() as usize),
        ),
        x.len() % 2 == 1 ==> stream_bytes(x, block_samples, false, coding) == Err::<Seq<u8>, Error>(
            Error::EncodeStereoOddLength(x.len() as usize),
        ),
        x.len() == 0 ==> stream_bytes(x, block_samples, c.mono, coding) == Ok::<Seq<u8>, Error>(Seq::empty()),
{
}

} // verus!
