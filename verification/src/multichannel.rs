//! Sets of blocks that share their frames.
//!
//! A set starts at a block that carries the start flag and ends at one that
//! carries the end flag; each member adds one channel or two.
use vstd::prelude::*;
use crate::block::{Block, WavPackBlock, block_views, blocks_wf, decode_block};
use crate::error::{Error, Result};
use crate::stream::{audio_of, decoded_blocks, parse_audio_blocks, stream_samples};

verus! {

/// The most channels that a set can hold.
pub const MAX_MULTICHANNEL_CHANNELS: usize = 4096;

/// A set that has not ended.
#[verifier::ext_equal]
pub struct OpenSet {
    /// Frames of every member.
    pub frames: u32,
    /// The samples of each channel.
    pub columns: Seq<Seq<i32>>,
}

/// What a stream of sets has given so far.
#[verifier::ext_equal]
pub struct Gathered {
    /// Channels of each set, zero before the first one.
    pub channels: nat,
    /// The interleaved samples.
    pub samples: Seq<i32>,
    /// The set that has not ended.
    pub open: Option<OpenSet>,
}

impl Gathered {
    /// Nothing yet.
    pub open spec fn start() -> Gathered {
        Gathered { channels: 0, samples: Seq::empty(), open: None }
    }
}

/// Every other sample, from `from`.
pub open spec fn lane(x: Seq<i32>, from: int) -> Seq<i32> {
    Seq::new((x.len() / 2) as nat, |k: int| x[2 * k + from])
}

/// The channels of a member's samples.
pub open spec fn columns_of(x: Seq<i32>, mono: bool) -> Seq<Seq<i32>> {
    if mono {
        seq![x]
    } else {
        seq![lane(x, 0), lane(x, 1)]
    }
}

/// Columns of equal length as frames.
pub open spec fn interleaved(columns: Seq<Seq<i32>>, frames: nat) -> Seq<i32> {
    Seq::new(frames * columns.len(), |k: int| columns[k % columns.len() as int][k / columns.len() as int])
}

/// The set that a block belongs to, before the block's own channels.
pub open spec fn set_for(st: Gathered, b: Block) -> core::result::Result<OpenSet, Error> {
    match st.open {
        None => if b.header.flags.multichannel_start {
            Ok(OpenSet { frames: b.header.block_samples, columns: Seq::empty() })
        } else {
            Err(Error::MultichannelSetMalformed)
        },
        Some(set) => if b.header.flags.multichannel_start {
            Err(Error::MultichannelSetMalformed)
        } else if b.header.block_samples != set.frames {
            Err(
                Error::MultichannelSampleCountMismatch {
                    expected: set.frames,
                    found: b.header.block_samples,
                },
            )
        } else {
            Ok(set)
        },
    }
}

/// A set with one more member, which may end it.
pub open spec fn gather_columns(st: Gathered, frames: u32, columns: Seq<Seq<i32>>, end: bool) -> core::result::Result<
    Gathered,
    Error,
> {
    if columns.len() > MAX_MULTICHANNEL_CHANNELS {
        Err(Error::MultichannelTooManyChannels(columns.len() as usize))
    } else if !end {
        Ok(Gathered { open: Some(OpenSet { frames, columns }), ..st })
    } else if st.channels != 0 && st.channels != columns.len() {
        Err(Error::MultichannelSetMalformed)
    } else {
        Ok(
            Gathered {
                channels: columns.len(),
                samples: st.samples + interleaved(columns, frames as nat),
                open: None,
            },
        )
    }
}

/// One more block.
pub open spec fn gather_step(st: Gathered, b: Block) -> core::result::Result<Gathered, Error> {
    match set_for(st, b) {
        Err(e) => Err(e),
        Ok(set) => match decode_block(b) {
            Err(e) => Err(e),
            Ok(d) => gather_columns(
                st,
                set.frames,
                set.columns + columns_of(d.samples, b.header.flags.mono),
                b.header.flags.multichannel_end,
            ),
        },
    }
}

/// What a list of audio blocks gives.
pub open spec fn gathered(bs: Seq<Block>) -> core::result::Result<Gathered, Error>
    decreases bs.len(),
{
    if bs.len() == 0 {
        Ok(Gathered::start())
    } else {
        match gathered(bs.drop_last()) {
            Err(e) => Err(e),
            Ok(st) => gather_step(st, bs.last()),
        }
    }
}

/// The channel count and interleaved samples of a stream of sets.
pub open spec fn multichannel_of(bytes: Seq<u8>) -> core::result::Result<(nat, Seq<i32>), Error> {
    match audio_of(bytes) {
        Err(e) => Err(e),
        Ok(bs) => match gathered(bs) {
            Err(e) => Err(e),
            Ok(st) => if st.open is Some {
                Err(Error::MultichannelSetMalformed)
            } else {
                Ok((st.channels, st.samples))
            },
        },
    }
}

proof fn lemma_gathered_error(bs: Seq<Block>, k: int)
    requires
        0 <= k <= bs.len(),
        gathered(bs.take(k)) is Err,
    ensures
        gathered(bs) == gathered(bs.take(k)),
    decreases bs.len(),
{
    if k < bs.len() {
        assert(bs.drop_last().take(k) =~= bs.take(k));
        lemma_gathered_error(bs.drop_last(), k);
    } else {
        assert(bs.take(k) =~= bs);
    }
}

/// The frames of a stream of sets.
#[derive(Debug, Clone, PartialEq, Eq)]
pub struct MultichannelSamples {
    /// Channels per frame.
    pub channels: usize,
    /// The interleaved samples.
    pub samples: Vec<i32>,
}

/// The values of a list of columns.
pub open spec fn column_views(c: Seq<Vec<i32>>) -> Seq<Seq<i32>> {
    Seq::new(c.len(), |i: int| c[i]@)
}

/// Every column holds `frames` samples.
pub open spec fn columns_fit(c: Seq<Seq<i32>>, frames: nat) -> bool {
    forall|i: int| 0 <= i < c.len() ==> (#[trigger] c[i]).len() == frames
}

fn take_lane(x: &Vec<i32>, from: usize) -> (r: Vec<i32>)
    requires
        from < 2,
    ensures
        r@ == lane(x@, from as int),
{
    let mut out: Vec<i32> = Vec::new();
    let n: usize = x.len() / 2;
    let mut k: usize = 0;
    while k < n
        invariant
            n == x@.len() / 2,
            x@.len() <= usize::MAX,
            k <= n,
            from < 2,
            out@.len() == k,
            forall|j: int| 0 <= j < k ==> out@[j] == x@[2 * j + from],
        decreases n - k,
    {
        out.push(x[2 * k + from]);
        k = k + 1;
    }
    assert(out@ =~= lane(x@, from as int));
    out
}

/// Position `r` of frame `f` among frames of `c` channels.
proof fn lemma_cell(f: int, r: int, c: int)
    requires
        0 <= f,
        0 <= r < c,
    ensures
        (f * c + r) / c == f,
        (f * c + r) % c == r,
        (f + 1) * c == f * c + c,
{
    vstd::arithmetic::div_mod::lemma_fundamental_div_mod_converse(f * c + r, c, f, r);
    vstd::arithmetic::mul::lemma_mul_is_distributive_add_other_way(c, f, 1);
}

fn append_frames(out: &mut Vec<i32>, columns: &Vec<Vec<i32>>, frames: u32)
    requires
        columns@.len() > 0,
        columns_fit(column_views(columns@), frames as nat),
    ensures
        final(out)@ == old(out)@ + interleaved(column_views(columns@), frames as nat),
{
    let ghost cols = column_views(columns@);
    let ghost before = out@;
    let ghost want = interleaved(cols, frames as nat);
    let c: usize = columns.len();
    let mut f: u32 = 0;
    assert(out@ =~= before + want.take(0));
    proof {
        assert(want.len() == frames * c);
        assert(0int * c == 0) by (nonlinear_arith);
    }
    while f < frames
        invariant
            f <= frames,
            c == columns@.len(),
            c > 0,
            cols == column_views(columns@),
            columns_fit(cols, frames as nat),
            want == interleaved(cols, frames as nat),
            want.len() == frames * c,
            f * c <= frames * c,
            out@ == before + want.take(f * c),
        decreases frames - f,
    {
        let mut r: usize = 0;
        proof {
            vstd::arithmetic::mul::lemma_mul_inequality((f + 1) as int, frames as int, c as int);
            lemma_cell(f as int, 0, c as int);
        }
        while r < c
            invariant
                f < frames,
                r <= c,
                c == columns@.len(),
                c > 0,
                cols == column_views(columns@),
                columns_fit(cols, frames as nat),
                want == interleaved(cols, frames as nat),
                want.len() == frames * c,
                f * c + c <= frames * c,
                out@ == before + want.take(f * c + r),
            decreases c - r,
        {
            proof {
                lemma_cell(f as int, r as int, c as int);
                assert(cols[r as int] == columns@[r as int]@);
            }
            out.push(columns[r][f as usize]);
            proof {
                assert(want[f * c + r] == cols[r as int][f as int]);
                assert(out@ =~= before + want.take(f * c + r + 1));
            }
            r = r + 1;
        }
        f = f + 1;
    }
    assert(want.take(frames * c) =~= want);
}

/// A member decodes to as many samples as its header says.
proof fn lemma_block_len(b: &WavPackBlock<'_>)
    requires
        b.wf(),
    ensures
        match decode_block(b@) {
            Ok(d) => d.samples.len() == (if b.header.flags.mono {
                b.header.block_samples as int
            } else {
                2 * b.header.block_samples
            }),
            Err(_) => true,
        },
{
    crate::block::lemma_decoded_len(b@);
}

fn push_columns(columns: &mut Vec<Vec<i32>>, x: Vec<i32>, mono: bool)
    ensures
        column_views(final(columns)@) == column_views(old(columns)@) + columns_of(x@, mono),
{
    let ghost before = column_views(columns@);
    if mono {
        columns.push(x);
    } else {
        let a: Vec<i32> = take_lane(&x, 0);
        let b: Vec<i32> = take_lane(&x, 1);
        columns.push(a);
        columns.push(b);
    }
    assert(column_views(columns@) =~= before + columns_of(x@, mono));
}

/// A stream of sets on its way out.
struct Gatherer {
    channels: usize,
    samples: Vec<i32>,
    open: bool,
    frames: u32,
    columns: Vec<Vec<i32>>,
}

impl View for Gatherer {
    type V = Gathered;

    closed spec fn view(&self) -> Gathered {
        Gathered {
            channels: self.channels as nat,
            samples: self.samples@,
            open: if self.open {
                Some(OpenSet { frames: self.frames, columns: column_views(self.columns@) })
            } else {
                None
            },
        }
    }
}

impl Gatherer {
    closed spec fn wf(&self) -> bool {
        &&& columns_fit(column_views(self.columns@), self.frames as nat)
        &&& self.open ==> 0 < self.columns@.len() <= MAX_MULTICHANNEL_CHANNELS
    }

    fn step(&mut self, b: &WavPackBlock<'_>) -> (r: Result<()>)
        requires
            old(self).wf(),
            b.wf(),
        ensures
            match gather_step(old(self)@, b@) {
                Err(e) => r == Err::<(), Error>(e),
                Ok(st) => r is Ok && final(self)@ == st && final(self).wf(),
            },
    {
        let flags = b.header.flags;
        if self.open == flags.multichannel_start {
            return Err(Error::MultichannelSetMalformed);
        }
        if self.open {
            if b.header.block_samples != self.frames {
                return Err(
                    Error::MultichannelSampleCountMismatch {
                        expected: self.frames,
                        found: b.header.block_samples,
                    },
                );
            }
        } else {
            self.frames = b.header.block_samples;
            self.columns = Vec::new();
            assert(column_views(self.columns@) =~= Seq::empty());
        }
        let ghost before = column_views(self.columns@);
        let x: Vec<i32> = match b.decode_samples() {
            Err(e) => {
                return Err(e);
            }
            Ok(x) => x,
        };
        proof {
            lemma_block_len(b);
            let more = columns_of(x@, flags.mono);
            assert forall|i: int| 0 <= i < (before + more).len() implies (#[trigger] (before + more)[i]).len()
                == self.frames by {
                if i < before.len() {
                    assert(before[i].len() == self.frames);
                }
            }
        }
        push_columns(&mut self.columns, x, flags.mono);
        if self.columns.len() > MAX_MULTICHANNEL_CHANNELS {
            return Err(Error::MultichannelTooManyChannels(self.columns.len()));
        }
        if !flags.multichannel_end {
            self.open = true;
            return Ok(());
        }
        if self.channels != 0 && self.channels != self.columns.len() {
            return Err(Error::MultichannelSetMalformed);
        }
        append_frames(&mut self.samples, &self.columns, self.frames);
        self.channels = self.columns.len();
        self.open = false;
        Ok(())
    }
}

/// Decodes a stream of sets to interleaved frames.
pub fn decode_multichannel_stream(bytes: &[u8]) -> (r: Result<MultichannelSamples>)
    ensures
        match multichannel_of(bytes@) {
            Err(e) => r is Err && r->Err_0 == e,
            Ok((n, x)) => r is Ok && r->Ok_0.channels == n && r->Ok_0.samples@ == x,
        },
{
    let blocks = match parse_audio_blocks(bytes) {
        Err(e) => {
            return Err(e);
        }
        Ok(b) => b,
    };
    let ghost bs = block_views(blocks@);
    let mut st = Gatherer {
        channels: 0,
        samples: Vec::new(),
        open: false,
        frames: 0,
        columns: Vec::new(),
    };
    assert(st@.samples =~= Seq::empty());
    let mut i: usize = 0;
    while i < blocks.len()
        invariant
            i <= blocks.len(),
            bs == block_views(blocks@),
            blocks_wf(blocks@),
            audio_of(bytes@) == Ok::<Seq<Block>, Error>(bs),
            st.wf(),
            gathered(bs.take(i as int)) == Ok::<Gathered, Error>(st@),
        decreases blocks.len() - i,
    {
        proof {
            assert(bs.take(i + 1).drop_last() =~= bs.take(i as int));
            assert(bs[i as int] == blocks@[i as int]@);
        }
        match st.step(&blocks[i]) {
            Err(e) => {
                proof {
                    lemma_gathered_error(bs, i + 1);
                }
                return Err(e);
            }
            Ok(()) => {}
        }
        i = i + 1;
    }
    assert(bs.take(i as int) =~= bs);
    if st.open {
        return Err(Error::MultichannelSetMalformed);
    }
    Ok(MultichannelSamples { channels: st.channels, samples: st.samples })
}

// ---------------------------------------------------------------------------
// Where the samples of a member go
// ---------------------------------------------------------------------------

/// The channels of a block.
pub open spec fn channels_in(b: Block) -> nat {
    if b.header.flags.mono {
        1
    } else {
        2
    }
}

/// The channels of a list of blocks.
pub open spec fn channels_over(bs: Seq<Block>) -> nat
    decreases bs.len(),
{
    if bs.len() == 0 {
        0
    } else {
        channels_over(bs.drop_last()) + channels_in(bs.last())
    }
}

/// Whether blocks are one set: they share their frames, the first one alone
/// starts the set, the last one alone ends it, and each decodes.
pub open spec fn one_set(bs: Seq<Block>) -> bool {
    &&& bs.len() > 0
    &&& channels_over(bs) <= 4096
    &&& forall|i: int|
        0 <= i < bs.len() ==> {
            let b = #[trigger] bs[i];
            &&& decode_block(b) is Ok
            &&& b.header.block_samples == bs[0].header.block_samples
            &&& b.header.flags.multichannel_start == (i == 0)
            &&& b.header.flags.multichannel_end == (i == bs.len() - 1)
        }
}

proof fn lemma_channels_grow(bs: Seq<Block>, k: int)
    requires
        0 <= k <= bs.len(),
    ensures
        channels_over(bs.take(k)) <= channels_over(bs),
        k < bs.len() ==> channels_over(bs.take(k)) + channels_in(bs[k]) <= channels_over(bs),
    decreases bs.len(),
{
    if k == bs.len() {
        assert(bs.take(k) =~= bs);
    } else if k == bs.len() - 1 {
        assert(bs.take(k) =~= bs.drop_last());
    } else {
        lemma_channels_grow(bs.drop_last(), k);
        assert(bs.drop_last().take(k) =~= bs.take(k));
    }
}

/// The columns of the members so far.
pub open spec fn member_columns(bs: Seq<Block>) -> Seq<Seq<i32>>
    decreases bs.len(),
{
    if bs.len() == 0 {
        Seq::empty()
    } else {
        member_columns(bs.drop_last()) + columns_of(decode_block(bs.last())->Ok_0.samples, bs.last().header.flags.mono)
    }
}

/// A column of a member holds every sample of its channel.
proof fn lemma_member_column(bs: Seq<Block>, k: int, c: int, f: int)
    requires
        0 <= k < bs.len(),
        decode_block(bs[k]) is Ok,
        0 <= c < channels_in(bs[k]),
        0 <= f < bs[k].header.block_samples,
    ensures
        member_columns(bs).len() == channels_over(bs),
        0 <= channels_over(bs.take(k)) + c < channels_over(bs),
        member_columns(bs)[channels_over(bs.take(k)) + c][f] == decode_block(bs[k])->Ok_0.samples[f * channels_in(bs[k])
            + c],
    decreases bs.len(),
{
    lemma_columns_len(bs);
    lemma_channels_grow(bs, k);
    let before = bs.drop_last();
    lemma_columns_len(before);
    if k < bs.len() - 1 {
        lemma_member_column(before, k, c, f);
        assert(before.take(k) =~= bs.take(k));
        assert(before[k] == bs[k]);
    } else {
        assert(bs.take(k) =~= before);
        crate::block::lemma_decoded_len(bs[k]);
        if !bs[k].header.flags.mono {
            assert(f * 2 + c == 2 * f + c);
        } else {
            assert(f * 1 == f) by (nonlinear_arith);
        }
    }
}

proof fn lemma_columns_len(bs: Seq<Block>)
    ensures
        member_columns(bs).len() == channels_over(bs),
    decreases bs.len(),
{
    if bs.len() > 0 {
        lemma_columns_len(bs.drop_last());
    }
}

/// Members that have not ended their set.
proof fn lemma_open_set(bs: Seq<Block>, k: int)
    requires
        one_set(bs),
        0 <= k < bs.len(),
    ensures
        gathered(bs.take(k)) == Ok::<Gathered, Error>(
            Gathered {
                channels: 0,
                samples: Seq::empty(),
                open: if k == 0 {
                    None
                } else {
                    Some(OpenSet { frames: bs[0].header.block_samples, columns: member_columns(bs.take(k)) })
                },
            },
        ),
    decreases k,
{
    let part = bs.take(k);
    if k > 0 {
        lemma_open_set(bs, k - 1);
        assert(part.drop_last() =~= bs.take(k - 1));
        assert(part.last() == bs[k - 1]);
        lemma_columns_len(part);
        lemma_channels_grow(bs, k);
        assert(member_columns(bs.take(0)) =~= Seq::empty());
    }
}

/// A set decodes to frames of all its members' channels, members in their
/// order and the channels of each member in theirs: channel `c` of member `k`
/// stands behind the channels of the members before it.
pub proof fn sets_interleave_members(bytes: Seq<u8>, bs: Seq<Block>, k: int, c: int, f: int)
    requires
        audio_of(bytes) == Ok::<Seq<Block>, Error>(bs),
        one_set(bs),
        0 <= k < bs.len(),
        0 <= c < channels_in(bs[k]),
        0 <= f < bs[0].header.block_samples,
    ensures
        ({
            let n = channels_over(bs) as int;
            let x = multichannel_of(bytes)->Ok_0.1;
            let at = f * n + channels_over(bs.take(k)) + c;
            &&& multichannel_of(bytes) is Ok
            &&& multichannel_of(bytes)->Ok_0.0 == n
            &&& x.len() == bs[0].header.block_samples * n
            &&& 0 <= at < x.len()
            &&& x[at] == decode_block(bs[k])->Ok_0.samples[f * channels_in(bs[k]) + c]
        }),
{
    let m = bs.len() - 1;
    let n = channels_over(bs) as int;
    let frames = bs[0].header.block_samples as nat;
    let cols = member_columns(bs);
    lemma_open_set(bs, m);
    assert(bs.take(m) =~= bs.drop_last());
    lemma_columns_len(bs);
    lemma_member_column(bs, k, c, f);
    assert(bs[m] == bs.last());
    assert(member_columns(bs.take(0)) =~= Seq::empty());
    assert(gathered(bs) == Ok::<Gathered, Error>(
        Gathered { channels: n as nat, samples: Seq::<i32>::empty() + interleaved(cols, frames), open: None },
    ));
    let x = interleaved(cols, frames);
    assert(Seq::<i32>::empty() + x =~= x);
    let r = channels_over(bs.take(k)) + c;
    lemma_cell(f, r, n);
    assert(0 <= f * n && f * n + r < frames * n) by (nonlinear_arith)
        requires
            0 <= f < frames,
            0 <= r < n,
    ;
    assert(x[f * n + r] == cols[r][f]);
}

/// Whether every block is a set of its own, each of as many channels.
pub open spec fn all_standalone(bs: Seq<Block>, mono: bool) -> bool {
    forall|i: int|
        0 <= i < bs.len() ==> {
            let b = #[trigger] bs[i];
            &&& decode_block(b) is Ok
            &&& b.header.flags.mono == mono
            &&& b.header.flags.multichannel_start
            &&& b.header.flags.multichannel_end
        }
}

/// Lanes of a buffer put together again are the buffer.
proof fn lemma_lanes_interleave(x: Seq<i32>, mono: bool, frames: nat)
    requires
        x.len() == (if mono {
            frames
        } else {
            2 * frames
        }),
    ensures
        interleaved(columns_of(x, mono), frames) == x,
{
    let cols = columns_of(x, mono);
    let y = interleaved(cols, frames);
    if mono {
        assert(frames * 1 == frames) by (nonlinear_arith);
        assert forall|k: int| 0 <= k < x.len() implies y[k] == x[k] by {
            assert(k % 1 == 0 && k / 1 == k);
        }
    } else {
        assert(cols.len() == 2);
        assert(frames * cols.len() == 2 * frames) by (nonlinear_arith)
            requires
                cols.len() == 2,
        ;
        assert forall|k: int| 0 <= k < x.len() implies y[k] == x[k] by {
            assert(k == 2 * (k / 2) + k % 2);
            assert(y[k] == cols[k % 2][k / 2]);
        }
    }
    assert(y =~= x);
}

/// A stream of blocks that are sets of their own decodes to the channels of
/// one block, and to the samples that decoding it as plain blocks gives.
pub proof fn standalone_blocks_decode_alike(bytes: Seq<u8>, bs: Seq<Block>, mono: bool)
    requires
        audio_of(bytes) == Ok::<Seq<Block>, Error>(bs),
        bs.len() > 0,
        all_standalone(bs, mono),
    ensures
        stream_samples(bytes, false) is Ok,
        multichannel_of(bytes) == Ok::<(nat, Seq<i32>), Error>(
            (
                if mono {
                    1
                } else {
                    2
                },
                stream_samples(bytes, false)->Ok_0.samples,
            ),
        ),
{
    lemma_standalone(bs, mono);
}

proof fn lemma_standalone(bs: Seq<Block>, mono: bool)
    requires
        all_standalone(bs, mono),
    ensures
        decoded_blocks(bs, false) is Ok,
        gathered(bs) == Ok::<Gathered, Error>(
            Gathered {
                channels: if bs.len() == 0 {
                    0
                } else if mono {
                    1
                } else {
                    2
                },
                samples: decoded_blocks(bs, false)->Ok_0.samples,
                open: None,
            },
        ),
    decreases bs.len(),
{
    if bs.len() > 0 {
        let before = bs.drop_last();
        let b = bs.last();
        assert(b == bs[bs.len() - 1]);
        assert forall|i: int| 0 <= i < before.len() implies ({
            let b = #[trigger] before[i];
            &&& decode_block(b) is Ok
            &&& b.header.flags.mono == mono
            &&& b.header.flags.multichannel_start
            &&& b.header.flags.multichannel_end
        }) by {
            assert(before[i] == bs[i]);
        }
        lemma_standalone(before, mono);
        crate::block::lemma_decoded_len(b);
        let d = decode_block(b)->Ok_0;
        lemma_lanes_interleave(d.samples, mono, b.header.block_samples as nat);
        assert(Seq::<Seq<i32>>::empty() + columns_of(d.samples, mono) =~= columns_of(d.samples, mono));
    }
}

/// Blocks make up whole sets: the first opens one, a block opens one just where the
/// block before closed one, and the members of a set have as many frames.
pub open spec fn sets_follow(bs: Seq<Block>) -> bool {
    &&& bs.len() > 0 ==> bs[0].header.flags.multichannel_start
    &&& forall|k: int|
        0 < k < bs.len() ==> {
            let before = bs[k - 1].header;
            let h = (#[trigger] bs[k]).header;
            &&& h.flags.multichannel_start == before.flags.multichannel_end
            &&& !h.flags.multichannel_start ==> h.block_samples == before.block_samples
        }
}

proof fn lemma_sets_follow(bs: Seq<Block>)
    requires
        gathered(bs) is Ok,
    ensures
        sets_follow(bs),
        gathered(bs)->Ok_0.open is Some <==> bs.len() > 0 && !bs.last().header.flags.multichannel_end,
        gathered(bs)->Ok_0.open is Some ==> gathered(bs)->Ok_0.open->Some_0.frames == bs.last().header.block_samples,
    decreases bs.len(),
{
    if bs.len() > 0 {
        let most = bs.drop_last();
        lemma_sets_follow(most);
        assert forall|k: int| 0 < k < bs.len() implies ({
            let before = bs[k - 1].header;
            let h = (#[trigger] bs[k]).header;
            &&& h.flags.multichannel_start == before.flags.multichannel_end
            &&& !h.flags.multichannel_start ==> h.block_samples == before.block_samples
        }) by {
            if k < most.len() {
                assert(most[k] == bs[k] && most[k - 1] == bs[k - 1]);
            } else {
                assert(most.last() == bs[k - 1]);
            }
        }
        if most.len() > 0 {
            assert(most[0] == bs[0]);
        }
    }
}

/// A stream of sets decodes only where its blocks make up whole sets, the last of
/// which is closed, of at most 4096 channels each.
pub proof fn decoded_sets_are_whole(bytes: Seq<u8>)
    requires
        multichannel_of(bytes) is Ok,
    ensures
        audio_of(bytes) is Ok,
        sets_follow(audio_of(bytes)->Ok_0),
        audio_of(bytes)->Ok_0.len() > 0 ==> audio_of(bytes)->Ok_0.last().header.flags.multichannel_end,
        multichannel_of(bytes)->Ok_0.0 <= 4096,
{
    let bs = audio_of(bytes)->Ok_0;
    lemma_sets_follow(bs);
    lemma_channels_capped(bs);
}

proof fn lemma_channels_capped(bs: Seq<Block>)
    requires
        gathered(bs) is Ok,
    ensures
        gathered(bs)->Ok_0.channels <= 4096,
    decreases bs.len(),
{
    if bs.len() > 0 {
        lemma_channels_capped(bs.drop_last());
    }
}

} // verus!
