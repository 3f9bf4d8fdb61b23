//! Streams of multichannel sets.
//!
//! Each run of frames becomes a set of mono blocks, one for each channel.
use vstd::prelude::*;
use vstd::arithmetic::div_mod::lemma_fundamental_div_mod;
use crate::block::{Block, MAX_DECODE_SAMPLES_PER_BLOCK, blocks_of, decode_block};
use crate::block_law::{first_block, holds, place_of, plain_block_decodes};
use crate::block_writer::block_bytes;
use crate::encode::{encode_block_mono_marker, info_bytes, member_config};
use crate::encode_stream::{block_frames, lemma_read_first, lemma_runs_first, stream_runs};
use crate::error::{Error, Result};
use crate::metadata::bytes_then;
use crate::multichannel::{Gathered, MAX_MULTICHANNEL_CHANNELS, OpenSet, columns_of, gather_step, gathered, interleaved, multichannel_of, set_for};
use crate::packed_samples::bytes_of;
use crate::seek::{FrameRun, contiguous, frames_in, lemma_run_first, runs_from};
use crate::stream::audio_of;
use crate::stream_law::lemma_audio_of_concat;

verus! {

/// The samples of channel `ch` in `n` frames from frame `from` on.
pub open spec fn column(x: Seq<i32>, channels: int, ch: int, from: int, n: int) -> Seq<i32> {
    Seq::new(n as nat, |f: int| x[(from + f) * channels + ch])
}

/// The multichannel payload of a member: the channel count and no speaker mask,
/// on the first member of a set whose count fits a byte.
pub open spec fn set_info(channels: int, ch: int) -> Option<Seq<u8>> {
    if ch == 0 && 1 < channels <= 255 {
        Some(seq![channels as u8, 0u8])
    } else {
        None
    }
}

/// The bytes of one member of a set.
#[verifier::opaque]
pub open spec fn member_bytes(
    x: Seq<i32>,
    channels: int,
    ch: int,
    from: int,
    n: int,
    bytes_per_sample: u8,
    block_index: u32,
    total_samples: u32,
) -> core::result::Result<Seq<u8>, Error> {
    block_bytes(
        column(x, channels, ch, from, n),
        member_config(bytes_per_sample, ch == 0, ch == channels - 1, set_info(channels, ch)),
        block_index,
        total_samples,
    )
}

/// The bytes of the members of a set from channel `ch` on.
pub open spec fn set_bytes(
    x: Seq<i32>,
    channels: int,
    ch: int,
    from: int,
    n: int,
    bytes_per_sample: u8,
    block_index: u32,
    total_samples: u32,
) -> core::result::Result<Seq<u8>, Error>
    decreases channels - ch,
{
    if ch >= channels {
        Ok(Seq::empty())
    } else {
        match member_bytes(x, channels, ch, from, n, bytes_per_sample, block_index, total_samples) {
            Err(e) => Err(e),
            Ok(b) => bytes_then(
                b,
                set_bytes(x, channels, ch + 1, from, n, bytes_per_sample, block_index, total_samples),
            ),
        }
    }
}

/// Frames of a set of at most `chunk`, with `left` frames to go.
pub open spec fn set_frames(chunk: int, left: int) -> int {
    if left <= chunk {
        left
    } else {
        chunk
    }
}

/// The bytes of the sets from frame `from` on.
pub open spec fn sets_from(
    x: Seq<i32>,
    channels: int,
    chunk: int,
    bytes_per_sample: u8,
    from: int,
    first_block_index: u32,
    total_samples: u32,
) -> core::result::Result<Seq<u8>, Error>
    decreases x.len() as int / channels - from,
{
    let frames = x.len() as int / channels;
    if from >= frames || chunk <= 0 {
        Ok(Seq::empty())
    } else if first_block_index + from > u32::MAX {
        Err(Error::EncodeBlockTooLarge(x.len() as usize))
    } else {
        let n = set_frames(chunk, frames - from);
        match set_bytes(
            x,
            channels,
            0,
            from,
            n,
            bytes_per_sample,
            (first_block_index + from) as u32,
            total_samples,
        ) {
            Err(e) => Err(e),
            Ok(b) => bytes_then(
                b,
                sets_from(x, channels, chunk, bytes_per_sample, from + n, first_block_index, total_samples),
            ),
        }
    }
}

/// The bytes of a stream of sets.
pub open spec fn multichannel_bytes(
    x: Seq<i32>,
    channels: usize,
    block_samples: usize,
    bytes_per_sample: u8,
    first_block_index: u32,
    total_samples: u32,
) -> core::result::Result<Seq<u8>, Error> {
    if channels == 0 || channels > MAX_MULTICHANNEL_CHANNELS {
        Err(Error::MultichannelTooManyChannels(channels))
    } else if x.len() == 0 {
        Ok(Seq::empty())
    } else if x.len() % channels as nat != 0 {
        Err(Error::EncodeStereoOddLength(x.len() as usize))
    } else {
        sets_from(
            x,
            channels as int,
            block_frames(block_samples),
            bytes_per_sample,
            0,
            first_block_index,
            total_samples,
        )
    }
}

proof fn lemma_cell_bound(f: int, ch: int, channels: int, frames: int, len: int)
    requires
        0 <= f < frames,
        0 <= ch < channels,
        frames == len / channels,
        len >= 0,
    ensures
        0 <= f * channels,
        f * channels + ch < len,
        f * channels <= f * channels + ch,
{
    lemma_fundamental_div_mod(len, channels);
    assert(0 <= f * channels && f * channels + channels <= frames * channels) by (nonlinear_arith)
        requires
            0 <= f < frames,
            channels > 0,
    ;
    assert(frames * channels <= len) by (nonlinear_arith)
        requires
            len == channels * frames + len % channels,
            len % channels >= 0,
            channels > 0,
    ;
    vstd::arithmetic::div_mod::lemma_mod_bound(len, channels);
}

fn take_column(x: &[i32], channels: usize, ch: usize, from: usize, n: usize) -> (r: Vec<i32>)
    requires
        ch < channels,
        from + n <= x@.len() / channels as nat,
    ensures
        r@ == column(x@, channels as int, ch as int, from as int, n as int),
{
    let mut out: Vec<i32> = Vec::new();
    let mut f: usize = 0;
    while f < n
        invariant
            f <= n,
            ch < channels,
            from + n <= x@.len() / channels as nat,
            out@.len() == f,
            forall|k: int| 0 <= k < f ==> out@[k] == x@[(from + k) * channels + ch],
        decreases n - f,
    {
        proof {
            lemma_cell_bound(from + f, ch as int, channels as int, x@.len() as int / channels as int, x@.len() as int);
        }
        assert(x@.len() <= usize::MAX) by {
            assert(x@.len() == x.len());
        }
        let at: usize = (from + f) * channels;
        out.push(x[at + ch]);
        f = f + 1;
    }
    assert(out@ =~= column(x@, channels as int, ch as int, from as int, n as int));
    out
}

fn encode_member(
    x: &[i32],
    channels: usize,
    ch: usize,
    from: usize,
    n: usize,
    bytes_per_sample: u8,
    block_index: u32,
    total_samples: u32,
) -> (r: Result<Vec<u8>>)
    requires
        ch < channels,
        from + n <= x@.len() / channels as nat,
    ensures
        bytes_of(r) == member_bytes(
            x@,
            channels as int,
            ch as int,
            from as int,
            n as int,
            bytes_per_sample,
            block_index,
            total_samples,
        ),
{
    let part: Vec<i32> = take_column(x, channels, ch, from, n);
    let info: Option<[u8; 2]> = if ch == 0 && channels > 1 && channels <= 255 {
        Some([channels as u8, 0])
    } else {
        None
    };
    proof {
        reveal(member_bytes);
        if let Some(b) = info {
            assert(b@ =~= seq![channels as u8, 0u8]);
        }
        assert(info_bytes(info) == set_info(channels as int, ch as int));
    }
    encode_block_mono_marker(
        part.as_slice(),
        bytes_per_sample,
        block_index,
        total_samples,
        ch == 0,
        ch == channels - 1,
        info,
    )
}

fn append_set(
    out: &mut Vec<u8>,
    x: &[i32],
    channels: usize,
    from: usize,
    n: usize,
    bytes_per_sample: u8,
    block_index: u32,
    total_samples: u32,
) -> (r: Result<()>)
    requires
        0 < channels,
        from + n <= x@.len() / channels as nat,
    ensures
        match set_bytes(
            x@,
            channels as int,
            0,
            from as int,
            n as int,
            bytes_per_sample,
            block_index,
            total_samples,
        ) {
            Err(e) => r == Err::<(), Error>(e),
            Ok(b) => r is Ok && final(out)@ == old(out)@ + b,
        },
{
    let ghost before = out@;
    let ghost whole = set_bytes(
        x@,
        channels as int,
        0,
        from as int,
        n as int,
        bytes_per_sample,
        block_index,
        total_samples,
    );
    let ghost mut done: Seq<u8> = Seq::empty();
    proof {
        if whole is Ok {
            assert(done + whole->Ok_0 =~= whole->Ok_0);
        }
        assert(before + done =~= before);
    }
    let mut ch: usize = 0;
    while ch < channels
        invariant
            ch <= channels,
            0 < channels,
            from + n <= x@.len() / channels as nat,
            out@ == before + done,
            before == old(out)@,
            whole == set_bytes(
                x@,
                channels as int,
                0,
                from as int,
                n as int,
                bytes_per_sample,
                block_index,
                total_samples,
            ),
            whole == bytes_then(
                done,
                set_bytes(
                    x@,
                    channels as int,
                    ch as int,
                    from as int,
                    n as int,
                    bytes_per_sample,
                    block_index,
                    total_samples,
                ),
            ),
        decreases channels - ch,
    {
        match encode_member(x, channels, ch, from, n, bytes_per_sample, block_index, total_samples) {
            Err(e) => {
                return Err(e);
            }
            Ok(b) => {
                out.extend_from_slice(b.as_slice());
                proof {
                    let later = set_bytes(
                        x@,
                        channels as int,
                        ch + 1,
                        from as int,
                        n as int,
                        bytes_per_sample,
                        block_index,
                        total_samples,
                    );
                    if later is Ok {
                        assert(done + (b@ + later->Ok_0) =~= (done + b@) + later->Ok_0);
                    }
                    assert(out@ =~= before + (done + b@));
                    done = done + b@;
                }
            }
        }
        ch = ch + 1;
    }
    assert(done + Seq::<u8>::empty() =~= done);
    Ok(())
}

/// Writes interleaved samples as sets whose first frame is
/// `first_block_index` of `total_samples`.
pub fn encode_multichannel_stream_at(
    pcm: &[i32],
    channels: usize,
    block_samples: usize,
    bytes_per_sample: u8,
    first_block_index: u32,
    total_samples: u32,
) -> (r: Result<Vec<u8>>)
    ensures
        bytes_of(r) == multichannel_bytes(
            pcm@,
            channels,
            block_samples,
            bytes_per_sample,
            first_block_index,
            total_samples,
        ),
{
    if channels == 0 || channels > MAX_MULTICHANNEL_CHANNELS {
        return Err(Error::MultichannelTooManyChannels(channels));
    }
    let mut out: Vec<u8> = Vec::new();
    if pcm.len() == 0 {
        assert(out@ =~= Seq::empty());
        return Ok(out);
    }
    if pcm.len() % channels != 0 {
        return Err(Error::EncodeStereoOddLength(pcm.len()));
    }
    let frames: usize = pcm.len() / channels;
    let chunk: usize = if block_samples == 0 {
        crate::encode_stream::DEFAULT_BLOCK_SAMPLES
    } else {
        block_samples
    };
    let ghost whole = multichannel_bytes(
        pcm@,
        channels,
        block_samples,
        bytes_per_sample,
        first_block_index,
        total_samples,
    );
    proof {
        if whole is Ok {
            assert(out@ + whole->Ok_0 =~= whole->Ok_0);
        }
    }
    let mut from: usize = 0;
    while from < frames
        invariant
            from <= frames,
            frames == pcm@.len() as int / channels as int,
            0 < channels,
            chunk == block_frames(block_samples),
            chunk > 0,
            whole == multichannel_bytes(
                pcm@,
                channels,
                block_samples,
                bytes_per_sample,
                first_block_index,
                total_samples,
            ),
            whole == bytes_then(
                out@,
                sets_from(
                    pcm@,
                    channels as int,
                    chunk as int,
                    bytes_per_sample,
                    from as int,
                    first_block_index,
                    total_samples,
                ),
            ),
        decreases frames - from,
    {
        let left: usize = frames - from;
        let n: usize = if left <= chunk {
            left
        } else {
            chunk
        };
        if from as u64 > (u32::MAX - first_block_index) as u64 {
            return Err(Error::EncodeBlockTooLarge(pcm.len()));
        }
        let index: u32 = first_block_index + from as u32;
        let ghost before = out@;
        match append_set(&mut out, pcm, channels, from, n, bytes_per_sample, index, total_samples) {
            Err(e) => {
                return Err(e);
            }
            Ok(()) => {}
        }
        proof {
            let later = sets_from(
                pcm@,
                channels as int,
                chunk as int,
                bytes_per_sample,
                from + n,
                first_block_index,
                total_samples,
            );
            let b = set_bytes(
                pcm@,
                channels as int,
                0,
                from as int,
                n as int,
                bytes_per_sample,
                index,
                total_samples,
            )->Ok_0;
            if later is Ok {
                assert(before + (b + later->Ok_0) =~= out@ + later->Ok_0);
            }
        }
        from = from + n;
    }
    assert(out@ + Seq::<u8>::empty() =~= out@);
    Ok(out)
}

/// The bytes of a stream of sets from its first frame to its last.
pub open spec fn whole_multichannel_bytes(x: Seq<i32>, channels: usize, block_samples: usize, bytes_per_sample: u8) -> core::result::Result<
    Seq<u8>,
    Error,
> {
    let frames: int = if channels == 0 {
        0
    } else {
        x.len() as int / channels as int
    };
    if frames > u32::MAX {
        Err(Error::EncodeBlockTooLarge(x.len() as usize))
    } else {
        multichannel_bytes(x, channels, block_samples, bytes_per_sample, 0, frames as u32)
    }
}

/// Writes interleaved samples as sets of blocks.
pub fn encode_multichannel_stream(pcm: &[i32], channels: usize, block_samples: usize, bytes_per_sample: u8) -> (r: Result<
    Vec<u8>,
>)
    ensures
        bytes_of(r) == whole_multichannel_bytes(pcm@, channels, block_samples, bytes_per_sample),
{
    let frames: usize = if channels == 0 {
        0
    } else {
        pcm.len() / channels
    };
    if frames as u64 > u32::MAX as u64 {
        return Err(Error::EncodeBlockTooLarge(pcm.len()));
    }
    encode_multichannel_stream_at(pcm, channels, block_samples, bytes_per_sample, 0, frames as u32)
}

// ---------------------------------------------------------------------------
// Reading sets back
// ---------------------------------------------------------------------------

/// What a list of audio blocks adds to what came before it.
pub open spec fn gather_more(st: Gathered, bs: Seq<Block>) -> core::result::Result<Gathered, Error>
    decreases bs.len(),
{
    if bs.len() == 0 {
        Ok(st)
    } else {
        match gather_more(st, bs.drop_last()) {
            Err(e) => Err(e),
            Ok(s) => gather_step(s, bs.last()),
        }
    }
}

proof fn lemma_gather_all(bs: Seq<Block>)
    ensures
        gathered(bs) == gather_more(Gathered::start(), bs),
    decreases bs.len(),
{
    if bs.len() > 0 {
        lemma_gather_all(bs.drop_last());
    }
}

proof fn lemma_gather_first(st: Gathered, b: Block, bs: Seq<Block>)
    ensures
        gather_more(st, seq![b] + bs) == (match gather_step(st, b) {
            Err(e) => Err(e),
            Ok(s) => gather_more(s, bs),
        }),
    decreases bs.len(),
{
    let all = seq![b] + bs;
    if bs.len() == 0 {
        assert(all.drop_last() =~= Seq::empty());
        assert(all.last() == b);
        assert(gather_more(st, all.drop_last()) == Ok::<Gathered, Error>(st));
    } else {
        lemma_gather_first(st, b, bs.drop_last());
        assert(all.drop_last() =~= seq![b] + bs.drop_last());
        assert(all.last() == bs.last());
    }
}

/// What the blocks of some bytes add to what came before them.
pub open spec fn read_sets(st: Gathered, bytes: Seq<u8>) -> core::result::Result<Gathered, Error> {
    match audio_of(bytes) {
        Err(e) => Err(e),
        Ok(bs) => gather_more(st, bs),
    }
}

/// The first `k` columns of a set.
pub open spec fn columns_to(x: Seq<i32>, channels: int, k: int, from: int, n: int) -> Seq<Seq<i32>> {
    Seq::new(k as nat, |ch: int| column(x, channels, ch, from, n))
}

/// Reading a member before more bytes.
proof fn lemma_read_member(
    x: Seq<i32>,
    channels: int,
    ch: int,
    from: int,
    n: int,
    bytes_per_sample: u8,
    block_index: u32,
    total_samples: u32,
    st: Gathered,
    rest: Seq<u8>,
)
    requires
        0 <= ch < channels <= MAX_MULTICHANNEL_CHANNELS,
        0 < n <= MAX_DECODE_SAMPLES_PER_BLOCK,
        member_bytes(x, channels, ch, from, n, bytes_per_sample, block_index, total_samples) is Ok,
        audio_of(rest) is Ok,
        st.open == (if ch == 0 {
            None
        } else {
            Some(OpenSet { frames: n as u32, columns: columns_to(x, channels, ch, from, n) })
        }),
        st.channels == 0 || st.channels == channels,
    ensures
        ({
            let b = member_bytes(x, channels, ch, from, n, bytes_per_sample, block_index, total_samples)->Ok_0;
            let next = if ch == channels - 1 {
                Gathered {
                    channels: channels as nat,
                    samples: st.samples + interleaved(columns_to(x, channels, channels, from, n), n as nat),
                    open: None,
                }
            } else {
                Gathered {
                    open: Some(OpenSet { frames: n as u32, columns: columns_to(x, channels, ch + 1, from, n) }),
                    ..st
                }
            };
            &&& audio_of(b + rest) is Ok
            &&& read_sets(st, b + rest) == read_sets(next, rest)
        }),
{
    reveal(member_bytes);
    let col = column(x, channels, ch, from, n);
    let c = member_config(bytes_per_sample, ch == 0, ch == channels - 1, set_info(channels, ch));
    let bytes = member_bytes(x, channels, ch, from, n, bytes_per_sample, block_index, total_samples)->Ok_0;
    let at = place_of(col, c, block_index, total_samples);
    plain_block_decodes(col, c, block_index, total_samples);
    lemma_read_first(bytes, col, at, rest);
    let b = first_block(bytes);
    let bs = audio_of(rest)->Ok_0;
    lemma_gather_first(st, b, bs);
    reveal(holds);
    let before = if ch == 0 {
        Seq::empty()
    } else {
        columns_to(x, channels, ch, from, n)
    };
    assert(before + columns_of(col, true) =~= columns_to(x, channels, ch + 1, from, n));
}

/// Reading a set before more bytes.
proof fn lemma_read_set(
    x: Seq<i32>,
    channels: int,
    ch: int,
    from: int,
    n: int,
    bytes_per_sample: u8,
    block_index: u32,
    total_samples: u32,
    st: Gathered,
    rest: Seq<u8>,
)
    requires
        0 <= ch < channels <= MAX_MULTICHANNEL_CHANNELS,
        0 < n <= MAX_DECODE_SAMPLES_PER_BLOCK,
        set_bytes(x, channels, ch, from, n, bytes_per_sample, block_index, total_samples) is Ok,
        audio_of(rest) is Ok,
        st.open == (if ch == 0 {
            None
        } else {
            Some(OpenSet { frames: n as u32, columns: columns_to(x, channels, ch, from, n) })
        }),
        st.channels == 0 || st.channels == channels,
    ensures
        ({
            let b = set_bytes(x, channels, ch, from, n, bytes_per_sample, block_index, total_samples)->Ok_0;
            let next = Gathered {
                channels: channels as nat,
                samples: st.samples + interleaved(columns_to(x, channels, channels, from, n), n as nat),
                open: None,
            };
            &&& audio_of(b + rest) is Ok
            &&& read_sets(st, b + rest) == read_sets(next, rest)
        }),
    decreases channels - ch,
{
    let one = member_bytes(x, channels, ch, from, n, bytes_per_sample, block_index, total_samples)->Ok_0;
    let more = set_bytes(x, channels, ch + 1, from, n, bytes_per_sample, block_index, total_samples)->Ok_0;
    let b = set_bytes(x, channels, ch, from, n, bytes_per_sample, block_index, total_samples)->Ok_0;
    assert(b + rest =~= one + (more + rest));
    if ch == channels - 1 {
        assert(more + rest =~= rest);
        lemma_read_member(
            x,
            channels,
            ch,
            from,
            n,
            bytes_per_sample,
            block_index,
            total_samples,
            st,
            rest,
        );
    } else {
        let next = Gathered {
            open: Some(OpenSet { frames: n as u32, columns: columns_to(x, channels, ch + 1, from, n) }),
            ..st
        };
        lemma_read_set(
            x,
            channels,
            ch + 1,
            from,
            n,
            bytes_per_sample,
            block_index,
            total_samples,
            next,
            rest,
        );
        lemma_read_member(
            x,
            channels,
            ch,
            from,
            n,
            bytes_per_sample,
            block_index,
            total_samples,
            st,
            more + rest,
        );
    }
}

/// Interleaving the columns of some frames gives the frames.
proof fn lemma_columns_interleave(x: Seq<i32>, channels: int, from: int, n: int)
    requires
        0 < channels,
        0 <= from,
        0 <= n,
        (from + n) * channels <= x.len(),
    ensures
        0 <= from * channels <= (from + n) * channels,
        interleaved(columns_to(x, channels, channels, from, n), n as nat) == x.subrange(
            from * channels,
            (from + n) * channels,
        ),
{
    let cols = columns_to(x, channels, channels, from, n);
    let out = interleaved(cols, n as nat);
    assert(0 <= from * channels && (from + n) * channels == from * channels + n * channels && 0 <= n * channels)
        by (nonlinear_arith)
        requires
            0 < channels,
            0 <= from,
            0 <= n,
    ;
    let want = x.subrange(from * channels, (from + n) * channels);
    assert forall|k: int| 0 <= k < n * channels implies out[k] == want[k] by {
        let f = k / channels;
        let ch = k % channels;
        lemma_fundamental_div_mod(k, channels);
        assert(0 <= f < n && 0 <= ch < channels) by (nonlinear_arith)
            requires
                0 <= k < n * channels,
                0 < channels,
                f == k / channels,
                ch == k % channels,
        ;
        assert((from + f) * channels + ch == from * channels + k) by (nonlinear_arith)
            requires
                k == channels * f + ch,
        ;
        assert(cols[ch] == column(x, channels, ch, from, n));
    }
    assert(out =~= want);
}

proof fn lemma_read_sets(
    x: Seq<i32>,
    channels: int,
    chunk: int,
    bytes_per_sample: u8,
    from: int,
    first_block_index: u32,
    total_samples: u32,
    st: Gathered,
)
    requires
        0 < channels <= MAX_MULTICHANNEL_CHANNELS,
        x.len() as int % channels == 0,
        0 < chunk,
        0 <= from <= x.len() as int / channels,
        set_frames(chunk, x.len() as int / channels - from) <= MAX_DECODE_SAMPLES_PER_BLOCK,
        sets_from(x, channels, chunk, bytes_per_sample, from, first_block_index, total_samples) is Ok,
        st.open is None,
        st.channels == channels || st.channels == 0 && from == 0,
    ensures
        ({
            let bytes = sets_from(
                x,
                channels,
                chunk,
                bytes_per_sample,
                from,
                first_block_index,
                total_samples,
            )->Ok_0;
            &&& audio_of(bytes) is Ok
            &&& 0 <= from * channels <= x.len()
            &&& x.len() > 0 ==> read_sets(st, bytes) == Ok::<Gathered, Error>(
                Gathered { channels: channels as nat, samples: st.samples + x.skip(from * channels), open: None },
            )
        }),
    decreases x.len() as int / channels - from,
{
    let frames = x.len() as int / channels;
    let bytes = sets_from(x, channels, chunk, bytes_per_sample, from, first_block_index, total_samples)->Ok_0;
    lemma_fundamental_div_mod(x.len() as int, channels);
    assert(frames * channels == x.len()) by (nonlinear_arith)
        requires
            x.len() as int == channels * frames + 0,
    ;
    assert(0 <= from * channels <= frames * channels) by (nonlinear_arith)
        requires
            0 <= from <= frames,
            channels > 0,
    ;
    if from >= frames {
        assert(blocks_of(bytes) == Ok::<Seq<Block>, Error>(Seq::empty()));
        assert(st.samples + x.skip(from * channels) =~= st.samples);
        if x.len() > 0 {
            assert(frames > 0) by (nonlinear_arith)
                requires
                    frames * channels == x.len(),
                    x.len() > 0,
                    channels > 0,
            ;
        }
    } else {
        let n = set_frames(chunk, frames - from);
        let index = (first_block_index + from) as u32;
        let b = set_bytes(x, channels, 0, from, n, bytes_per_sample, index, total_samples)->Ok_0;
        let tail = sets_from(x, channels, chunk, bytes_per_sample, from + n, first_block_index, total_samples)->Ok_0;
        assert((from + n) * channels <= frames * channels) by (nonlinear_arith)
            requires
                from + n <= frames,
                channels > 0,
        ;
        lemma_columns_interleave(x, channels, from, n);
        let part = interleaved(columns_to(x, channels, channels, from, n), n as nat);
        let next = Gathered { channels: channels as nat, samples: st.samples + part, open: None };
        lemma_read_sets(
            x,
            channels,
            chunk,
            bytes_per_sample,
            from + n,
            first_block_index,
            total_samples,
            next,
        );
        lemma_read_set(x, channels, 0, from, n, bytes_per_sample, index, total_samples, st, tail);
        assert(st.samples + part + x.skip((from + n) * channels) =~= st.samples + x.skip(from * channels));
    }
}

/// Decoding a stream of sets gives its channel count and its samples back.
pub proof fn multichannel_roundtrip(
    x: Seq<i32>,
    channels: usize,
    block_samples: usize,
    bytes_per_sample: u8,
    first_block_index: u32,
    total_samples: u32,
)
    requires
        x.len() > 0,
        multichannel_bytes(x, channels, block_samples, bytes_per_sample, first_block_index, total_samples) is Ok,
        block_frames(block_samples) <= MAX_DECODE_SAMPLES_PER_BLOCK || x.len() as int / channels as int
            <= MAX_DECODE_SAMPLES_PER_BLOCK,
    ensures
        multichannel_of(
            multichannel_bytes(
                x,
                channels,
                block_samples,
                bytes_per_sample,
                first_block_index,
                total_samples,
            )->Ok_0,
        ) == Ok::<(nat, Seq<i32>), Error>((channels as nat, x)),
{
    let bytes = multichannel_bytes(
        x,
        channels,
        block_samples,
        bytes_per_sample,
        first_block_index,
        total_samples,
    )->Ok_0;
    assert(x.len() as int % channels as int == 0);
    assert(0 <= x.len() as int / channels as int) by (nonlinear_arith)
        requires
            channels > 0,
    ;
    lemma_read_sets(
        x,
        channels as int,
        block_frames(block_samples),
        bytes_per_sample,
        0,
        first_block_index,
        total_samples,
        Gathered::start(),
    );
    lemma_gather_all(audio_of(bytes)->Ok_0);
    assert(0 * channels as int == 0);
    assert(Seq::<i32>::empty() + x.skip(0) =~= x);
}

/// A stream of sets from its first frame is the stream of sets at index zero.
pub proof fn multichannel_at_zero(x: Seq<i32>, channels: usize, block_samples: usize, bytes_per_sample: u8)
    requires
        channels > 0,
        x.len() as int / channels as int <= u32::MAX,
    ensures
        whole_multichannel_bytes(x, channels, block_samples, bytes_per_sample) == multichannel_bytes(
            x,
            channels,
            block_samples,
            bytes_per_sample,
            0,
            (x.len() as int / channels as int) as u32,
        ),
{
}

// ---------------------------------------------------------------------------
// Streams behind one another, and where frames start
// ---------------------------------------------------------------------------

/// Blocks behind finished sets add what they give alone.
proof fn lemma_gather_behind(bs: Seq<Block>, n: nat, done: Seq<i32>)
    requires
        n > 0,
        gather_more(Gathered::start(), bs) is Ok,
        gather_more(Gathered::start(), bs)->Ok_0.channels == 0 || gather_more(Gathered::start(), bs)->Ok_0.channels == n,
    ensures
        ({
            let g = gather_more(Gathered::start(), bs)->Ok_0;
            gather_more(Gathered { channels: n, samples: done, open: None }, bs) == Ok::<Gathered, Error>(
                Gathered { channels: n, samples: done + g.samples, open: g.open },
            )
        }),
    decreases bs.len(),
{
    let st = Gathered { channels: n, samples: done, open: None };
    let g = gather_more(Gathered::start(), bs)->Ok_0;
    if bs.len() == 0 {
        assert(done + g.samples =~= done);
    } else {
        let before = bs.drop_last();
        let h = gather_more(Gathered::start(), before)->Ok_0;
        assert(h.channels == 0 || h.channels == n);
        lemma_gather_behind(before, n, done);
        let shifted = Gathered { channels: n, samples: done + h.samples, open: h.open };
        if let Ok(set) = set_for(h, bs.last()) {
            if let Ok(d) = decode_block(bs.last()) {
                let columns = set.columns + columns_of(d.samples, bs.last().header.flags.mono);
                let part = interleaved(columns, set.frames as nat);
                assert((done + h.samples) + part =~= done + (h.samples + part));
            }
        }
    }
}

/// Two lists of blocks, one behind the other.
proof fn lemma_gather_concat(st: Gathered, a: Seq<Block>, b: Seq<Block>)
    ensures
        gather_more(st, a + b) == (match gather_more(st, a) {
            Err(e) => Err(e),
            Ok(s) => gather_more(s, b),
        }),
    decreases b.len(),
{
    if b.len() == 0 {
        assert(a + b =~= a);
    } else {
        lemma_gather_concat(st, a, b.drop_last());
        assert((a + b).drop_last() =~= a + b.drop_last());
        assert((a + b).last() == b.last());
    }
}

/// Two streams of sets of as many channels, one behind the other, decode to
/// their frames, one behind the other.
pub proof fn multichannel_streams_concatenate(a: Seq<u8>, b: Seq<u8>, n: nat, x: Seq<i32>, y: Seq<i32>)
    requires
        n > 0,
        multichannel_of(a) == Ok::<(nat, Seq<i32>), Error>((n, x)),
        multichannel_of(b) == Ok::<(nat, Seq<i32>), Error>((n, y)),
    ensures
        multichannel_of(a + b) == Ok::<(nat, Seq<i32>), Error>((n, x + y)),
{
    let bs = audio_of(a)->Ok_0;
    let cs = audio_of(b)->Ok_0;
    lemma_audio_of_concat(a, b);
    lemma_gather_all(bs);
    lemma_gather_all(cs);
    lemma_gather_all(bs + cs);
    lemma_gather_concat(Gathered::start(), bs, cs);
    lemma_gather_behind(cs, n, x);
}

proof fn lemma_set_runs(
    x: Seq<i32>,
    channels: int,
    ch: int,
    from: int,
    n: int,
    bytes_per_sample: u8,
    block_index: u32,
    total_samples: u32,
    rest: Seq<u8>,
)
    requires
        0 <= ch <= channels,
        0 < n <= MAX_DECODE_SAMPLES_PER_BLOCK,
        set_bytes(x, channels, ch, from, n, bytes_per_sample, block_index, total_samples) is Ok,
        audio_of(rest) is Ok,
    ensures
        ({
            let b = set_bytes(x, channels, ch, from, n, bytes_per_sample, block_index, total_samples)->Ok_0;
            &&& audio_of(b + rest) is Ok
            &&& stream_runs(b + rest) == (if ch == 0 && channels > 0 {
                seq![FrameRun { first: block_index, frames: n as u32 }] + stream_runs(rest)
            } else {
                stream_runs(rest)
            })
        }),
    decreases channels - ch,
{
    let b = set_bytes(x, channels, ch, from, n, bytes_per_sample, block_index, total_samples)->Ok_0;
    if ch >= channels {
        assert(b + rest =~= rest);
    } else {
        let one = member_bytes(x, channels, ch, from, n, bytes_per_sample, block_index, total_samples)->Ok_0;
        let more = set_bytes(x, channels, ch + 1, from, n, bytes_per_sample, block_index, total_samples)->Ok_0;
        lemma_set_runs(x, channels, ch + 1, from, n, bytes_per_sample, block_index, total_samples, rest);
        assert(b + rest =~= one + (more + rest));
        let col = column(x, channels, ch, from, n);
        let c = member_config(bytes_per_sample, ch == 0, ch == channels - 1, set_info(channels, ch));
        reveal(member_bytes);
        plain_block_decodes(col, c, block_index, total_samples);
        lemma_runs_first(one, col, place_of(col, c, block_index, total_samples), more + rest);
    }
}

proof fn lemma_sets_runs(
    x: Seq<i32>,
    channels: int,
    chunk: int,
    bytes_per_sample: u8,
    from: int,
    first_block_index: u32,
    total_samples: u32,
)
    requires
        0 < channels,
        0 < chunk,
        0 <= from <= x.len() as int / channels,
        set_frames(chunk, x.len() as int / channels - from) <= MAX_DECODE_SAMPLES_PER_BLOCK,
        sets_from(x, channels, chunk, bytes_per_sample, from, first_block_index, total_samples) is Ok,
    ensures
        ({
            let bytes = sets_from(
                x,
                channels,
                chunk,
                bytes_per_sample,
                from,
                first_block_index,
                total_samples,
            )->Ok_0;
            &&& audio_of(bytes) is Ok
            &&& runs_from(stream_runs(bytes), first_block_index + from)
            &&& frames_in(stream_runs(bytes)) == x.len() as int / channels - from
        }),
    decreases x.len() as int / channels - from,
{
    let frames = x.len() as int / channels;
    let bytes = sets_from(x, channels, chunk, bytes_per_sample, from, first_block_index, total_samples)->Ok_0;
    if from >= frames {
        assert(blocks_of(bytes) == Ok::<Seq<Block>, Error>(Seq::empty()));
        assert(stream_runs(bytes) =~= Seq::empty());
    } else {
        let n = set_frames(chunk, frames - from);
        let index = (first_block_index + from) as u32;
        let b = set_bytes(x, channels, 0, from, n, bytes_per_sample, index, total_samples)->Ok_0;
        let tail = sets_from(x, channels, chunk, bytes_per_sample, from + n, first_block_index, total_samples)->Ok_0;
        lemma_sets_runs(x, channels, chunk, bytes_per_sample, from + n, first_block_index, total_samples);
        lemma_set_runs(x, channels, 0, from, n, bytes_per_sample, index, total_samples, tail);
        lemma_run_first(FrameRun { first: index, frames: n as u32 }, stream_runs(tail), first_block_index + from);
        assert(bytes == b + tail);
    }
}

/// The sets of a stream follow one another without a gap, from its first
/// index on; so streams that each start where the one before ends make one
/// chain.
pub proof fn multichannel_streams_chain(
    x: Seq<i32>,
    channels: usize,
    block_samples: usize,
    bytes_per_sample: u8,
    first_block_index: u32,
    total_samples: u32,
)
    requires
        x.len() > 0,
        multichannel_bytes(x, channels, block_samples, bytes_per_sample, first_block_index, total_samples) is Ok,
        block_frames(block_samples) <= MAX_DECODE_SAMPLES_PER_BLOCK || x.len() as int / channels as int
            <= MAX_DECODE_SAMPLES_PER_BLOCK,
    ensures
        ({
            let runs = stream_runs(
                multichannel_bytes(
                    x,
                    channels,
                    block_samples,
                    bytes_per_sample,
                    first_block_index,
                    total_samples,
                )->Ok_0,
            );
            &&& runs_from(runs, first_block_index as int)
            &&& first_block_index == 0 ==> contiguous(runs)
            &&& frames_in(runs) == x.len() as int / channels as int
        }),
{
    assert(0 <= x.len() as int / channels as int) by (nonlinear_arith)
        requires
            channels > 0,
    ;
    lemma_sets_runs(
        x,
        channels as int,
        block_frames(block_samples),
        bytes_per_sample,
        0,
        first_block_index,
        total_samples,
    );
}

// ---------------------------------------------------------------------------
// Encoding in parts
// ---------------------------------------------------------------------------

/// A set reads its columns alone: the same columns make the same bytes.
proof fn lemma_same_set(
    x: Seq<i32>,
    y: Seq<i32>,
    channels: int,
    ch: int,
    from: int,
    at: int,
    n: int,
    bytes_per_sample: u8,
    block_index: u32,
    total_samples: u32,
)
    requires
        0 <= ch,
        forall|c: int|
            0 <= c < channels ==> #[trigger] column(x, channels, c, from, n) == column(y, channels, c, at, n),
    ensures
        set_bytes(x, channels, ch, from, n, bytes_per_sample, block_index, total_samples) == set_bytes(
            y,
            channels,
            ch,
            at,
            n,
            bytes_per_sample,
            block_index,
            total_samples,
        ),
    decreases channels - ch,
{
    if ch < channels {
        assert(column(x, channels, ch, from, n) == column(y, channels, ch, at, n));
        reveal(member_bytes);
        lemma_same_set(x, y, channels, ch + 1, from, at, n, bytes_per_sample, block_index, total_samples);
    }
}

/// The columns of frames of the first part.
proof fn lemma_columns_before(a: Seq<i32>, b: Seq<i32>, channels: int, frames: int, from: int, n: int)
    requires
        0 < channels,
        a.len() == frames * channels,
        0 <= from,
        0 <= n,
        from + n <= frames,
    ensures
        forall|c: int|
            0 <= c < channels ==> #[trigger] column(a + b, channels, c, from, n) == column(a, channels, c, from, n),
{
    assert forall|c: int| 0 <= c < channels implies #[trigger] column(a + b, channels, c, from, n) == column(
        a,
        channels,
        c,
        from,
        n,
    ) by {
        let x = column(a + b, channels, c, from, n);
        let y = column(a, channels, c, from, n);
        assert forall|f: int| 0 <= f < n implies x[f] == y[f] by {
            assert(0 <= (from + f) * channels + c < frames * channels) by (nonlinear_arith)
                requires
                    0 <= from + f < frames,
                    0 <= c < channels,
            ;
        }
        assert(x =~= y);
    }
}

/// The columns of frames of the second part.
proof fn lemma_columns_behind(a: Seq<i32>, b: Seq<i32>, channels: int, frames: int, from: int, n: int)
    requires
        0 < channels,
        a.len() == frames * channels,
        0 <= from,
        0 <= n,
        (from + n) * channels <= b.len(),
    ensures
        forall|c: int|
            0 <= c < channels ==> #[trigger] column(a + b, channels, c, frames + from, n) == column(
                b,
                channels,
                c,
                from,
                n,
            ),
{
    assert forall|c: int| 0 <= c < channels implies #[trigger] column(a + b, channels, c, frames + from, n) == column(
        b,
        channels,
        c,
        from,
        n,
    ) by {
        let x = column(a + b, channels, c, frames + from, n);
        let y = column(b, channels, c, from, n);
        assert forall|f: int| 0 <= f < n implies x[f] == y[f] by {
            assert((frames + from + f) * channels + c == frames * channels + ((from + f) * channels + c))
                by (nonlinear_arith);
            assert(0 <= (from + f) * channels + c < (from + n) * channels) by (nonlinear_arith)
                requires
                    0 <= from + f < from + n,
                    0 <= c < channels,
            ;
        }
        assert(x =~= y);
    }
}

/// The sets of the second part, inside the whole and alone.
proof fn lemma_sets_behind(
    a: Seq<i32>,
    b: Seq<i32>,
    channels: int,
    chunk: int,
    bytes_per_sample: u8,
    from: int,
    first: u32,
    next: u32,
    total_samples: u32,
)
    requires
        0 < channels,
        0 < chunk,
        0 <= from,
        a.len() as int % channels == 0,
        b.len() as int % channels == 0,
        next == first + a.len() as int / channels,
        sets_from(b, channels, chunk, bytes_per_sample, from, next, total_samples) is Ok,
    ensures
        sets_from(
            a + b,
            channels,
            chunk,
            bytes_per_sample,
            a.len() as int / channels + from,
            first,
            total_samples,
        ) == sets_from(b, channels, chunk, bytes_per_sample, from, next, total_samples),
    decreases b.len() as int / channels - from,
{
    let before = a.len() as int / channels;
    let frames = b.len() as int / channels;
    lemma_joined_frames(a, b, channels);
    if from < frames {
        let n = set_frames(chunk, frames - from);
        assert((from + n) * channels <= frames * channels) by (nonlinear_arith)
            requires
                from + n <= frames,
                channels > 0,
        ;
        lemma_columns_behind(a, b, channels, before, from, n);
        lemma_same_set(
            a + b,
            b,
            channels,
            0,
            before + from,
            from,
            n,
            bytes_per_sample,
            (next + from) as u32,
            total_samples,
        );
        lemma_sets_behind(a, b, channels, chunk, bytes_per_sample, from + n, first, next, total_samples);
        assert(before + (from + n) == before + from + n);
    }
}

/// The frames of two parts.
proof fn lemma_joined_frames(a: Seq<i32>, b: Seq<i32>, channels: int)
    requires
        0 < channels,
        a.len() as int % channels == 0,
        b.len() as int % channels == 0,
    ensures
        a.len() == a.len() as int / channels * channels,
        b.len() == b.len() as int / channels * channels,
        (a + b).len() as int / channels == a.len() as int / channels + b.len() as int / channels,
        (a + b).len() as int % channels == 0,
        0 <= a.len() as int / channels,
        0 <= b.len() as int / channels,
{
    let p = a.len() as int / channels;
    let q = b.len() as int / channels;
    lemma_fundamental_div_mod(a.len() as int, channels);
    lemma_fundamental_div_mod(b.len() as int, channels);
    assert(p * channels == channels * p && q * channels == channels * q && (p + q) * channels == p * channels + q
        * channels) by (nonlinear_arith);
    vstd::arithmetic::div_mod::lemma_fundamental_div_mod_converse((a + b).len() as int, channels, p + q, 0);
    vstd::arithmetic::div_mod::lemma_div_pos_is_pos(a.len() as int, channels);
    vstd::arithmetic::div_mod::lemma_div_pos_is_pos(b.len() as int, channels);
}

/// The sets of the whole from a set of the first part on.
proof fn lemma_sets_join(
    a: Seq<i32>,
    b: Seq<i32>,
    channels: int,
    chunk: int,
    bytes_per_sample: u8,
    from: int,
    first: u32,
    next: u32,
    total_samples: u32,
)
    requires
        0 < channels,
        0 < chunk,
        0 <= from <= a.len() as int / channels,
        a.len() as int % channels == 0,
        b.len() as int % channels == 0,
        (a.len() as int / channels - from) % chunk == 0,
        next == first + a.len() as int / channels,
        sets_from(a, channels, chunk, bytes_per_sample, from, first, total_samples) is Ok,
        sets_from(b, channels, chunk, bytes_per_sample, 0, next, total_samples) is Ok,
    ensures
        sets_from(a + b, channels, chunk, bytes_per_sample, from, first, total_samples) == Ok::<Seq<u8>, Error>(
            sets_from(a, channels, chunk, bytes_per_sample, from, first, total_samples)->Ok_0 + sets_from(
                b,
                channels,
                chunk,
                bytes_per_sample,
                0,
                next,
                total_samples,
            )->Ok_0,
        ),
    decreases a.len() as int / channels - from,
{
    let frames = a.len() as int / channels;
    let tail = sets_from(b, channels, chunk, bytes_per_sample, 0, next, total_samples)->Ok_0;
    lemma_joined_frames(a, b, channels);
    if from == frames {
        lemma_sets_behind(a, b, channels, chunk, bytes_per_sample, 0, first, next, total_samples);
        assert(Seq::<u8>::empty() + tail =~= tail);
    } else {
        let left = frames - from;
        if left < chunk {
            vstd::arithmetic::div_mod::lemma_small_mod(left as nat, chunk as nat);
        }
        assert(left >= chunk);
        assert((left - chunk) % chunk == 0) by {
            vstd::arithmetic::div_mod::lemma_mod_sub_multiples_vanish(left, chunk);
        }
        lemma_columns_before(a, b, channels, frames, from, chunk);
        lemma_same_set(
            a + b,
            a,
            channels,
            0,
            from,
            from,
            chunk,
            bytes_per_sample,
            (first + from) as u32,
            total_samples,
        );
        lemma_sets_join(a, b, channels, chunk, bytes_per_sample, from + chunk, first, next, total_samples);
        let one = set_bytes(
            a,
            channels,
            0,
            from,
            chunk,
            bytes_per_sample,
            (first + from) as u32,
            total_samples,
        )->Ok_0;
        let more = sets_from(a, channels, chunk, bytes_per_sample, from + chunk, first, total_samples)->Ok_0;
        assert(one + (more + tail) =~= (one + more) + tail);
    }
}

/// Encoding whole sets first and the rest behind them, from the frame where
/// they end, gives the bytes of encoding all at once.
pub proof fn multichannel_parts_join(
    a: Seq<i32>,
    b: Seq<i32>,
    channels: usize,
    block_samples: usize,
    bytes_per_sample: u8,
    first_block_index: u32,
    next_block_index: u32,
    total_samples: u32,
)
    requires
        0 < channels,
        a.len() as int % (channels * block_frames(block_samples)) == 0,
        next_block_index == first_block_index + a.len() as int / channels as int,
        multichannel_bytes(a, channels, block_samples, bytes_per_sample, first_block_index, total_samples) is Ok,
        multichannel_bytes(b, channels, block_samples, bytes_per_sample, next_block_index, total_samples) is Ok,
    ensures
        multichannel_bytes(a + b, channels, block_samples, bytes_per_sample, first_block_index, total_samples) == Ok::<
            Seq<u8>,
            Error,
        >(
            multichannel_bytes(
                a,
                channels,
                block_samples,
                bytes_per_sample,
                first_block_index,
                total_samples,
            )->Ok_0 + multichannel_bytes(
                b,
                channels,
                block_samples,
                bytes_per_sample,
                next_block_index,
                total_samples,
            )->Ok_0,
        ),
{
    let c = channels as int;
    let chunk = block_frames(block_samples);
    let head = multichannel_bytes(a, channels, block_samples, bytes_per_sample, first_block_index, total_samples)->Ok_0;
    let tail = multichannel_bytes(b, channels, block_samples, bytes_per_sample, next_block_index, total_samples)->Ok_0;
    if a.len() == 0 {
        assert(a + b =~= b);
        assert(a.len() as int / c == 0) by {
            vstd::arithmetic::div_mod::lemma_div_of0(c);
        }
        assert(head + tail =~= tail);
    } else {
        lemma_whole_sets(a.len() as int, c, chunk);
        if b.len() == 0 {
            assert(a + b =~= a);
            assert(head + tail =~= head);
        } else {
            lemma_joined_frames(a, b, c);
            lemma_sets_join(
                a,
                b,
                c,
                chunk,
                bytes_per_sample,
                0,
                first_block_index,
                next_block_index,
                total_samples,
            );
        }
    }
}

/// Whole sets have whole frames, a multiple of a set's.
proof fn lemma_whole_sets(len: int, channels: int, chunk: int)
    requires
        0 < channels,
        0 < chunk,
        0 <= len,
        len % (channels * chunk) == 0,
    ensures
        len % channels == 0,
        len / channels % chunk == 0,
        0 <= len / channels,
{
    let k = len / (channels * chunk);
    assert(channels * chunk > 0) by (nonlinear_arith)
        requires
            0 < channels,
            0 < chunk,
    ;
    lemma_fundamental_div_mod(len, channels * chunk);
    assert(len == (chunk * k) * channels) by (nonlinear_arith)
        requires
            len == channels * chunk * k,
    ;
    vstd::arithmetic::div_mod::lemma_fundamental_div_mod_converse(len, channels, chunk * k, 0);
    assert(chunk * k == k * chunk) by (nonlinear_arith);
    vstd::arithmetic::div_mod::lemma_fundamental_div_mod_converse(len / channels, chunk, k, 0);
    vstd::arithmetic::div_mod::lemma_div_pos_is_pos(len, channels);
}

} // verus!
