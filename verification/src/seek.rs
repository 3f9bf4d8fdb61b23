//! Where the frames of a stream start.
use vstd::prelude::*;
use crate::block::{Block, block_views};
use crate::error::Result;
use crate::stream::{audio_of, parse_audio_blocks};

verus! {

/// One run of frames.
#[verifier::ext_equal]
#[derive(Debug, Clone, Copy, PartialEq, Eq, Structural)]
pub struct FrameRun {
    /// Index of the first frame.
    pub first: u32,
    /// Frames in the run.
    pub frames: u32,
}

/// The runs of a list of audio blocks: one for each block that starts a set.
pub open spec fn runs_of(bs: Seq<Block>) -> Seq<FrameRun>
    decreases bs.len(),
{
    if bs.len() == 0 {
        Seq::empty()
    } else {
        let before = runs_of(bs.drop_last());
        let h = bs.last().header;
        if h.flags.multichannel_start {
            before.push(FrameRun { first: h.block_index, frames: h.block_samples })
        } else {
            before
        }
    }
}

/// The frames of a list of runs.
pub open spec fn frames_in(runs: Seq<FrameRun>) -> nat
    decreases runs.len(),
{
    if runs.len() == 0 {
        0
    } else {
        frames_in(runs.drop_last()) + runs.last().frames as nat
    }
}

/// Each run starts where the one before it ends, the first one at zero.
pub open spec fn contiguous(runs: Seq<FrameRun>) -> bool {
    forall|i: int| 0 <= i < runs.len() ==> (#[trigger] runs[i]).first == frames_in(runs.take(i))
}

/// Each run starts where the one before it ends, the first one at `start`.
pub open spec fn runs_from(runs: Seq<FrameRun>, start: int) -> bool {
    forall|i: int| 0 <= i < runs.len() ==> (#[trigger] runs[i]).first == start + frames_in(runs.take(i))
}

/// The runs of two lists of blocks, one behind the other.
pub proof fn lemma_runs_concat(a: Seq<Block>, b: Seq<Block>)
    ensures
        runs_of(a + b) == runs_of(a) + runs_of(b),
    decreases b.len(),
{
    if b.len() == 0 {
        assert(a + b =~= a);
        assert(runs_of(a) + runs_of(b) =~= runs_of(a));
    } else {
        lemma_runs_concat(a, b.drop_last());
        assert((a + b).drop_last() =~= a + b.drop_last());
        assert((a + b).last() == b.last());
        assert(runs_of(a + b) =~= runs_of(a) + runs_of(b));
    }
}

/// The frames of two lists of runs, one behind the other.
pub proof fn lemma_frames_concat(a: Seq<FrameRun>, b: Seq<FrameRun>)
    ensures
        frames_in(a + b) == frames_in(a) + frames_in(b),
    decreases b.len(),
{
    if b.len() == 0 {
        assert(a + b =~= a);
    } else {
        lemma_frames_concat(a, b.drop_last());
        assert((a + b).drop_last() =~= a + b.drop_last());
        assert((a + b).last() == b.last());
    }
}

/// Runs that go on where other runs end make one chain with them.
pub proof fn chains_concatenate(a: Seq<FrameRun>, b: Seq<FrameRun>, start: int)
    requires
        runs_from(a, start),
        runs_from(b, start + frames_in(a)),
    ensures
        runs_from(a + b, start),
{
    let all = a + b;
    assert forall|i: int| 0 <= i < all.len() implies (#[trigger] all[i]).first == start + frames_in(all.take(i)) by {
        if i < a.len() {
            assert(all[i] == a[i]);
            assert(all.take(i) =~= a.take(i));
        } else {
            let k = i - a.len();
            assert(all[i] == b[k]);
            assert(all.take(i) =~= a + b.take(k));
            lemma_frames_concat(a, b.take(k));
        }
    }
}

/// The run of one block.
pub proof fn lemma_one_run(b: Block)
    ensures
        b.header.flags.multichannel_start ==> runs_of(seq![b]) == seq![
            FrameRun { first: b.header.block_index, frames: b.header.block_samples },
        ],
        !b.header.flags.multichannel_start ==> runs_of(seq![b]) == Seq::<FrameRun>::empty(),
{
    assert(seq![b].drop_last() =~= Seq::empty());
    assert(seq![b].last() == b);
    assert(runs_of(seq![b].drop_last()) =~= Seq::empty());
    if b.header.flags.multichannel_start {
        assert(runs_of(seq![b]) =~= seq![
            FrameRun { first: b.header.block_index, frames: b.header.block_samples },
        ]);
    }
}

/// One run before a chain.
pub proof fn lemma_run_first(run: FrameRun, rest: Seq<FrameRun>, start: int)
    requires
        run.first == start,
        runs_from(rest, start + run.frames),
    ensures
        runs_from(seq![run] + rest, start),
        frames_in(seq![run] + rest) == run.frames + frames_in(rest),
{
    let one = seq![run];
    assert(one.drop_last() =~= Seq::empty());
    assert(frames_in(one.drop_last()) == 0);
    assert(one.last() == run);
    assert(frames_in(one) == run.frames);
    assert forall|i: int| 0 <= i < one.len() implies (#[trigger] one[i]).first == start + frames_in(one.take(i)) by {
        assert(one.take(0) =~= Seq::empty());
    }
    chains_concatenate(one, rest, start);
    lemma_frames_concat(one, rest);
}

/// The runs of a stream.
#[derive(Debug)]
pub struct StreamIndex {
    /// The runs in stream order.
    pub runs: Vec<FrameRun>,
}

impl StreamIndex {
    /// Lists the runs of a stream.
    pub fn scan(bytes: &[u8]) -> (r: Result<StreamIndex>)
        ensures
            match audio_of(bytes@) {
                Err(e) => r is Err && r->Err_0 == e,
                Ok(bs) => r is Ok && r->Ok_0.runs@ == runs_of(bs),
            },
    {
        let blocks = match parse_audio_blocks(bytes) {
            Err(e) => {
                return Err(e);
            }
            Ok(b) => b,
        };
        let ghost bs = block_views(blocks@);
        let mut runs: Vec<FrameRun> = Vec::new();
        assert(runs@ =~= Seq::empty());
        let mut i: usize = 0;
        while i < blocks.len()
            invariant
                i <= blocks.len(),
                bs == block_views(blocks@),
                runs@ == runs_of(bs.take(i as int)),
            decreases blocks.len() - i,
        {
            proof {
                assert(bs.take(i + 1).drop_last() =~= bs.take(i as int));
                assert(bs[i as int] == blocks@[i as int]@);
            }
            let h = blocks[i].header;
            if h.flags.multichannel_start {
                runs.push(FrameRun { first: h.block_index, frames: h.block_samples });
            }
            i = i + 1;
        }
        assert(bs.take(i as int) =~= bs);
        Ok(StreamIndex { runs })
    }

    /// Whether the runs follow one another without a gap.
    pub fn is_seekable(&self) -> (r: bool)
        ensures
            r == contiguous(self.runs@),
    {
        let ghost runs = self.runs@;
        let mut next: u128 = 0;
        let mut i: usize = 0;
        while i < self.runs.len()
            invariant
                runs == self.runs@,
                i <= runs.len(),
                next == frames_in(runs.take(i as int)),
                next <= i * 0xFFFF_FFFF,
                forall|k: int| 0 <= k < i ==> (#[trigger] runs[k]).first == frames_in(runs.take(k)),
            decreases runs.len() - i,
        {
            if self.runs[i].first as u128 != next {
                assert(runs[i as int].first != frames_in(runs.take(i as int)));
                return false;
            }
            proof {
                assert(runs.take(i + 1).drop_last() =~= runs.take(i as int));
            }
            next = next + self.runs[i].frames as u128;
            i = i + 1;
        }
        true
    }

    /// The frames of all runs, `u64::MAX` where they are more.
    pub fn frame_count(&self) -> (r: u64)
        ensures
            frames_in(self.runs@) <= u64::MAX ==> r == frames_in(self.runs@),
            frames_in(self.runs@) > u64::MAX ==> r == u64::MAX,
    {
        let ghost runs = self.runs@;
        let mut sum: u128 = 0;
        let mut i: usize = 0;
        while i < self.runs.len()
            invariant
                runs == self.runs@,
                i <= runs.len(),
                sum == frames_in(runs.take(i as int)),
                sum <= i * 0xFFFF_FFFF,
            decreases runs.len() - i,
        {
            proof {
                assert(runs.take(i + 1).drop_last() =~= runs.take(i as int));
            }
            sum = sum + self.runs[i].frames as u128;
            i = i + 1;
        }
        assert(runs.take(i as int) =~= runs);
        if sum > u64::MAX as u128 {
            u64::MAX
        } else {
            sum as u64
        }
    }
}

} // verus!
