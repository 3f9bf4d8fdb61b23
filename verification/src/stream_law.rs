//! Streams behind one another.
use vstd::prelude::*;
use crate::arith::{read_le16, read_le32};
use crate::block::{Block, Decoded, block_of, blocks_of, decode_block, heard};
use crate::block_header::header_of;
use crate::error::Error;
use crate::stream::{audio_of, audio_only, decoded_blocks, stream_samples};

verus! {

/// A header does not depend on what is behind it.
proof fn lemma_header_prefix(a: Seq<u8>, b: Seq<u8>)
    requires
        header_of(a) is Ok,
    ensures
        header_of(a + b) == header_of(a),
{
    assert((a + b).take(4) =~= a.take(4));
    assert forall|i: int| 0 <= i < 32 implies (a + b)[i] == a[i] by {}
    assert(read_le32(a + b, 4) == read_le32(a, 4));
    assert(read_le16(a + b, 8) == read_le16(a, 8));
    assert(read_le32(a + b, 12) == read_le32(a, 12));
    assert(read_le32(a + b, 16) == read_le32(a, 16));
    assert(read_le32(a + b, 20) == read_le32(a, 20));
    assert(read_le32(a + b, 24) == read_le32(a, 24));
    assert(read_le32(a + b, 28) == read_le32(a, 28));
}

/// A block does not depend on what is behind it.
pub proof fn lemma_block_prefix(a: Seq<u8>, b: Seq<u8>)
    requires
        block_of(a) is Ok,
    ensures
        block_of(a + b) == Ok::<(Block, Seq<u8>), Error>((block_of(a)->Ok_0.0, block_of(a)->Ok_0.1 + b)),
{
    lemma_header_prefix(a, b);
    let h = header_of(a)->Ok_0;
    let n = h.block_len();
    assert((a + b).subrange(32, n) =~= a.subrange(32, n));
    assert((a + b).skip(n) =~= a.skip(n) + b);
}

/// The blocks of two streams, one behind the other.
pub proof fn lemma_blocks_concat(a: Seq<u8>, b: Seq<u8>)
    requires
        blocks_of(a) is Ok,
        blocks_of(b) is Ok,
    ensures
        blocks_of(a + b) == Ok::<Seq<Block>, Error>(blocks_of(a)->Ok_0 + blocks_of(b)->Ok_0),
    decreases a.len(),
{
    if a.len() == 0 {
        assert(a + b =~= b);
        assert(blocks_of(a)->Ok_0 + blocks_of(b)->Ok_0 =~= blocks_of(b)->Ok_0);
    } else {
        lemma_block_prefix(a, b);
        let (one, rest) = block_of(a)->Ok_0;
        lemma_blocks_concat(rest, b);
        let more = blocks_of(rest)->Ok_0;
        let last = blocks_of(b)->Ok_0;
        assert(seq![one] + (more + last) =~= (seq![one] + more) + last);
    }
}

/// The audio blocks of two lists, one behind the other.
pub proof fn lemma_audio_concat(a: Seq<Block>, b: Seq<Block>)
    ensures
        audio_only(a + b) == audio_only(a) + audio_only(b),
    decreases b.len(),
{
    if b.len() == 0 {
        assert(a + b =~= a);
        assert(audio_only(a) + audio_only(b) =~= audio_only(a));
    } else {
        lemma_audio_concat(a, b.drop_last());
        assert((a + b).drop_last() =~= a + b.drop_last());
        assert((a + b).last() == b.last());
        assert(audio_only(a + b) =~= audio_only(a) + audio_only(b));
    }
}

/// The audio blocks of two streams, one behind the other.
pub proof fn lemma_audio_of_concat(a: Seq<u8>, b: Seq<u8>)
    requires
        audio_of(a) is Ok,
        audio_of(b) is Ok,
    ensures
        audio_of(a + b) == Ok::<Seq<Block>, Error>(audio_of(a)->Ok_0 + audio_of(b)->Ok_0),
{
    lemma_blocks_concat(a, b);
    lemma_audio_concat(blocks_of(a)->Ok_0, blocks_of(b)->Ok_0);
}

/// Two decodes, one behind the other.
pub open spec fn decoded_both(a: Decoded, b: Decoded) -> Decoded {
    Decoded { samples: a.samples + b.samples, ok: a.ok && b.ok }
}

proof fn lemma_decoded_concat(a: Seq<Block>, b: Seq<Block>, mute: bool)
    requires
        decoded_blocks(a, mute) is Ok,
        decoded_blocks(b, mute) is Ok,
    ensures
        decoded_blocks(a + b, mute) == Ok::<Decoded, Error>(
            decoded_both(decoded_blocks(a, mute)->Ok_0, decoded_blocks(b, mute)->Ok_0),
        ),
    decreases b.len(),
{
    let da = decoded_blocks(a, mute)->Ok_0;
    if b.len() == 0 {
        assert(a + b =~= a);
        let none = decoded_blocks(b, mute)->Ok_0;
        assert(da.samples + none.samples =~= da.samples);
    } else {
        let before = b.drop_last();
        lemma_decoded_concat(a, before, mute);
        assert((a + b).drop_last() =~= a + before);
        assert((a + b).last() == b.last());
        let db = decoded_blocks(before, mute)->Ok_0;
        let e = decode_block(b.last())->Ok_0;
        let piece = if mute {
            heard(e)
        } else {
            e.samples
        };
        assert((da.samples + db.samples) + piece =~= da.samples + (db.samples + piece));
    }
}

/// Two streams, one behind the other, decode to their samples, one behind the other.
pub proof fn streams_concatenate(a: Seq<u8>, b: Seq<u8>, mute: bool)
    requires
        stream_samples(a, mute) is Ok,
        stream_samples(b, mute) is Ok,
    ensures
        stream_samples(a + b, mute) == Ok::<Decoded, Error>(
            decoded_both(stream_samples(a, mute)->Ok_0, stream_samples(b, mute)->Ok_0),
        ),
{
    lemma_audio_of_concat(a, b);
    lemma_decoded_concat(audio_of(a)->Ok_0, audio_of(b)->Ok_0, mute);
}

} // verus!
