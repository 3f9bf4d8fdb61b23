//! WavPack: lossless, hybrid and correction streams.
//!
//! A stream is a chain of blocks. A block is a header and a chain of
//! sub-blocks; the sub-blocks hold the packed samples and what it takes to
//! unpack them.
//!
//! - Bits and bytes: [`arith`], [`bits`], [`crc`], [`logpack`], [`log2`].
//! - Packed samples: [`samples`], [`packed_samples`], [`entropy`].
//! - Prediction: [`decorrelation`] runs passes, [`passes`] stores them,
//!   [`derive`] chooses them.
//! - Sample formats: [`float`], [`int32`], [`fixup`].
//! - Hybrid coding: [`hybrid`], [`hybrid_words`], [`hybrid_stream`],
//!   [`hybrid_carry`], [`hybrid_encode`].
//! - Blocks and streams: [`metadata`], [`block_header`], [`block`],
//!   [`stream`], [`multichannel`], [`seek`].
//! - Encoders: [`block_writer`], [`search`], [`encode`], [`encode_stream`],
//!   [`encode_multichannel`], [`sample_rate`].
//!
//! That decoding undoes encoding is proved in [`block_law`],
//! [`encode_stream`], [`encode_multichannel`] and [`hybrid_law`]; that streams
//! behind one another decode behind one another, in [`stream_law`].
//!
//! What the parts mean is proved beside them:
//!
//! - [`format_law`] and [`words_law`]: where fields, words and bits stand;
//!   [`medians_law`]: what stored medians seed.
//! - [`prediction_law`]: what passes predict from; [`search_law`]: what the
//!   searches try.
//! - [`number_law`]: how wide integers and patterns are taken apart.
//! - [`rate_law`]: levels, limits and shaped noise; [`lossless_law`]: where a
//!   hybrid stream loses nothing.
//! - [`header_law`] and [`hybrid_headers`]: what written headers state;
//!   [`playback_law`]: checks, corrections and blocks without samples.
pub mod arith;
pub mod bits;
pub mod block;
pub mod block_header;
pub mod block_law;
pub mod block_writer;
pub mod correction;
pub mod crc;
pub mod decorrelation;
pub mod derive;
pub mod encode;
pub mod encode_limits;
pub mod encode_multichannel;
pub mod encode_stream;
pub mod entropy;
pub mod error;
pub mod error_text;
pub mod fixup;
pub mod float;
pub mod format_law;
pub mod header_law;
pub mod hybrid;
pub mod hybrid_carry;
pub mod hybrid_encode;
pub mod hybrid_headers;
pub mod hybrid_law;
pub mod hybrid_stream;
pub mod hybrid_words;
pub mod int32;
pub mod log2;
pub mod logpack;
pub mod lossless_law;
pub mod medians_law;
pub mod metadata;
pub mod multichannel;
pub mod number_law;
pub mod overflow_bits;
pub mod packed_samples;
pub mod passes;
pub mod playback_law;
pub mod prediction_law;
pub mod rate_law;
pub mod sample_rate;
pub mod samples;
pub mod search;
pub mod search_law;
pub mod seek;
pub mod stream;
pub mod stream_law;
pub mod words_law;

pub use crate::bits::{BitReader, BitWriter};
pub use crate::block::{MAX_DECODE_SAMPLES_PER_BLOCK, WavPackBlock, parse_block, parse_blocks};
pub use crate::block_header::{
    Flags, HEADER_LEN, MAGIC, MAX_VERSION, MIN_CK_SIZE, MIN_VERSION, STANDARD_SAMPLE_RATES, TOTAL_SAMPLES_UNKNOWN,
    WavPackBlockHeader, parse_block_header,
};
pub use crate::block_writer::{ENCODE_VERSION, forward_joint_stereo};
pub use crate::correction::PackedCorrectionData;
pub use crate::crc::{CRC_INIT, ExtensionCrc, crc_mono, crc_stereo_interleaved, undo_joint_stereo};
pub use crate::decorrelation::{DecorrPass, MAX_NTERMS, MAX_TERM};
pub use crate::derive::{
    DecorrProfile, derive_mono_passes, derive_mono_passes_iterated, derive_mono_passes_searched, derive_stereo_passes,
    derive_stereo_passes_iterated, derive_stereo_passes_searched,
};
pub use crate::encode::{
    encode_block_mono, encode_block_mono_auto, encode_block_mono_best, encode_block_mono_float,
    encode_block_mono_float_best, encode_block_mono_int32, encode_block_mono_int32_best, encode_block_mono_searched,
    encode_block_mono_shifted, encode_block_mono_smallest, encode_block_mono_with_decorr, encode_block_stereo,
    encode_block_stereo_auto, encode_block_stereo_best, encode_block_stereo_float, encode_block_stereo_float_best,
    encode_block_stereo_int32, encode_block_stereo_int32_best, encode_block_stereo_joint,
    encode_block_stereo_joint_auto, encode_block_stereo_joint_with_decorr, encode_block_stereo_searched,
    encode_block_stereo_shifted, encode_block_stereo_smallest, encode_block_stereo_with_decorr,
};
pub use crate::encode_multichannel::{encode_multichannel_stream, encode_multichannel_stream_at};
pub use crate::encode_stream::{
    DEFAULT_BLOCK_SAMPLES, encode_stream_mono, encode_stream_mono_best, encode_stream_mono_float,
    encode_stream_mono_int32, encode_stream_mono_smallest, encode_stream_stereo, encode_stream_stereo_best,
    encode_stream_stereo_float, encode_stream_stereo_int32, encode_stream_stereo_smallest,
};
pub use crate::entropy::{
    EntropyInfo, MEDIANS_PER_CHANNEL, MEDIAN_ON_WIRE_BYTES, MONO_PAYLOAD_BYTES, STEREO_PAYLOAD_BYTES, expand_entropy,
};
pub use crate::error::{Error, Result, UnsupportedBlockFeature};
pub use crate::fixup::{apply_left_shift, apply_left_shift_buffer};
pub use crate::float::{FloatDeconstruction, FloatInfo, deconstruct_float, deconstruct_float_raised, expand_float_info, reassemble_float};
pub use crate::hybrid::{
    CorrectionFold, HybridProfile, HybridState, ShapingState, expand_hybrid_profile, fold_correction,
    fold_correction_pair, split_correction,
};
pub use crate::hybrid_carry::{HybridOptions, HybridShaping};
pub use crate::hybrid_encode::{
    HybridEncoded, encode_block_mono_hybrid, encode_block_mono_hybrid_float, encode_block_mono_hybrid_int32,
    encode_block_stereo_hybrid, encode_block_stereo_hybrid_float, encode_block_stereo_hybrid_int32,
    encode_stream_mono_hybrid, encode_stream_mono_hybrid_float, encode_stream_mono_hybrid_int32,
    encode_stream_stereo_hybrid, encode_stream_stereo_hybrid_float, encode_stream_stereo_hybrid_int32,
};
pub use crate::int32::{Int32Deconstruction, Int32Info, deconstruct_int32, expand_int32_info, reassemble_int32};
pub use crate::logpack::{expand_log_word, pack_log_word, quantize_log_value, wp_exp2s, wp_log2};
pub use crate::metadata::{
    ID_FLAG_LARGE_SIZE, ID_FLAG_ODD_SIZE, ID_FLAG_OPTIONAL, ID_MASK, MD5_DIGEST_BYTES, Md5Checksum, MetadataSubBlock,
    SubBlockFlags, SubBlockId, find_audio_payload, find_decorrelation_triple, find_entropy_info, find_first,
    find_hybrid_profile, find_md5_checksum_block, find_multichannel_info, find_noise_shaping_profile,
    find_non_standard_sample_rate, find_packed_correction_data, find_packed_correction_data_sub_block,
    find_packed_overflow_bits, find_packed_overflow_bits_sub_block, find_packed_samples, parse_md5_checksum,
    parse_metadata_sub_block, parse_non_standard_sample_rate, walk_metadata,
};
pub use crate::multichannel::{MAX_MULTICHANNEL_CHANNELS, MultichannelSamples, decode_multichannel_stream};
pub use crate::overflow_bits::PackedOverflowBits;
pub use crate::packed_samples::{PackedSamples, decode_packed_samples, encode_packed_samples};
pub use crate::passes::{
    assemble_mono_passes, assemble_stereo_passes, quantize_weight, serialize_mono_passes, serialize_stereo_passes,
};
pub use crate::sample_rate::set_stream_sample_rate;
pub use crate::search::detect_left_shift;
pub use crate::seek::StreamIndex;
pub use crate::stream::{
    audio_block_count, block_count, decode_stream, decode_stream_muted, decode_stream_patterns,
    decode_stream_with_correction, decode_stream_with_correction_muted, decode_stream_with_correction_patterns,
    stream_sample_rate,
};
