//! The 32-byte header that opens every block.
use vstd::prelude::*;
use crate::arith::{lemma_le_roundtrip, get_le16, get_le32, le16, le32, push_le16, push_le32, read_le16, read_le32};
use crate::error::{Error, Result};

verus! {

/// The four bytes a block starts with.
pub const MAGIC: [u8; 4] = [0x77, 0x76, 0x70, 0x6b];

/// The bytes of a header.
pub const HEADER_LEN: usize = 32;

/// The least size field: the header bytes behind it.
pub const MIN_CK_SIZE: u32 = 24;

/// The lowest format version that is read.
pub const MIN_VERSION: u16 = 0x402;

/// The highest format version that is read.
pub const MAX_VERSION: u16 = 0x410;

/// The sample total of a stream of unknown length.
pub const TOTAL_SAMPLES_UNKNOWN: u32 = 0xffff_ffff;

/// The rate index that announces a rate outside the table.
pub const SAMPLE_RATE_INDEX_CUSTOM: u8 = 15;

/// The rates that have an index of their own.
pub const STANDARD_SAMPLE_RATES: [u32; 15] = [
    6000,
    8000,
    9600,
    11025,
    12000,
    16000,
    22050,
    24000,
    32000,
    44100,
    48000,
    64000,
    88200,
    96000,
    192000,
];

/// The index of a rate from `i` on in the table.
pub open spec fn rate_index_from(rate: u32, i: int) -> Option<u8>
    decreases 15 - i,
{
    if i < 0 || i >= 15 {
        None
    } else if STANDARD_SAMPLE_RATES[i] == rate {
        Some(i as u8)
    } else {
        rate_index_from(rate, i + 1)
    }
}

/// The index of a standard rate.
pub fn sample_rate_index_for(rate: u32) -> (r: Option<u8>)
    ensures
        r == rate_index_from(rate, 0),
        r is Some ==> r->Some_0 < 15 && STANDARD_SAMPLE_RATES[r->Some_0 as int] == rate,
{
    let mut i: usize = 0;
    while i < 15
        invariant
            i <= 15,
            rate_index_from(rate, 0) == rate_index_from(rate, i as int),
        decreases 15 - i,
    {
        if STANDARD_SAMPLE_RATES[i] == rate {
            return Some(i as u8);
        }
        i = i + 1;
    }
    None
}

/// The flag word of a header.
#[derive(Debug, Clone, Copy, PartialEq, Eq, Structural)]
pub struct Flags {
    /// The word itself.
    pub raw: u32,
    /// Bytes per sample, minus one.
    pub bytes_minus_one: u8,
    /// One channel.
    pub mono: bool,
    /// Lossy main stream.
    pub hybrid: bool,
    /// Mid/side stereo.
    pub joint_stereo: bool,
    /// Cross-channel decorrelation.
    pub cross_decorrelation: bool,
    /// Noise shaping in a hybrid block.
    pub hybrid_noise_shaping: bool,
    /// Floating-point samples.
    pub float_data: bool,
    /// Wide-integer samples.
    pub int32_mode: bool,
    /// Hybrid rate follows the signal level.
    pub hybrid_bitrate_noise: bool,
    /// Hybrid rate is balanced between the channels.
    pub hybrid_balance_noise: bool,
    /// First member of a multichannel set.
    pub multichannel_start: bool,
    /// Last member of a multichannel set.
    pub multichannel_end: bool,
    /// Zero bits below each sample.
    pub left_shift: u8,
    /// Bit length of the largest magnitude.
    pub max_magnitude: u8,
    /// Sample-rate index.
    pub sample_rate_index: u8,
    /// Shaping words carry their step.
    pub new_shaping: bool,
    /// Two equal channels stored as one.
    pub false_stereo: bool,
}

/// Bit `2^k`, for `p == 2^k`, of a flag word.
pub open spec fn has(raw: u32, p: u32) -> bool {
    raw / p % 2 == 1
}

/// The fields of a flag word.
#[verifier::opaque]
pub open spec fn flags_of(raw: u32) -> Flags {
    Flags {
        raw,
        bytes_minus_one: (raw % 4) as u8,
        mono: has(raw, 0x4),
        hybrid: has(raw, 0x8),
        joint_stereo: has(raw, 0x10),
        cross_decorrelation: has(raw, 0x20),
        hybrid_noise_shaping: has(raw, 0x40),
        float_data: has(raw, 0x80),
        int32_mode: has(raw, 0x100),
        hybrid_bitrate_noise: has(raw, 0x200),
        hybrid_balance_noise: has(raw, 0x400),
        multichannel_start: has(raw, 0x800),
        multichannel_end: has(raw, 0x1000),
        left_shift: (raw / 0x2000 % 32) as u8,
        max_magnitude: (raw / 0x4_0000 % 32) as u8,
        sample_rate_index: (raw / 0x80_0000 % 16) as u8,
        new_shaping: has(raw, 0x2000_0000),
        false_stereo: has(raw, 0x4000_0000),
    }
}

impl Flags {
    /// The fields of a flag word.
    pub fn from_raw(raw: u32) -> (r: Flags)
        ensures
            r == flags_of(raw),
    {
        proof {
            reveal(flags_of);
        }
        Flags {
            raw,
            bytes_minus_one: (raw % 4) as u8,
            mono: raw / 0x4 % 2 == 1,
            hybrid: raw / 0x8 % 2 == 1,
            joint_stereo: raw / 0x10 % 2 == 1,
            cross_decorrelation: raw / 0x20 % 2 == 1,
            hybrid_noise_shaping: raw / 0x40 % 2 == 1,
            float_data: raw / 0x80 % 2 == 1,
            int32_mode: raw / 0x100 % 2 == 1,
            hybrid_bitrate_noise: raw / 0x200 % 2 == 1,
            hybrid_balance_noise: raw / 0x400 % 2 == 1,
            multichannel_start: raw / 0x800 % 2 == 1,
            multichannel_end: raw / 0x1000 % 2 == 1,
            left_shift: (raw / 0x2000 % 32) as u8,
            max_magnitude: (raw / 0x4_0000 % 32) as u8,
            sample_rate_index: (raw / 0x80_0000 % 16) as u8,
            new_shaping: raw / 0x2000_0000 % 2 == 1,
            false_stereo: raw / 0x4000_0000 % 2 == 1,
        }
    }

    /// Bytes per sample.
    pub fn bytes_per_sample(&self) -> (r: u8)
        requires
            self.bytes_minus_one < 255,
        ensures
            r == self.bytes_minus_one + 1,
    {
        self.bytes_minus_one + 1
    }

    /// Whether the block belongs to a set of more than one block.
    pub open spec fn member(&self) -> bool {
        !(self.multichannel_start && self.multichannel_end)
    }

    /// Whether the block belongs to a set of more than one block.
    pub fn is_multichannel_member(&self) -> (r: bool)
        ensures
            r == self.member(),
    {
        !(self.multichannel_start && self.multichannel_end)
    }

    /// Whether the packed words are those of one channel.
    pub open spec fn one_stream(&self) -> bool {
        self.mono || self.false_stereo
    }

    /// Whether the packed words alternate between two channels.
    pub fn is_block_data_stereo(&self) -> (r: bool)
        ensures
            r == !self.one_stream(),
    {
        !(self.mono || self.false_stereo)
    }

    /// The rate of a standard index.
    pub open spec fn table_rate(&self) -> Option<u32> {
        if self.sample_rate_index < 15 {
            Some(STANDARD_SAMPLE_RATES[self.sample_rate_index as int])
        } else {
            None
        }
    }

    /// The rate of a standard index.
    pub fn standard_sample_rate(&self) -> (r: Option<u32>)
        ensures
            r == self.table_rate(),
    {
        if self.sample_rate_index < 15 {
            Some(STANDARD_SAMPLE_RATES[self.sample_rate_index as usize])
        } else {
            None
        }
    }

    /// Whether the rate stands in a sub-block of its own.
    pub fn has_custom_sample_rate(&self) -> (r: bool)
        ensures
            r == (self.sample_rate_index == SAMPLE_RATE_INDEX_CUSTOM),
    {
        self.sample_rate_index == SAMPLE_RATE_INDEX_CUSTOM
    }
}

/// One bit below `rest`.
#[verifier::opaque]
pub open spec fn put(b: bool, rest: int) -> int {
    2 * rest + (if b {
        1int
    } else {
        0
    })
}

/// Every numeric field lies within its bits.
pub open spec fn fields_fit(f: Flags) -> bool {
    f.bytes_minus_one < 4 && f.left_shift < 32 && f.max_magnitude < 32 && f.sample_rate_index < 16
}

/// The fields of a flag word above its flag bits.
#[verifier::opaque]
pub open spec fn upper_word(f: Flags) -> int {
    f.left_shift + 32 * (f.max_magnitude + 32 * (f.sample_rate_index + 64 * put(f.new_shaping, put(f.false_stereo, 0))))
}

/// The flag bits from floating-point samples to the end of a set, below `rest`.
#[verifier::opaque]
pub open spec fn middle_word(f: Flags, rest: int) -> int {
    put(
        f.float_data,
        put(
            f.int32_mode,
            put(
                f.hybrid_bitrate_noise,
                put(f.hybrid_balance_noise, put(f.multichannel_start, put(f.multichannel_end, rest))),
            ),
        ),
    )
}

/// The flag bits from mono to hybrid shaping, below `rest`.
#[verifier::opaque]
pub open spec fn lower_word(f: Flags, rest: int) -> int {
    put(
        f.mono,
        put(f.hybrid, put(f.joint_stereo, put(f.cross_decorrelation, put(f.hybrid_noise_shaping, rest)))),
    )
}

/// The flag word of some fields; their `raw` takes no part.
#[verifier::opaque]
pub open spec fn flag_word(f: Flags) -> int {
    f.bytes_minus_one + 4 * lower_word(f, middle_word(f, upper_word(f)))
}

/// The bit at place `d` of a word, with `rest` above it.
proof fn lemma_put(w: int, d: int, b: bool, rest: int)
    requires
        d > 0,
        w >= 0,
        w / d == put(b, rest),
    ensures
        b == (w / d % 2 == 1),
        w / (d * 2) == rest,
{
    reveal(put);
    vstd::arithmetic::div_mod::lemma_div_denominator(w, d, 2);
}

proof fn lemma_put_bound(b: bool, rest: int, most: int)
    requires
        0 <= rest <= most,
    ensures
        0 <= put(b, rest) <= 2 * most + 1,
{
    reveal(put);
}

/// The digit `lo` below `k` at place `d` of a word, with `rest` above it.
proof fn lemma_digit(w: int, d: int, lo: int, k: int, rest: int)
    requires
        d > 0,
        k > 0,
        w >= 0,
        w / d == lo + k * rest,
        0 <= lo < k,
    ensures
        w / d % k == lo,
        w / (d * k) == rest,
{
    let h = w / d;
    assert(h == rest * k + lo) by (nonlinear_arith)
        requires
            h == lo + k * rest,
    ;
    vstd::arithmetic::div_mod::lemma_fundamental_div_mod_converse(h, k, rest, lo);
    vstd::arithmetic::div_mod::lemma_div_denominator(w, d, k);
}

proof fn lemma_upper(f: Flags, w: int)
    requires
        fields_fit(f),
        w >= 0,
        w / 0x2000 == upper_word(f),
    ensures
        w / 0x2000 % 32 == f.left_shift,
        w / 0x4_0000 % 32 == f.max_magnitude,
        w / 0x80_0000 % 16 == f.sample_rate_index,
        f.new_shaping == (w / 0x2000_0000 % 2 == 1),
        f.false_stereo == (w / 0x4000_0000 % 2 == 1),
{
    reveal(upper_word);
    let h16 = put(f.new_shaping, put(f.false_stereo, 0));
    let h15 = f.sample_rate_index + 64 * h16;
    let h14 = f.max_magnitude + 32 * h15;
    lemma_digit(w, 0x2000, f.left_shift as int, 32, h14);
    lemma_digit(w, 0x4_0000, f.max_magnitude as int, 32, h15);
    lemma_digit(w, 0x80_0000, f.sample_rate_index as int, 64, h16);
    lemma_digit(w, 0x80_0000, f.sample_rate_index as int, 16, 4 * h16);
    lemma_put(w, 0x2000_0000, f.new_shaping, put(f.false_stereo, 0));
    lemma_put(w, 0x4000_0000, f.false_stereo, 0);
}

proof fn lemma_upper_bound(f: Flags)
    requires
        fields_fit(f),
    ensures
        0 <= upper_word(f) < 0x4_0000,
{
    reveal(upper_word);
    lemma_put_bound(f.false_stereo, 0, 0);
    lemma_put_bound(f.new_shaping, put(f.false_stereo, 0), 1);
}

proof fn lemma_middle(f: Flags, w: int, rest: int)
    requires
        w >= 0,
        w / 0x80 == middle_word(f, rest),
    ensures
        f.float_data == (w / 0x80 % 2 == 1),
        f.int32_mode == (w / 0x100 % 2 == 1),
        f.hybrid_bitrate_noise == (w / 0x200 % 2 == 1),
        f.hybrid_balance_noise == (w / 0x400 % 2 == 1),
        f.multichannel_start == (w / 0x800 % 2 == 1),
        f.multichannel_end == (w / 0x1000 % 2 == 1),
        w / 0x2000 == rest,
{
    reveal(middle_word);
    let h12 = put(f.multichannel_end, rest);
    let h11 = put(f.multichannel_start, h12);
    let h10 = put(f.hybrid_balance_noise, h11);
    let h9 = put(f.hybrid_bitrate_noise, h10);
    let h8 = put(f.int32_mode, h9);
    lemma_put(w, 0x80, f.float_data, h8);
    lemma_put(w, 0x100, f.int32_mode, h9);
    lemma_put(w, 0x200, f.hybrid_bitrate_noise, h10);
    lemma_put(w, 0x400, f.hybrid_balance_noise, h11);
    lemma_put(w, 0x800, f.multichannel_start, h12);
    lemma_put(w, 0x1000, f.multichannel_end, rest);
}

proof fn lemma_lower(f: Flags, w: int, rest: int)
    requires
        w >= 0,
        w / 0x4 == lower_word(f, rest),
    ensures
        f.mono == (w / 0x4 % 2 == 1),
        f.hybrid == (w / 0x8 % 2 == 1),
        f.joint_stereo == (w / 0x10 % 2 == 1),
        f.cross_decorrelation == (w / 0x20 % 2 == 1),
        f.hybrid_noise_shaping == (w / 0x40 % 2 == 1),
        w / 0x80 == rest,
{
    reveal(lower_word);
    let h6 = put(f.hybrid_noise_shaping, rest);
    let h5 = put(f.cross_decorrelation, h6);
    let h4 = put(f.joint_stereo, h5);
    let h3 = put(f.hybrid, h4);
    lemma_put(w, 0x4, f.mono, h3);
    lemma_put(w, 0x8, f.hybrid, h4);
    lemma_put(w, 0x10, f.joint_stereo, h5);
    lemma_put(w, 0x20, f.cross_decorrelation, h6);
    lemma_put(w, 0x40, f.hybrid_noise_shaping, rest);
}

proof fn lemma_middle_bound(f: Flags, rest: int)
    requires
        0 <= rest < 0x4_0000,
    ensures
        0 <= middle_word(f, rest) < 0x100_0000,
{
    reveal(middle_word);
    reveal(put);
}

proof fn lemma_lower_bound(f: Flags, rest: int)
    requires
        0 <= rest < 0x100_0000,
    ensures
        0 <= lower_word(f, rest) < 0x2000_0000,
{
    reveal(lower_word);
    reveal(put);
}

proof fn lemma_word_bound(f: Flags)
    requires
        fields_fit(f),
    ensures
        0 <= flag_word(f) <= u32::MAX,
        flag_word(f) / 4 == lower_word(f, middle_word(f, upper_word(f))),
        flag_word(f) % 4 == f.bytes_minus_one,
{
    reveal(flag_word);
    lemma_upper_bound(f);
    lemma_middle_bound(f, upper_word(f));
    lemma_lower_bound(f, middle_word(f, upper_word(f)));
}

/// The fields of a flag word that fields were put into are those fields.
pub proof fn flag_word_roundtrip(f: Flags)
    requires
        fields_fit(f),
    ensures
        0 <= flag_word(f) <= u32::MAX,
        flags_of(flag_word(f) as u32) == (Flags { raw: flag_word(f) as u32, ..f }),
{
    let w = flag_word(f);
    lemma_word_bound(f);
    lemma_lower(f, w, middle_word(f, upper_word(f)));
    lemma_middle(f, w, upper_word(f));
    lemma_upper(f, w);
    reveal(flags_of);
}

fn put_bit(b: bool, rest: u32) -> (r: u32)
    requires
        rest < 0x4000_0000,
    ensures
        r == put(b, rest as int),
        r <= 2 * rest + 1,
{
    proof {
        reveal(put);
    }
    if b {
        2 * rest + 1
    } else {
        2 * rest
    }
}

impl Flags {
    fn upper_raw(&self) -> (r: u32)
        requires
            fields_fit(*self),
        ensures
            r == upper_word(*self),
            r < 0x4_0000,
    {
        proof {
            lemma_upper_bound(*self);
            reveal(upper_word);
        }
        let w: u32 = put_bit(self.new_shaping, put_bit(self.false_stereo, 0));
        let rated: u32 = self.sample_rate_index as u32 + 64 * w;
        let sized: u32 = self.max_magnitude as u32 + 32 * rated;
        self.left_shift as u32 + 32 * sized
    }

    fn middle_raw(&self, rest: u32) -> (r: u32)
        requires
            rest < 0x4_0000,
        ensures
            r == middle_word(*self, rest as int),
            r < 0x100_0000,
    {
        proof {
            lemma_middle_bound(*self, rest as int);
            reveal(middle_word);
        }
        let set: u32 = put_bit(self.multichannel_start, put_bit(self.multichannel_end, rest));
        let noise: u32 = put_bit(self.hybrid_bitrate_noise, put_bit(self.hybrid_balance_noise, set));
        put_bit(self.float_data, put_bit(self.int32_mode, noise))
    }

    fn lower_raw(&self, rest: u32) -> (r: u32)
        requires
            rest < 0x100_0000,
        ensures
            r == lower_word(*self, rest as int),
            r < 0x2000_0000,
    {
        proof {
            lemma_lower_bound(*self, rest as int);
            reveal(lower_word);
        }
        let w: u32 = put_bit(self.cross_decorrelation, put_bit(self.hybrid_noise_shaping, rest));
        put_bit(self.mono, put_bit(self.hybrid, put_bit(self.joint_stereo, w)))
    }

    /// The flag word of the fields.
    pub fn to_raw(&self) -> (r: u32)
        requires
            fields_fit(*self),
        ensures
            r == flag_word(*self),
            flags_of(r) == (Flags { raw: r, ..*self }),
    {
        proof {
            flag_word_roundtrip(*self);
            reveal(flag_word);
        }
        let w: u32 = self.lower_raw(self.middle_raw(self.upper_raw()));
        self.bytes_minus_one as u32 + 4 * w
    }
}

/// A block header.
#[derive(Debug, Clone, Copy, PartialEq, Eq, Structural)]
pub struct WavPackBlockHeader {
    /// Bytes of the block behind the size field.
    pub ck_size: u32,
    /// Format version.
    pub version: u16,
    /// Track number.
    pub track_number: u8,
    /// Track sub-index.
    pub track_sub_index: u8,
    /// Samples of the whole file, per channel.
    pub total_samples: u32,
    /// Position of the first sample.
    pub block_index: u32,
    /// Samples of this block, per channel.
    pub block_samples: u32,
    /// The flag word's fields.
    pub flags: Flags,
    /// The check over the decoded samples.
    pub crc: u32,
}

impl WavPackBlockHeader {
    /// The sample total, where it is known.
    pub fn total_samples_in_file(&self) -> (r: Option<u32>)
        ensures
            r == if self.total_samples == TOTAL_SAMPLES_UNKNOWN {
                None
            } else {
                Some(self.total_samples)
            },
    {
        if self.total_samples == TOTAL_SAMPLES_UNKNOWN {
            None
        } else {
            Some(self.total_samples)
        }
    }

    /// The bytes of the whole block.
    pub open spec fn block_len(&self) -> int {
        8 + self.ck_size
    }
}

/// The header at the start of some bytes, or why there is none.
pub open spec fn header_of(bytes: Seq<u8>) -> core::result::Result<WavPackBlockHeader, Error> {
    if bytes.len() < HEADER_LEN {
        Err(Error::Truncated)
    } else if bytes.take(4) != MAGIC@ {
        Err(Error::InvalidMagic)
    } else if read_le32(bytes, 4) < MIN_CK_SIZE {
        Err(Error::InvalidCkSize(read_le32(bytes, 4)))
    } else if !(MIN_VERSION <= read_le16(bytes, 8) <= MAX_VERSION) {
        Err(Error::UnsupportedVersion(read_le16(bytes, 8)))
    } else {
        Ok(
            WavPackBlockHeader {
                ck_size: read_le32(bytes, 4),
                version: read_le16(bytes, 8),
                track_number: bytes[10],
                track_sub_index: bytes[11],
                total_samples: read_le32(bytes, 12),
                block_index: read_le32(bytes, 16),
                block_samples: read_le32(bytes, 20),
                flags: flags_of(read_le32(bytes, 24)),
                crc: read_le32(bytes, 28),
            },
        )
    }
}

/// Reads a header; gives it and the bytes behind it.
pub fn parse_block_header<'a>(bytes: &'a [u8]) -> (r: Result<(WavPackBlockHeader, &'a [u8])>)
    ensures
        match header_of(bytes@) {
            Err(e) => r is Err && r->Err_0 == e,
            Ok(h) => r is Ok && r->Ok_0.0 == h && r->Ok_0.1@ == bytes@.skip(32),
        },
{
    if bytes.len() < HEADER_LEN {
        return Err(Error::Truncated);
    }
    let magic: bool = bytes[0] == MAGIC[0] && bytes[1] == MAGIC[1] && bytes[2] == MAGIC[2] && bytes[3] == MAGIC[3];
    proof {
        if magic {
            assert(bytes@.take(4) =~= MAGIC@);
        } else {
            assert(bytes@.take(4)[0] == bytes@[0]);
            assert(bytes@.take(4)[1] == bytes@[1]);
            assert(bytes@.take(4)[2] == bytes@[2]);
            assert(bytes@.take(4)[3] == bytes@[3]);
        }
    }
    if !magic {
        return Err(Error::InvalidMagic);
    }
    let ck_size: u32 = get_le32(bytes, 4);
    if ck_size < MIN_CK_SIZE {
        return Err(Error::InvalidCkSize(ck_size));
    }
    let version: u16 = get_le16(bytes, 8);
    if version < MIN_VERSION || version > MAX_VERSION {
        return Err(Error::UnsupportedVersion(version));
    }
    let header = WavPackBlockHeader {
        ck_size,
        version,
        track_number: bytes[10],
        track_sub_index: bytes[11],
        total_samples: get_le32(bytes, 12),
        block_index: get_le32(bytes, 16),
        block_samples: get_le32(bytes, 20),
        flags: Flags::from_raw(get_le32(bytes, 24)),
        crc: get_le32(bytes, 28),
    };
    let rest = &bytes[32..bytes.len()];
    assert(rest@ =~= bytes@.skip(32));
    Ok((header, rest))
}

/// The bytes of a header of version `version` with zero track numbers.
pub open spec fn header_bytes(
    ck_size: u32,
    version: u16,
    total_samples: u32,
    block_index: u32,
    block_samples: u32,
    flags: u32,
    crc: u32,
) -> Seq<u8> {
    MAGIC@ + le32(ck_size) + le16(version) + seq![0u8, 0u8] + le32(total_samples) + le32(block_index) + le32(
        block_samples,
    ) + le32(flags) + le32(crc)
}

/// Reading a written header gives its fields.
pub proof fn header_roundtrip(
    ck_size: u32,
    version: u16,
    total_samples: u32,
    block_index: u32,
    block_samples: u32,
    flags: u32,
    crc: u32,
    rest: Seq<u8>,
)
    requires
        ck_size >= MIN_CK_SIZE,
        MIN_VERSION <= version <= MAX_VERSION,
    ensures
        header_bytes(ck_size, version, total_samples, block_index, block_samples, flags, crc).len() == HEADER_LEN,
        header_of(header_bytes(ck_size, version, total_samples, block_index, block_samples, flags, crc) + rest) == Ok::<
            WavPackBlockHeader,
            Error,
        >(
            WavPackBlockHeader {
                ck_size,
                version,
                track_number: 0,
                track_sub_index: 0,
                total_samples,
                block_index,
                block_samples,
                flags: flags_of(flags),
                crc,
            },
        ),
{
    let b = header_bytes(ck_size, version, total_samples, block_index, block_samples, flags, crc) + rest;
    let s1 = MAGIC@;
    let s2 = s1 + le32(ck_size);
    let s3 = s2 + le16(version);
    let s4 = s3 + seq![0u8, 0u8];
    let s5 = s4 + le32(total_samples);
    let s6 = s5 + le32(block_index);
    let s7 = s6 + le32(block_samples);
    let s8 = s7 + le32(flags);
    let s9 = s8 + le32(crc);
    assert(b == s9 + rest);
    assert(b.take(4) =~= s1);
    assert(b.take(8) =~= s2);
    lemma_le32_inside(b, s1, ck_size);
    assert(b.take(10) =~= s3);
    assert(b[8] == b.take(10)[8] && b[9] == b.take(10)[9]);
    assert(b.take(12) =~= s4);
    assert(b[10] == b.take(12)[10] && b[11] == b.take(12)[11]);
    assert(b.take(16) =~= s5);
    lemma_le32_inside(b, s4, total_samples);
    assert(b.take(20) =~= s6);
    lemma_le32_inside(b, s5, block_index);
    assert(b.take(24) =~= s7);
    lemma_le32_inside(b, s6, block_samples);
    assert(b.take(28) =~= s8);
    lemma_le32_inside(b, s7, flags);
    assert(b.take(32) =~= s9);
    lemma_le32_inside(b, s8, crc);
}

/// Equal bytes are equal words.
proof fn lemma_same_word(b: Seq<u8>, n: int, w: Seq<u8>)
    requires
        b[n] == w[0],
        b[n + 1] == w[1],
        b[n + 2] == w[2],
        b[n + 3] == w[3],
    ensures
        read_le32(b, n) == read_le32(w, 0),
{
}

/// A word behind `pre` reads back at the end of `pre`.
proof fn lemma_le32_inside(b: Seq<u8>, pre: Seq<u8>, v: u32)
    requires
        b.len() >= pre.len() + 4,
        b.take(pre.len() as int + 4) == pre + le32(v),
    ensures
        read_le32(b, pre.len() as int) == v,
{
    let n = pre.len() as int;
    let w = le32(v);
    lemma_le_roundtrip(0, v);
    let t = b.take(n + 4);
    assert(b[n] == t[n] && t[n] == w[0]);
    assert(b[n + 1] == t[n + 1] && t[n + 1] == w[1]);
    assert(b[n + 2] == t[n + 2] && t[n + 2] == w[2]);
    assert(b[n + 3] == t[n + 3] && t[n + 3] == w[3]);
    lemma_same_word(b, n, w);
}

/// Appends a header.
pub fn push_header(
    out: &mut Vec<u8>,
    ck_size: u32,
    version: u16,
    total_samples: u32,
    block_index: u32,
    block_samples: u32,
    flags: u32,
    crc: u32,
)
    ensures
        final(out)@ == old(out)@ + header_bytes(
            ck_size,
            version,
            total_samples,
            block_index,
            block_samples,
            flags,
            crc,
        ),
{
    out.push(MAGIC[0]);
    out.push(MAGIC[1]);
    out.push(MAGIC[2]);
    out.push(MAGIC[3]);
    push_le32(out, ck_size);
    push_le16(out, version);
    out.push(0);
    out.push(0);
    push_le32(out, total_samples);
    push_le32(out, block_index);
    push_le32(out, block_samples);
    push_le32(out, flags);
    push_le32(out, crc);
    assert(out@ =~= old(out)@ + header_bytes(
        ck_size,
        version,
        total_samples,
        block_index,
        block_samples,
        flags,
        crc,
    ));
}

} // verus!
