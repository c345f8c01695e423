//! What a capture client gets when it reads: frames, silence or nothing.
use vstd::prelude::*;
use vstd::arithmetic::div_mod::*;
use vstd::arithmetic::mul::*;
use vstd::arithmetic::power2::*;
use crate::adapter::{ReadJob, ReadPlan, SourceView, SpoofedAudioSource};
use crate::phase::{lemma_ratio_near, ratio};
use crate::rounding::{bit_length, lemma_bit_length_below, lemma_round_scale};
use crate::sample::{
    is_finite, lemma_offset_byte_near, lemma_scaled_exact, lemma_scaled_near, magnitude,
    offset_byte, one, scale_to_integer, scaled_integer, to_offset_byte, value,
};

verus! {

pub const AUDIO_FORMAT_PCM_16_BIT: u32 = 0x1;

pub const AUDIO_FORMAT_PCM_8_BIT: u32 = 0x2;

pub const AUDIO_FORMAT_PCM_32_BIT: u32 = 0x3;

pub const AUDIO_FORMAT_PCM_FLOAT: u32 = 0x5;

pub const AUDIO_FORMAT_PCM_24_BIT_PACKED: u32 = 0x6;

/// The most samples that one read gives.
pub const MAX_READ_SAMPLES: u32 = 2_880_000;

/// The factor that takes a sample to 16 bits, which is also the largest 16-bit sample.
pub const PCM_I16_MAX: u32 = 32_767;

/// The factor that takes a sample to 24 bits, which is also the largest 24-bit sample.
pub const PCM_I24_MAX: u32 = 8_388_607;

/// The factor that takes a sample to 32 bits: the binary32 number nearest to the largest 32-bit
/// sample.
pub const PCM_I32_SCALE: u32 = 2_147_483_648;

/// The bytes that a sample of an audio format takes; 16 bits for a format that is not known.
pub open spec fn format_size(audio_format: u32) -> nat {
    if audio_format == AUDIO_FORMAT_PCM_8_BIT {
        1
    } else if audio_format == AUDIO_FORMAT_PCM_24_BIT_PACKED {
        3
    } else if audio_format == AUDIO_FORMAT_PCM_32_BIT || audio_format == AUDIO_FORMAT_PCM_FLOAT {
        4
    } else {
        2
    }
}

/// The byte that silence consists of.
pub open spec fn silence_byte(audio_format: u32) -> u8 {
    if audio_format == AUDIO_FORMAT_PCM_8_BIT {
        128
    } else {
        0
    }
}

/// Computes [`format_size`].
pub fn bytes_per_sample(audio_format: u32) -> (r: usize)
    ensures
        r == format_size(audio_format),
{
    match audio_format {
        AUDIO_FORMAT_PCM_8_BIT => 1,
        AUDIO_FORMAT_PCM_16_BIT => 2,
        AUDIO_FORMAT_PCM_24_BIT_PACKED => 3,
        AUDIO_FORMAT_PCM_32_BIT | AUDIO_FORMAT_PCM_FLOAT => 4,
        _ => 2,
    }
}

/// The bytes that frames of an audio format take, where that many can be counted.
pub open spec fn counted_bytes(frame_count: usize, channel_count: u32, audio_format: u32) -> Option<
    usize,
> {
    let bytes = frame_count * channel_count * format_size(audio_format);
    if bytes <= usize::MAX {
        Some(bytes as usize)
    } else {
        None
    }
}

/// A buffer whose first frames are silenced.
pub open spec fn silenced(
    buffer: Seq<u8>,
    frame_count: usize,
    channel_count: u32,
    audio_format: u32,
) -> Seq<u8> {
    match counted_bytes(frame_count, channel_count, audio_format) {
        Some(bytes) => Seq::new(bytes as nat, |i: int| silence_byte(audio_format)) + buffer.skip(
            bytes as int,
        ),
        None => buffer,
    }
}

/// The bytes that frames of an audio format take, where that many can be counted.
pub fn byte_count(frame_count: usize, channel_count: u32, audio_format: u32) -> (r: Option<usize>)
    ensures
        r == counted_bytes(frame_count, channel_count, audio_format),
        ({
            let bytes = frame_count * channel_count * format_size(audio_format);
            r == if bytes <= usize::MAX {
                Some(bytes as usize)
            } else {
                None
            }
        }),
{
    let size: usize = bytes_per_sample(audio_format);
    match frame_count.checked_mul(channel_count as usize) {
        Some(samples) => samples.checked_mul(size),
        None => {
            proof {
                let n = frame_count * channel_count;
                assert(n * format_size(audio_format) >= n) by (nonlinear_arith)
                    requires
                        n >= 0,
                        format_size(audio_format) >= 1,
                ;
            }
            None
        },
    }
}

/// Silences the frames at the start of a buffer; does nothing where their bytes cannot be
/// counted.
pub fn fill_silence(buffer: &mut [u8], frame_count: usize, channel_count: u32, audio_format: u32)
    requires
        ({
            let bytes = frame_count * channel_count * format_size(audio_format);
            bytes <= usize::MAX ==> bytes <= old(buffer)@.len()
        }),
    ensures
        final(buffer)@ == silenced(old(buffer)@, frame_count, channel_count, audio_format),
        ({
            let bytes = frame_count * channel_count * format_size(audio_format);
            if bytes <= usize::MAX {
                final(buffer)@ == Seq::new(bytes as nat, |i: int| silence_byte(audio_format))
                    + old(buffer)@.skip(bytes)
            } else {
                final(buffer)@ == old(buffer)@
            }
        }),
{
    let bytes: usize = match byte_count(frame_count, channel_count, audio_format) {
        Some(bytes) => bytes,
        None => return,
    };
    let silence: u8 = if audio_format == AUDIO_FORMAT_PCM_8_BIT {
        128
    } else {
        0
    };
    let ghost before = buffer@;
    let mut i: usize = 0;
    while i < bytes
        invariant
            i <= bytes <= before.len(),
            buffer@.len() == before.len(),
            forall|k: int| 0 <= k < i ==> #[trigger] buffer@[k] == silence,
            forall|k: int| i <= k < before.len() ==> #[trigger] buffer@[k] == before[k],
        decreases bytes - i,
    {
        buffer[i] = silence;
        i = i + 1;
    }
    assert(buffer@ =~= Seq::new(bytes as nat, |i: int| silence_byte(audio_format)) + before.skip(
        bytes as int,
    ));
}

/// Samples as 16-bit integers.
pub fn read_i16(samples: &[u32]) -> (r: Vec<i16>)
    ensures
        r@.len() == samples@.len(),
        forall|i: int|
            0 <= i < r@.len() ==> #[trigger] r@[i] == scaled_integer(
                samples@[i],
                PCM_I16_MAX as nat,
                -32_768,
                32_767,
            ),
{
    let mut r: Vec<i16> = Vec::new();
    let mut i: usize = 0;
    while i < samples.len()
        invariant
            i <= samples@.len(),
            r@.len() == i,
            forall|k: int|
                0 <= k < i ==> #[trigger] r@[k] == scaled_integer(
                    samples@[k],
                    PCM_I16_MAX as nat,
                    -32_768,
                    32_767,
                ),
        decreases samples.len() - i,
    {
        let v: i64 = scale_to_integer(samples[i], PCM_I16_MAX, -32_768, 32_767);
        r.push(v as i16);
        i = i + 1;
    }
    r
}

/// Samples as unsigned bytes.
pub fn read_u8(samples: &[u32]) -> (r: Vec<u8>)
    ensures
        r@.len() == samples@.len(),
        forall|i: int| 0 <= i < r@.len() ==> #[trigger] r@[i] == offset_byte(samples@[i]),
{
    let mut r: Vec<u8> = Vec::new();
    let mut i: usize = 0;
    while i < samples.len()
        invariant
            i <= samples@.len(),
            r@.len() == i,
            forall|k: int| 0 <= k < i ==> #[trigger] r@[k] == offset_byte(samples@[k]),
        decreases samples.len() - i,
    {
        r.push(to_offset_byte(samples[i]));
        i = i + 1;
    }
    r
}

/// Samples as 32-bit integers.
pub fn read_i32(samples: &[u32]) -> (r: Vec<i32>)
    ensures
        r@.len() == samples@.len(),
        forall|i: int|
            0 <= i < r@.len() ==> #[trigger] r@[i] == scaled_integer(
                samples@[i],
                PCM_I32_SCALE as nat,
                -2_147_483_648,
                2_147_483_647,
            ),
{
    let mut r: Vec<i32> = Vec::new();
    let mut i: usize = 0;
    while i < samples.len()
        invariant
            i <= samples@.len(),
            r@.len() == i,
            forall|k: int|
                0 <= k < i ==> #[trigger] r@[k] == scaled_integer(
                    samples@[k],
                    PCM_I32_SCALE as nat,
                    -2_147_483_648,
                    2_147_483_647,
                ),
        decreases samples.len() - i,
    {
        let v: i64 = scale_to_integer(samples[i], PCM_I32_SCALE, -2_147_483_648, 2_147_483_647);
        r.push(v as i32);
        i = i + 1;
    }
    r
}

/// Byte `place`, counted from the low one, of the 24-bit integer that a sample becomes.
pub open spec fn packed_byte(sample: u32, place: int) -> int {
    let v = scaled_integer(sample, PCM_I24_MAX as nat, -8_388_608, 8_388_607);
    if place == 0 {
        v % 0x100
    } else if place == 1 {
        (v / 0x100) % 0x100
    } else {
        (v / 0x1_0000) % 0x100
    }
}

/// Samples as 24-bit integers of three bytes each, the low byte first.
pub fn read_i24_packed(samples: &[u32]) -> (r: Vec<u8>)
    ensures
        r@.len() == 3 * samples@.len(),
        forall|i: int| 0 <= i < r@.len() ==> #[trigger] r@[i] == packed_byte(samples@[i / 3], i % 3),
{
    let mut r: Vec<u8> = Vec::new();
    let mut i: usize = 0;
    while i < samples.len()
        invariant
            i <= samples@.len(),
            r@.len() == 3 * i,
            forall|k: int|
                0 <= k < 3 * i ==> #[trigger] r@[k] == packed_byte(samples@[k / 3], k % 3),
        decreases samples.len() - i,
    {
        let v: i64 = scale_to_integer(samples[i], PCM_I24_MAX, -8_388_608, 8_388_607);
        let u: u32 = if v < 0 {
            (v + 0x100_0000) as u32
        } else {
            v as u32
        };
        let low: u8 = (u % 0x100) as u8;
        let mid: u8 = ((u / 0x100) % 0x100) as u8;
        let high: u8 = (u / 0x1_0000) as u8;
        r.push(low);
        r.push(mid);
        r.push(high);
        proof {
            let n = v as int;
            assert(n % 0x100 == low);
            assert((n / 0x100) % 0x100 == mid);
            assert((n / 0x1_0000) % 0x100 == high);
            assert forall|k: int| 0 <= k < 3 * (i + 1) implies #[trigger] r@[k] == packed_byte(
                samples@[k / 3],
                k % 3,
            ) by {
                if k >= 3 * i {
                    assert(k / 3 == i);
                }
            }
        }
        i = i + 1;
    }
    r
}

/// Zero samples are silence in every format: what a silent source gives is what
/// [`fill_silence`] writes.
pub proof fn lemma_zero_is_silence(scale: nat, lo: int, hi: int)
    requires
        lo <= 0 <= hi,
    ensures
        scaled_integer(0, scale, lo, hi) == 0,
        packed_byte(0, 0) == 0,
        packed_byte(0, 1) == 0,
        packed_byte(0, 2) == 0,
        offset_byte(0) == silence_byte(AUDIO_FORMAT_PCM_8_BIT),
{
    lemma_zero_scaled(scale, lo, hi);
    lemma_zero_scaled(PCM_I24_MAX as nat, -8_388_608, 8_388_607);
    lemma_pow2_pos(149);
    assert(magnitude(0) == 0);
    assert(bit_length(0) == 0);
    lemma2_to64();
    lemma_bit_length_below(128, 24);
    lemma_round_scale(128, 149, 24);
    lemma_div_by_multiple(128, one() as int);
}

proof fn lemma_zero_scaled(scale: nat, lo: int, hi: int)
    requires
        lo <= 0 <= hi,
    ensures
        scaled_integer(0, scale, lo, hi) == 0,
{
    lemma_pow2_pos(149);
    assert(magnitude(0) == 0);
    assert(0 * scale == 0);
    assert(bit_length(0) == 0);
    lemma_div_by_multiple(0, one() as int);
    assert(0 * one() == 0);
}

/// The form in which a client takes samples.
#[derive(Clone, Copy, Debug, PartialEq, Eq, Structural)]
pub enum SampleFormat {
    I16,
    F32,
    U8,
    I32,
    I24,
}

/// The form of samples that an audio format names.
pub open spec fn sample_format(audio_format: u32) -> Option<SampleFormat> {
    if audio_format == AUDIO_FORMAT_PCM_16_BIT {
        Some(SampleFormat::I16)
    } else if audio_format == AUDIO_FORMAT_PCM_FLOAT {
        Some(SampleFormat::F32)
    } else if audio_format == AUDIO_FORMAT_PCM_8_BIT {
        Some(SampleFormat::U8)
    } else if audio_format == AUDIO_FORMAT_PCM_32_BIT {
        Some(SampleFormat::I32)
    } else if audio_format == AUDIO_FORMAT_PCM_24_BIT_PACKED {
        Some(SampleFormat::I24)
    } else {
        None
    }
}

impl SampleFormat {
    /// What the address of a buffer of such samples is a multiple of.
    pub open spec fn alignment(self) -> nat {
        match self {
            SampleFormat::I16 => 2,
            SampleFormat::F32 => 4,
            SampleFormat::I32 => 4,
            SampleFormat::U8 => 1,
            SampleFormat::I24 => 1,
        }
    }
}

/// The samples of a read in the form that the client takes them in.
#[derive(Debug)]
pub enum FrameData {
    I16(Vec<i16>),
    /// The bits of binary32 samples.
    F32(Vec<u32>),
    U8(Vec<u8>),
    I32(Vec<i32>),
    /// Packed 24-bit samples.
    I24(Vec<u8>),
}

/// Whether data holds samples in a form.
pub open spec fn holds(data: FrameData, format: SampleFormat, samples: Seq<u32>) -> bool {
    match data {
        FrameData::I16(v) => format == SampleFormat::I16 && v@.len() == samples.len() && forall|
            i: int,
        |
            0 <= i < samples.len() ==> #[trigger] v@[i] == scaled_integer(
                samples[i],
                PCM_I16_MAX as nat,
                -32_768,
                32_767,
            ),
        FrameData::F32(v) => format == SampleFormat::F32 && v@ == samples,
        FrameData::U8(v) => format == SampleFormat::U8 && v@.len() == samples.len() && forall|i: int|
            0 <= i < samples.len() ==> #[trigger] v@[i] == offset_byte(samples[i]),
        FrameData::I32(v) => format == SampleFormat::I32 && v@.len() == samples.len() && forall|
            i: int,
        |
            0 <= i < samples.len() ==> #[trigger] v@[i] == scaled_integer(
                samples[i],
                PCM_I32_SCALE as nat,
                -2_147_483_648,
                2_147_483_647,
            ),
        FrameData::I24(v) => format == SampleFormat::I24 && v@.len() == 3 * samples.len() && forall|
            i: int,
        |
            0 <= i < v@.len() ==> #[trigger] v@[i] == packed_byte(samples[i / 3], i % 3),
    }
}

/// Brings samples into the form that a client takes them in.
pub fn convert_samples(samples: Vec<u32>, format: SampleFormat) -> (r: FrameData)
    ensures
        holds(r, format, samples@),
{
    match format {
        SampleFormat::I16 => FrameData::I16(read_i16(samples.as_slice())),
        SampleFormat::F32 => FrameData::F32(samples),
        SampleFormat::U8 => FrameData::U8(read_u8(samples.as_slice())),
        SampleFormat::I32 => FrameData::I32(read_i32(samples.as_slice())),
        SampleFormat::I24 => FrameData::I24(read_i24_packed(samples.as_slice())),
    }
}

/// How a read of a client is answered.
pub enum ReadStart {
    /// The read gives no frames, and the buffer is left alone.
    Nothing,
    /// The read gives as many frames as were asked for, all silent.
    Silence,
    /// The read gives as many frames as were asked for, which the source has to provide.
    Frames { job: ReadJob, format: SampleFormat },
}

/// A client's wish to read.
#[derive(Clone, Copy, Debug, PartialEq, Eq, Structural)]
pub struct ReadRequest {
    /// The address of the buffer; zero if there is none.
    pub buffer_address: usize,
    pub frame_count: usize,
    pub sample_rate: u32,
    pub channel_count: u32,
    pub audio_format: u32,
}

impl ReadRequest {
    /// Whether the request names a buffer and something to put into it.
    pub open spec fn is_sound(self) -> bool {
        &&& self.buffer_address != 0
        &&& self.frame_count > 0
        &&& self.sample_rate > 0
        &&& 0 < self.channel_count <= u16::MAX
    }

    /// Whether the request asks for no more than one read may give.
    pub open spec fn is_bounded(self) -> bool {
        self.frame_count * self.channel_count <= MAX_READ_SAMPLES
    }

    /// Whether the format is known and the buffer aligned for it.
    pub open spec fn is_writable(self) -> bool {
        sample_format(self.audio_format) matches Some(f) && self.buffer_address as int
            % f.alignment() as int == 0
    }
}

/// Whether a read is answered so, given what the source is.
pub open spec fn is_answer(source: Option<SourceView>, request: ReadRequest, r: ReadStart) -> bool {
    &&& r is Nothing <==> !request.is_sound() || (source is Some && !request.is_bounded())
    &&& r is Silence <==> request.is_sound() && (source is None || (request.is_bounded()
        && !request.is_writable()))
    &&& r matches ReadStart::Frames { job, format } ==> {
        &&& source matches Some(s) && {
            &&& job.fits(s)
            &&& job.is_active() == (s.has_pipe && s.sample_rate > 0 && s.channels > 0)
            &&& job.is_active() ==> job.past() == Seq::<u32>::empty() && job.plan() == (ReadPlan {
                start: s.position,
                ratio: ratio(s.sample_rate, request.sample_rate),
                channels: s.channels as nat,
                target_channels: request.channel_count as nat,
                frames: request.frame_count as nat,
            })
        }
        &&& sample_format(request.audio_format) == Some(format)
        &&& job.frame_count() == request.frame_count
        &&& job.channel_count() == request.channel_count
        &&& job.output_samples() == Seq::new(
            (request.frame_count * request.channel_count) as nat,
            |i: int| 0u32,
        )
    }
}

/// The number of frames that a client is told it has read.
pub open spec fn told_frames(r: ReadStart, request: ReadRequest) -> usize {
    match r {
        ReadStart::Nothing => 0,
        _ => request.frame_count,
    }
}

/// Decides how a read is answered.
///
/// Without a buffer, frames, rate or channels there is nothing to do, nor is there with more
/// channels or samples than a read may have. Without a source, and where the format is not
/// known or the buffer not aligned for it, the client gets silence.
pub fn mic_spoofing_read_samples(source: Option<&SpoofedAudioSource>, request: ReadRequest) -> (r:
    ReadStart)
    requires
        source matches Some(s) ==> s.wf(),
    ensures
        is_answer(
            match source {
                Some(s) => Some(s@),
                None => None,
            },
            request,
            r,
        ),
        r is Nothing <==> !request.is_sound() || (source is Some && !request.is_bounded()),
        r is Silence <==> request.is_sound() && (source is None || (request.is_bounded()
            && !request.is_writable())),
        r matches ReadStart::Frames { job, format } ==> {
            &&& source matches Some(s) && {
                &&& job.fits(s@)
                &&& job.is_active() == (s@.has_pipe && s@.sample_rate > 0 && s@.channels > 0)
                &&& job.is_active() ==> job.past() == Seq::<u32>::empty() && job.plan() == (ReadPlan {
                    start: s@.position,
                    ratio: ratio(s@.sample_rate, request.sample_rate),
                    channels: s@.channels as nat,
                    target_channels: request.channel_count as nat,
                    frames: request.frame_count as nat,
                })
            }
            &&& sample_format(request.audio_format) == Some(format)
            &&& job.frame_count() == request.frame_count
            &&& job.channel_count() == request.channel_count
            &&& job.output_samples() == Seq::new(
                (request.frame_count * request.channel_count) as nat,
                |i: int| 0u32,
            )
        },
{
    if request.buffer_address == 0 || request.frame_count == 0 || request.sample_rate == 0
        || request.channel_count == 0 {
        return ReadStart::Nothing;
    }
    if request.channel_count > 0xffff {
        return ReadStart::Nothing;
    }
    let source = match source {
        Some(source) => source,
        None => return ReadStart::Silence,
    };
    let sample_count: usize = match request.frame_count.checked_mul(request.channel_count as usize) {
        Some(sample_count) => sample_count,
        None => return ReadStart::Nothing,
    };
    if sample_count > MAX_READ_SAMPLES as usize {
        return ReadStart::Nothing;
    }
    let format = match request.audio_format {
        AUDIO_FORMAT_PCM_16_BIT => {
            if request.buffer_address % 2 != 0 {
                return ReadStart::Silence;
            }
            SampleFormat::I16
        },
        AUDIO_FORMAT_PCM_FLOAT => {
            if request.buffer_address % 4 != 0 {
                return ReadStart::Silence;
            }
            SampleFormat::F32
        },
        AUDIO_FORMAT_PCM_8_BIT => SampleFormat::U8,
        AUDIO_FORMAT_PCM_32_BIT => {
            if request.buffer_address % 4 != 0 {
                return ReadStart::Silence;
            }
            SampleFormat::I32
        },
        AUDIO_FORMAT_PCM_24_BIT_PACKED => SampleFormat::I24,
        _ => return ReadStart::Silence,
    };
    let mut output: Vec<u32> = Vec::new();
    output.resize(sample_count, 0);
    let job = source.begin_read(output, request.sample_rate, request.channel_count as u16);
    proof {
        let ch = request.channel_count as int;
        lemma_div_by_multiple(request.frame_count as int, ch);
        assert(job.frame_count() == request.frame_count);
        assert(job.output_samples() =~= Seq::new(
            (request.frame_count * request.channel_count) as nat,
            |i: int| 0u32,
        ));
    }
    ReadStart::Frames { job, format }
}

/// The number of frames that a client is told it has read: all that it asked for, or none.
pub fn frames_read(start: &ReadStart, request: ReadRequest) -> (r: usize)
    ensures
        r == told_frames(*start, request),
        r == if start is Nothing {
            0
        } else {
            request.frame_count
        },
{
    match start {
        ReadStart::Nothing => 0,
        ReadStart::Silence => request.frame_count,
        ReadStart::Frames { .. } => request.frame_count,
    }
}

/// What each audio format is: its number, the form of its samples, their size in bytes, what
/// their address is a multiple of, and the byte that silence consists of. A format that is not
/// known counts as 16 bits.
pub proof fn lemma_audio_formats(audio_format: u32)
    ensures
        audio_format == 1 <==> sample_format(audio_format) == Some(SampleFormat::I16),
        audio_format == 2 <==> sample_format(audio_format) == Some(SampleFormat::U8),
        audio_format == 3 <==> sample_format(audio_format) == Some(SampleFormat::I32),
        audio_format == 5 <==> sample_format(audio_format) == Some(SampleFormat::F32),
        audio_format == 6 <==> sample_format(audio_format) == Some(SampleFormat::I24),
        format_size(audio_format) == match sample_format(audio_format) {
            Some(SampleFormat::U8) => 1nat,
            Some(SampleFormat::I24) => 3,
            Some(SampleFormat::I32) => 4,
            Some(SampleFormat::F32) => 4,
            _ => 2,
        },
        sample_format(audio_format) matches Some(format) ==> format.alignment() == if format
            == SampleFormat::I24 {
            1
        } else {
            format_size(audio_format)
        },
        silence_byte(audio_format) == if audio_format == 2 {
            128u8
        } else {
            0
        },
{
}

/// Which reads are answered with frames, which with silence, and which with nothing.
pub proof fn lemma_read_is_answered(
    source: Option<SourceView>,
    request: ReadRequest,
    r: ReadStart,
)
    requires
        is_answer(source, request, r),
    ensures
        ({
            let address = request.buffer_address as int;
            let proper = address != 0 && request.frame_count > 0 && request.sample_rate > 0 && 0
                < request.channel_count <= 65_535;
            let few = request.frame_count * request.channel_count <= 2_880_000;
            let placed = request.audio_format == 2 || request.audio_format == 6 || (
            request.audio_format == 1 && address % 2 == 0) || ((request.audio_format == 3
                || request.audio_format == 5) && address % 4 == 0);
            &&& r is Nothing <==> !proper || (source is Some && !few)
            &&& r is Silence <==> proper && (source is None || (few && !placed))
            &&& r is Frames <==> proper && source is Some && few && placed
            &&& r matches ReadStart::Frames { job, format } ==> {
                &&& job.frame_count() == request.frame_count
                &&& job.channel_count() == request.channel_count
                &&& job.output_samples().len() == request.frame_count * request.channel_count
                &&& forall|i: int|
                    0 <= i < job.output_samples().len() ==> #[trigger] job.output_samples()[i] == 0
                &&& request.audio_format == match format {
                    SampleFormat::I16 => 1u32,
                    SampleFormat::U8 => 2,
                    SampleFormat::I32 => 3,
                    SampleFormat::F32 => 5,
                    SampleFormat::I24 => 6,
                }
                &&& source matches Some(s) && {
                    &&& job.is_active() <==> s.has_pipe && s.sample_rate > 0 && s.channels > 0
                    &&& job.is_active() ==> job.plan().start == s.position && job.plan().channels
                        == s.channels && job.plan().frames == request.frame_count
                        && job.plan().target_channels == request.channel_count
                    &&& job.is_active() ==> -(s.sample_rate * pow2(84)) <= (job.plan().ratio
                        * request.sample_rate - s.sample_rate * pow2(84)) * pow2(53)
                        <= s.sample_rate * pow2(84)
                }
            }
            &&& told_frames(r, request) == if r is Nothing {
                0
            } else {
                request.frame_count
            }
        }),
{
    lemma_audio_formats(request.audio_format);
    if let ReadStart::Frames { job, .. } = r {
        let s = source->0;
        if job.is_active() {
            lemma_ratio_near(s.sample_rate, request.sample_rate);
        }
    }
}

/// Whether an integer is the multiple of a finite sample by a factor: cut off towards zero, within
/// the bounds, and as exact as a binary32 product.
pub open spec fn is_multiple(r: int, sample: u32, factor: int, lo: int, hi: int) -> bool {
    let v = value(sample);
    let exact = factor * (if v < 0 {
        -v
    } else {
        v
    });
    let size = if r < 0 {
        -r
    } else {
        r
    };
    &&& lo <= r <= hi
    &&& v >= 0 ==> r >= 0
    &&& v <= 0 ==> r <= 0
    &&& 0x100_0000 * (size * pow2(149)) <= 0x100_0001 * exact
    &&& lo < r < hi ==> 0x100_0000 * (size * pow2(149) + pow2(149)) > 0xff_ffff * exact
}

/// Whether an integer is the multiple of a sample by a factor that is exact, where it is.
pub open spec fn is_exact_multiple(r: int, sample: u32, factor: int, lo: int, hi: int) -> bool {
    forall|n: int|
        -0x100_0000 < n < 0x100_0000 && lo <= n <= hi && value(sample) * factor == #[trigger] (n
            * pow2(149)) ==> r == n
}

proof fn lemma_multiples(sample: u32, factor: nat, lo: int, hi: int)
    requires
        is_finite(sample),
        lo <= 0 <= hi,
    ensures
        is_multiple(scaled_integer(sample, factor, lo, hi), sample, factor as int, lo, hi),
        is_exact_multiple(scaled_integer(sample, factor, lo, hi), sample, factor as int, lo, hi),
{
    lemma_scaled_near(sample, factor, lo, hi);
    assert forall|n: int|
        -0x100_0000 < n < 0x100_0000 && lo <= n <= hi && value(sample) * factor == #[trigger] (n
            * pow2(149)) implies scaled_integer(sample, factor, lo, hi) == n by {
        lemma_scaled_exact(sample, factor, lo, hi, n);
    }
}

/// A client gets the samples in the form that it asked for, each in its place: as they are, or as
/// the integers that they are of the largest one of that width; bytes count from 128.
pub proof fn lemma_clients_get_the_samples(
    data: FrameData,
    format: SampleFormat,
    samples: Seq<u32>,
    i: int,
)
    requires
        holds(data, format, samples),
        0 <= i < samples.len(),
        is_finite(samples[i]),
    ensures
        match data {
            FrameData::I16(v) => {
                &&& format == SampleFormat::I16
                &&& v@.len() == samples.len()
                &&& is_multiple(v@[i] as int, samples[i], 32_767, -32_768, 32_767)
                &&& is_exact_multiple(v@[i] as int, samples[i], 32_767, -32_768, 32_767)
            },
            FrameData::F32(v) => format == SampleFormat::F32 && v@.len() == samples.len() && v@[i]
                == samples[i],
            FrameData::U8(v) => {
                &&& format == SampleFormat::U8
                &&& v@.len() == samples.len()
                &&& -(pow2(149) as int) <= value(samples[i]) <= pow2(149) ==> {
                    let exact = 128 * pow2(149) + 127 * value(samples[i]);
                    &&& 0x8000 * (v@[i] * pow2(149) - exact) <= pow2(149)
                    &&& 0x8000 * (exact - v@[i] * pow2(149)) < 0x8001 * pow2(149)
                }
            },
            FrameData::I32(v) => {
                &&& format == SampleFormat::I32
                &&& v@.len() == samples.len()
                &&& is_multiple(
                    v@[i] as int,
                    samples[i],
                    2_147_483_648,
                    -2_147_483_648,
                    2_147_483_647,
                )
                &&& is_exact_multiple(
                    v@[i] as int,
                    samples[i],
                    2_147_483_648,
                    -2_147_483_648,
                    2_147_483_647,
                )
            },
            FrameData::I24(v) => {
                let w = v@[3 * i] + 0x100 * v@[3 * i + 1] + 0x1_0000 * v@[3 * i + 2];
                let n = if w < 0x80_0000 {
                    w
                } else {
                    w - 0x100_0000
                };
                &&& format == SampleFormat::I24
                &&& v@.len() == 3 * samples.len()
                &&& is_multiple(n, samples[i], 8_388_607, -8_388_608, 8_388_607)
                &&& is_exact_multiple(n, samples[i], 8_388_607, -8_388_608, 8_388_607)
            },
        },
{
    let sample = samples[i];
    match data {
        FrameData::I16(v) => {
            lemma_multiples(sample, 32_767, -32_768, 32_767);
        },
        FrameData::F32(v) => {},
        FrameData::U8(v) => {
            assert(v@[i] == offset_byte(samples[i]));
            if -(pow2(149) as int) <= value(sample) <= pow2(149) {
                lemma_offset_byte_near(sample);
            }
        },
        FrameData::I32(v) => {
            lemma_multiples(sample, 2_147_483_648, -2_147_483_648, 2_147_483_647);
        },
        FrameData::I24(v) => {
            lemma_multiples(sample, 8_388_607, -8_388_608, 8_388_607);
            let n = scaled_integer(sample, 8_388_607, -8_388_608, 8_388_607);
            assert(v@[3 * i] == packed_byte(samples[(3 * i) / 3], (3 * i) % 3));
            assert(v@[3 * i + 1] == packed_byte(samples[(3 * i + 1) / 3], (3 * i + 1) % 3));
            assert(v@[3 * i + 2] == packed_byte(samples[(3 * i + 2) / 3], (3 * i + 2) % 3));
            assert(v@[3 * i] == n % 0x100);
            assert(v@[3 * i + 1] == (n / 0x100) % 0x100);
            assert(v@[3 * i + 2] == (n / 0x1_0000) % 0x100);
            assert((n / 0x100) / 0x100 == n / 0x1_0000);
        },
    }
}

/// Frames take as many bytes as they have samples times the size of a sample, and where that is
/// more than can be counted they have no count.
pub proof fn lemma_counted_bytes(frame_count: usize, channel_count: u32, audio_format: u32)
    ensures
        ({
            let size = match audio_format {
                2 => 1int,
                6 => 3,
                3 => 4,
                5 => 4,
                _ => 2,
            };
            let r = counted_bytes(frame_count, channel_count, audio_format);
            &&& r is Some <==> frame_count * channel_count * size <= usize::MAX
            &&& r matches Some(n) ==> n == frame_count * channel_count * size
        }),
{
}

/// Silencing frames sets their bytes, and no others, to the byte of silence. Nothing is set where
/// the bytes have no count.
pub proof fn lemma_silenced_frames(
    buffer: Seq<u8>,
    frame_count: usize,
    channel_count: u32,
    audio_format: u32,
    i: int,
)
    requires
        counted_bytes(frame_count, channel_count, audio_format) matches Some(n) ==> n
            <= buffer.len(),
        0 <= i < buffer.len(),
    ensures
        ({
            let after = silenced(buffer, frame_count, channel_count, audio_format);
            let covered = counted_bytes(frame_count, channel_count, audio_format) matches Some(n) && i
                < n;
            &&& after.len() == buffer.len()
            &&& covered && audio_format == 2 ==> after[i] == 128
            &&& covered && audio_format != 2 ==> after[i] == 0
            &&& !covered ==> after[i] == buffer[i]
        }),
{
}

} // verus!
