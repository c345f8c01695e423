//! The inputs of the fuzzer, and the buffers that it reads into.
use vstd::arithmetic::div_mod::*;
use vstd::arithmetic::mul::*;
use vstd::prelude::*;
use crate::read_samples::{
    sample_format, SampleFormat, AUDIO_FORMAT_PCM_16_BIT, AUDIO_FORMAT_PCM_24_BIT_PACKED, AUDIO_FORMAT_PCM_32_BIT,
    AUDIO_FORMAT_PCM_8_BIT, AUDIO_FORMAT_PCM_FLOAT,
};

verus! {

/// The number of bytes that one input may ask for.
pub const MAX_ALLOC: usize = 262_144;

/// The number of bytes that are allocated where the number needed is not a number at all.
pub const MIN_ALLOC: usize = 64;

/// The number of bytes that are allocated on top, for the alignment.
pub const PADDING: usize = 16;

/// An audio format.
#[derive(Clone, Copy, Debug, PartialEq, Eq, Structural)]
pub enum Format {
    Pcm16,
    Pcm8,
    Pcm32,
    Float,
    Pcm24,
    /// Any number, which need not be that of a format.
    Raw(u32),
}

impl Format {
    /// The number of a format.
    pub open spec fn number(self) -> u32 {
        match self {
            Format::Pcm16 => AUDIO_FORMAT_PCM_16_BIT,
            Format::Pcm8 => AUDIO_FORMAT_PCM_8_BIT,
            Format::Pcm32 => AUDIO_FORMAT_PCM_32_BIT,
            Format::Float => AUDIO_FORMAT_PCM_FLOAT,
            Format::Pcm24 => AUDIO_FORMAT_PCM_24_BIT_PACKED,
            Format::Raw(v) => v,
        }
    }

    /// The number of a format.
    pub fn val(&self) -> (r: u32)
        ensures
            r == self.number(),
            r == match *self {
                Format::Pcm16 => AUDIO_FORMAT_PCM_16_BIT,
                Format::Pcm8 => AUDIO_FORMAT_PCM_8_BIT,
                Format::Pcm32 => AUDIO_FORMAT_PCM_32_BIT,
                Format::Float => AUDIO_FORMAT_PCM_FLOAT,
                Format::Pcm24 => AUDIO_FORMAT_PCM_24_BIT_PACKED,
                Format::Raw(v) => v,
            },
    {
        match self {
            Format::Pcm16 => AUDIO_FORMAT_PCM_16_BIT,
            Format::Pcm8 => AUDIO_FORMAT_PCM_8_BIT,
            Format::Pcm32 => AUDIO_FORMAT_PCM_32_BIT,
            Format::Float => AUDIO_FORMAT_PCM_FLOAT,
            Format::Pcm24 => AUDIO_FORMAT_PCM_24_BIT_PACKED,
            Format::Raw(v) => *v,
        }
    }
}

/// A number of frames.
#[derive(Clone, Copy, Debug, PartialEq, Eq, Structural)]
pub enum Frames {
    Zero,
    One,
    Small(u8),
    Medium(u16),
    /// So many that two samples each are too many to count.
    OverflowMul,
    /// So many that two samples of three bytes each are too many bytes to count.
    Overflow24,
}

impl Frames {
    /// The number of frames.
    pub open spec fn number(self) -> int {
        match self {
            Frames::Zero => 0,
            Frames::One => 1,
            Frames::Small(n) => n as int,
            Frames::Medium(n) => n as int,
            Frames::OverflowMul => usize::MAX as int / 2 + 1,
            Frames::Overflow24 => usize::MAX as int / 6 + 1,
        }
    }

    /// The number of frames.
    pub fn count(&self) -> (r: usize)
        ensures
            r == self.number(),
            match *self {
                Frames::Zero => r == 0,
                Frames::One => r == 1,
                Frames::Small(n) => r == n,
                Frames::Medium(n) => r == n,
                Frames::OverflowMul => r == usize::MAX / 2 + 1 && r * 2 > usize::MAX,
                Frames::Overflow24 => r == usize::MAX / 6 + 1 && r * 2 <= usize::MAX && r * 2 * 3
                    > usize::MAX,
            },
    {
        match self {
            Frames::Zero => 0,
            Frames::One => 1,
            Frames::Small(n) => *n as usize,
            Frames::Medium(n) => *n as usize,
            Frames::OverflowMul => usize::MAX / 2 + 1,
            Frames::Overflow24 => usize::MAX / 6 + 1,
        }
    }
}

/// The place of a buffer, relative to a multiple of eight.
#[derive(Clone, Copy, Debug, PartialEq, Eq, Structural)]
pub enum Align {
    /// Aligned for every format.
    Natural,
    /// Aligned for single bytes only.
    Off1,
    /// Aligned for two bytes, but not for four.
    Off2,
    /// Aligned for single bytes only.
    Off3,
}

impl Align {
    /// The distance from the multiple of eight.
    pub fn offset(&self) -> (r: usize)
        ensures
            r == match *self {
                Align::Natural => 0usize,
                Align::Off1 => 1,
                Align::Off2 => 2,
                Align::Off3 => 3,
            },
    {
        match self {
            Align::Natural => 0,
            Align::Off1 => 1,
            Align::Off2 => 2,
            Align::Off3 => 3,
        }
    }
}

/// The place of a buffer in storage that begins at an address: as far behind the next multiple
/// of eight as asked for.
pub open spec fn buffer_place(base: usize, align: Align) -> int {
    (8 - base % 8) % 8 + match align {
        Align::Natural => 0int,
        Align::Off1 => 1,
        Align::Off2 => 2,
        Align::Off3 => 3,
    }
}

/// Computes [`buffer_place`], which leaves room for the buffer in storage with
/// [`PADDING`] bytes on top.
pub fn place_buffer(base: usize, align: Align) -> (r: usize)
    ensures
        r == buffer_place(base, align),
        r <= 10 < PADDING,
        (base + r) % 8 == buffer_place(0, align),
{
    (8 - base % 8) % 8 + align.offset()
}

/// The number of bytes that frames take.
pub open spec fn bytes_needed(frame_count: nat, channel_count: nat, sample_size: nat) -> nat {
    frame_count * channel_count * sample_size
}

/// A number, or one in place of zero.
pub open spec fn at_least_one(n: nat) -> nat {
    if n == 0 {
        1
    } else {
        n
    }
}

/// The number of frames to ask for and the number of bytes to allocate.
///
/// A request for too many bytes is cut down to as many frames as [`MAX_ALLOC`] bytes hold. One
/// for more bytes than can be counted is left as it is, since no such request is served.
pub open spec fn planned(frame_count: nat, channel_count: nat, sample_size: nat) -> (nat, nat) {
    let needed = bytes_needed(frame_count, channel_count, sample_size);
    if needed > usize::MAX {
        (frame_count, MIN_ALLOC as nat)
    } else if needed <= MAX_ALLOC {
        (frame_count, at_least_one(needed))
    } else {
        let frames = MAX_ALLOC as nat / (channel_count * sample_size);
        (frames, at_least_one(frames * (channel_count * sample_size)))
    }
}

/// Computes [`planned`].
pub fn plan_buffer(frame_count: usize, channel_count: u32, sample_size: usize) -> (r: (usize, usize))
    requires
        1 <= sample_size <= 4,
    ensures
        (r.0 as nat, r.1 as nat) == planned(
            frame_count as nat,
            channel_count as nat,
            sample_size as nat,
        ),
{
    let needed: Option<usize> = match frame_count.checked_mul(channel_count as usize) {
        Some(samples) => samples.checked_mul(sample_size),
        None => {
            proof {
                lemma_mul_increases(sample_size as int, frame_count * channel_count as int);
                lemma_mul_is_commutative(sample_size as int, frame_count * channel_count as int);
            }
            None
        },
    };
    match needed {
        None => (frame_count, MIN_ALLOC),
        Some(n) => {
            if n <= MAX_ALLOC {
                return (
                    frame_count,
                    if n > 1 {
                        n
                    } else {
                        1
                    },
                );
            }
            let channels: usize = if channel_count as usize > 1 {
                channel_count as usize
            } else {
                1
            };
            proof {
                lemma_frame_size(frame_count as int, channel_count as int, sample_size as int);
            }
            let frame_size: usize = channels * sample_size;
            let cap: usize = MAX_ALLOC / frame_size;
            proof {
                lemma_cut_down(frame_size as int);
            }
            let size: usize = cap * frame_size;
            (
                cap,
                if size > 1 {
                    size
                } else {
                    1
                },
            )
        },
    }
}

/// A request that takes bytes has channels, and one of its frames takes no more bytes than it.
proof fn lemma_frame_size(frames: int, channels: int, size: int)
    by (nonlinear_arith)
    requires
        frames >= 0,
        channels >= 0,
        size > 0,
        frames * channels * size > 0,
    ensures
        channels >= 1,
        0 < channels * size <= frames * channels * size,
{
}

/// The frames that a request is cut down to fit into what may be allocated.
proof fn lemma_cut_down(frame_size: int)
    requires
        frame_size > 0,
    ensures
        0 <= MAX_ALLOC as int / frame_size,
        0 <= (MAX_ALLOC as int / frame_size) * frame_size <= MAX_ALLOC,
{
    let cap = MAX_ALLOC as int / frame_size;
    lemma_div_pos_is_pos(MAX_ALLOC as int, frame_size);
    lemma_fundamental_div_mod(MAX_ALLOC as int, frame_size);
    lemma_mod_bound(MAX_ALLOC as int, frame_size);
    lemma_mul_is_commutative(cap, frame_size);
    lemma_mul_nonnegative(cap, frame_size);
}

/// The buffer that is planned for a request holds all the bytes of the frames that are asked
/// for in the end, if they can be counted, and is no larger than allowed.
pub proof fn lemma_planned_buffer_suffices(frame_count: nat, channel_count: nat, sample_size: nat)
    requires
        sample_size > 0,
    ensures
        ({
            let (frames, size) = planned(frame_count, channel_count, sample_size);
            let needed = bytes_needed(frames, channel_count, sample_size);
            &&& 1 <= size <= MAX_ALLOC
            &&& needed <= usize::MAX ==> needed <= size
        }),
{
    let needed = bytes_needed(frame_count, channel_count, sample_size);
    if MAX_ALLOC < needed <= usize::MAX {
        lemma_frame_size(frame_count as int, channel_count as int, sample_size as int);
        lemma_cut_down((channel_count * sample_size) as int);
        let frames = planned(frame_count, channel_count, sample_size).0;
        lemma_mul_is_associative(frames as int, channel_count as int, sample_size as int);
    }
}

/// A request whose bytes are few enough is left as it is, and gets just these bytes, or one in
/// place of none. One for more is cut down to as many whole frames as fit, and one for more bytes
/// than can be counted is left as it is, with a few bytes for show.
pub proof fn lemma_planned_request(frame_count: nat, channel_count: nat, sample_size: nat)
    requires
        sample_size > 0,
    ensures
        ({
            let (frames, size) = planned(frame_count, channel_count, sample_size);
            let frame = channel_count * sample_size;
            let needed = frame_count * frame;
            &&& needed <= 262_144 ==> frames == frame_count && (size == needed || needed == 0 && size
                == 1)
            &&& needed > usize::MAX ==> frames == frame_count && size == 64
            &&& 262_144 < needed <= usize::MAX ==> {
                &&& frames < frame_count
                &&& frames * frame <= 262_144 < frames * frame + frame
                &&& size == frames * frame || frames == 0 && size == 1
            }
        }),
{
    let frame = channel_count * sample_size;
    let needed = bytes_needed(frame_count, channel_count, sample_size);
    lemma_mul_is_associative(frame_count as int, channel_count as int, sample_size as int);
    if MAX_ALLOC < needed <= usize::MAX {
        lemma_frame_size(frame_count as int, channel_count as int, sample_size as int);
        let cap = MAX_ALLOC as nat / frame;
        lemma_fundamental_div_mod(MAX_ALLOC as int, frame as int);
        lemma_mod_bound(MAX_ALLOC as int, frame as int);
        lemma_mul_is_commutative(frame as int, cap as int);
        assert(cap < frame_count) by (nonlinear_arith)
            requires
                cap * frame < frame_count * frame,
                frame > 0,
        ;
        assert(cap > 0 ==> cap * frame > 0) by (nonlinear_arith)
            requires
                frame > 0,
        ;
        assert(cap == 0 ==> cap * frame == 0) by (nonlinear_arith);
    }
}

/// A buffer begins as far behind a multiple of eight as was asked for, and within the bytes that
/// are allocated on top.
pub proof fn lemma_buffer_is_placed(base: usize, align: Align)
    ensures
        (base + buffer_place(base, align)) % 8 == match align {
            Align::Natural => 0int,
            Align::Off1 => 1,
            Align::Off2 => 2,
            Align::Off3 => 3,
        },
        0 <= buffer_place(base, align) < 16,
{
}

/// A format's number is that of the samples that it stands for.
pub proof fn lemma_format_numbers(v: u32)
    ensures
        sample_format(Format::Pcm16.number()) == Some(SampleFormat::I16),
        sample_format(Format::Pcm8.number()) == Some(SampleFormat::U8),
        sample_format(Format::Pcm32.number()) == Some(SampleFormat::I32),
        sample_format(Format::Float.number()) == Some(SampleFormat::F32),
        sample_format(Format::Pcm24.number()) == Some(SampleFormat::I24),
        Format::Raw(v).number() == v,
{
}

/// The two numbers that are too large are the least of their kind: of frames whose two samples
/// cannot be counted, and of those whose two samples of three bytes cannot, though the samples
/// can. Every other number is the one that is given.
pub proof fn lemma_frame_numbers(small: u8, medium: u16)
    ensures
        Frames::Zero.number() == 0,
        Frames::One.number() == 1,
        Frames::Small(small).number() == small,
        Frames::Medium(medium).number() == medium,
        2 * (Frames::OverflowMul.number() - 1) <= usize::MAX < 2 * Frames::OverflowMul.number(),
        6 * (Frames::Overflow24.number() - 1) <= usize::MAX < 6 * Frames::Overflow24.number(),
        2 * Frames::Overflow24.number() <= usize::MAX,
{
}

} // verus!
