//! Decoded audio of every encoding, as samples in `[-1, 1]`.
use vstd::prelude::*;
use vstd::arithmetic::mul::*;
use vstd::arithmetic::power2::*;
use crate::bytes::{as_signed, half_word, read_half_word, read_word, word, ByteOrder};
use crate::error::{DecodeError, WideEncoding};
use crate::sample::{
    clamp_float_sample, clamped, is_finite, is_fraction, lemma_clamped_sample, lemma_fraction_exact,
    lemma_fraction_in_range, lemma_fraction_near, lemma_sample_determined, magnitude, one,
    sample_from_fraction, value,
};

verus! {

pub const PCM_ENCODING_PCM_16BIT: i32 = 2;

pub const PCM_ENCODING_PCM_8BIT: i32 = 3;

pub const PCM_ENCODING_PCM_FLOAT: i32 = 4;

pub const PCM_ENCODING_PCM_24BIT_PACKED: i32 = 21;

pub const PCM_ENCODING_PCM_32BIT: i32 = 22;

/// The bytes that one sample of an encoding takes; none for an encoding that is not known.
pub open spec fn encoded_size(encoding: i32) -> nat {
    if encoding == PCM_ENCODING_PCM_8BIT {
        1
    } else if encoding == PCM_ENCODING_PCM_16BIT {
        2
    } else if encoding == PCM_ENCODING_PCM_24BIT_PACKED {
        3
    } else if encoding == PCM_ENCODING_PCM_FLOAT || encoding == PCM_ENCODING_PCM_32BIT {
        4
    } else {
        0
    }
}

/// Whether a sample is what one encoded sample stands for: an integer of `w` bits stands for
/// its quotient by `2^(w-1)`, a byte being taken from its middle value; a float is clamped.
pub open spec fn is_decoded(order: ByteOrder, encoding: i32, chunk: Seq<u8>, sample: u32) -> bool {
    if encoding == PCM_ENCODING_PCM_8BIT {
        is_fraction(sample, chunk[0] - 128, 7)
    } else if encoding == PCM_ENCODING_PCM_16BIT {
        is_fraction(sample, as_signed(half_word(order, chunk), 0x1_0000), 15)
    } else if encoding == PCM_ENCODING_PCM_24BIT_PACKED {
        is_fraction(
            sample,
            as_signed(chunk[0] + 0x100 * chunk[1] + 0x1_0000 * chunk[2], 0x100_0000),
            23,
        )
    } else if encoding == PCM_ENCODING_PCM_32BIT {
        is_fraction(sample, as_signed(word(order, chunk), 0x1_0000_0000), 31)
    } else {
        sample == clamped(word(order, chunk) as u32)
    }
}

/// Whether samples are what a run of bytes stands for.
pub open spec fn is_normalized(
    order: ByteOrder,
    encoding: i32,
    bytes: Seq<u8>,
    samples: Seq<u32>,
) -> bool {
    let size = encoded_size(encoding) as int;
    &&& samples.len() * size == bytes.len()
    &&& forall|i: int|
        0 <= i < samples.len() ==> is_decoded(
            order,
            encoding,
            bytes.subrange(i * size, i * size + size),
            #[trigger] samples[i],
        )
    &&& forall|i: int|
        0 <= i < samples.len() ==> is_finite(#[trigger] samples[i]) && magnitude(samples[i]) <= one()
}

/// A run of bytes stands for one run of samples only.
pub proof fn lemma_samples_determined(
    order: ByteOrder,
    encoding: i32,
    bytes: Seq<u8>,
    a: Seq<u32>,
    b: Seq<u32>,
)
    requires
        encoded_size(encoding) > 0,
        is_normalized(order, encoding, bytes, a),
        is_normalized(order, encoding, bytes, b),
    ensures
        a == b,
{
    let size = encoded_size(encoding) as int;
    lemma_mul_equality_converse(size, a.len() as int, b.len() as int);
    assert forall|i: int| 0 <= i < a.len() implies a[i] == b[i] by {
        let chunk = bytes.subrange(i * size, i * size + size);
        assert(is_decoded(order, encoding, chunk, a[i]));
        assert(is_decoded(order, encoding, chunk, b[i]));
        if encoding != PCM_ENCODING_PCM_FLOAT {
            lemma_sample_determined(a[i], b[i]);
        }
    }
    assert(a =~= b);
}

/// The failure of a buffer that ends within a sample.
pub open spec fn wide(encoding: i32) -> WideEncoding {
    if encoding == PCM_ENCODING_PCM_16BIT {
        WideEncoding::Pcm16
    } else if encoding == PCM_ENCODING_PCM_FLOAT {
        WideEncoding::Float
    } else if encoding == PCM_ENCODING_PCM_24BIT_PACKED {
        WideEncoding::Pcm24
    } else {
        WideEncoding::Pcm32
    }
}

/// What [`normalize_pcm_buffer`] gives.
pub open spec fn normalized(
    order: ByteOrder,
    bytes: Seq<u8>,
    encoding: i32,
    r: Result<Vec<u32>, DecodeError>,
) -> bool {
    let size = encoded_size(encoding);
    if size == 0 {
        r == Err::<Vec<u32>, _>(DecodeError::UnsupportedEncoding(encoding))
    } else if bytes.len() % size != 0 {
        r == Err::<Vec<u32>, _>(DecodeError::PartialSample(wide(encoding)))
    } else {
        r matches Ok(samples) && is_normalized(order, encoding, bytes, samples@)
    }
}

/// Decodes one sample.
fn decode_sample(order: ByteOrder, encoding: i32, bytes: &[u8], at: usize) -> (r: u32)
    requires
        encoded_size(encoding) > 0,
        at + encoded_size(encoding) <= bytes@.len(),
    ensures
        is_decoded(order, encoding, bytes@.subrange(at as int, at + encoded_size(encoding)), r),
        is_finite(r),
        magnitude(r) <= one(),
{
    let total: usize = bytes.len();
    assert(at + encoded_size(encoding) <= total);
    let ghost chunk = bytes@.subrange(at as int, at + encoded_size(encoding));
    proof {
        lemma2_to64();
    }
    if encoding == PCM_ENCODING_PCM_8BIT {
        let n: i64 = bytes[at] as i64 - 128;
        let r: u32 = sample_from_fraction(n, 7);
        proof {
            lemma_fraction_in_range(r, n as int, 7);
        }
        r
    } else if encoding == PCM_ENCODING_PCM_16BIT {
        let h: u16 = read_half_word(order, bytes[at], bytes[at + 1]);
        let n: i64 = if h >= 0x8000 {
            h as i64 - 0x1_0000
        } else {
            h as i64
        };
        let r: u32 = sample_from_fraction(n, 15);
        proof {
            lemma_fraction_in_range(r, n as int, 15);
        }
        r
    } else if encoding == PCM_ENCODING_PCM_24BIT_PACKED {
        let v: i64 = bytes[at] as i64 + 0x100 * bytes[at + 1] as i64 + 0x1_0000 * bytes[at + 2] as i64;
        let n: i64 = if v >= 0x80_0000 {
            v - 0x100_0000
        } else {
            v
        };
        let r: u32 = sample_from_fraction(n, 23);
        proof {
            lemma_fraction_in_range(r, n as int, 23);
        }
        r
    } else if encoding == PCM_ENCODING_PCM_32BIT {
        let w: u32 = read_word(order, bytes[at], bytes[at + 1], bytes[at + 2], bytes[at + 3]);
        let n: i64 = if w >= 0x8000_0000 {
            w as i64 - 0x1_0000_0000
        } else {
            w as i64
        };
        let r: u32 = sample_from_fraction(n, 31);
        proof {
            lemma_fraction_in_range(r, n as int, 31);
        }
        r
    } else {
        let w: u32 = read_word(order, bytes[at], bytes[at + 1], bytes[at + 2], bytes[at + 3]);
        proof {
            assert(magnitude(0) == 0);
            crate::sample::lemma_one_bits();
        }
        clamp_float_sample(w)
    }
}

/// The size of an encoded sample.
fn sample_size(encoding: i32) -> (r: usize)
    ensures
        r == encoded_size(encoding),
{
    if encoding == PCM_ENCODING_PCM_8BIT {
        1
    } else if encoding == PCM_ENCODING_PCM_16BIT {
        2
    } else if encoding == PCM_ENCODING_PCM_24BIT_PACKED {
        3
    } else if encoding == PCM_ENCODING_PCM_FLOAT || encoding == PCM_ENCODING_PCM_32BIT {
        4
    } else {
        0
    }
}

/// Passes samples on where the buffer that they come from ended with one of them.
fn pipe_if_remainder(samples: Vec<u32>, is_aligned: bool, encoding: i32) -> (r: Result<
    Vec<u32>,
    DecodeError,
>)
    ensures
        r == if is_aligned {
            Ok(samples)
        } else {
            Err(DecodeError::PartialSample(wide(encoding)))
        },
{
    if is_aligned {
        Ok(samples)
    } else {
        let encoding = if encoding == PCM_ENCODING_PCM_16BIT {
            WideEncoding::Pcm16
        } else if encoding == PCM_ENCODING_PCM_FLOAT {
            WideEncoding::Float
        } else if encoding == PCM_ENCODING_PCM_24BIT_PACKED {
            WideEncoding::Pcm24
        } else {
            WideEncoding::Pcm32
        };
        Err(DecodeError::PartialSample(encoding))
    }
}

/// Turns decoded audio, whose words have the given byte order, into samples.
pub fn normalize_pcm_buffer(order: ByteOrder, bytes: &[u8], pcm_encoding: i32) -> (r: Result<
    Vec<u32>,
    DecodeError,
>)
    ensures
        normalized(order, bytes@, pcm_encoding, r),
{
    let size: usize = sample_size(pcm_encoding);
    if size == 0 {
        return Err(DecodeError::UnsupportedEncoding(pcm_encoding));
    }
    let total: usize = bytes.len();
    let count: usize = total / size;
    let mut samples: Vec<u32> = Vec::new();
    let mut i: usize = 0;
    let mut at: usize = 0;
    proof {
        vstd::arithmetic::div_mod::lemma_fundamental_div_mod(bytes@.len() as int, size as int);
        vstd::arithmetic::mul::lemma_mul_is_commutative(size as int, count as int);
    }
    while i < count
        invariant
            size == encoded_size(pcm_encoding),
            size > 0,
            i <= count,
            count * size <= bytes@.len() == total,
            at == i * size,
            samples@.len() == i,
            forall|k: int|
                0 <= k < i ==> is_decoded(
                    order,
                    pcm_encoding,
                    bytes@.subrange(k * size, k * size + size),
                    #[trigger] samples@[k],
                ),
            forall|k: int|
                0 <= k < i ==> is_finite(#[trigger] samples@[k]) && magnitude(samples@[k]) <= one(),
        decreases count - i,
    {
        proof {
            assert((i + 1) * size == i * size + size) by (nonlinear_arith);
            assert((i + 1) * size <= count * size) by (nonlinear_arith)
                requires
                    i + 1 <= count,
            ;
        }
        let sample: u32 = decode_sample(order, pcm_encoding, bytes, at);
        samples.push(sample);
        i = i + 1;
        at = at + size;
    }
    pipe_if_remainder(samples, total % size == 0, pcm_encoding)
}

/// Turns decoded audio, whose words have the machine's byte order, into samples.
pub fn normalize_pcm_buffer_to_f32(bytes: &[u8], pcm_encoding: i32) -> (r: Result<
    Vec<u32>,
    DecodeError,
>)
    ensures
        normalized(ByteOrder::Little, bytes@, pcm_encoding, r) || normalized(
            ByteOrder::Big,
            bytes@,
            pcm_encoding,
            r,
        ),
{
    normalize_pcm_buffer(ByteOrder::native(), bytes, pcm_encoding)
}

/// Bytes are decoded just where they consist of whole samples of an encoding that is known. An
/// encoding that is not known is named, and so is the kind of sample that the bytes end within.
pub proof fn lemma_what_is_decoded(
    order: ByteOrder,
    bytes: Seq<u8>,
    encoding: i32,
    r: Result<Vec<u32>, DecodeError>,
)
    requires
        normalized(order, bytes, encoding, r),
    ensures
        ({
            let known = encoding == 2 || encoding == 3 || encoding == 4 || encoding == 21 || encoding
                == 22;
            &&& r is Ok <==> encoding == 3 || (encoding == 2 && bytes.len() % 2 == 0) || (encoding
                == 21 && bytes.len() % 3 == 0) || ((encoding == 4 || encoding == 22) && bytes.len()
                % 4 == 0)
            &&& r matches Ok(samples) ==> match encoding {
                2 => bytes.len() == 2 * samples@.len(),
                3 => bytes.len() == samples@.len(),
                21 => bytes.len() == 3 * samples@.len(),
                _ => bytes.len() == 4 * samples@.len(),
            }
            &&& !known <==> r == Err::<Vec<u32>, _>(DecodeError::UnsupportedEncoding(encoding))
            &&& r matches Err(e) ==> known ==> e == DecodeError::PartialSample(
                match encoding {
                    2 => WideEncoding::Pcm16,
                    4 => WideEncoding::Float,
                    21 => WideEncoding::Pcm24,
                    _ => WideEncoding::Pcm32,
                },
            )
        }),
{
}

/// A sample of 8 or 24 bits stands for its integer divided by the largest power of two of that
/// width, exactly. A byte counts from 128; three bytes count from the low one on, whatever the
/// byte order is.
pub proof fn lemma_bytes_and_packed_samples(
    order: ByteOrder,
    encoding: i32,
    bytes: Seq<u8>,
    samples: Seq<u32>,
    i: int,
)
    requires
        is_normalized(order, encoding, bytes, samples),
        encoding == 3 || encoding == 21,
        0 <= i < samples.len(),
    ensures
        encoding == 3 ==> value(samples[i]) * 0x80 == (bytes[i] - 128) * pow2(149),
        encoding == 21 ==> ({
            let w = bytes[3 * i] + 0x100 * bytes[3 * i + 1] + 0x1_0000 * bytes[3 * i + 2];
            let n = if w < 0x80_0000 {
                w
            } else {
                w - 0x100_0000
            };
            value(samples[i]) * 0x80_0000 == n * pow2(149)
        }),
{
    lemma2_to64();
    let size = encoded_size(encoding) as int;
    let chunk = bytes.subrange(i * size, i * size + size);
    assert(is_decoded(order, encoding, chunk, samples[i]));
    if encoding == 3 {
        assert(chunk[0] == bytes[i]);
        lemma_fraction_exact(samples[i], bytes[i] - 128, 7);
    } else {
        assert(size == 3);
        assert(chunk[0] == bytes[3 * i]);
        assert(chunk[1] == bytes[3 * i + 1]);
        assert(chunk[2] == bytes[3 * i + 2]);
        lemma_fraction_exact(
            samples[i],
            as_signed(chunk[0] + 0x100 * chunk[1] + 0x1_0000 * chunk[2], 0x100_0000),
            23,
        );
    }
}

/// A sample of 16 bits stands for its integer divided by two to the power of 15, exactly; one of
/// 32 bits for its integer divided by two to the power of 31, as near as 24 digits can be. The
/// bytes lie in the given order.
pub proof fn lemma_word_samples(
    order: ByteOrder,
    encoding: i32,
    bytes: Seq<u8>,
    samples: Seq<u32>,
    i: int,
)
    requires
        is_normalized(order, encoding, bytes, samples),
        encoding == 2 || encoding == 22,
        0 <= i < samples.len(),
    ensures
        encoding == 2 ==> ({
            let w = if order == ByteOrder::Little {
                bytes[2 * i] + 0x100 * bytes[2 * i + 1]
            } else {
                0x100 * bytes[2 * i] + bytes[2 * i + 1]
            };
            let n = if w < 0x8000 {
                w
            } else {
                w - 0x1_0000
            };
            value(samples[i]) * 0x8000 == n * pow2(149)
        }),
        encoding == 22 ==> ({
            let w = if order == ByteOrder::Little {
                bytes[4 * i] + 0x100 * bytes[4 * i + 1] + 0x1_0000 * bytes[4 * i + 2] + 0x100_0000
                    * bytes[4 * i + 3]
            } else {
                0x100_0000 * bytes[4 * i] + 0x1_0000 * bytes[4 * i + 1] + 0x100 * bytes[4 * i + 2]
                    + bytes[4 * i + 3]
            };
            let n = if w < 0x8000_0000 {
                w
            } else {
                w - 0x1_0000_0000
            };
            let size = if n < 0 {
                -n
            } else {
                n
            };
            &&& -(size * pow2(149)) <= (value(samples[i]) * 0x8000_0000 - n * pow2(149)) * 0x100_0000
                <= size * pow2(149)
            &&& size < 0x100_0000 ==> value(samples[i]) * 0x8000_0000 == n * pow2(149)
        }),
{
    lemma2_to64();
    let size = encoded_size(encoding) as int;
    let chunk = bytes.subrange(i * size, i * size + size);
    assert(is_decoded(order, encoding, chunk, samples[i]));
    if encoding == 2 {
        assert(size == 2);
        assert(chunk[0] == bytes[2 * i]);
        assert(chunk[1] == bytes[2 * i + 1]);
        lemma_fraction_exact(samples[i], as_signed(half_word(order, chunk), 0x1_0000), 15);
    } else {
        assert(size == 4);
        assert(chunk[0] == bytes[4 * i]);
        assert(chunk[1] == bytes[4 * i + 1]);
        assert(chunk[2] == bytes[4 * i + 2]);
        assert(chunk[3] == bytes[4 * i + 3]);
        let n = as_signed(word(order, chunk), 0x1_0000_0000);
        lemma_fraction_near(samples[i], n, 31);
        if -0x100_0000 < n < 0x100_0000 {
            lemma_fraction_exact(samples[i], n, 31);
        }
    }
}

/// A float sample is taken as it is if it lies between minus one and one, as the nearer of the two
/// if it is any other finite number, and as silence otherwise.
pub proof fn lemma_float_samples(
    order: ByteOrder,
    bytes: Seq<u8>,
    samples: Seq<u32>,
    i: int,
    w: u32,
)
    requires
        is_normalized(order, 4, bytes, samples),
        0 <= i < samples.len(),
        w == if order == ByteOrder::Little {
            bytes[4 * i] + 0x100 * bytes[4 * i + 1] + 0x1_0000 * bytes[4 * i + 2] + 0x100_0000
                * bytes[4 * i + 3]
        } else {
            0x100_0000 * bytes[4 * i] + 0x1_0000 * bytes[4 * i + 1] + 0x100 * bytes[4 * i + 2]
                + bytes[4 * i + 3]
        },
    ensures
        is_finite(w) && -(pow2(149) as int) <= value(w) <= pow2(149) ==> samples[i] == w,
        is_finite(w) && value(w) > pow2(149) ==> value(samples[i]) == pow2(149),
        is_finite(w) && value(w) < -(pow2(149) as int) ==> value(samples[i]) == -(pow2(149) as int),
        !is_finite(w) ==> value(samples[i]) == 0,
{
    assert(encoded_size(4) == 4);
    let chunk = bytes.subrange(i * 4, i * 4 + 4);
    assert(is_decoded(order, 4, chunk, samples[i]));
    assert(chunk[0] == bytes[4 * i]);
    assert(chunk[1] == bytes[4 * i + 1]);
    assert(chunk[2] == bytes[4 * i + 2]);
    assert(chunk[3] == bytes[4 * i + 3]);
    assert(word(order, chunk) == w);
    lemma_clamped_sample(w);
}

} // verus!
