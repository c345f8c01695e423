//! Unencoded audio as the bytes of a WAV file.
use vstd::prelude::*;
use crate::bytes::{
    as_signed, bytes_of, half_word, lemma_bytes_in_order, push_word, word, ByteOrder,
};

verus! {

/// The number of bytes before the samples.
pub const WAV_HEADER_SIZE: usize = 44;

/// The bytes of a 16-bit word, the low one first.
pub open spec fn half_word_bytes(x: int) -> Seq<u8> {
    seq![(x % 0x100) as u8, ((x / 0x100) % 0x100) as u8]
}

/// The bytes of a 32-bit word, the low one first.
pub open spec fn word_bytes(x: int) -> Seq<u8> {
    bytes_of(ByteOrder::Little, seq![x as u32])
}

/// The bytes of samples, one after the other.
pub open spec fn sample_bytes(samples: Seq<i16>) -> Seq<u8>
    decreases samples.len(),
{
    if samples.len() == 0 {
        Seq::empty()
    } else {
        sample_bytes(samples.drop_last()) + half_word_bytes(samples.last() as int)
    }
}

/// The size of samples in bytes, as the 32 bits of the size field hold it.
pub open spec fn data_size(count: nat) -> int {
    ((2 * count) % 0x1_0000_0000) as int
}

/// The header of a file with one channel of 16-bit samples.
pub open spec fn wav_header(sample_rate: u32, count: nat) -> Seq<u8> {
    // "RIFF", the size of what follows, "WAVE"
    let riff = seq![0x52u8, 0x49, 0x46, 0x46] + word_bytes(36 + data_size(count)) + seq![
        0x57u8,
        0x41,
        0x56,
        0x45,
    ];
    // "fmt ", its size, unencoded, one channel
    let kind = seq![0x66u8, 0x6d, 0x74, 0x20] + word_bytes(16) + half_word_bytes(1)
        + half_word_bytes(1);
    // the frames and bytes per second, the bytes and bits per sample
    let rate = word_bytes(sample_rate as int) + word_bytes(2 * sample_rate) + half_word_bytes(2)
        + half_word_bytes(16);
    // "data", its size
    let data = seq![0x64u8, 0x61, 0x74, 0x61] + word_bytes(data_size(count));
    riff + kind + rate + data
}

/// Whether the fields of the header can hold what they have to.
pub open spec fn fits_header(sample_rate: u32, count: nat) -> bool {
    2 * sample_rate <= u32::MAX && 36 + data_size(count) <= u32::MAX
}

fn push_half_word(out: &mut Vec<u8>, x: u16)
    ensures
        final(out)@ == old(out)@ + half_word_bytes(x as int),
{
    out.push((x % 0x100) as u8);
    out.push((x / 0x100) as u8);
    assert(out@ =~= old(out)@ + half_word_bytes(x as int));
}

fn push_name(out: &mut Vec<u8>, name: [u8; 4])
    ensures
        final(out)@ == old(out)@ + seq![name@[0], name@[1], name@[2], name@[3]],
{
    out.push(name[0]);
    out.push(name[1]);
    out.push(name[2]);
    out.push(name[3]);
    assert(out@ =~= old(out)@ + seq![name@[0], name@[1], name@[2], name@[3]]);
}

fn push_sample(out: &mut Vec<u8>, sample: i16)
    ensures
        final(out)@ == old(out)@ + half_word_bytes(sample as int),
{
    let x: u16 = if sample < 0 {
        (sample as i32 + 0x1_0000) as u16
    } else {
        sample as u16
    };
    proof {
        let s = sample as int;
        if s < 0 {
            assert((s + 0x1_0000) % 0x100 == s % 0x100);
            assert(((s + 0x1_0000) / 0x100) % 0x100 == (s / 0x100) % 0x100);
        }
        assert(half_word_bytes(x as int) =~= half_word_bytes(s));
    }
    push_half_word(out, x);
}

/// The bytes of a file with one channel of 16-bit samples.
pub fn pcm16_mono_wav(sample_rate: u32, samples: &[i16]) -> (r: Vec<u8>)
    requires
        fits_header(sample_rate, samples@.len()),
    ensures
        r@ == wav_header(sample_rate, samples@.len()) + sample_bytes(samples@),
{
    let count: usize = samples.len();
    let size: u32 = (count % 0x8000_0000) as u32 * 2;
    assert(size == data_size(count as nat));
    let mut out: Vec<u8> = Vec::new();
    push_name(&mut out, [0x52, 0x49, 0x46, 0x46]);
    push_word(&mut out, ByteOrder::Little, 36 + size);
    push_name(&mut out, [0x57, 0x41, 0x56, 0x45]);
    push_name(&mut out, [0x66, 0x6d, 0x74, 0x20]);
    push_word(&mut out, ByteOrder::Little, 16);
    push_half_word(&mut out, 1);
    push_half_word(&mut out, 1);
    push_word(&mut out, ByteOrder::Little, sample_rate);
    push_word(&mut out, ByteOrder::Little, 2 * sample_rate);
    push_half_word(&mut out, 2);
    push_half_word(&mut out, 16);
    push_name(&mut out, [0x64, 0x61, 0x74, 0x61]);
    push_word(&mut out, ByteOrder::Little, size);
    let ghost header = wav_header(sample_rate, count as nat);
    assert(out@ =~= header);
    let mut i: usize = 0;
    assert(header + sample_bytes(samples@.take(0)) =~= header);
    while i < count
        invariant
            i <= count == samples@.len(),
            out@ == header + sample_bytes(samples@.take(i as int)),
        decreases count - i,
    {
        push_sample(&mut out, samples[i]);
        proof {
            let head = samples@.take(i + 1);
            assert(head.drop_last() =~= samples@.take(i as int));
            assert(out@ =~= header + sample_bytes(head));
        }
        i = i + 1;
    }
    assert(samples@.take(i as int) =~= samples@);
    out
}

/// The samples follow the header and can be read back from there, each as a signed word with
/// its low byte first.
pub proof fn lemma_wav_holds_the_samples(sample_rate: u32, samples: Seq<i16>, i: int)
    requires
        0 <= i < samples.len(),
    ensures
        ({
            let bytes = wav_header(sample_rate, samples.len()) + sample_bytes(samples);
            let at = WAV_HEADER_SIZE + 2 * i;
            &&& bytes.len() == WAV_HEADER_SIZE + 2 * samples.len()
            &&& as_signed(half_word(ByteOrder::Little, bytes.subrange(at, at + 2)), 0x1_0000)
                == samples[i]
        }),
{
    let header = wav_header(sample_rate, samples.len());
    assert(header.len() == 44);
    lemma_sample_bytes(samples, i);
    let bytes = header + sample_bytes(samples);
    let at = WAV_HEADER_SIZE + 2 * i;
    assert(bytes.subrange(at, at + 2) =~= sample_bytes(samples).subrange(2 * i, 2 * i + 2));
}

/// Where the bytes of a sample lie, and what they say.
proof fn lemma_sample_bytes(samples: Seq<i16>, i: int)
    requires
        0 <= i < samples.len(),
    ensures
        sample_bytes(samples).len() == 2 * samples.len(),
        as_signed(
            half_word(ByteOrder::Little, sample_bytes(samples).subrange(2 * i, 2 * i + 2)),
            0x1_0000,
        ) == samples[i],
    decreases samples.len(),
{
    let head = samples.drop_last();
    let last = half_word_bytes(samples.last() as int);
    let all = sample_bytes(samples);
    lemma_sample_bytes_len(head);
    if i < head.len() {
        lemma_sample_bytes(head, i);
        assert(all.subrange(2 * i, 2 * i + 2) =~= sample_bytes(head).subrange(2 * i, 2 * i + 2));
    } else {
        assert(all.subrange(2 * i, 2 * i + 2) =~= last);
        let s = samples.last() as int;
        let x = if s < 0 { s + 0x1_0000 } else { s };
        assert(s % 0x100 == x % 0x100);
        assert((s / 0x100) % 0x100 == x / 0x100);
    }
}

proof fn lemma_sample_bytes_len(samples: Seq<i16>)
    ensures
        sample_bytes(samples).len() == 2 * samples.len(),
    decreases samples.len(),
{
    if samples.len() > 0 {
        lemma_sample_bytes_len(samples.drop_last());
    }
}

/// Every field of the header lies where a reader of such files looks for it: the names, the sizes
/// of what follows and of the samples, as far as 32 bits hold them, one channel of unencoded
/// 16-bit samples, and the sample rate.
pub proof fn lemma_wav_header_fields(sample_rate: u32, count: nat)
    requires
        2 * sample_rate <= u32::MAX,
        36 + (2 * count) % 0x1_0000_0000 <= u32::MAX,
    ensures
        ({
            let h = wav_header(sample_rate, count);
            let size = (2 * count) % 0x1_0000_0000;
            &&& h.len() == 44
            &&& h.subrange(0, 4) == seq!['R' as u8, 'I' as u8, 'F' as u8, 'F' as u8]
            &&& word(ByteOrder::Little, h.subrange(4, 8)) == 44 + size - 8
            &&& h.subrange(8, 12) == seq!['W' as u8, 'A' as u8, 'V' as u8, 'E' as u8]
            &&& h.subrange(12, 16) == seq!['f' as u8, 'm' as u8, 't' as u8, ' ' as u8]
            &&& word(ByteOrder::Little, h.subrange(16, 20)) == 16
            &&& half_word(ByteOrder::Little, h.subrange(20, 22)) == 1
            &&& half_word(ByteOrder::Little, h.subrange(22, 24)) == 1
            &&& word(ByteOrder::Little, h.subrange(24, 28)) == sample_rate
            &&& word(ByteOrder::Little, h.subrange(28, 32)) == 2 * sample_rate
            &&& half_word(ByteOrder::Little, h.subrange(32, 34)) == 2
            &&& half_word(ByteOrder::Little, h.subrange(34, 36)) == 16
            &&& h.subrange(36, 40) == seq!['d' as u8, 'a' as u8, 't' as u8, 'a' as u8]
            &&& word(ByteOrder::Little, h.subrange(40, 44)) == size
        }),
{
    let h = wav_header(sample_rate, count);
    let size = data_size(count);
    lemma_word_bytes((36 + size) as u32);
    lemma_word_bytes(16);
    lemma_word_bytes(sample_rate);
    lemma_word_bytes((2 * sample_rate) as u32);
    lemma_word_bytes(size as u32);
    assert(h.subrange(0, 4) =~= seq!['R' as u8, 'I' as u8, 'F' as u8, 'F' as u8]);
    assert(h.subrange(4, 8) =~= word_bytes(36 + size));
    assert(h.subrange(8, 12) =~= seq!['W' as u8, 'A' as u8, 'V' as u8, 'E' as u8]);
    assert(h.subrange(12, 16) =~= seq!['f' as u8, 'm' as u8, 't' as u8, ' ' as u8]);
    assert(h.subrange(16, 20) =~= word_bytes(16));
    assert(h.subrange(20, 22) =~= half_word_bytes(1));
    assert(h.subrange(22, 24) =~= half_word_bytes(1));
    assert(h.subrange(24, 28) =~= word_bytes(sample_rate as int));
    assert(h.subrange(28, 32) =~= word_bytes(2 * sample_rate));
    assert(h.subrange(32, 34) =~= half_word_bytes(2));
    assert(h.subrange(34, 36) =~= half_word_bytes(16));
    assert(h.subrange(36, 40) =~= seq!['d' as u8, 'a' as u8, 't' as u8, 'a' as u8]);
    assert(h.subrange(40, 44) =~= word_bytes(size));
}

/// The bytes of a word read back as the word.
proof fn lemma_word_bytes(w: u32)
    ensures
        word_bytes(w as int).len() == 4,
        word(ByteOrder::Little, word_bytes(w as int)) == w,
{
    lemma_bytes_in_order(seq![w], 0);
}

} // verus!
