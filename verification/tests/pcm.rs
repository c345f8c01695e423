use micspoofing::bytes::ByteOrder;
use micspoofing::error::{DecodeError, WideEncoding};
use micspoofing::pcm::{
    normalize_pcm_buffer, normalize_pcm_buffer_to_f32, PCM_ENCODING_PCM_16BIT,
    PCM_ENCODING_PCM_24BIT_PACKED, PCM_ENCODING_PCM_32BIT, PCM_ENCODING_PCM_8BIT,
    PCM_ENCODING_PCM_FLOAT,
};
use micspoofing::sample::clamp_float_sample;

fn floats(bits: Vec<u32>) -> Vec<f32> {
    bits.into_iter().map(f32::from_bits).collect()
}

fn normalize(bytes: &[u8], encoding: i32) -> Vec<f32> {
    floats(normalize_pcm_buffer_to_f32(bytes, encoding).unwrap())
}

#[test]
fn test_normalize_pcm_8bit() {
    let samples = normalize(&[0, 128, 255], PCM_ENCODING_PCM_8BIT);
    assert_eq!(samples.len(), 3);
    assert_eq!(samples[0], -1.0);
    assert_eq!(samples[1], 0.0);
    assert!(samples[2] > 0.99);
}

#[test]
fn test_normalize_pcm_16bit() {
    let bytes = [0x00, 0x80, 0x00, 0x00, 0xff, 0x7f];
    let samples = normalize(&bytes, PCM_ENCODING_PCM_16BIT);
    assert_eq!(samples, vec![-1.0, 0.0, 32767.0 / 32768.0]);
}

#[test]
fn test_normalize_pcm_24bit() {
    let bytes = [0x00, 0x00, 0x80, 0x00, 0x00, 0x00, 0xff, 0xff, 0x7f];
    let samples = normalize(&bytes, PCM_ENCODING_PCM_24BIT_PACKED);
    assert_eq!(samples.len(), 3);
    assert_eq!(samples[0], -1.0);
    assert_eq!(samples[1], 0.0);
    assert!(samples[2] > 0.99);
}

#[test]
fn test_normalize_pcm_32bit() {
    let bytes = [0x00, 0x00, 0x00, 0x80, 0x00, 0x00, 0x00, 0x00, 0xff, 0xff, 0xff, 0x7f];
    let samples = normalize(&bytes, PCM_ENCODING_PCM_32BIT);
    assert_eq!(samples.len(), 3);
    assert_eq!(samples[0], -1.0);
    assert_eq!(samples[1], 0.0);
    assert!(samples[2] > 0.99);
}

#[test]
fn test_normalize_pcm_float_clamps_non_finite() {
    let bytes = [
        0x00, 0x00, 0x80, 0x3f, // 1.0
        0x00, 0x00, 0x80, 0x7f, // inf
    ];
    let samples = normalize(&bytes, PCM_ENCODING_PCM_FLOAT);
    assert_eq!(samples, vec![1.0, 0.0]);
}

#[test]
fn test_normalize_rejects_partial_samples() {
    let err = normalize_pcm_buffer_to_f32(&[0x00], PCM_ENCODING_PCM_16BIT).unwrap_err();
    assert!(err.message().contains("divisible by 2"));
}

#[test]
fn each_encoding_names_its_own_remainder() {
    let cases = [
        (PCM_ENCODING_PCM_16BIT, "PCM 16-bit buffer length is not divisible by 2"),
        (PCM_ENCODING_PCM_FLOAT, "PCM float buffer length is not divisible by 4"),
        (PCM_ENCODING_PCM_24BIT_PACKED, "PCM 24-bit buffer length is not divisible by 3"),
        (PCM_ENCODING_PCM_32BIT, "PCM 32-bit buffer length is not divisible by 4"),
    ];
    for (encoding, message) in cases {
        let err = normalize_pcm_buffer_to_f32(&[0; 13], encoding).unwrap_err();
        assert_eq!(err.message(), message);
    }
    assert!(matches!(
        normalize_pcm_buffer_to_f32(&[1, 2, 3], PCM_ENCODING_PCM_16BIT),
        Err(DecodeError::PartialSample(WideEncoding::Pcm16))
    ));
}

#[test]
fn unknown_encodings_are_refused() {
    for encoding in [0, 1, 5, 20, 23, -7] {
        let err = normalize_pcm_buffer_to_f32(&[], encoding).unwrap_err();
        assert_eq!(err.message(), format!("unsupported decoder PCM encoding {encoding}"));
    }
}

#[test]
fn empty_buffers_hold_no_samples() {
    for encoding in [
        PCM_ENCODING_PCM_8BIT,
        PCM_ENCODING_PCM_16BIT,
        PCM_ENCODING_PCM_FLOAT,
        PCM_ENCODING_PCM_24BIT_PACKED,
        PCM_ENCODING_PCM_32BIT,
    ] {
        assert_eq!(normalize(&[], encoding), Vec::<f32>::new());
    }
}

#[test]
fn integer_samples_equal_the_float_quotient() {
    for n in 0..=255u8 {
        let got = normalize(&[n], PCM_ENCODING_PCM_8BIT);
        assert_eq!(got[0].to_bits(), ((n as f32 - 128.0) / 128.0).to_bits());
    }
    for n in i16::MIN..=i16::MAX {
        let got = normalize(&n.to_ne_bytes(), PCM_ENCODING_PCM_16BIT);
        assert_eq!(got[0].to_bits(), (n as f32 / 32768.0).to_bits());
    }
    let mut n: i64 = i32::MIN as i64;
    while n <= i32::MAX as i64 {
        let v = n as i32;
        let got = normalize(&v.to_ne_bytes(), PCM_ENCODING_PCM_32BIT);
        assert_eq!(got[0].to_bits(), (v as f32 / 2_147_483_648.0).to_bits());
        let w = v >> 8;
        let b = w.to_le_bytes();
        let got = normalize(&[b[0], b[1], b[2]], PCM_ENCODING_PCM_24BIT_PACKED);
        assert_eq!(got[0].to_bits(), (w as f32 / 8_388_608.0).to_bits());
        n += 104_729;
    }
    for v in [i32::MAX, i32::MAX - 63, i32::MAX - 64, 0x0100_0001, 0x0100_0003, -0x0100_0001] {
        let got = normalize(&v.to_ne_bytes(), PCM_ENCODING_PCM_32BIT);
        assert_eq!(got[0].to_bits(), (v as f32 / 2_147_483_648.0).to_bits());
    }
}

#[test]
fn float_samples_are_clamped_as_floats_are() {
    let mut bits: u64 = 0;
    while bits <= u32::MAX as u64 {
        let sample = f32::from_bits(bits as u32);
        let expected = if sample.is_finite() { sample.clamp(-1.0, 1.0) } else { 0.0 };
        assert_eq!(clamp_float_sample(bits as u32), expected.to_bits());
        bits += 65_521;
    }
    for sample in [f32::NAN, f32::INFINITY, f32::NEG_INFINITY, -0.0, 1.0, -1.0, 1.0000001, f32::MAX] {
        let expected = if sample.is_finite() { sample.clamp(-1.0, 1.0) } else { 0.0 };
        assert_eq!(clamp_float_sample(sample.to_bits()), expected.to_bits());
    }
}

#[test]
fn the_byte_order_matters_for_words_only() {
    let big = floats(normalize_pcm_buffer(ByteOrder::Big, &[0x80, 0x00], PCM_ENCODING_PCM_16BIT).unwrap());
    assert_eq!(big, vec![-1.0]);
    let little =
        floats(normalize_pcm_buffer(ByteOrder::Little, &[0x80, 0x00], PCM_ENCODING_PCM_16BIT).unwrap());
    assert_eq!(little, vec![128.0 / 32768.0]);
    for order in [ByteOrder::Big, ByteOrder::Little] {
        let packed =
            floats(normalize_pcm_buffer(order, &[0, 0, 0x40], PCM_ENCODING_PCM_24BIT_PACKED).unwrap());
        assert_eq!(packed, vec![0.5]);
    }
}

#[test]
fn the_native_byte_order_is_the_machines() {
    let native = if 1u32.to_ne_bytes()[0] == 1 { ByteOrder::Little } else { ByteOrder::Big };
    assert_eq!(ByteOrder::native(), native);
    assert_eq!(ByteOrder::of_probe(u32::from_le_bytes([1, 0, 0, 0])), ByteOrder::Little);
    assert_eq!(ByteOrder::of_probe(u32::from_be_bytes([1, 0, 0, 0])), ByteOrder::Big);
}
