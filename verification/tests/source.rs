use micspoofing::adapter::{PipeProgress, PipeRead, ReadStep, SpoofedAudioSource};
use micspoofing::bytes::{words_to_bytes, ByteOrder};
use micspoofing::create::{
    create_silence_source, create_source_from_fd, create_source_from_start,
    mic_spoofing_create_source, mic_spoofing_is_enabled_for_uid, CreateStep, CreatedSource,
};
use micspoofing::pending::{mic_spoofing_set_pending_source_fd, PendingSourceFd};
use micspoofing::read_samples::{
    byte_count, bytes_per_sample, convert_samples, fill_silence, frames_read,
    mic_spoofing_read_samples, FrameData, ReadRequest, ReadStart, AUDIO_FORMAT_PCM_16_BIT,
    AUDIO_FORMAT_PCM_24_BIT_PACKED, AUDIO_FORMAT_PCM_32_BIT, AUDIO_FORMAT_PCM_8_BIT,
    AUDIO_FORMAT_PCM_FLOAT, MAX_READ_SAMPLES,
};
use micspoofing::stream::DecodedStream;
use micspoofing::streaming::{StreamCall, StreamError, StreamNext};

/// A pipe whose writer has written some bytes and gone. A read gives so many bytes at most.
struct TestPipe {
    bytes: Vec<u8>,
    at: usize,
    most: usize,
    interruptions: usize,
}

impl TestPipe {
    fn new(samples: &[f32]) -> TestPipe {
        let bits: Vec<u32> = samples.iter().map(|s| s.to_bits()).collect();
        let bytes = words_to_bytes(ByteOrder::native(), &bits);
        TestPipe { bytes, at: 0, most: 16384, interruptions: 0 }
    }

    fn read(&mut self) -> PipeRead {
        if self.interruptions > 0 {
            self.interruptions -= 1;
            return PipeRead::Failed { interrupted: true };
        }
        let end = self.bytes.len().min(self.at + self.most);
        let chunk = self.bytes[self.at..end].to_vec();
        self.at = end;
        PipeRead::Bytes(chunk)
    }
}

/// Reads as a client does, into a buffer at an address.
fn read_at(
    created: Option<&mut CreatedSource>,
    pipe: &mut TestPipe,
    address: usize,
    buffer: &mut [u8],
    frame_count: usize,
    sample_rate: u32,
    channel_count: u32,
    audio_format: u32,
) -> usize {
    let request =
        ReadRequest { buffer_address: address, frame_count, sample_rate, channel_count, audio_format };
    let start = mic_spoofing_read_samples(created.as_ref().map(|c| &c.source), request);
    let frames = frames_read(&start, request);
    match start {
        ReadStart::Nothing => {}
        ReadStart::Silence => fill_silence(buffer, frame_count, channel_count, audio_format),
        ReadStart::Frames { mut job, format } => {
            let source = &mut created.unwrap().source;
            while source.read_f32(&mut job) == ReadStep::NeedPipe {
                while source.read_more_from_pipe(pipe.read()) == PipeProgress::Retry {}
            }
            let bytes: Vec<u8> = match convert_samples(job.into_output(), format) {
                FrameData::I16(v) => v.iter().flat_map(|s| s.to_ne_bytes()).collect(),
                FrameData::F32(v) => v.iter().flat_map(|s| s.to_ne_bytes()).collect(),
                FrameData::I32(v) => v.iter().flat_map(|s| s.to_ne_bytes()).collect(),
                FrameData::U8(v) => v,
                FrameData::I24(v) => v,
            };
            buffer[..bytes.len()].copy_from_slice(&bytes);
        }
    }
    frames
}

fn read_f32_from_source(
    created: &mut CreatedSource,
    pipe: &mut TestPipe,
    frame_count: usize,
    sample_rate: u32,
    channel_count: u32,
) -> Vec<f32> {
    let mut buffer = vec![0xffu8; frame_count * channel_count as usize * 4];
    let frames = read_at(
        Some(created),
        pipe,
        4096,
        &mut buffer,
        frame_count,
        sample_rate,
        channel_count,
        AUDIO_FORMAT_PCM_FLOAT,
    );
    assert_eq!(frames, frame_count);
    buffer.chunks_exact(4).map(|c| f32::from_ne_bytes([c[0], c[1], c[2], c[3]])).collect()
}

fn approx_eq(left: f32, right: f32) -> bool {
    (left - right).abs() < 0.0001
}

fn assert_approx_slice(left: &[f32], right: &[f32]) {
    assert_eq!(left.len(), right.len(), "slice lengths differ");
    for (index, (lhs, rhs)) in left.iter().zip(right.iter()).enumerate() {
        assert!(approx_eq(*lhs, *rhs), "mismatch at index {}: {} vs {}", index, lhs, rhs);
    }
}

fn from_pipe(sample_rate: u32, channel_count: u32) -> CreatedSource {
    create_source_from_fd(ByteOrder::native(), 7, sample_rate, channel_count)
}

#[test]
fn test_create_silence_source_fills_zeroes() {
    let mut source = create_silence_source();
    let output = read_f32_from_source(&mut source, &mut TestPipe::new(&[]), 8, 48_000, 1);
    assert!(output.iter().all(|sample| *sample == 0.0));
}

#[test]
fn test_create_source_from_fd_reads_pipe_samples_then_silence() {
    let mut pipe = TestPipe::new(&[0.25, -0.5, 0.75]);
    let mut source = from_pipe(48_000, 1);
    let output = read_f32_from_source(&mut source, &mut pipe, 6, 48_000, 1);
    assert_approx_slice(&output[..3], &[0.25, -0.5, 0.75]);
    assert!(output[3..].iter().all(|sample| *sample == 0.0));
}

#[test]
fn test_adapter_resamples_and_upmixes_from_pipe() {
    let mut pipe = TestPipe::new(&[0.1, 0.2]);
    let mut source = from_pipe(24_000, 1);
    let output = read_f32_from_source(&mut source, &mut pipe, 4, 48_000, 2);
    assert_approx_slice(&output, &[0.1, 0.1, 0.1, 0.1, 0.2, 0.2, 0.2, 0.2]);
}

#[test]
fn test_adapter_downsamples_and_uses_silence_after_eof() {
    let mut pipe = TestPipe::new(&[0.1, 0.2, 0.3, 0.4]);
    let mut source = from_pipe(48_000, 1);
    let output = read_f32_from_source(&mut source, &mut pipe, 3, 16_000, 1);
    assert_approx_slice(&output, &[0.1, 0.4, 0.0]);
}

#[test]
fn test_read_samples_unknown_format_fills_silence() {
    let mut pipe = TestPipe::new(&[0.8]);
    let mut source = from_pipe(48_000, 1);
    let mut output = vec![0xFFu8; 16 * 2];
    let frames = read_at(Some(&mut source), &mut pipe, 4096, &mut output, 16, 48_000, 1, 0xFF);
    assert_eq!(frames, 16);
    assert!(output.iter().all(|byte| *byte == 0));
}

#[test]
fn test_read_samples_alignment_guard_fills_silence() {
    let mut pipe = TestPipe::new(&[0.5, -0.5]);
    let mut source = from_pipe(48_000, 1);
    let mut storage = vec![0xABu8; 16 * 4 + 1];
    let requested_bytes = 4 * 4;
    let frames = read_at(
        Some(&mut source),
        &mut pipe,
        4097,
        &mut storage[1..],
        4,
        48_000,
        1,
        AUDIO_FORMAT_PCM_FLOAT,
    );
    assert_eq!(frames, 4);
    assert!(storage[1..1 + requested_bytes].iter().all(|byte| *byte == 0));
    assert!(storage[1 + requested_bytes..].iter().all(|byte| *byte == 0xAB));
}

#[test]
fn test_read_samples_excessive_frame_count_returns_zero() {
    let mut pipe = TestPipe::new(&[0.5]);
    let mut source = from_pipe(48_000, 1);
    let mut output = [0xCDu8; 16];
    let frames = read_at(
        Some(&mut source),
        &mut pipe,
        4096,
        &mut output,
        MAX_READ_SAMPLES as usize + 1,
        48_000,
        1,
        AUDIO_FORMAT_PCM_16_BIT,
    );
    assert_eq!(frames, 0);
    assert!(output.iter().all(|byte| *byte == 0xCD));
}

/// The user id of the process, in these tests.
const CURRENT_UID: i32 = 10_042;

fn make_foreign_uid() -> i32 {
    CURRENT_UID.saturating_add(1)
}

#[test]
fn test_create_source_foreign_uid_without_pending_is_silence() {
    let mut slot: Option<PendingSourceFd> = None;
    let step = mic_spoofing_create_source(
        &mut slot,
        ByteOrder::native(),
        make_foreign_uid(),
        CURRENT_UID,
        true,
    );
    let mut source = match step {
        CreateStep::Created(source) => source,
        CreateStep::Start(_) => panic!("foreign uid should fail closed to a silence source"),
    };
    assert!(source.pipe.is_none());

    let mut output = vec![1u8; 16];
    let frames = read_at(
        Some(&mut source),
        &mut TestPipe::new(&[]),
        4096,
        &mut output,
        8,
        48_000,
        1,
        AUDIO_FORMAT_PCM_16_BIT,
    );
    assert_eq!(frames, 8);
    assert!(output.iter().all(|byte| *byte == 0));
}

#[test]
fn test_create_source_current_uid_without_factory_is_silence() {
    let mut slot: Option<PendingSourceFd> = None;
    let step =
        mic_spoofing_create_source(&mut slot, ByteOrder::native(), CURRENT_UID, CURRENT_UID, false);
    let error = match step {
        CreateStep::Start(StreamNext::Failed(error)) => error,
        _ => panic!("missing factory should fail closed to a silence source"),
    };
    assert_eq!(error.message(), "no decoder factory registered");
    let mut source = create_source_from_start(ByteOrder::native(), Err(error));
    let output = read_f32_from_source(&mut source, &mut TestPipe::new(&[]), 4, 48_000, 1);
    assert!(output.iter().all(|sample| *sample == 0.0));
}

#[test]
fn test_create_source_consumes_pending_fd_before_uid_check() {
    let mut slot: Option<PendingSourceFd> = None;
    let mut pipe = TestPipe::new(&[0.5]);

    mic_spoofing_set_pending_source_fd(&mut slot, 9, 48_000, 1);
    let step = mic_spoofing_create_source(
        &mut slot,
        ByteOrder::native(),
        make_foreign_uid(),
        CURRENT_UID,
        true,
    );
    assert!(slot.is_none(), "create_source should consume the pending fd");
    let mut source = match step {
        CreateStep::Created(source) => source,
        CreateStep::Start(_) => panic!("a pending source should be read"),
    };
    assert_eq!(source.pipe, Some(9));
    assert_eq!(source.close, None);

    let output = read_f32_from_source(&mut source, &mut pipe, 2, 48_000, 1);
    assert!(approx_eq(output[0], 0.5));
    assert_eq!(output[1], 0.0);
}

#[test]
fn the_current_client_starts_a_stream() {
    let mut slot: Option<PendingSourceFd> = None;
    let step =
        mic_spoofing_create_source(&mut slot, ByteOrder::native(), CURRENT_UID, CURRENT_UID, true);
    assert!(matches!(
        step,
        CreateStep::Start(StreamNext::Call(StreamCall::LookUpCustom { uid: CURRENT_UID }))
    ));
    let stream = DecodedStream { fd: 5, sample_rate: 48_000, channel_count: 1 };
    let mut source = create_source_from_start(ByteOrder::native(), Ok(stream));
    assert_eq!(source.pipe, Some(5));
    let output = read_f32_from_source(&mut source, &mut TestPipe::new(&[0.5]), 1, 48_000, 1);
    assert_eq!(output, vec![0.5]);
    let failed = create_source_from_start(ByteOrder::native(), Err(StreamError::NoFactory));
    assert!(failed.pipe.is_none() && failed.close.is_none());
}

#[test]
fn a_pipe_without_a_format_is_closed_and_silent() {
    for (rate, channels) in [(0, 1), (48_000, 0), (0, 0)] {
        let mut source = from_pipe(rate, channels);
        assert_eq!(source.pipe, None);
        assert_eq!(source.close, Some(7));
        let output = read_f32_from_source(&mut source, &mut TestPipe::new(&[0.5]), 2, 48_000, 1);
        assert_eq!(output, vec![0.0, 0.0]);
    }
}

#[test]
fn an_unknown_setting_counts_as_off() {
    assert!(mic_spoofing_is_enabled_for_uid::<String>(&Ok(true)));
    assert!(!mic_spoofing_is_enabled_for_uid::<String>(&Ok(false)));
    assert!(!mic_spoofing_is_enabled_for_uid(&Err("binder call failed")));
}

#[test]
fn the_way_the_pipe_is_cut_makes_no_difference() {
    let samples: Vec<f32> = (0..200).map(|i| (i as f32 - 100.0) / 128.0).collect();
    let mut expected = None;
    for most in [1, 2, 3, 4, 5, 7, 16, 100, 16384] {
        let mut pipe = TestPipe::new(&samples);
        pipe.most = most;
        pipe.interruptions = 3;
        let mut source = from_pipe(44_100, 2);
        let mut output = Vec::new();
        for frames in [1, 5, 30, 80] {
            output.extend(read_f32_from_source(&mut source, &mut pipe, frames, 48_000, 3));
        }
        match &expected {
            None => expected = Some(output),
            Some(first) => assert_eq!(first, &output),
        }
    }
}

/// What a source gives at another rate, computed with floats.
fn resampled(samples: &[f32], channels: usize, source: u32, target: u32, to: usize, frames: usize) -> Vec<f32> {
    let ratio = source as f64 / target as f64;
    let mut position = 0.0f64;
    let mut index = 0usize;
    let mut output = Vec::new();
    for _ in 0..frames {
        for c in 0..to {
            let at = index * channels + c.min(channels - 1);
            output.push(if (index + 1) * channels <= samples.len() { samples[at] } else { 0.0 });
        }
        position += ratio;
        let passed = position.floor() as usize;
        position -= passed as f64;
        index += passed;
    }
    output
}

#[test]
fn resampling_goes_as_float_arithmetic_goes() {
    let samples: Vec<f32> = (0..6000).map(|i| i as f32 / 8192.0).collect();
    for (source, target) in [
        (44_100, 48_000),
        (48_000, 44_100),
        (8_000, 48_000),
        (48_000, 8_000),
        (22_050, 16_000),
        (11_025, 44_100),
        (1, 3),
        (7, 4_294_967_295),
        (96_001, 47_999),
    ] {
        let mut pipe = TestPipe::new(&samples);
        let mut created = from_pipe(source, 2);
        let mut output = Vec::new();
        for frames in [1, 2, 400, 700] {
            output.extend(read_f32_from_source(&mut created, &mut pipe, frames, target, 3));
        }
        assert_eq!(output, resampled(&samples, 2, source, target, 3, 1103), "{source} to {target}");
    }
}

#[test]
fn reading_in_parts_is_reading_at_once() {
    let samples: Vec<f32> = (0..120).map(|i| (i + 1) as f32 / 256.0).collect();
    for (source, target) in [(44_100, 48_000), (48_000, 44_100), (48_000, 16_000), (3, 7)] {
        let mut whole = from_pipe(source, 2);
        let at_once = read_f32_from_source(&mut whole, &mut TestPipe::new(&samples), 90, target, 2);
        for first in [1, 20, 59, 60, 61, 89] {
            let mut parted = from_pipe(source, 2);
            let mut pipe = TestPipe::new(&samples);
            let mut parts = read_f32_from_source(&mut parted, &mut pipe, first, target, 2);
            parts.extend(read_f32_from_source(&mut parted, &mut pipe, 90 - first, target, 2));
            assert_eq!(parts, at_once);
        }
    }
}

#[test]
fn exact_ratios_show_the_frame_below() {
    let samples: Vec<f32> = (0..400).map(|i| (i + 1) as f32 / 512.0).collect();
    for (source, target, m, a) in [
        (24_000, 48_000, 1usize, 1),
        (48_000, 32_000, 3, 1),
        (16_000, 64_000, 1, 2),
        (40_000, 32_000, 5, 2),
        (48_000, 16_000, 3, 0),
    ] {
        let mut created = from_pipe(source, 1);
        let output = read_f32_from_source(&mut created, &mut TestPipe::new(&samples), 100, target, 1);
        for (k, sample) in output.iter().enumerate() {
            assert_eq!(*sample, samples[(k * m) >> a], "{source} to {target} at {k}");
        }
    }
}

#[test]
fn samples_become_integers_as_floats_do() {
    let mut bits: u64 = 0;
    let mut samples: Vec<u32> = vec![0, 0x8000_0000, 0x3f80_0000, 0xbf80_0000, 0x7f80_0000, 0xff80_0000, 0x7fc0_0000];
    while bits <= u32::MAX as u64 {
        samples.push(bits as u32);
        bits += 1_000_003;
    }
    for i in 0..2000u32 {
        samples.push((i as f32 / 1000.0 - 1.0).to_bits());
    }
    let floats: Vec<f32> = samples.iter().map(|b| f32::from_bits(*b)).collect();
    let i16s = micspoofing::read_samples::read_i16(&samples);
    let u8s = micspoofing::read_samples::read_u8(&samples);
    let i32s = micspoofing::read_samples::read_i32(&samples);
    let i24s = micspoofing::read_samples::read_i24_packed(&samples);
    for (i, s) in floats.iter().enumerate() {
        assert_eq!(i16s[i], (s * 32_767.0).clamp(-32_768.0, 32_767.0) as i16, "{s}");
        assert_eq!(u8s[i], (s * 127.0 + 128.0).clamp(0.0, 255.0) as u8, "{s}");
        assert_eq!(
            i32s[i],
            (s * 2_147_483_647.0f32).clamp(-2_147_483_648.0, 2_147_483_647.0) as i32,
            "{s}"
        );
        let packed = ((s * 8_388_607.0).clamp(-8_388_608.0, 8_388_607.0) as i32).to_le_bytes();
        assert_eq!(&i24s[3 * i..3 * i + 3], &packed[..3], "{s}");
    }
}

#[test]
fn each_format_is_written_in_its_own_form() {
    let mut forms: Vec<Vec<u8>> = Vec::new();
    for format in [
        AUDIO_FORMAT_PCM_16_BIT,
        AUDIO_FORMAT_PCM_8_BIT,
        AUDIO_FORMAT_PCM_32_BIT,
        AUDIO_FORMAT_PCM_FLOAT,
        AUDIO_FORMAT_PCM_24_BIT_PACKED,
    ] {
        let mut source = from_pipe(48_000, 1);
        let mut buffer = vec![0xEE; bytes_per_sample(format)];
        let mut pipe = TestPipe::new(&[1.0]);
        assert_eq!(read_at(Some(&mut source), &mut pipe, 8, &mut buffer, 1, 48_000, 1, format), 1);
        forms.push(buffer);
    }
    assert_eq!(forms[0], 32_767i16.to_ne_bytes());
    assert_eq!(forms[1], [255]);
    assert_eq!(forms[2], i32::MAX.to_ne_bytes());
    assert_eq!(forms[3], 1.0f32.to_ne_bytes());
    assert_eq!(forms[4], [0xff, 0xff, 0x7f]);
}

#[test]
fn reads_without_a_meaning_give_nothing() {
    let ok = ReadRequest {
        buffer_address: 8,
        frame_count: 4,
        sample_rate: 48_000,
        channel_count: 2,
        audio_format: AUDIO_FORMAT_PCM_16_BIT,
    };
    let source = SpoofedAudioSource::silence();
    assert!(matches!(mic_spoofing_read_samples(Some(&source), ok), ReadStart::Frames { .. }));
    for bad in [
        ReadRequest { buffer_address: 0, ..ok },
        ReadRequest { frame_count: 0, ..ok },
        ReadRequest { sample_rate: 0, ..ok },
        ReadRequest { channel_count: 0, ..ok },
        ReadRequest { channel_count: 65_536, ..ok },
    ] {
        for given in [None, Some(&source)] {
            let start = mic_spoofing_read_samples(given, bad);
            assert_eq!(frames_read(&start, bad), 0);
            assert!(matches!(start, ReadStart::Nothing));
        }
    }
    let huge = ReadRequest { frame_count: usize::MAX, ..ok };
    assert!(matches!(mic_spoofing_read_samples(Some(&source), huge), ReadStart::Nothing));
    assert!(matches!(mic_spoofing_read_samples(None, huge), ReadStart::Silence));
    let most = ReadRequest { frame_count: MAX_READ_SAMPLES as usize / 2, ..ok };
    assert!(matches!(mic_spoofing_read_samples(Some(&source), most), ReadStart::Frames { .. }));
    let more = ReadRequest { frame_count: MAX_READ_SAMPLES as usize / 2 + 1, ..ok };
    assert!(matches!(mic_spoofing_read_samples(Some(&source), more), ReadStart::Nothing));
}

#[test]
fn alignment_counts_for_words_only() {
    let source = SpoofedAudioSource::silence();
    let request = |address: usize, format: u32| ReadRequest {
        buffer_address: address,
        frame_count: 1,
        sample_rate: 1,
        channel_count: 1,
        audio_format: format,
    };
    for address in 8..16 {
        for (format, alignment) in [
            (AUDIO_FORMAT_PCM_16_BIT, 2),
            (AUDIO_FORMAT_PCM_8_BIT, 1),
            (AUDIO_FORMAT_PCM_32_BIT, 4),
            (AUDIO_FORMAT_PCM_FLOAT, 4),
            (AUDIO_FORMAT_PCM_24_BIT_PACKED, 1),
        ] {
            let start = mic_spoofing_read_samples(Some(&source), request(address, format));
            let served = matches!(start, ReadStart::Frames { .. });
            assert_eq!(served, address % alignment == 0);
        }
    }
}

#[test]
fn silence_is_filled_where_it_can_be_counted() {
    let mut buffer = [9u8; 8];
    fill_silence(&mut buffer, 2, 2, AUDIO_FORMAT_PCM_8_BIT);
    assert_eq!(buffer, [128, 128, 128, 128, 9, 9, 9, 9]);
    fill_silence(&mut buffer, 1, 2, AUDIO_FORMAT_PCM_24_BIT_PACKED);
    assert_eq!(buffer, [0, 0, 0, 0, 0, 0, 9, 9]);
    fill_silence(&mut buffer, usize::MAX, 2, AUDIO_FORMAT_PCM_16_BIT);
    assert_eq!(buffer, [0, 0, 0, 0, 0, 0, 9, 9]);
    assert_eq!(byte_count(3, 2, 0xff), Some(12));
    assert_eq!(byte_count(usize::MAX / 6 + 1, 2, AUDIO_FORMAT_PCM_24_BIT_PACKED), None);
}

#[test]
fn a_failed_read_ends_the_pipe() {
    let mut source = SpoofedAudioSource::from_pipe(ByteOrder::native(), 8_000, 1);
    assert_eq!(source.read_more_from_pipe(PipeRead::Bytes(vec![1, 2, 3])), PipeProgress::More);
    assert_eq!(source.available_samples(), 0);
    assert_eq!(source.read_more_from_pipe(PipeRead::Failed { interrupted: true }), PipeProgress::Retry);
    assert_eq!(source.read_more_from_pipe(PipeRead::Bytes(vec![4, 5])), PipeProgress::More);
    assert_eq!(source.available_samples(), 1);
    assert_eq!(source.available_complete_frames(), 1);
    assert_eq!(source.read_more_from_pipe(PipeRead::Failed { interrupted: false }), PipeProgress::Ended);
    assert_eq!(source.read_more_from_pipe(PipeRead::Bytes(vec![6])), PipeProgress::Ended);
    let mut silent = SpoofedAudioSource::silence();
    assert_eq!(silent.read_more_from_pipe(PipeRead::Bytes(vec![6])), PipeProgress::Ended);
}
