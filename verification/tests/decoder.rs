use micspoofing::bytes::ByteOrder;
use micspoofing::decoder::{
    clear_observed_decoder_thread_exits, normalize_sample_time_us, observe_exit,
    parse_output_format, parse_positive_u32, record_observed_decoder_thread_exit,
    select_audio_track, DecoderThreadExit, ObservedDecoderThreadExit, OutputAudioFormat, PipeWrite,
    SampleWriter, WriteProgress, EPIPE,
};
use micspoofing::decoder_loop::{
    begin_output_buffer, handle_output_buffer, queue_arguments, queue_next_input_sample,
    DecoderLoop, InputCall, InputNext, InputReply, LoopCall, LoopReply, OutputCall, OutputNext,
    OutputReply, QueueArguments, RawCall, RawLoop, RawReply,
};
use micspoofing::decoder_start::{
    mic_spoofing_decoder_start, refused_descriptor, start_decoder_thread, StartCall, StartNext,
    StartReply,
};
use micspoofing::error::{BufferInfo, DecodeError, MediaError, Parameter};
use micspoofing::media_ndk::{
    media_status_error, AMediaCodecBufferInfo, MediaCodec, MediaExtractor, MediaFormat,
    OutputBufferResult, AMEDIACODEC_BUFFER_FLAG_END_OF_STREAM, AMEDIAEXTRACTOR_SAMPLE_FLAG_ENCRYPTED,
};
use micspoofing::stream::{refuse_call, report_stream, DecodedStream};
use micspoofing::wav::{pcm16_mono_wav, WAV_HEADER_SIZE};

fn sine_pcm16_samples(frame_count: usize) -> Vec<i16> {
    (0..frame_count)
        .map(|index| {
            let phase = (index as f32 / 48_000.0) * std::f32::consts::PI * 440.0 * 2.0;
            (phase.sin() * i16::MAX as f32) as i16
        })
        .collect()
}

fn normalized_pcm16_samples(samples: &[i16]) -> Vec<f32> {
    samples.iter().map(|sample| *sample as f32 / 32768.0).collect()
}

/// A media format as a platform reports it.
fn format(mime: &str, sample_rate: i32, channel_count: i32) -> MediaFormat {
    MediaFormat {
        mime: Some(mime.to_string()),
        sample_rate: Some(sample_rate),
        channel_count: Some(channel_count),
        pcm_encoding: None,
        description: format!("{mime} {sample_rate}"),
    }
}

/// A platform that knows unencoded sources, and a codec that hands its input on.
struct Platform {
    source: Vec<u8>,
    mime: &'static str,
    chunk: usize,
    position: usize,
    /// What the pipe has taken, and how much it takes before its reader goes.
    pipe: Vec<u8>,
    capacity: usize,
    most: usize,
    log: Vec<&'static str>,
    given: usize,
    released: usize,
    queued: Vec<(Vec<u8>, i64, bool)>,
    format_reported: bool,
}

impl Platform {
    fn new(source: Vec<u8>, mime: &'static str, samples_read: usize) -> Platform {
        Platform {
            source,
            mime,
            chunk: 64,
            position: WAV_HEADER_SIZE,
            pipe: Vec::new(),
            capacity: samples_read * 4,
            most: 100,
            log: Vec::new(),
            given: 0,
            released: 0,
            queued: Vec::new(),
            format_reported: false,
        }
    }

    fn sample_rate(&self) -> i32 {
        let s = &self.source;
        u32::from_le_bytes([s[24], s[25], s[26], s[27]]) as i32
    }

    fn start(&mut self) -> Result<(Option<OutputAudioFormat>, u32, u32), DecodeError> {
        let mut call = StartCall::SourceLength;
        let mut spawned = None;
        loop {
            let reply = match &call {
                StartCall::SourceLength => StartReply::Length(Ok(self.source.len() as u64)),
                StartCall::NewExtractor { source_length } => {
                    assert_eq!(*source_length, self.source.len() as u64);
                    StartReply::Media(MediaExtractor::new(true).map(|_| ()))
                }
                StartCall::SetSource { offset, length } => {
                    assert_eq!((*offset, *length), (0, self.source.len() as i64));
                    StartReply::Media(Ok(()))
                }
                StartCall::TrackFormats => StartReply::Tracks(vec![
                    Ok(format("video/avc", 1, 1)),
                    Ok(format(self.mime, self.sample_rate(), 1)),
                ]),
                StartCall::SelectTrack { track } => {
                    assert_eq!(track.index, 1);
                    StartReply::Media(Ok(()))
                }
                StartCall::CreateCodec { track } => {
                    assert_eq!(track.mime, self.mime);
                    StartReply::Media(Ok(()))
                }
                StartCall::ConfigureCodec { .. } => StartReply::Media(Ok(())),
                StartCall::StartCodec { .. } => StartReply::Media(Ok(())),
                StartCall::CreatePipe { .. } => StartReply::System(Ok(())),
                StartCall::Spawn { raw, .. } => {
                    spawned = *raw;
                    StartReply::System(Ok(()))
                }
            };
            match start_decoder_thread(call, reply) {
                StartNext::Call(next) => call = next,
                StartNext::Started { sample_rate, channel_count } => {
                    return Ok((spawned, sample_rate, channel_count));
                }
                StartNext::Failed(error) => return Err(error),
            }
        }
    }

    fn sample_size(&self) -> isize {
        let left = self.source.len() - self.position;
        if left == 0 {
            -1
        } else {
            left.min(self.chunk) as isize
        }
    }

    fn take_sample(&self, size: usize) -> Vec<u8> {
        self.source[self.position..self.position + size].to_vec()
    }

    fn advance(&mut self) {
        self.position += self.sample_size() as usize;
    }

    fn write(&mut self, bytes: &[u8]) -> PipeWrite {
        let room = self.capacity - self.pipe.len();
        if room == 0 {
            return PipeWrite::Failed {
                interrupted: false,
                os_error: Some(EPIPE),
                message: "Broken pipe".to_string(),
            };
        }
        let n = bytes.len().min(room).min(self.most);
        self.pipe.extend_from_slice(&bytes[..n]);
        PipeWrite::Written(n)
    }

    fn run_raw(&mut self, format: OutputAudioFormat) -> DecoderThreadExit {
        let mut state = RawLoop::new(format);
        let mut call = RawCall::SampleSize;
        loop {
            let reply = match &call {
                RawCall::SampleSize => RawReply::Size(self.sample_size()),
                RawCall::SeekToStart => {
                    self.position = WAV_HEADER_SIZE;
                    self.log.push("seek");
                    RawReply::Status(Ok(()))
                }
                RawCall::SampleFlags { .. } => RawReply::Flags(0),
                RawCall::ReadSample { size } => RawReply::Sample(Ok(self.take_sample(*size))),
                RawCall::Write { writer } => RawReply::Write(self.write(writer.pending())),
                RawCall::Advance => {
                    self.advance();
                    RawReply::Advanced
                }
            };
            match state.run_raw_extractor_loop(ByteOrder::native(), call, reply) {
                Ok(next) => call = next,
                Err(exit) => return exit,
            }
        }
    }

    fn queue_input(&mut self, last: Option<i64>) -> Result<(bool, Option<i64>), DecodeError> {
        let mut call = InputCall::DequeueBuffer;
        loop {
            let reply = match call {
                InputCall::DequeueBuffer => InputReply::Buffer(Ok(Some(0))),
                InputCall::SampleSize { .. } => InputReply::Size(self.sample_size()),
                InputCall::QueueEnd { .. } => {
                    self.queued.push((Vec::new(), 0, true));
                    InputReply::Status(Ok(()))
                }
                InputCall::SampleFlags { .. } => InputReply::Flags(0),
                InputCall::SampleTime { .. } => InputReply::Time(0),
                InputCall::BufferSize { .. } => InputReply::Length(Ok(self.chunk)),
                InputCall::ReadSample { size, .. } => InputReply::Length(Ok(size)),
                InputCall::QueueSample { size, time_us, .. } => {
                    self.queued.push((self.take_sample(size), time_us, false));
                    InputReply::Status(Ok(()))
                }
                InputCall::Advance { .. } => {
                    self.advance();
                    InputReply::Advanced
                }
            };
            match queue_next_input_sample(call, last, reply) {
                InputNext::Call(next) => call = next,
                InputNext::Finished { end, queued_time_us } => return Ok((end, queued_time_us)),
                InputNext::Failed(error) => return Err(error),
            }
        }
    }

    fn handle(&mut self, state: &DecoderLoop, index: usize, info: BufferInfo) -> LoopReply {
        let mut output_format = state.output_format;
        let mut next = begin_output_buffer(index, info, output_format);
        loop {
            let call = match next {
                OutputNext::Call(call) => call,
                OutputNext::Done(outcome) => return LoopReply::Handled { outcome, output_format },
            };
            let reply = match &call {
                OutputCall::Format { .. } => OutputReply::Format(Ok(format("", self.sample_rate(), 1))),
                OutputCall::Bytes { .. } => OutputReply::Bytes(Ok(self.queued[0].0.clone())),
                OutputCall::Write { writer } => OutputReply::Write(self.write(writer.pending())),
            };
            next = handle_output_buffer(
                ByteOrder::native(),
                call,
                reply,
                &mut output_format,
                state.expected_sample_rate,
                state.expected_channel_count,
            );
        }
    }

    fn run_codec(&mut self, sample_rate: u32, channel_count: u32) -> DecoderThreadExit {
        let mut state = DecoderLoop::new(sample_rate, channel_count);
        let mut call = LoopCall::QueueInput;
        loop {
            let reply = match &call {
                LoopCall::QueueInput => LoopReply::Input(self.queue_input(state.last_queued_sample_time_us)),
                LoopCall::DequeueOutput => LoopReply::Output(Ok(if !self.format_reported {
                    self.format_reported = true;
                    OutputBufferResult::OutputFormatChanged
                } else if let Some((bytes, _, end)) = self.queued.first() {
                    let flags = if *end { AMEDIACODEC_BUFFER_FLAG_END_OF_STREAM } else { 0 };
                    let info = BufferInfo { offset: 0, size: bytes.len() as i32, flags };
                    self.given += 1;
                    OutputBufferResult::Buffer { index: 3, info }
                } else {
                    OutputBufferResult::TryAgainLater
                })),
                LoopCall::OutputFormat => LoopReply::Format(Ok(format("", self.sample_rate(), 1))),
                LoopCall::HandleBuffer { index, info } => self.handle(&state, *index, *info),
                LoopCall::ReleaseBuffer { index, .. } => {
                    assert_eq!(*index, 3);
                    self.queued.remove(0);
                    self.released += 1;
                    LoopReply::Status(Ok(()))
                }
                LoopCall::SeekToStart => {
                    self.position = WAV_HEADER_SIZE;
                    self.log.push("seek");
                    LoopReply::Status(Ok(()))
                }
                LoopCall::Flush => {
                    self.log.push("flush");
                    LoopReply::Status(Ok(()))
                }
            };
            match state.run_decoder_loop(call, reply) {
                Ok(next) => call = next,
                Err(exit) => return exit,
            }
        }
    }

    /// Starts a decoder and lets it run until its reader goes.
    fn decode(&mut self) -> (u32, u32, Vec<f32>, ObservedDecoderThreadExit) {
        let (raw, sample_rate, channel_count) = self.start().unwrap();
        let exit = match raw {
            Some(format) => self.run_raw(format),
            None => self.run_codec(sample_rate, channel_count),
        };
        let samples = self
            .pipe
            .chunks_exact(4)
            .map(|c| f32::from_ne_bytes([c[0], c[1], c[2], c[3]]))
            .collect();
        (sample_rate, channel_count, samples, observe_exit(Some(Err(exit))))
    }
}

#[test]
fn test_start_decoder_thread_rejects_zero_length_source() {
    let mut platform = Platform::new(Vec::new(), "audio/raw", 0);
    let result = platform.start();
    assert!(result.is_err());
    assert_eq!(result.unwrap_err().message(), "audio source file is empty");
}

#[test]
fn test_start_decoder_thread_decodes_wav_source() {
    let samples = sine_pcm16_samples(2048);
    for mime in ["audio/raw", "audio/flac"] {
        let mut platform = Platform::new(pcm16_mono_wav(48_000, &samples), mime, 256);
        let (sample_rate, channel_count, decoded, exit) = platform.decode();
        assert_eq!(sample_rate, 48_000);
        assert_eq!(channel_count, 1);
        assert_eq!(decoded.len(), 256);
        assert!(decoded.iter().any(|sample| sample.abs() > 0.01));
        assert_eq!(decoded, normalized_pcm16_samples(&samples[..256]));
        assert!(matches!(exit, ObservedDecoderThreadExit::ConsumerClosed));
    }
}

#[test]
fn test_decoder_start_rejects_invalid_inputs() {
    assert!(mic_spoofing_decoder_start(-1, true, true).is_none());
    assert!(mic_spoofing_decoder_start(3, false, false).is_none());
    assert!(mic_spoofing_decoder_start(3, true, false).is_none());
    assert!(mic_spoofing_decoder_start(3, false, true).is_none());
    let answer = refuse_call();
    assert_eq!(answer.result, -1);
    assert_eq!(answer.outputs, None, "a refused call leaves its outputs alone");
    assert_eq!(refused_descriptor(-1), None);
    assert_eq!(refused_descriptor(0), Some(0));
    assert_eq!(refused_descriptor(3), Some(3));
}

#[test]
fn test_decoder_start_decodes_wav_source() {
    assert!(matches!(mic_spoofing_decoder_start(3, true, true), Some(StartCall::SourceLength)));
    let source = pcm16_mono_wav(16_000, &sine_pcm16_samples(1024));
    let mut platform = Platform::new(source, "audio/raw", 128);
    let (sample_rate, channel_count, decoded, exit) = platform.decode();
    let report = report_stream(Some(DecodedStream { fd: 4, sample_rate, channel_count }));
    assert!(report.result >= 0);
    assert_eq!(report.out_sample_rate, 16_000);
    assert_eq!(report.out_channel_count, 1);
    assert!(decoded.iter().any(|sample| sample.abs() > 0.01));
    assert!(matches!(exit, ObservedDecoderThreadExit::ConsumerClosed));
}

#[test]
fn test_start_decoder_thread_loops_short_source() {
    let samples = [0i16, 8_192, -8_192, 16_384, -16_384, 4_096, -4_096, 0];
    for mime in ["audio/raw", "audio/flac"] {
        for most in [1, 3, 4, 100] {
            let source = pcm16_mono_wav(48_000, &samples);
            let mut platform = Platform::new(source, mime, samples.len() * 3);
            platform.most = most;
            let (sample_rate, channel_count, decoded, exit) = platform.decode();
            assert_eq!(sample_rate, 48_000);
            assert_eq!(channel_count, 1);
            assert_eq!(decoded.len(), samples.len() * 3);

            let expected = normalized_pcm16_samples(&samples);
            for (index, sample) in decoded.iter().enumerate() {
                let expected_sample = expected[index % expected.len()];
                assert!(
                    (sample - expected_sample).abs() < 0.0001,
                    "looped sample mismatch at index {}: {} vs {}",
                    index,
                    sample,
                    expected_sample
                );
            }
            assert!(matches!(exit, ObservedDecoderThreadExit::ConsumerClosed));
            assert!(platform.log.iter().filter(|l| **l == "seek").count() >= 3);
            assert_eq!(platform.given, platform.released);
        }
    }
}

#[test]
fn a_source_without_samples_is_an_error() {
    for mime in ["audio/raw", "audio/flac"] {
        let mut platform = Platform::new(pcm16_mono_wav(48_000, &[]), mime, 8);
        let (_, _, decoded, exit) = platform.decode();
        assert!(decoded.is_empty());
        match exit {
            ObservedDecoderThreadExit::Fatal(message) => {
                assert_eq!(message, "decoded source produced no audio samples");
            }
            other => panic!("unexpected end: {other:?}"),
        }
    }
}

#[test]
fn times_do_not_run_backwards() {
    assert_eq!(normalize_sample_time_us(-5, None), 0);
    assert_eq!(normalize_sample_time_us(7, None), 7);
    assert_eq!(normalize_sample_time_us(7, Some(6)), 7);
    assert_eq!(normalize_sample_time_us(6, Some(6)), 7);
    assert_eq!(normalize_sample_time_us(-1, Some(6)), 7);
    assert_eq!(normalize_sample_time_us(0, Some(i64::MAX)), i64::MAX);
    let samples = sine_pcm16_samples(100);
    let mut platform = Platform::new(pcm16_mono_wav(8_000, &samples), "audio/flac", 0);
    let mut last = None;
    while let (false, time) = platform.queue_input(last).unwrap() {
        last = time;
    }
    let times: Vec<i64> = platform.queued.iter().filter(|q| !q.2).map(|q| q.1).collect();
    assert_eq!(times, vec![0, 1, 2, 3]);
}

/// The end of queueing a sample through the given replies.
fn queue(replies: Vec<InputReply>) -> InputNext {
    let mut call = InputCall::DequeueBuffer;
    for reply in replies {
        match queue_next_input_sample(call, Some(10), reply) {
            InputNext::Call(next) => call = next,
            end => return end,
        }
    }
    InputNext::Call(call)
}

#[test]
fn each_failure_to_queue_has_its_own_words() {
    let failed = |replies| match queue(replies) {
        InputNext::Failed(error) => error.message(),
        other => panic!("unexpected end: {other:?}"),
    };
    let buffer = || InputReply::Buffer(Ok(Some(2)));
    let status = |status| InputReply::Status(Err(MediaError::Status { operation: "op", status }));
    assert_eq!(
        failed(vec![InputReply::Buffer(Err(MediaError::DequeueInput { code: -9 }))]),
        "AMediaCodec_dequeueInputBuffer returned -9"
    );
    assert_eq!(
        failed(vec![buffer(), InputReply::Size(-1), status(-3)]),
        "op failed with media status -3"
    );
    assert_eq!(
        failed(vec![
            buffer(),
            InputReply::Size(4),
            InputReply::Flags(AMEDIAEXTRACTOR_SAMPLE_FLAG_ENCRYPTED | 1)
        ]),
        "audio source contains encrypted samples"
    );
    let to_size = || vec![buffer(), InputReply::Size(4), InputReply::Flags(1), InputReply::Time(3)];
    let mut no_buffer = to_size();
    no_buffer.push(InputReply::Length(Err(MediaError::NullInputBuffer { index: 2 })));
    assert_eq!(failed(no_buffer), "AMediaCodec_getInputBuffer returned null for index 2");
    let mut too_large = to_size();
    too_large.push(InputReply::Length(Ok(3)));
    assert_eq!(failed(too_large), "extractor sample size 4 exceeds codec input buffer 3");
    let mut short = to_size();
    short.extend([InputReply::Length(Ok(4)), InputReply::Length(Ok(3))]);
    assert_eq!(failed(short), "extractor read 3 bytes but expected 4");
    let mut unread = to_size();
    unread.extend([
        InputReply::Length(Ok(4)),
        InputReply::Length(Err(MediaError::ReadSampleData { code: -2 })),
    ]);
    assert_eq!(failed(unread), "AMediaExtractor_readSampleData returned -2");
    let mut unqueued = to_size();
    unqueued.extend([InputReply::Length(Ok(4)), InputReply::Length(Ok(4)), status(5)]);
    assert_eq!(failed(unqueued), "op failed with media status 5");
    let mut whole = to_size();
    whole.extend([
        InputReply::Length(Ok(4)),
        InputReply::Length(Ok(4)),
        InputReply::Status(Ok(())),
        InputReply::Advanced,
    ]);
    assert!(matches!(queue(whole), InputNext::Finished { end: false, queued_time_us: Some(11) }));
    assert!(matches!(
        queue(vec![InputReply::Buffer(Ok(None))]),
        InputNext::Finished { end: false, queued_time_us: None }
    ));
}

#[test]
fn buffers_are_queued_with_their_arguments() {
    assert_eq!(
        queue_arguments(InputCall::QueueSample { index: 2, size: 64, time_us: 7 }),
        Some(QueueArguments { index: 2, offset: 0, size: 64, time_us: 7, flags: 0 })
    );
    assert_eq!(
        queue_arguments(InputCall::QueueEnd { index: 3 }),
        Some(QueueArguments { index: 3, offset: 0, size: 0, time_us: 0, flags: 4 })
    );
    assert_eq!(queue_arguments(InputCall::DequeueBuffer), None);
}

#[test]
fn wav_bytes_are_those_of_the_format() {
    let samples = [0i16, 1, -1, i16::MAX, i16::MIN];
    let mut bytes = Vec::new();
    bytes.extend_from_slice(b"RIFF");
    bytes.extend_from_slice(&46u32.to_le_bytes());
    bytes.extend_from_slice(b"WAVEfmt ");
    bytes.extend_from_slice(&16u32.to_le_bytes());
    bytes.extend_from_slice(&1u16.to_le_bytes());
    bytes.extend_from_slice(&1u16.to_le_bytes());
    bytes.extend_from_slice(&44_100u32.to_le_bytes());
    bytes.extend_from_slice(&88_200u32.to_le_bytes());
    bytes.extend_from_slice(&2u16.to_le_bytes());
    bytes.extend_from_slice(&16u16.to_le_bytes());
    bytes.extend_from_slice(b"data");
    bytes.extend_from_slice(&10u32.to_le_bytes());
    for sample in samples {
        bytes.extend_from_slice(&sample.to_le_bytes());
    }
    assert_eq!(pcm16_mono_wav(44_100, &samples), bytes);
    assert_eq!(pcm16_mono_wav(8_000, &[]).len(), WAV_HEADER_SIZE);
}

#[test]
fn tracks_are_chosen_in_their_order() {
    let chosen = |tracks| select_audio_track(tracks).map(|t| (t.index, t.mime, t.description));
    let silent = || MediaFormat {
        mime: None,
        sample_rate: None,
        channel_count: None,
        pcm_encoding: None,
        description: String::new(),
    };
    assert_eq!(
        chosen(vec![Ok(silent()), Ok(format("audio/x", 1, 2)), Ok(format("audio/y", 1, 1))]).unwrap(),
        (1, "audio/x".to_string(), "audio/x 1".to_string())
    );
    let message = |tracks| select_audio_track(tracks).unwrap_err().message();
    assert_eq!(message(vec![]), "audio source contains no audio track");
    assert_eq!(
        message(vec![Ok(format("video/audio/", 1, 1)), Ok(silent())]),
        "audio source contains no audio track"
    );
    assert_eq!(
        message(vec![
            Err(MediaError::Null { operation: "AMediaExtractor_getTrackFormat" }),
            Ok(format("audio/x", 1, 1))
        ]),
        "AMediaExtractor_getTrackFormat returned null"
    );
    assert_eq!(message(vec![Ok(format("audio/", 0, 1))]), "audio track has invalid sample rate: 0");
    assert_eq!(message(vec![Ok(format("audio/", 1, -4))]), "audio track has invalid channel count: -4");
    let without_rate = MediaFormat { sample_rate: None, ..format("audio/x", 1, 1) };
    assert_eq!(message(vec![Ok(without_rate)]), "audio track is missing sample rate");
    let without_channels = MediaFormat { channel_count: None, ..format("audio/x", 1, 1) };
    assert_eq!(message(vec![Ok(without_channels)]), "audio track is missing channel count");
}

#[test]
fn output_formats_are_read() {
    assert_eq!(
        parse_output_format(&format("", 8_000, 2)).unwrap(),
        OutputAudioFormat { sample_rate: 8_000, channel_count: 2, pcm_encoding: 2 }
    );
    let encoded = |e| MediaFormat { pcm_encoding: Some(e), ..format("", 8_000, 2) };
    for e in [2, 3, 4, 21, 22] {
        assert_eq!(parse_output_format(&encoded(e)).unwrap().pcm_encoding, e);
    }
    assert_eq!(
        parse_output_format(&encoded(5)).unwrap_err().message(),
        "unsupported decoder PCM encoding 5"
    );
    let missing = MediaFormat { sample_rate: None, ..format("", 1, 1) };
    assert_eq!(
        parse_output_format(&missing).unwrap_err().message(),
        "audio track is missing output sample rate"
    );
    assert_eq!(
        parse_output_format(&format("", 1, 0)).unwrap_err().message(),
        "audio track has invalid output channel count: 0"
    );
    assert_eq!(parse_positive_u32(Some(5), Parameter::SampleRate).unwrap(), 5);
}

#[test]
fn a_changed_format_ends_the_decoder() {
    let mut state = DecoderLoop::new(48_000, 2);
    let exit = state
        .run_decoder_loop(LoopCall::OutputFormat, LoopReply::Format(Ok(format("", 44_100, 1))))
        .unwrap_err();
    match exit {
        DecoderThreadExit::Fatal(error) => assert_eq!(
            error.message(),
            "decoder output format changed to 44100 Hz / 1 channels, expected 48000 Hz / 2 channels"
        ),
        DecoderThreadExit::ConsumerClosed => panic!("the format has changed"),
    }
    assert_eq!(state, DecoderLoop::new(48_000, 2));
}

#[test]
fn an_unencoded_source_keeps_its_format() {
    let track = select_audio_track(vec![Ok(format("audio/raw", 48_000, 2))]).unwrap();
    let mut other = select_audio_track(vec![Ok(format("audio/raw", 48_000, 2))]).unwrap();
    other.format = format("audio/raw", 44_100, 2);
    let next = start_decoder_thread(StartCall::CreatePipe { track }, StartReply::System(Ok(())));
    assert!(matches!(next, StartNext::Call(StartCall::Spawn { raw: Some(_), .. })));
    let next = start_decoder_thread(StartCall::CreatePipe { track: other }, StartReply::System(Ok(())));
    match next {
        StartNext::Failed(error) => assert_eq!(
            error.message(),
            "raw extractor output format changed to 44100 Hz / 2 channels, expected 48000 Hz / 2 channels"
        ),
        other => panic!("unexpected step: {other:?}"),
    }
}

#[test]
fn a_failed_start_tells_why() {
    let failed = |call, reply| match start_decoder_thread(call, reply) {
        StartNext::Failed(error) => error.message(),
        other => panic!("unexpected step: {other:?}"),
    };
    let text = || "why".to_string();
    assert_eq!(
        failed(StartCall::SourceLength, StartReply::Length(Err(DecodeError::Duplicate(text())))),
        "dup failed while cloning source fd: why"
    );
    assert_eq!(
        failed(StartCall::SourceLength, StartReply::Length(Err(DecodeError::Stat(text())))),
        "failed to stat source fd: why"
    );
    let refused = MediaExtractor::new(false).map(|_| ());
    assert_eq!(
        failed(StartCall::NewExtractor { source_length: 1 }, StartReply::Media(refused)),
        "AMediaExtractor_new returned null"
    );
    let track = || select_audio_track(vec![Ok(format("audio/x", 1, 1))]).unwrap();
    assert_eq!(
        failed(
            StartCall::CreatePipe { track: track() },
            StartReply::System(Err(DecodeError::Pipe(text())))
        ),
        "pipe2 failed: why"
    );
    assert_eq!(
        failed(
            StartCall::Spawn { raw: None, sample_rate: 1, channel_count: 1 },
            StartReply::System(Err(DecodeError::Spawn(text())))
        ),
        "failed to spawn decoder thread: why"
    );
    let mut odd = track();
    odd.mime = "audio/\0\"\u{e9}\n".to_string();
    assert_eq!(
        failed(StartCall::SelectTrack { track: odd }, StartReply::Media(Ok(()))),
        "invalid MIME type: \"audio/\\0\\\"\u{e9}\\n\""
    );
}

#[test]
fn the_release_of_a_buffer_comes_before_its_error() {
    let call = || LoopCall::ReleaseBuffer { index: 1, outcome: Err(DecoderThreadExit::ConsumerClosed) };
    let mut state = DecoderLoop::new(1, 1);
    let released = state.run_decoder_loop(call(), LoopReply::Status(Ok(())));
    assert!(matches!(released, Err(DecoderThreadExit::ConsumerClosed)));
    let stuck = MediaError::Status { operation: "AMediaCodec_releaseOutputBuffer", status: -1 };
    let kept = state.run_decoder_loop(call(), LoopReply::Status(Err(stuck)));
    assert!(matches!(kept, Err(DecoderThreadExit::Fatal(DecodeError::Media(_)))));
}

#[test]
fn an_empty_buffer_is_passed_over() {
    let info = BufferInfo { offset: 0, size: 0, flags: AMEDIACODEC_BUFFER_FLAG_END_OF_STREAM };
    assert!(matches!(begin_output_buffer(0, info, None), OutputNext::Done(Ok(()))));
    let mut state = DecoderLoop::new(1, 1);
    let handled = LoopReply::Handled { outcome: Ok(()), output_format: None };
    state.run_decoder_loop(LoopCall::HandleBuffer { index: 0, info }, handled).unwrap();
    assert!(state.output_eos);
    assert!(!state.saw_output_samples);
}

#[test]
fn writes_go_on_until_everything_is_written() {
    let bits: Vec<u32> = [0.5f32, -0.25].iter().map(|s| s.to_bits()).collect();
    let mut writer = SampleWriter::new(ByteOrder::native(), &bits);
    let expected: Vec<u8> = bits.iter().flat_map(|b| b.to_ne_bytes()).collect();
    assert_eq!(writer.pending(), &expected[..]);
    assert!(matches!(writer.write_f32_samples(PipeWrite::Written(3)), WriteProgress::More));
    assert_eq!(writer.pending(), &expected[3..]);
    let interrupted =
        PipeWrite::Failed { interrupted: true, os_error: Some(4), message: "interrupted".to_string() };
    assert!(matches!(writer.write_f32_samples(interrupted), WriteProgress::More));
    assert!(matches!(writer.write_f32_samples(PipeWrite::Written(0)), WriteProgress::More));
    let broken =
        PipeWrite::Failed { interrupted: false, os_error: Some(5), message: "I/O error".to_string() };
    match writer.write_f32_samples(broken) {
        WriteProgress::Exit(DecoderThreadExit::Fatal(error)) => {
            assert_eq!(error.message(), "pipe write failed: I/O error");
        }
        other => panic!("unexpected progress: {other:?}"),
    }
    assert!(matches!(writer.write_f32_samples(PipeWrite::Written(5)), WriteProgress::Done));
    assert!(writer.pending().is_empty());
}

#[test]
fn ends_of_threads_are_noted_and_forgotten() {
    let mut exits = Vec::new();
    record_observed_decoder_thread_exit(&mut exits, observe_exit(None));
    record_observed_decoder_thread_exit(&mut exits, observe_exit(Some(Ok(()))));
    let fatal = DecoderThreadExit::Fatal(DecodeError::Encrypted);
    record_observed_decoder_thread_exit(&mut exits, observe_exit(Some(Err(fatal))));
    assert!(matches!(exits[0], ObservedDecoderThreadExit::Panicked));
    assert!(matches!(exits[1], ObservedDecoderThreadExit::Completed));
    match &exits[2] {
        ObservedDecoderThreadExit::Fatal(m) => assert_eq!(m, "audio source contains encrypted samples"),
        other => panic!("unexpected end: {other:?}"),
    }
    clear_observed_decoder_thread_exits(&mut exits);
    assert!(exits.is_empty());
}

#[test]
fn results_of_the_media_library_are_told_apart() {
    assert_eq!(media_status_error("AMediaCodec_start", -10_000), "AMediaCodec_start failed with media status -10000");
    let extractor = MediaExtractor::new(true).unwrap();
    assert!(extractor.set_data_source_fd(0).is_ok());
    assert_eq!(
        extractor.seek_to_start(-1).unwrap_err().message(),
        "AMediaExtractor_seekTo failed with media status -1"
    );
    assert_eq!(
        extractor.select_track(1).unwrap_err().message(),
        "AMediaExtractor_selectTrack failed with media status 1"
    );
    assert_eq!(extractor.read_sample_data(7).unwrap(), 7);
    assert!(extractor.track_format(None).is_err());
    assert!(MediaCodec::create_decoder_by_type(false).is_err());
    let mut codec = MediaCodec::create_decoder_by_type(true).unwrap();
    assert!(codec.configure(0).is_ok());
    assert!(codec.start(-1).is_err());
    assert!(!codec.stop_if_started());
    assert!(codec.start(0).is_ok());
    assert!(codec.stop_if_started());
    assert!(!codec.stop_if_started());
    assert!(codec.flush(0).is_ok());
    assert_eq!(codec.dequeue_input_buffer(3).unwrap(), Some(3));
    assert_eq!(codec.dequeue_input_buffer(-1).unwrap(), None);
    assert!(codec.dequeue_input_buffer(-2).is_err());
    assert_eq!(codec.input_buffer(3, Some(9)).unwrap(), 9);
    assert!(codec.input_buffer(3, None).is_err());
    assert!(codec.queue_input_buffer(-2).is_err());
    let info = AMediaCodecBufferInfo { offset: 1, size: 2, presentation_time_us: 3, flags: 4 };
    assert_eq!(
        codec.dequeue_output_buffer(5, info).unwrap(),
        OutputBufferResult::Buffer { index: 5, info: BufferInfo { offset: 1, size: 2, flags: 4 } }
    );
    assert_eq!(codec.dequeue_output_buffer(-1, info).unwrap(), OutputBufferResult::TryAgainLater);
    assert_eq!(codec.dequeue_output_buffer(-2, info).unwrap(), OutputBufferResult::OutputFormatChanged);
    assert_eq!(codec.dequeue_output_buffer(-3, info).unwrap(), OutputBufferResult::OutputBuffersChanged);
    assert_eq!(
        codec.dequeue_output_buffer(-4, info).unwrap_err().message(),
        "AMediaCodec_dequeueOutputBuffer returned -4"
    );
    let info = BufferInfo { offset: 1, size: 2, flags: 0 };
    assert_eq!(codec.output_buffer(5, Some(3), &info).unwrap(), (1, 2));
    assert_eq!(
        codec.output_buffer(5, None, &info).unwrap_err().message(),
        "AMediaCodec_getOutputBuffer returned null for index 5"
    );
    assert!(codec.output_format(None).is_err());
    assert!(codec.release_output_buffer(0).is_ok());
    assert_eq!(AMediaCodecBufferInfo::default().presentation_time_us, 0);
}
