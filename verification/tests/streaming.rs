use micspoofing::custom_source::{
    begin_custom_lookup, get_custom_source_fd, CustomCall, CustomNext, CustomReply,
    CustomSourceError, MethodReply,
};
use micspoofing::default_path::{ignores_named_source, resolve_default_audio_path};
use micspoofing::factory::DecoderFactories;
use micspoofing::stream::{
    answer_call, refuse_call, report_stream, CallAnswer, DecodedStream, StartReport,
};
use micspoofing::streaming::{
    call_decoder_factory, mic_spoofing_start_streaming_decoder,
    start_streaming_decoder_for_uid, start_streaming_decoder_with_factory_and_fallback,
    FactoryError, FactoryReply, SourceKind, StreamCall, StreamError, StreamNext, StreamReply,
    DEFAULT_SPOOFED_AUDIO_PATH,
};

const CURRENT_UID: i32 = 10_042;

/// What surrounds a start, in a test: files by path, sources by descriptor, and a factory.
struct World {
    custom: Option<Result<Option<&'static [u8]>, CustomSourceError>>,
    files: Vec<(&'static str, &'static [u8])>,
    reply: FactoryReply,
    fail_on: Option<&'static [u8]>,
    opened: Vec<&'static [u8]>,
    decoded: Vec<&'static [u8]>,
    closed: Vec<i32>,
}

impl World {
    fn open(&mut self, path: &str) -> Result<i32, String> {
        for (name, bytes) in &self.files {
            if *name == path {
                self.opened.push(bytes);
                return Ok(self.opened.len() as i32 - 1);
            }
        }
        Err(format!("no such file: {path}"))
    }

    fn run(&mut self, default_path: &str) -> Result<DecodedStream, StreamError> {
        let mut call = match start_streaming_decoder_for_uid(true, CURRENT_UID) {
            StreamNext::Call(call) => call,
            _ => panic!("a start begins with a call"),
        };
        loop {
            let reply = match call {
                StreamCall::LookUpCustom { uid } => {
                    assert_eq!(uid, CURRENT_UID);
                    match self.custom.take().unwrap() {
                        Ok(Some(bytes)) => {
                            self.opened.push(bytes);
                            StreamReply::Custom(Ok(Some(self.opened.len() as i32 - 1)))
                        }
                        Ok(None) => StreamReply::Custom(Ok(None)),
                        Err(e) => StreamReply::Custom(Err(e)),
                    }
                }
                StreamCall::OpenDefault { .. } => StreamReply::Opened(self.open(default_path)),
                StreamCall::OpenSystem { .. } => {
                    StreamReply::Opened(self.open(DEFAULT_SPOOFED_AUDIO_PATH))
                }
                StreamCall::Decode { source, .. } => {
                    let bytes = self.opened[source.fd as usize];
                    self.decoded.push(bytes);
                    StreamReply::Decoded(if self.fail_on == Some(bytes) {
                        FactoryReply { pipe_fd: -1, sample_rate: 0, channel_count: 0 }
                    } else {
                        self.reply
                    })
                }
            };
            let step = start_streaming_decoder_with_factory_and_fallback(call, reply, default_path);
            self.closed.extend(step.close);
            match step.next {
                StreamNext::Call(next) => call = next,
                StreamNext::Started(stream) => return Ok(stream),
                StreamNext::Failed(error) => return Err(error),
            }
        }
    }
}

fn world(custom: Result<Option<&'static [u8]>, CustomSourceError>) -> World {
    World {
        custom: Some(custom),
        files: Vec::new(),
        reply: FactoryReply { pipe_fd: 77, sample_rate: 8_000, channel_count: 2 },
        fail_on: None,
        opened: Vec::new(),
        decoded: Vec::new(),
        closed: Vec::new(),
    }
}

#[test]
fn test_start_streaming_decoder_rejects_null_output_pointers() {
    assert!(mic_spoofing_start_streaming_decoder(false, 1234, false, false).is_none());
    assert!(mic_spoofing_start_streaming_decoder(true, 1234, true, false).is_none());
    assert!(mic_spoofing_start_streaming_decoder(true, 1234, false, true).is_none());
    assert_eq!(refuse_call().result, -1);
    assert_eq!(refuse_call().outputs, None);
}

#[test]
fn test_start_streaming_decoder_without_factory_returns_failure() {
    let factories: DecoderFactories<u8> = DecoderFactories::new();
    let has_factory = factories.registered_decoder_factory().is_some();
    let next = mic_spoofing_start_streaming_decoder(has_factory, CURRENT_UID, true, true);
    match next {
        Some(StreamNext::Failed(error)) => {
            assert_eq!(error.message(), "no decoder factory registered");
        }
        _ => panic!("a start without a factory fails"),
    }
    let StartReport { result, out_sample_rate, out_channel_count } = report_stream(None);
    assert_eq!(result, -1);
    assert_eq!(out_sample_rate, 0);
    assert_eq!(out_channel_count, 0);
    assert_eq!(answer_call(None), CallAnswer { result: -1, outputs: Some((0, 0)) });
}

#[test]
fn test_start_streaming_decoder_with_factory_and_fallback_prefers_custom_source() {
    let custom_bytes: &[u8] = &[0x10, 0x20, 0x30, 0x40];
    let mut world = world(Ok(Some(custom_bytes)));

    let stream = world.run("/nonexistent/default.wav").unwrap();

    assert_eq!(stream.fd, 77);
    assert_eq!(stream.sample_rate, 8_000);
    assert_eq!(stream.channel_count, 2);
    assert_eq!(world.decoded, vec![custom_bytes]);
    assert_eq!(
        report_stream(Some(stream)),
        StartReport { result: 77, out_sample_rate: 8_000, out_channel_count: 2 }
    );
    assert_eq!(
        answer_call(Some(stream)),
        CallAnswer { result: 77, outputs: Some((8_000, 2)) }
    );
}

#[test]
fn test_start_streaming_decoder_with_factory_and_fallback_uses_default_on_custom_failure() {
    let default_bytes: &[u8] = &[0xAA, 0xBB, 0xCC, 0xDD, 0xEE];
    let failure = CustomSourceError::Open("custom source lookup failed".to_string());
    let mut world = world(Err(failure));
    world.files.push(("fallback_default.bin", default_bytes));
    world.reply = FactoryReply { pipe_fd: 5, sample_rate: 16_000, channel_count: 1 };

    let stream = world.run("fallback_default.bin").unwrap();

    assert_eq!(stream.fd, 5);
    assert_eq!(stream.sample_rate, 16_000);
    assert_eq!(stream.channel_count, 1);
    assert_eq!(world.decoded, vec![default_bytes]);
}

#[test]
fn test_start_streaming_decoder_with_factory_and_fallback_retries_default_after_custom_decode_failure(
) {
    let custom_bytes: &[u8] = &[0xDE, 0xAD, 0xBE, 0xEF];
    let default_bytes: &[u8] = &[0x11, 0x22, 0x33, 0x44];
    let mut world = world(Ok(Some(custom_bytes)));
    world.files.push(("fallback_custom_decode_default.bin", default_bytes));
    world.reply = FactoryReply { pipe_fd: 5, sample_rate: 22_050, channel_count: 1 };
    world.fail_on = Some(custom_bytes);

    let stream = world.run("fallback_custom_decode_default.bin").unwrap();

    assert_eq!(stream.fd, 5);
    assert_eq!(stream.sample_rate, 22_050);
    assert_eq!(stream.channel_count, 1);
    assert_eq!(world.decoded, vec![custom_bytes, default_bytes]);
}

#[test]
fn without_the_configured_source_the_built_in_one_is_played() {
    let built_in: &[u8] = &[1];
    let mut world = world(Ok(None));
    world.files.push((DEFAULT_SPOOFED_AUDIO_PATH, built_in));
    world.run("/data/local/tmp/gone.wav").unwrap();
    assert_eq!(world.decoded, vec![built_in]);
}

#[test]
fn each_failure_to_open_has_its_own_words() {
    assert_eq!(
        world(Ok(None)).run(DEFAULT_SPOOFED_AUDIO_PATH).unwrap_err().message(),
        "failed to open default audio source: no such file: /system/etc/spoofed_mic_audio_default.wav"
    );
    assert_eq!(
        world(Ok(None)).run("/data/local/tmp/a.wav").unwrap_err().message(),
        "failed to open fallback audio source: no such file: /system/etc/spoofed_mic_audio_default.wav"
    );
}

#[test]
fn each_failure_to_decode_has_its_own_words() {
    let source: &[u8] = &[1];
    let mut default_fails = world(Ok(None));
    default_fails.files.push((DEFAULT_SPOOFED_AUDIO_PATH, source));
    default_fails.fail_on = Some(source);
    assert_eq!(
        default_fails.run(DEFAULT_SPOOFED_AUDIO_PATH).unwrap_err().message(),
        "decoder factory failed"
    );

    let mut both_fail = world(Ok(Some(source)));
    both_fail.files.push((DEFAULT_SPOOFED_AUDIO_PATH, &[2]));
    both_fail.fail_on = Some(source);
    both_fail.reply = FactoryReply { pipe_fd: 9, sample_rate: 0, channel_count: 1 };
    assert_eq!(
        both_fail.run(DEFAULT_SPOOFED_AUDIO_PATH).unwrap_err().message(),
        "custom source decode failed: decoder factory failed; default source decode failed: decoder \
         factory returned invalid source metadata"
    );
    assert_eq!(both_fail.closed, vec![9]);
}

#[test]
fn a_stream_without_a_format_is_closed() {
    let reply = |pipe_fd, sample_rate, channel_count| FactoryReply { pipe_fd, sample_rate, channel_count };
    assert_eq!(call_decoder_factory(reply(-1, 48_000, 1)), (Err(FactoryError::Failed), None));
    assert_eq!(call_decoder_factory(reply(4, 0, 1)), (Err(FactoryError::InvalidMetadata), Some(4)));
    assert_eq!(call_decoder_factory(reply(4, 1, 0)), (Err(FactoryError::InvalidMetadata), Some(4)));
    assert_eq!(
        call_decoder_factory(reply(0, 1, 2)),
        (Ok(DecodedStream { fd: 0, sample_rate: 1, channel_count: 2 }), None)
    );
}

#[test]
fn the_kind_of_a_source_is_kept() {
    let step = start_streaming_decoder_with_factory_and_fallback(
        StreamCall::LookUpCustom { uid: 1 },
        StreamReply::Custom(Ok(Some(3))),
        "",
    );
    match step.next {
        StreamNext::Call(StreamCall::Decode { source, custom_failure }) => {
            assert_eq!(source.fd, 3);
            assert_eq!(source.kind, SourceKind::Custom);
            assert_eq!(custom_failure, None);
        }
        _ => panic!("a source that was found is decoded"),
    }
}

#[test]
fn the_first_factory_stays() {
    let mut factories = DecoderFactories::new();
    factories.mic_spoofing_set_decoder_factory(None);
    assert_eq!(factories.registered_decoder_factory(), None);
    factories.mic_spoofing_set_decoder_factory(Some(1));
    factories.mic_spoofing_set_decoder_factory(Some(2));
    factories.mic_spoofing_set_decoder_factory(None);
    assert_eq!(factories.registered_decoder_factory(), Some(1));
}

#[test]
fn a_test_puts_its_factory_in_place_for_a_while() {
    let mut factories = DecoderFactories::new();
    factories.mic_spoofing_set_decoder_factory(Some(1));
    assert_eq!(factories.set_test_decoder_factory(Some(3)), None);
    assert_eq!(factories.test_decoder_factory_override(), Some(3));
    assert_eq!(factories.registered_decoder_factory(), Some(3));
    assert_eq!(factories.set_test_decoder_factory(None), Some(3));
    assert_eq!(factories.registered_decoder_factory(), Some(1));
}

/// The end of a lookup that goes through the given replies.
fn look_up(replies: Vec<CustomReply>) -> Result<Option<i32>, CustomSourceError> {
    let mut next = begin_custom_lookup(CURRENT_UID, CURRENT_UID);
    for reply in replies {
        match next {
            CustomNext::Call(call) => next = get_custom_source_fd(call, reply),
            CustomNext::Found(_) => panic!("the lookup is over"),
        }
    }
    match next {
        CustomNext::Found(found) => found,
        CustomNext::Call(call) => panic!("the lookup goes on with {call:?}"),
    }
}

fn vm() -> CustomReply {
    CustomReply::Vm { status: 0, vm_count: 1, is_null: false }
}

fn done() -> CustomReply {
    CustomReply::Done(Ok(()))
}

fn broken() -> CustomReply {
    CustomReply::Done(Err("x".to_string()))
}

#[test]
fn only_an_application_looks_up_its_own_source() {
    assert!(matches!(begin_custom_lookup(10_001, 10_002), CustomNext::Found(Ok(None))));
    assert!(matches!(begin_custom_lookup(9_999, 9_999), CustomNext::Found(Ok(None))));
    assert!(matches!(begin_custom_lookup(10_000, 10_000), CustomNext::Call(CustomCall::GetVm)));
}

#[test]
fn a_source_that_is_there_is_found() {
    let source = || CustomReply::Source(MethodReply::Value(false));
    let fd = |fd| CustomReply::Fd(MethodReply::Value(fd));
    assert_eq!(look_up(vec![vm(), done(), done(), source(), fd(3)]).unwrap(), Some(3));
    assert_eq!(look_up(vec![vm(), done(), done(), source(), fd(0)]).unwrap(), Some(0));
    let null = CustomReply::Source(MethodReply::Value(true));
    assert_eq!(look_up(vec![vm(), done(), done(), null]).unwrap(), None);
}

#[test]
fn each_failed_lookup_has_its_own_words() {
    let x = || "x".to_string();
    let source = || CustomReply::Source(MethodReply::Value(false));
    let message = |replies| look_up(replies).unwrap_err().message();
    for (status, vm_count, is_null) in [(-1, 1, false), (0, 0, false), (0, 1, true)] {
        assert_eq!(
            message(vec![CustomReply::Vm { status, vm_count, is_null }]),
            format!("failed to get Java VM instance: status={status} vm_count={vm_count}")
        );
    }
    assert_eq!(message(vec![vm(), broken()]), "failed to wrap Java VM: x");
    assert_eq!(
        message(vec![vm(), done(), broken()]),
        "failed to attach current thread to Java VM: x"
    );
    assert_eq!(
        message(vec![vm(), done(), done(), CustomReply::Source(MethodReply::Failed(x()))]),
        "openCustomSourceFdForSelf JNI call failed: x"
    );
    assert_eq!(
        message(vec![vm(), done(), done(), CustomReply::Source(MethodReply::WrongType(x()))]),
        "openCustomSourceFdForSelf returned invalid type: x"
    );
    assert_eq!(
        message(vec![vm(), done(), done(), source(), CustomReply::Fd(MethodReply::Failed(x()))]),
        "ParcelFileDescriptor.detachFd failed: x"
    );
    assert_eq!(
        message(vec![vm(), done(), done(), source(), CustomReply::Fd(MethodReply::WrongType(x()))]),
        "ParcelFileDescriptor.detachFd returned invalid type: x"
    );
    assert_eq!(
        message(vec![vm(), done(), done(), source(), CustomReply::Fd(MethodReply::Value(-7))]),
        "ParcelFileDescriptor.detachFd returned invalid fd: -7"
    );
}

#[test]
fn only_a_debuggable_device_chooses_its_source() {
    let resolve = |debuggable: Option<&str>, path: Option<&str>| {
        resolve_default_audio_path(debuggable.map(str::to_string), path.map(str::to_string))
    };
    let built_in = "/system/etc/spoofed_mic_audio_default.wav";
    assert_eq!(resolve(Some("1"), Some("/data/local/tmp/a.wav")), "/data/local/tmp/a.wav");
    assert_eq!(resolve(Some("1"), Some("/data/local/tmp/")), "/data/local/tmp/");
    assert_eq!(resolve(Some("0"), Some("/data/local/tmp/a.wav")), built_in);
    assert_eq!(resolve(Some("1 "), Some("/data/local/tmp/a.wav")), built_in);
    assert_eq!(resolve(None, Some("/data/local/tmp/a.wav")), built_in);
    assert_eq!(resolve(Some("1"), None), built_in);
    assert_eq!(resolve(Some("1"), Some("")), built_in);
    assert_eq!(resolve(Some("1"), Some(" \t\n")), built_in);
    assert_eq!(resolve(Some("1"), Some("/sdcard/a.wav")), built_in);
    assert_eq!(resolve(Some("1"), Some("/data/local/tmp")), built_in);
}

#[test]
fn a_source_in_the_wrong_place_is_ignored() {
    let ignores = |debuggable: Option<&str>, path: Option<&str>| {
        ignores_named_source(&debuggable.map(str::to_string), &path.map(str::to_string))
    };
    assert!(ignores(Some("1"), Some(" /sdcard/a.wav")));
    assert!(!ignores(Some("0"), Some("/sdcard/a.wav")));
    assert!(!ignores(None, Some("/sdcard/a.wav")));
    assert!(!ignores(Some("1"), Some(" \t")));
    assert!(!ignores(Some("1"), Some("\t/data/local/tmp/a.wav")));
    assert!(!ignores(Some("1"), None));
}

#[test]
fn white_space_around_a_path_does_not_count() {
    let spaces = [
        0x09u32, 0x0a, 0x0b, 0x0c, 0x0d, 0x20, 0x85, 0xa0, 0x1680, 0x2000, 0x2001, 0x2002, 0x2003, 0x2004,
        0x2005, 0x2006, 0x2007, 0x2008, 0x2009, 0x200a, 0x2028, 0x2029, 0x202f, 0x205f, 0x3000,
    ];
    let mut found = 0;
    for code in 0..=0x10ffffu32 {
        let Some(c) = char::from_u32(code) else { continue };
        let listed = spaces.contains(&code);
        assert_eq!(c.is_whitespace(), listed, "{code:x}");
        if listed {
            found += 1;
            let path = format!("{c}{c}/data/local/tmp/a {c}b{c}");
            assert_eq!(
                resolve_default_audio_path(Some("1".to_string()), Some(path)),
                format!("/data/local/tmp/a {c}b")
            );
        }
    }
    assert_eq!(found, spaces.len());
    let zero_width = "\u{200b}/data/local/tmp/a".to_string();
    assert_eq!(
        resolve_default_audio_path(Some("1".to_string()), Some(zero_width)),
        DEFAULT_SPOOFED_AUDIO_PATH
    );
}
