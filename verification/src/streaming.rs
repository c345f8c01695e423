//! How a stream of decoded samples is started for a capture client.
//!
//! Starting is driven from outside: a [`StreamCall`] names the call to make next, and what it
//! gave back is handed in as the [`StreamReply`].
use vstd::prelude::*;
use vstd::string::*;
use crate::custom_source::CustomSourceError;
use crate::error::joined;
use crate::stream::DecodedStream;
use crate::text::same_text;

verus! {

/// The source that every device has.
pub const DEFAULT_SPOOFED_AUDIO_PATH: &'static str = "/system/etc/spoofed_mic_audio_default.wav";

/// How a decoder factory failed.
#[derive(Clone, Copy, Debug, PartialEq, Eq, Structural)]
pub enum FactoryError {
    /// It gave no stream.
    Failed,
    /// It gave a stream without a sample rate or without channels.
    InvalidMetadata,
}

impl FactoryError {
    /// The message of a failure.
    pub open spec fn text(self) -> Seq<char> {
        match self {
            FactoryError::Failed => "decoder factory failed"@,
            FactoryError::InvalidMetadata => "decoder factory returned invalid source metadata"@,
        }
    }

    /// The message of a failure.
    pub fn message(&self) -> (r: &'static str)
        ensures
            r@ == self.text(),
    {
        match self {
            FactoryError::Failed => "decoder factory failed",
            FactoryError::InvalidMetadata => "decoder factory returned invalid source metadata",
        }
    }
}

/// Why a stream could not be started.
#[derive(Debug)]
pub enum StreamError {
    /// There is no decoder factory.
    NoFactory,
    /// The built-in source cannot be opened.
    OpenDefault(String),
    /// Neither the configured source nor the built-in one can be opened; this is what became of
    /// the latter.
    OpenFallback(String),
    /// The default source cannot be decoded.
    Decode(FactoryError),
    /// Neither the client's own source nor the default source can be decoded.
    BothDecode { custom: FactoryError, default: FactoryError },
}

impl StreamError {
    /// The message of a failure.
    pub open spec fn text(self) -> Seq<char> {
        match self {
            StreamError::NoFactory => "no decoder factory registered"@,
            StreamError::OpenDefault(e) => "failed to open default audio source: "@ + e@,
            StreamError::OpenFallback(e) => "failed to open fallback audio source: "@ + e@,
            StreamError::Decode(e) => e.text(),
            StreamError::BothDecode { custom, default } => "custom source decode failed: "@
                + custom.text() + "; default source decode failed: "@ + default.text(),
        }
    }

    /// The message of a failure.
    pub fn message(&self) -> (r: String)
        ensures
            r@ == self.text(),
    {
        match self {
            StreamError::NoFactory => "no decoder factory registered".to_owned(),
            StreamError::OpenDefault(e) => joined("failed to open default audio source: ", e),
            StreamError::OpenFallback(e) => joined("failed to open fallback audio source: ", e),
            StreamError::Decode(e) => e.message().to_owned(),
            StreamError::BothDecode { custom, default } => {
                let mut s = "custom source decode failed: ".to_owned();
                s.append(custom.message());
                s.append("; default source decode failed: ");
                s.append(default.message());
                s
            },
        }
    }
}

/// Whose source is decoded.
#[derive(Clone, Copy, Debug, PartialEq, Eq, Structural)]
pub enum SourceKind {
    /// The capture client's own.
    Custom,
    /// The default one.
    Default,
}

/// A source that was opened.
#[derive(Clone, Copy, Debug, PartialEq, Eq, Structural)]
pub struct OpenedSourceFile {
    pub fd: i32,
    pub kind: SourceKind,
}

/// A call that starting a stream needs. `custom_failure` is how decoding the client's own
/// source failed, if it did.
#[derive(Clone, Copy, Debug, PartialEq, Eq, Structural)]
pub enum StreamCall {
    /// Look up the capture client's own source.
    LookUpCustom { uid: i32 },
    /// Open the configured default source.
    OpenDefault { custom_failure: Option<FactoryError> },
    /// Open the built-in source, [`DEFAULT_SPOOFED_AUDIO_PATH`].
    OpenSystem { custom_failure: Option<FactoryError> },
    /// Hand the source over to the decoder factory, which owns it from now on.
    Decode { source: OpenedSourceFile, custom_failure: Option<FactoryError> },
}

/// What a decoder factory gave back: its result and its two outputs, which are zero where it
/// did not write them.
#[derive(Clone, Copy, Debug, PartialEq, Eq, Structural)]
pub struct FactoryReply {
    pub pipe_fd: i32,
    pub sample_rate: u32,
    pub channel_count: u32,
}

/// What a call gave back.
pub enum StreamReply {
    Custom(Result<Option<i32>, CustomSourceError>),
    Opened(Result<i32, String>),
    Decoded(FactoryReply),
}

/// What follows.
#[derive(Debug)]
pub enum StreamNext {
    /// Make this call.
    Call(StreamCall),
    /// The stream runs.
    Started(DecodedStream),
    /// There is no stream.
    Failed(StreamError),
}

/// What follows, after a descriptor is closed that is of no use.
#[derive(Debug)]
pub struct StreamStep {
    pub close: Option<i32>,
    pub next: StreamNext,
}

/// Whether a reply is one to a call.
pub open spec fn answers_stream(call: StreamCall, reply: StreamReply) -> bool {
    match call {
        StreamCall::LookUpCustom { .. } => reply is Custom,
        StreamCall::OpenDefault { .. } => reply is Opened,
        StreamCall::OpenSystem { .. } => reply is Opened,
        StreamCall::Decode { .. } => reply is Decoded,
    }
}

/// Goes on with a client's own source, if it has one, and with the default source otherwise.
pub fn open_source_file_with_fallback(custom: Result<Option<i32>, CustomSourceError>) -> (r:
    StreamCall)
    ensures
        r == match custom {
            Ok(Some(fd)) => StreamCall::Decode {
                source: OpenedSourceFile { fd, kind: SourceKind::Custom },
                custom_failure: None,
            },
            _ => StreamCall::OpenDefault { custom_failure: None },
        },
{
    match custom {
        Ok(Some(fd)) => StreamCall::Decode {
            source: OpenedSourceFile { fd, kind: SourceKind::Custom },
            custom_failure: None,
        },
        _ => StreamCall::OpenDefault { custom_failure: None },
    }
}

/// What follows an attempt to open the default source.
pub open spec fn after_open_default(
    opened: Result<i32, String>,
    default_audio_path: Seq<char>,
    system_audio_path: Seq<char>,
    custom_failure: Option<FactoryError>,
) -> StreamNext {
    match opened {
        Ok(fd) => StreamNext::Call(
            StreamCall::Decode {
                source: OpenedSourceFile { fd, kind: SourceKind::Default },
                custom_failure,
            },
        ),
        Err(e) => if default_audio_path == system_audio_path {
            StreamNext::Failed(StreamError::OpenDefault(e))
        } else {
            StreamNext::Call(StreamCall::OpenSystem { custom_failure })
        },
    }
}

/// Goes on after an attempt to open the default source: where that failed, the built-in source
/// is opened, unless it is the same.
pub fn open_default_source_file_with_system_fallback(
    opened: Result<i32, String>,
    default_audio_path: &str,
    system_audio_path: &str,
    custom_failure: Option<FactoryError>,
) -> (r: StreamNext)
    ensures
        r == after_open_default(opened, default_audio_path@, system_audio_path@, custom_failure),
{
    match opened {
        Ok(fd) => StreamNext::Call(
            StreamCall::Decode {
                source: OpenedSourceFile { fd, kind: SourceKind::Default },
                custom_failure,
            },
        ),
        Err(e) => {
            if same_text(default_audio_path, system_audio_path) {
                return StreamNext::Failed(StreamError::OpenDefault(e));
            }
            StreamNext::Call(StreamCall::OpenSystem { custom_failure })
        },
    }
}

/// What a decoder factory's reply means.
pub open spec fn factory_outcome(reply: FactoryReply) -> Result<DecodedStream, FactoryError> {
    if reply.pipe_fd < 0 {
        Err(FactoryError::Failed)
    } else if reply.sample_rate == 0 || reply.channel_count == 0 {
        Err(FactoryError::InvalidMetadata)
    } else {
        Ok(
            DecodedStream {
                fd: reply.pipe_fd,
                sample_rate: reply.sample_rate,
                channel_count: reply.channel_count,
            },
        )
    }
}

/// The descriptor that a decoder factory gave for nothing, if it did.
pub open spec fn useless_fd(reply: FactoryReply) -> Option<i32> {
    if factory_outcome(reply) == Err::<DecodedStream, _>(FactoryError::InvalidMetadata) {
        Some(reply.pipe_fd)
    } else {
        None
    }
}

/// Tells what a decoder factory's reply means, and which descriptor has to be closed.
pub fn call_decoder_factory(reply: FactoryReply) -> (r: (
    Result<DecodedStream, FactoryError>,
    Option<i32>,
))
    ensures
        r.0 == factory_outcome(reply),
        r.0 matches Ok(stream) ==> stream.is_sound(),
        r.1 == useless_fd(reply),
{
    if reply.pipe_fd < 0 {
        return (Err(FactoryError::Failed), None);
    }
    if reply.sample_rate == 0 || reply.channel_count == 0 {
        return (Err(FactoryError::InvalidMetadata), Some(reply.pipe_fd));
    }
    (
        Ok(
            DecodedStream {
                fd: reply.pipe_fd,
                sample_rate: reply.sample_rate,
                channel_count: reply.channel_count,
            },
        ),
        None,
    )
}

/// What follows a call and its reply.
pub open spec fn stream_step(call: StreamCall, reply: StreamReply, default_audio_path: Seq<char>) -> StreamStep {
    match (call, reply) {
        (StreamCall::LookUpCustom { .. }, StreamReply::Custom(custom)) => StreamStep {
            close: None,
            next: StreamNext::Call(
                match custom {
                    Ok(Some(fd)) => StreamCall::Decode {
                        source: OpenedSourceFile { fd, kind: SourceKind::Custom },
                        custom_failure: None,
                    },
                    _ => StreamCall::OpenDefault { custom_failure: None },
                },
            ),
        },
        (StreamCall::OpenDefault { custom_failure }, StreamReply::Opened(opened)) => StreamStep {
            close: None,
            next: after_open_default(
                opened,
                default_audio_path,
                DEFAULT_SPOOFED_AUDIO_PATH@,
                custom_failure,
            ),
        },
        (StreamCall::OpenSystem { custom_failure }, StreamReply::Opened(opened)) => StreamStep {
            close: None,
            next: match opened {
                Ok(fd) => StreamNext::Call(
                    StreamCall::Decode {
                        source: OpenedSourceFile { fd, kind: SourceKind::Default },
                        custom_failure,
                    },
                ),
                Err(e) => StreamNext::Failed(StreamError::OpenFallback(e)),
            },
        },
        (StreamCall::Decode { source, custom_failure }, StreamReply::Decoded(decoded)) => StreamStep {
            close: useless_fd(decoded),
            next: match factory_outcome(decoded) {
                Ok(stream) => StreamNext::Started(stream),
                Err(e) => if source.kind == SourceKind::Custom {
                    StreamNext::Call(StreamCall::OpenDefault { custom_failure: Some(e) })
                } else {
                    match custom_failure {
                        Some(custom) => StreamNext::Failed(
                            StreamError::BothDecode { custom, default: e },
                        ),
                        None => StreamNext::Failed(StreamError::Decode(e)),
                    }
                },
            },
        },
        _ => arbitrary(),
    }
}

/// Goes on with starting a stream, which begins with [`StreamCall::LookUpCustom`].
///
/// The client's own source comes first. Where there is none, or where it cannot be decoded, the
/// default source takes its place.
pub fn start_streaming_decoder_with_factory_and_fallback(
    call: StreamCall,
    reply: StreamReply,
    default_audio_path: &str,
) -> (r: StreamStep)
    requires
        answers_stream(call, reply),
    ensures
        r == stream_step(call, reply, default_audio_path@),
        r.next matches StreamNext::Started(stream) ==> stream.is_sound(),
{
    match (call, reply) {
        (_, StreamReply::Custom(custom)) => StreamStep {
            close: None,
            next: StreamNext::Call(open_source_file_with_fallback(custom)),
        },
        (StreamCall::OpenDefault { custom_failure }, StreamReply::Opened(opened)) => StreamStep {
            close: None,
            next: open_default_source_file_with_system_fallback(
                opened,
                default_audio_path,
                DEFAULT_SPOOFED_AUDIO_PATH,
                custom_failure,
            ),
        },
        (StreamCall::OpenSystem { custom_failure }, StreamReply::Opened(opened)) => {
            let next = match opened {
                Ok(fd) => StreamNext::Call(
                    StreamCall::Decode {
                        source: OpenedSourceFile { fd, kind: SourceKind::Default },
                        custom_failure,
                    },
                ),
                Err(e) => StreamNext::Failed(StreamError::OpenFallback(e)),
            };
            StreamStep { close: None, next }
        },
        (StreamCall::Decode { source, custom_failure }, StreamReply::Decoded(decoded)) => {
            let (outcome, close) = call_decoder_factory(decoded);
            let next = match outcome {
                Ok(stream) => StreamNext::Started(stream),
                Err(e) => {
                    if source.kind == SourceKind::Custom {
                        StreamNext::Call(StreamCall::OpenDefault { custom_failure: Some(e) })
                    } else {
                        match custom_failure {
                            Some(custom) => StreamNext::Failed(
                                StreamError::BothDecode { custom, default: e },
                            ),
                            None => StreamNext::Failed(StreamError::Decode(e)),
                        }
                    }
                },
            };
            StreamStep { close, next }
        },
        _ => unreached(),
    }
}

/// How starting a stream for a capture client begins.
pub open spec fn stream_begin(has_factory: bool, uid: i32) -> StreamNext {
    if has_factory {
        StreamNext::Call(StreamCall::LookUpCustom { uid })
    } else {
        StreamNext::Failed(StreamError::NoFactory)
    }
}

/// How starting a stream for a caller begins, if it does.
pub open spec fn stream_admitted(
    has_factory: bool,
    uid: i32,
    has_out_sample_rate: bool,
    has_out_channel_count: bool,
) -> Option<StreamNext> {
    if has_out_sample_rate && has_out_channel_count {
        Some(stream_begin(has_factory, uid))
    } else {
        None
    }
}

/// Starts a stream for a capture client, if there is a decoder factory.
pub fn start_streaming_decoder_for_uid(has_factory: bool, uid: i32) -> (r: StreamNext)
    ensures
        r == stream_begin(has_factory, uid),
        r == if has_factory {
            StreamNext::Call(StreamCall::LookUpCustom { uid })
        } else {
            StreamNext::Failed(StreamError::NoFactory)
        },
{
    if !has_factory {
        return StreamNext::Failed(StreamError::NoFactory);
    }
    StreamNext::Call(StreamCall::LookUpCustom { uid })
}

/// Decides whether a stream is started for a caller: it needs room for both outputs. Without it
/// the answer is [`crate::stream::refuse_call`].
pub fn mic_spoofing_start_streaming_decoder(
    has_factory: bool,
    uid: i32,
    has_out_sample_rate: bool,
    has_out_channel_count: bool,
) -> (r: Option<StreamNext>)
    ensures
        r == stream_admitted(has_factory, uid, has_out_sample_rate, has_out_channel_count),
        !has_out_sample_rate || !has_out_channel_count ==> r is None,
        has_out_sample_rate && has_out_channel_count ==> r == Some(
            if has_factory {
                StreamNext::Call(StreamCall::LookUpCustom { uid })
            } else {
                StreamNext::Failed(StreamError::NoFactory)
            },
        ),
{
    if !has_out_sample_rate || !has_out_channel_count {
        return None;
    }
    Some(start_streaming_decoder_for_uid(has_factory, uid))
}

/// How many calls may still follow.
pub open spec fn stream_rank(call: StreamCall) -> nat {
    match call {
        StreamCall::LookUpCustom { .. } => 4,
        StreamCall::Decode { source, .. } => if source.kind == SourceKind::Custom {
            3
        } else {
            0
        },
        StreamCall::OpenDefault { .. } => 2,
        StreamCall::OpenSystem { .. } => 1,
    }
}

/// Starting a stream comes to an end: the decoder factory is called once for the client's own
/// source at the most, and once for the default source at the most.
pub proof fn lemma_streaming_ends(call: StreamCall, reply: StreamReply, default_audio_path: Seq<char>)
    requires
        answers_stream(call, reply),
    ensures
        stream_step(call, reply, default_audio_path).next matches StreamNext::Call(next)
            ==> stream_rank(next) < stream_rank(call),
{
}

/// How decoding the client's own source failed, as a call remembers it.
pub open spec fn remembered(call: StreamCall) -> Option<FactoryError> {
    match call {
        StreamCall::LookUpCustom { .. } => None,
        StreamCall::OpenDefault { custom_failure } => custom_failure,
        StreamCall::OpenSystem { custom_failure } => custom_failure,
        StreamCall::Decode { custom_failure, .. } => custom_failure,
    }
}

/// A failure of the client's own source is not forgotten: it is remembered until a stream runs
/// or nothing is left to try, and if the default source cannot be decoded either, the error
/// names both.
pub proof fn lemma_custom_failure_is_kept(
    call: StreamCall,
    reply: StreamReply,
    default_audio_path: Seq<char>,
)
    requires
        answers_stream(call, reply),
        remembered(call) is Some,
        call matches StreamCall::Decode { source, .. } ==> source.kind == SourceKind::Default,
    ensures
        match stream_step(call, reply, default_audio_path).next {
            StreamNext::Call(next) => remembered(next) == remembered(call) && (next matches StreamCall::Decode {
                source,
                ..
            } ==> source.kind == SourceKind::Default),
            StreamNext::Started(_) => true,
            StreamNext::Failed(e) => match e {
                StreamError::BothDecode { custom, .. } => remembered(call) == Some(custom),
                StreamError::OpenDefault(_) => true,
                StreamError::OpenFallback(_) => true,
                _ => false,
            },
        },
{
}

/// What each call would give back.
pub struct StreamWorld {
    pub custom: Result<Option<i32>, CustomSourceError>,
    pub default_file: Result<i32, String>,
    pub system_file: Result<i32, String>,
    pub decoded_custom: FactoryReply,
    pub decoded_default: FactoryReply,
}

impl StreamWorld {
    /// What a call gives back.
    pub open spec fn reply(self, call: StreamCall) -> StreamReply {
        match call {
            StreamCall::LookUpCustom { .. } => StreamReply::Custom(self.custom),
            StreamCall::OpenDefault { .. } => StreamReply::Opened(self.default_file),
            StreamCall::OpenSystem { .. } => StreamReply::Opened(self.system_file),
            StreamCall::Decode { source, .. } => StreamReply::Decoded(
                if source.kind == SourceKind::Custom {
                    self.decoded_custom
                } else {
                    self.decoded_default
                },
            ),
        }
    }

    /// The outcome of starting a stream, from a call on.
    pub open spec fn run(self, call: StreamCall, default_audio_path: Seq<char>) -> StreamNext
        decreases stream_rank(call),
    {
        match stream_step(call, self.reply(call), default_audio_path).next {
            StreamNext::Call(next) => self.run(next, default_audio_path),
            end => end,
        }
    }

    /// The outcome of decoding the default source.
    pub open spec fn default_outcome(
        self,
        default_audio_path: Seq<char>,
        custom_failure: Option<FactoryError>,
    ) -> StreamNext {
        let is_system = default_audio_path == DEFAULT_SPOOFED_AUDIO_PATH@;
        match (self.default_file, self.system_file) {
            (Err(e), _) if is_system => StreamNext::Failed(StreamError::OpenDefault(e)),
            (Err(_), Err(e)) => StreamNext::Failed(StreamError::OpenFallback(e)),
            _ => match factory_outcome(self.decoded_default) {
                Ok(stream) => StreamNext::Started(stream),
                Err(default) => StreamNext::Failed(
                    match custom_failure {
                        Some(custom) => StreamError::BothDecode { custom, default },
                        None => StreamError::Decode(default),
                    },
                ),
            },
        }
    }
}

/// The client's own source is streamed if it has one that can be decoded; in every other case
/// the outcome is that of the default source.
pub proof fn lemma_custom_source_is_preferred(
    world: StreamWorld,
    uid: i32,
    default_audio_path: Seq<char>,
)
    ensures
        world.run(StreamCall::LookUpCustom { uid }, default_audio_path) == match world.custom {
            Ok(Some(_)) => match factory_outcome(world.decoded_custom) {
                Ok(stream) => StreamNext::Started(stream),
                Err(e) => world.default_outcome(default_audio_path, Some(e)),
            },
            _ => world.default_outcome(default_audio_path, None),
        },
{
    reveal_with_fuel(StreamWorld::run, 6);
}

/// Whether a decoder factory delivered: it gave a descriptor, a sample rate and channels.
pub open spec fn delivers(reply: FactoryReply) -> bool {
    reply.pipe_fd >= 0 && reply.sample_rate > 0 && reply.channel_count > 0
}

/// A factory's reply is a stream just where it has all three numbers, and the stream has the very
/// same. A negative descriptor is a failure, missing metadata another.
pub proof fn lemma_factory_delivers(reply: FactoryReply)
    ensures
        factory_outcome(reply) is Ok <==> delivers(reply),
        factory_outcome(reply) matches Ok(stream) ==> stream.fd == reply.pipe_fd
            && stream.sample_rate == reply.sample_rate && stream.channel_count
            == reply.channel_count,
        factory_outcome(reply) matches Err(e) ==> (e == FactoryError::Failed <==> reply.pipe_fd < 0),
{
}

/// A descriptor that a factory gave is never lost and never closed while it is in use: either it
/// is the stream's, or it is the one that is closed.
pub proof fn lemma_factory_descriptor_is_used_or_closed(reply: FactoryReply)
    ensures
        reply.pipe_fd >= 0 ==> (factory_outcome(reply) is Ok <==> useless_fd(reply) is None),
        reply.pipe_fd < 0 ==> useless_fd(reply) is None,
        useless_fd(reply) matches Some(fd) ==> fd == reply.pipe_fd,
{
}

/// What is opened is what is decoded: the decoder factory is given the descriptor that was just
/// found or opened, as the client's own source or as the default one, and a failure to decode
/// the client's own source goes along. Only after decoding is a descriptor closed.
pub proof fn lemma_opened_source_is_decoded(
    call: StreamCall,
    reply: StreamReply,
    default_audio_path: Seq<char>,
)
    requires
        answers_stream(call, reply),
    ensures
        ({
            let step = stream_step(call, reply, default_audio_path);
            &&& !(call is Decode) ==> step.close is None
            &&& reply matches StreamReply::Custom(custom) ==> match custom {
                Ok(Some(fd)) => step.next matches StreamNext::Call(next) && (
                next matches StreamCall::Decode { source, custom_failure } && source.fd == fd
                    && source.kind == SourceKind::Custom && custom_failure is None),
                _ => step.next matches StreamNext::Call(next) && (
                next matches StreamCall::OpenDefault { custom_failure } && custom_failure is None),
            }
            &&& reply matches StreamReply::Opened(opened) ==> match opened {
                Ok(fd) => step.next matches StreamNext::Call(next) && (
                next matches StreamCall::Decode { source, custom_failure } && source.fd == fd
                    && source.kind == SourceKind::Default && custom_failure == remembered(call)),
                Err(e) => if call is OpenDefault && default_audio_path
                    != "/system/etc/spoofed_mic_audio_default.wav"@ {
                    step.next matches StreamNext::Call(next) && (
                    next matches StreamCall::OpenSystem { custom_failure } && custom_failure
                        == remembered(call))
                } else if call is OpenDefault {
                    step.next == StreamNext::Failed(StreamError::OpenDefault(e))
                } else {
                    step.next == StreamNext::Failed(StreamError::OpenFallback(e))
                },
            }
            &&& reply matches StreamReply::Decoded(decoded) ==> (step.next is Started <==> delivers(
                decoded,
            )) && (step.close is Some <==> decoded.pipe_fd >= 0 && !delivers(decoded))
        }),
{
}

/// The outcome of starting a stream. The client's own source is streamed if there is one that the
/// factory delivers. Otherwise it is the default source, from the configured place or, where that
/// cannot be opened, from the built-in place. There is no stream only if neither can be opened or
/// the factory does not deliver, and the error then names each failure to decode.
pub proof fn lemma_stream_outcome(world: StreamWorld, uid: i32, default_audio_path: Seq<char>)
    ensures
        ({
            let end = world.run(StreamCall::LookUpCustom { uid }, default_audio_path);
            let own = world.custom matches Ok(Some(_));
            let built_in = default_audio_path == "/system/etc/spoofed_mic_audio_default.wav"@;
            let opened = world.default_file is Ok || (!built_in && world.system_file is Ok);
            if own && delivers(world.decoded_custom) {
                end matches StreamNext::Started(stream) && stream.fd == world.decoded_custom.pipe_fd
                    && stream.sample_rate == world.decoded_custom.sample_rate
                    && stream.channel_count == world.decoded_custom.channel_count
            } else if opened && delivers(world.decoded_default) {
                end matches StreamNext::Started(stream) && stream.fd
                    == world.decoded_default.pipe_fd && stream.sample_rate
                    == world.decoded_default.sample_rate && stream.channel_count
                    == world.decoded_default.channel_count
            } else if opened {
                end matches StreamNext::Failed(e) && match e {
                    StreamError::Decode(default) => !own && (default == FactoryError::Failed
                        <==> world.decoded_default.pipe_fd < 0),
                    StreamError::BothDecode { custom, default } => own && (default
                        == FactoryError::Failed <==> world.decoded_default.pipe_fd < 0) && (custom
                        == FactoryError::Failed <==> world.decoded_custom.pipe_fd < 0),
                    _ => false,
                }
            } else if built_in {
                world.default_file matches Err(e) && end == StreamNext::Failed(
                    StreamError::OpenDefault(e),
                )
            } else {
                world.system_file matches Err(e) && end == StreamNext::Failed(
                    StreamError::OpenFallback(e),
                )
            }
        }),
{
    reveal_with_fuel(StreamWorld::run, 6);
}

/// A stream is started for a caller just where there is room for both outputs. It begins with the
/// lookup of that client's own source, provided that there is a decoder factory.
pub proof fn lemma_stream_callers_are_served(
    has_factory: bool,
    uid: i32,
    has_out_sample_rate: bool,
    has_out_channel_count: bool,
)
    ensures
        stream_admitted(has_factory, uid, has_out_sample_rate, has_out_channel_count) is Some
            <==> has_out_sample_rate && has_out_channel_count,
        stream_admitted(has_factory, uid, has_out_sample_rate, has_out_channel_count) matches Some(
            next,
        ) ==> {
            &&& has_factory ==> (next matches StreamNext::Call(call) && (
            call matches StreamCall::LookUpCustom { uid: client } && client == uid))
            &&& !has_factory ==> (next matches StreamNext::Failed(e) && e is NoFactory)
            &&& next == stream_begin(has_factory, uid)
        },
{
}

/// The message of a start that failed gives the reason of the last attempt, and where both
/// sources failed, that of the client's own first.
pub proof fn lemma_stream_messages(e: StreamError)
    ensures
        FactoryError::Failed.text() == "decoder factory failed"@,
        FactoryError::InvalidMetadata.text() == "decoder factory returned invalid source metadata"@,
        match e {
            StreamError::NoFactory => e.text() == "no decoder factory registered"@,
            StreamError::OpenDefault(why) => e.text() == "failed to open default audio source: "@
                + why@,
            StreamError::OpenFallback(why) => e.text() == "failed to open fallback audio source: "@
                + why@,
            StreamError::Decode(why) => e.text() == why.text(),
            StreamError::BothDecode { custom, default } => e.text()
                == "custom source decode failed: "@ + custom.text()
                + "; default source decode failed: "@ + default.text(),
        },
{
}

} // verus!
