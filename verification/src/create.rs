//! How a source is created for a capture client. Whatever goes wrong, the client gets a silent
//! source and never the microphone.
use vstd::arithmetic::div_mod::*;
use vstd::prelude::*;
use crate::adapter::{fed, lemma_equal_formats_read, ReadPlan, SourceView, SpoofedAudioSource};
use crate::bytes::{bytes_of, ByteOrder};
use crate::decoder::lemma_samples_cross_the_pipe;
use crate::pending::{is_sound_slot, take_pending_source_fd, PendingSourceFd};
use crate::phase::ratio;
use crate::stream::DecodedStream;
use crate::streaming::{
    lemma_custom_source_is_preferred, start_streaming_decoder_for_uid, StreamCall, StreamError,
    StreamNext, StreamWorld,
};

verus! {

/// A source and the descriptors that go with it.
pub struct CreatedSource {
    pub source: SpoofedAudioSource,
    /// The pipe that the source reads, which belongs to it.
    pub pipe: Option<i32>,
    /// A descriptor that is of no use and has to be closed.
    pub close: Option<i32>,
}

impl CreatedSource {
    /// Whether this is a source that is always silent and reads no pipe.
    pub open spec fn is_silent(self) -> bool {
        &&& self.source.wf()
        &&& !self.source@.has_pipe
        &&& self.source@.eof
        &&& self.source@.queue == Seq::<u32>::empty()
        &&& self.pipe is None
    }

    /// Whether this is a fresh source that reads a pipe of samples of a format.
    pub open spec fn reads(self, order: ByteOrder, stream: DecodedStream) -> bool {
        &&& self.source.wf()
        &&& self.source@ == (SourceView {
            has_pipe: true,
            order,
            sample_rate: stream.sample_rate,
            channels: stream.channel_count,
            queue: Seq::empty(),
            partial: Seq::empty(),
            position: 0,
            eof: false,
        })
        &&& self.pipe == Some(stream.fd)
        &&& self.close is None
    }
}

/// Whether a source is the one for a pipe of samples of a format; without a sample rate or
/// without channels it is silent, and the pipe is of no use.
pub open spec fn is_source_from(c: CreatedSource, order: ByteOrder, stream: DecodedStream) -> bool {
    if stream.sample_rate == 0 || stream.channel_count == 0 {
        c.is_silent() && c.close == Some(stream.fd)
    } else {
        c.reads(order, stream)
    }
}

/// Creates the source for a pipe of samples.
pub fn create_source_from_fd(
    order: ByteOrder,
    pipe_read: i32,
    sample_rate: u32,
    channel_count: u32,
) -> (r: CreatedSource)
    ensures
        is_source_from(r, order, DecodedStream { fd: pipe_read, sample_rate, channel_count }),
{
    if sample_rate == 0 || channel_count == 0 {
        let silent = create_silence_source();
        return CreatedSource { source: silent.source, pipe: None, close: Some(pipe_read) };
    }
    CreatedSource {
        source: SpoofedAudioSource::from_pipe(order, sample_rate, channel_count),
        pipe: Some(pipe_read),
        close: None,
    }
}

/// Creates a source that is always silent.
pub fn create_silence_source() -> (r: CreatedSource)
    ensures
        r.is_silent(),
        r.close is None,
{
    CreatedSource { source: SpoofedAudioSource::silence(), pipe: None, close: None }
}

/// What follows the wish for a source.
pub enum CreateStep {
    /// Here it is.
    Created(CreatedSource),
    /// Start a stream, of which this is the first step; [`create_source_from_start`] makes the
    /// source of what becomes of it.
    Start(StreamNext),
}

/// Whether a step follows the wish for a source: the source that waits is taken, whoever the
/// client is; otherwise the process itself gets a stream started, and any other client silence.
pub open spec fn follows_create(
    slot: Option<PendingSourceFd>,
    order: ByteOrder,
    uid: i32,
    current_uid: i32,
    has_factory: bool,
    r: CreateStep,
) -> bool {
    match slot {
        Some(p) => r matches CreateStep::Created(c) && is_source_from(
            c,
            order,
            DecodedStream { fd: p.fd, sample_rate: p.sample_rate, channel_count: p.channel_count },
        ),
        None => if current_uid != uid {
            r matches CreateStep::Created(c) && c.is_silent() && c.close is None
        } else {
            r == CreateStep::Start(
                if has_factory {
                    StreamNext::Call(StreamCall::LookUpCustom { uid })
                } else {
                    StreamNext::Failed(StreamError::NoFactory)
                },
            )
        },
    }
}

/// Whether a source is the one that what became of starting a stream gives.
pub open spec fn is_source_of_start(
    c: CreatedSource,
    order: ByteOrder,
    started: Result<DecodedStream, StreamError>,
) -> bool {
    match started {
        Ok(stream) => is_source_from(c, order, stream),
        Err(_) => c.is_silent() && c.close is None,
    }
}

/// Creates a source for a capture client.
///
/// A decoded source that waits is taken, whoever the client is. Otherwise a stream is started
/// if the client is the process itself, and any other client gets silence.
pub fn mic_spoofing_create_source(
    slot: &mut Option<PendingSourceFd>,
    order: ByteOrder,
    uid: i32,
    current_uid: i32,
    has_factory: bool,
) -> (r: CreateStep)
    ensures
        *final(slot) == None::<PendingSourceFd>,
        follows_create(*old(slot), order, uid, current_uid, has_factory, r),
{
    match take_pending_source_fd(slot) {
        Some(pending) => CreateStep::Created(
            create_source_from_fd(order, pending.fd, pending.sample_rate, pending.channel_count),
        ),
        None => {
            if current_uid != uid {
                return CreateStep::Created(create_silence_source());
            }
            CreateStep::Start(start_streaming_decoder_for_uid(has_factory, uid))
        },
    }
}

/// Creates the source of what became of starting a stream.
pub fn create_source_from_start(order: ByteOrder, started: Result<DecodedStream, StreamError>) -> (r:
    CreatedSource)
    ensures
        is_source_of_start(r, order, started),
{
    match started {
        Ok(stream) => create_source_from_fd(
            order,
            stream.fd,
            stream.sample_rate,
            stream.channel_count,
        ),
        Err(_) => create_silence_source(),
    }
}

/// What becomes of starting a stream, from its first step on.
pub open spec fn start_outcome(
    world: StreamWorld,
    first: StreamNext,
    default_audio_path: Seq<char>,
) -> Result<DecodedStream, StreamError> {
    match first {
        StreamNext::Call(call) => match world.run(call, default_audio_path) {
            StreamNext::Started(stream) => Ok(stream),
            StreamNext::Failed(e) => Err(e),
            StreamNext::Call(_) => arbitrary(),
        },
        StreamNext::Started(stream) => Ok(stream),
        StreamNext::Failed(e) => Err(e),
    }
}

/// A client gets a source that reads a pipe exactly when a decoded source waits, or when the
/// client is the process itself, there is a decoder factory and a stream can be started. In
/// every other case the source is silent.
pub proof fn lemma_creation_fails_closed(
    slot: Option<PendingSourceFd>,
    order: ByteOrder,
    uid: i32,
    current_uid: i32,
    has_factory: bool,
    step: CreateStep,
    world: StreamWorld,
    default_audio_path: Seq<char>,
    c: CreatedSource,
)
    requires
        is_sound_slot(slot),
        follows_create(slot, order, uid, current_uid, has_factory, step),
        match step {
            CreateStep::Created(created) => c == created,
            CreateStep::Start(first) => is_source_of_start(
                c,
                order,
                start_outcome(world, first, default_audio_path),
            ),
        },
    ensures
        c.source@.has_pipe <==> slot is Some || (uid == current_uid && has_factory && world.run(
            StreamCall::LookUpCustom { uid },
            default_audio_path,
        ) is Started),
        !c.source@.has_pipe ==> c.is_silent(),
{
    lemma_custom_source_is_preferred(world, uid, default_audio_path);
}

/// A source that was waiting is read, and its descriptor is not closed.
pub proof fn lemma_pending_source_is_read(slot: Option<PendingSourceFd>, c: CreatedSource, order: ByteOrder)
    requires
        is_sound_slot(slot),
        slot matches Some(p) && is_source_from(
            c,
            order,
            DecodedStream { fd: p.fd, sample_rate: p.sample_rate, channel_count: p.channel_count },
        ),
    ensures
        c.source@.has_pipe,
        c.pipe == Some(slot->0.fd),
        c.close is None,
{
}

/// A read in the format of the stream gives back the samples that were written into the pipe of
/// a fresh source, in their order.
pub proof fn lemma_written_samples_are_read(
    c: CreatedSource,
    order: ByteOrder,
    stream: DecodedStream,
    samples: Seq<u32>,
    frames: nat,
    i: int,
)
    requires
        c.reads(order, stream),
        stream.is_sound(),
        frames * stream.channel_count <= samples.len(),
        0 <= i < frames * stream.channel_count,
    ensures
        (ReadPlan {
            start: c.source@.position,
            ratio: ratio(stream.sample_rate, stream.sample_rate),
            channels: stream.channel_count as nat,
            target_channels: stream.channel_count as nat,
            frames,
        }).output(fed(c.source@, bytes_of(order, samples)).queue)[i] == samples[i],
{
    let p = ReadPlan {
        start: c.source@.position,
        ratio: ratio(stream.sample_rate, stream.sample_rate),
        channels: stream.channel_count as nat,
        target_channels: stream.channel_count as nat,
        frames,
    };
    lemma_samples_cross_the_pipe(c.source@, samples);
    assert(fed(c.source@, bytes_of(order, samples)).queue =~= samples);
    lemma_equal_formats_read(p, stream.sample_rate, samples, i);
    let ch = stream.channel_count as int;
    lemma_fundamental_div_mod(i, ch);
    lemma_mod_bound(i, ch);
    assert((i / ch + 1) * ch <= frames * ch) by (nonlinear_arith)
        requires
            i == ch * (i / ch) + i % ch,
            i % ch >= 0,
            i < frames * ch,
            ch > 0,
    ;
}

/// Whether an answer says that microphone spoofing is on.
pub open spec fn is_on<E>(answer: Result<bool, E>) -> bool {
    match answer {
        Ok(enabled) => enabled,
        Err(_) => false,
    }
}

/// Whether microphone spoofing is on for a client. A failure to find out counts as off.
pub fn mic_spoofing_is_enabled_for_uid<E>(answer: &Result<bool, E>) -> (r: bool)
    ensures
        r == is_on(*answer),
        r == (answer matches Ok(enabled) && *enabled),
{
    match answer {
        Ok(enabled) => *enabled,
        Err(_) => false,
    }
}

/// A source for a pipe of samples with a sample rate and channels reads that pipe and none other,
/// from its start and in the format of the stream. Without a sample rate or without channels the
/// source is silent, and the pipe has to be closed.
pub proof fn lemma_source_reads_its_pipe(c: CreatedSource, order: ByteOrder, stream: DecodedStream)
    requires
        is_source_from(c, order, stream),
    ensures
        c.source.wf(),
        c.source@.has_pipe <==> stream.sample_rate > 0 && stream.channel_count > 0,
        c.source@.has_pipe ==> {
            &&& c.pipe == Some(stream.fd)
            &&& c.close is None
            &&& c.source@.sample_rate == stream.sample_rate
            &&& c.source@.channels == stream.channel_count
            &&& c.source@.order == order
            &&& c.source@.position == 0
            &&& c.source@.queue.len() == 0
            &&& c.source@.partial.len() == 0
            &&& !c.source@.eof
        },
        !c.source@.has_pipe ==> {
            &&& c.pipe is None
            &&& c.close == Some(stream.fd)
            &&& c.source@.eof
            &&& c.source@.queue.len() == 0
        },
{
}

/// A source that waits goes to whoever asks first. Without one, a stream is started just for the
/// process itself, with the lookup of its own source or, without a decoder factory, the failure
/// of having none; any other client gets silence at once, with nothing to close.
pub proof fn lemma_who_gets_a_source(
    slot: Option<PendingSourceFd>,
    order: ByteOrder,
    uid: i32,
    current_uid: i32,
    has_factory: bool,
    r: CreateStep,
)
    requires
        is_sound_slot(slot),
        follows_create(slot, order, uid, current_uid, has_factory, r),
    ensures
        r is Start <==> slot is None && uid == current_uid,
        r matches CreateStep::Start(first) ==> match first {
            StreamNext::Call(call) => has_factory && (call matches StreamCall::LookUpCustom {
                uid: client,
            } && client == uid),
            StreamNext::Failed(e) => !has_factory && e is NoFactory,
            StreamNext::Started(_) => false,
        },
        r matches CreateStep::Created(c) ==> match slot {
            Some(p) => c.source@.has_pipe && c.pipe == Some(p.fd) && c.close is None
                && c.source@.sample_rate == p.sample_rate && c.source@.channels == p.channel_count,
            None => !c.source@.has_pipe && c.source@.eof && c.source@.queue.len() == 0
                && c.pipe is None && c.close is None,
        },
{
}

/// The source of a start that gave a stream reads the stream's pipe; that of one that failed is
/// silent.
pub proof fn lemma_source_of_a_start(
    c: CreatedSource,
    order: ByteOrder,
    started: Result<DecodedStream, StreamError>,
)
    requires
        is_source_of_start(c, order, started),
        started matches Ok(stream) ==> stream.sample_rate > 0 && stream.channel_count > 0,
    ensures
        c.source@.has_pipe <==> started is Ok,
        started matches Ok(stream) ==> c.pipe == Some(stream.fd) && c.source@.sample_rate
            == stream.sample_rate && c.source@.channels == stream.channel_count,
        started is Err ==> c.pipe is None && c.source@.eof && c.source@.queue.len() == 0,
        c.close is None,
{
}

/// Spoofing is on just where the answer came and says so.
pub proof fn lemma_on_only_if_answered<E>(answer: Result<bool, E>)
    ensures
        is_on(answer) <==> answer == Ok::<bool, E>(true),
        answer is Err ==> !is_on(answer),
{
}

} // verus!
