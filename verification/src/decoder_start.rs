//! How a streaming decoder is started.
//!
//! Starting is driven from outside, as the loops are: a [`StartCall`] names the call to make
//! next, and what it gave back is handed in as the [`StartReply`].
use vstd::prelude::*;
use crate::decoder::{
    check_format, format_change, is_decisive, is_selected, lemma_output_format_is_read,
    output_format, parse_output_format, select_audio_track, track_outcome, OutputAudioFormat,
    SelectedAudioTrack,
};
use crate::decoder_loop::is_usable;
use crate::error::{DecodeError, MediaError};
use crate::media_ndk::MediaFormat;
use crate::text::{contains_nul, has_nul, quote, quoted, same_text};

verus! {

/// A call that starting a decoder needs.
#[derive(Debug)]
pub enum StartCall {
    /// Ask for the length of the source.
    SourceLength,
    /// Make an extractor.
    NewExtractor { source_length: u64 },
    /// Give the source to the extractor.
    SetSource { offset: i64, length: i64 },
    /// Ask the extractor for the formats of its tracks.
    TrackFormats,
    /// Select the track in the extractor.
    SelectTrack { track: SelectedAudioTrack },
    /// Make a codec for the track's media type.
    CreateCodec { track: SelectedAudioTrack },
    /// Configure the codec with the track's format.
    ConfigureCodec { track: SelectedAudioTrack },
    /// Start the codec.
    StartCodec { track: SelectedAudioTrack },
    /// Make the pipe.
    CreatePipe { track: SelectedAudioTrack },
    /// Start the thread. It runs the loop without a codec where the format of unencoded samples
    /// is given, and the loop around the codec otherwise.
    Spawn { raw: Option<OutputAudioFormat>, sample_rate: u32, channel_count: u32 },
}

/// What such a call gave back.
pub enum StartReply {
    Length(Result<u64, DecodeError>),
    Media(Result<(), MediaError>),
    Tracks(Vec<Result<MediaFormat, MediaError>>),
    System(Result<(), DecodeError>),
}

/// What follows.
#[derive(Debug)]
pub enum StartNext {
    /// Make this call.
    Call(StartCall),
    /// The decoder runs and delivers samples of this format.
    Started { sample_rate: u32, channel_count: u32 },
    /// The decoder could not be started.
    Failed(DecodeError),
}

/// Whether a reply is one to a call.
pub open spec fn answers_start(call: StartCall, reply: StartReply) -> bool {
    match call {
        StartCall::SourceLength => reply is Length,
        StartCall::NewExtractor { .. } => reply is Media,
        StartCall::SetSource { .. } => reply is Media,
        StartCall::TrackFormats => reply is Tracks,
        StartCall::SelectTrack { .. } => reply is Media,
        StartCall::CreateCodec { .. } => reply is Media,
        StartCall::ConfigureCodec { .. } => reply is Media,
        StartCall::StartCodec { .. } => reply is Media,
        StartCall::CreatePipe { .. } => reply is System,
        StartCall::Spawn { .. } => reply is System,
    }
}

/// What follows once the pipe is there: a track of unencoded samples is read without the codec,
/// provided that its samples come in the track's own format.
pub open spec fn after_pipe(track: SelectedAudioTrack) -> StartNext {
    if track.mime@ != "audio/raw"@ {
        StartNext::Call(
            StartCall::Spawn {
                raw: None,
                sample_rate: track.sample_rate,
                channel_count: track.channel_count,
            },
        )
    } else {
        match output_format(track.format) {
            Err(e) => StartNext::Failed(e),
            Ok(format) => match format_change(format, track.sample_rate, track.channel_count) {
                Some(change) => StartNext::Failed(DecodeError::RawFormatChanged(change)),
                None => StartNext::Call(
                    StartCall::Spawn {
                        raw: Some(format),
                        sample_rate: track.sample_rate,
                        channel_count: track.channel_count,
                    },
                ),
            },
        }
    }
}

/// Computes [`after_pipe`].
fn choose_loop(track: SelectedAudioTrack) -> (r: StartNext)
    ensures
        r == after_pipe(track),
{
    let sample_rate: u32 = track.sample_rate;
    let channel_count: u32 = track.channel_count;
    if !same_text(track.mime.as_str(), "audio/raw") {
        return StartNext::Call(StartCall::Spawn { raw: None, sample_rate, channel_count });
    }
    match parse_output_format(&track.format) {
        Err(e) => StartNext::Failed(e),
        Ok(format) => {
            match check_format(&format, sample_rate, channel_count) {
                Some(change) => StartNext::Failed(DecodeError::RawFormatChanged(change)),
                None => StartNext::Call(
                    StartCall::Spawn { raw: Some(format), sample_rate, channel_count },
                ),
            }
        },
    }
}

/// Whether a result follows a call and its reply.
pub open spec fn follows_start(call: StartCall, reply: StartReply, r: StartNext) -> bool {
    match (call, reply) {
        (_, StartReply::Length(Err(e))) => r == StartNext::Failed(e),
        (_, StartReply::Media(Err(e))) => r == StartNext::Failed(DecodeError::Media(e)),
        (_, StartReply::System(Err(e))) => r == StartNext::Failed(e),
        (StartCall::SourceLength, StartReply::Length(Ok(source_length))) => r == if source_length
            == 0 {
            StartNext::Failed(DecodeError::EmptySource)
        } else {
            StartNext::Call(StartCall::NewExtractor { source_length })
        },
        (StartCall::NewExtractor { source_length }, _) => r == StartNext::Call(
            StartCall::SetSource { offset: 0, length: source_length as i64 },
        ),
        (StartCall::SetSource { .. }, _) => r == StartNext::Call(StartCall::TrackFormats),
        (StartCall::TrackFormats, StartReply::Tracks(tracks)) => match r {
            StartNext::Call(StartCall::SelectTrack { track }) => is_selected(tracks@, Ok(track)),
            StartNext::Failed(e) => is_selected(tracks@, Err(e)),
            _ => false,
        },
        (StartCall::SelectTrack { track }, _) => if has_nul(track.mime@) {
            r matches StartNext::Failed(DecodeError::Media(MediaError::InvalidMime(mime))) && mime@
                == quoted(track.mime@)
        } else {
            r == StartNext::Call(StartCall::CreateCodec { track })
        },
        (StartCall::CreateCodec { track }, _) => r == StartNext::Call(
            StartCall::ConfigureCodec { track },
        ),
        (StartCall::ConfigureCodec { track }, _) => r == StartNext::Call(
            StartCall::StartCodec { track },
        ),
        (StartCall::StartCodec { track }, _) => r == StartNext::Call(
            StartCall::CreatePipe { track },
        ),
        (StartCall::CreatePipe { track }, _) => r == after_pipe(track),
        (StartCall::Spawn { sample_rate, channel_count, .. }, _) => r == (StartNext::Started {
            sample_rate,
            channel_count,
        }),
        _ => true,
    }
}

/// Goes on with starting a decoder. It begins with [`StartCall::SourceLength`].
pub fn start_decoder_thread(call: StartCall, reply: StartReply) -> (r: StartNext)
    requires
        answers_start(call, reply),
    ensures
        follows_start(call, reply, r),
{
    match (call, reply) {
        (_, StartReply::Length(Err(e))) => StartNext::Failed(e),
        (_, StartReply::Media(Err(e))) => StartNext::Failed(DecodeError::Media(e)),
        (_, StartReply::System(Err(e))) => StartNext::Failed(e),
        (_, StartReply::Length(Ok(source_length))) => {
            if source_length == 0 {
                StartNext::Failed(DecodeError::EmptySource)
            } else {
                StartNext::Call(StartCall::NewExtractor { source_length })
            }
        },
        (StartCall::NewExtractor { source_length }, _) => StartNext::Call(
            StartCall::SetSource { offset: 0, length: source_length as i64 },
        ),
        (StartCall::SetSource { .. }, _) => StartNext::Call(StartCall::TrackFormats),
        (_, StartReply::Tracks(tracks)) => {
            match select_audio_track(tracks) {
                Ok(track) => StartNext::Call(StartCall::SelectTrack { track }),
                Err(e) => StartNext::Failed(e),
            }
        },
        (StartCall::SelectTrack { track }, _) => {
            if contains_nul(track.mime.as_str()) {
                let mime = quote(track.mime.as_str());
                StartNext::Failed(DecodeError::Media(MediaError::InvalidMime(mime)))
            } else {
                StartNext::Call(StartCall::CreateCodec { track })
            }
        },
        (StartCall::CreateCodec { track }, _) => StartNext::Call(StartCall::ConfigureCodec { track }),
        (StartCall::ConfigureCodec { track }, _) => StartNext::Call(StartCall::StartCodec { track }),
        (StartCall::StartCodec { track }, _) => StartNext::Call(StartCall::CreatePipe { track }),
        (StartCall::CreatePipe { track }, _) => choose_loop(track),
        (StartCall::Spawn { sample_rate, channel_count, .. }, _) => StartNext::Started {
            sample_rate,
            channel_count,
        },
        _ => unreached(),
    }
}

/// The track that a call is about, if it is about one.
pub open spec fn track_of(call: StartCall) -> Option<SelectedAudioTrack> {
    match call {
        StartCall::SelectTrack { track } => Some(track),
        StartCall::CreateCodec { track } => Some(track),
        StartCall::ConfigureCodec { track } => Some(track),
        StartCall::StartCodec { track } => Some(track),
        StartCall::CreatePipe { track } => Some(track),
        _ => None,
    }
}

/// What holds whenever a call is made: a track has a sample rate and channels, and so have the
/// samples that a thread is started for, whether the thread uses a codec or not.
pub open spec fn is_sound_start(call: StartCall) -> bool {
    &&& track_of(call) matches Some(track) ==> track.sample_rate > 0 && track.channel_count > 0
    &&& call matches StartCall::Spawn { raw, sample_rate, channel_count } ==> {
        &&& sample_rate > 0
        &&& channel_count > 0
        &&& raw matches Some(format) ==> format.sample_rate == sample_rate && format.channel_count
            == channel_count
    }
}

/// A decoder that was started delivers samples with a sample rate and channels: what holds
/// whenever a call is made is kept from call to call, up to the end.
pub proof fn lemma_started_format(call: StartCall, reply: StartReply, r: StartNext)
    requires
        answers_start(call, reply),
        is_sound_start(call),
        follows_start(call, reply, r),
    ensures
        r matches StartNext::Call(next) ==> is_sound_start(next),
        r matches StartNext::Started { sample_rate, channel_count } ==> sample_rate > 0
            && channel_count > 0,
{
    if let (StartReply::Tracks(tracks), StartNext::Call(StartCall::SelectTrack { track })) = (reply, r) {
        lemma_selected_track(tracks@, track, 0);
    }
}

/// The track that is selected has a sample rate and channels.
proof fn lemma_selected_track(
    tracks: Seq<Result<MediaFormat, MediaError>>,
    track: SelectedAudioTrack,
    i: int,
)
    requires
        is_selected(tracks, Ok(track)),
        0 <= i <= tracks.len(),
        forall|j: int| 0 <= j < i ==> !is_decisive(#[trigger] tracks[j]),
    ensures
        track.sample_rate > 0,
        track.channel_count > 0,
    decreases tracks.len() - i,
{
    if i < tracks.len() {
        if is_decisive(tracks[i]) {
            assert(Ok::<_, DecodeError>(track) == track_outcome(i as usize, tracks[i]));
        } else {
            lemma_selected_track(tracks, track, i + 1);
        }
    }
}

/// How many calls may still follow.
pub open spec fn start_rank(call: StartCall) -> nat {
    match call {
        StartCall::SourceLength => 9,
        StartCall::NewExtractor { .. } => 8,
        StartCall::SetSource { .. } => 7,
        StartCall::TrackFormats => 6,
        StartCall::SelectTrack { .. } => 5,
        StartCall::CreateCodec { .. } => 4,
        StartCall::ConfigureCodec { .. } => 3,
        StartCall::StartCodec { .. } => 2,
        StartCall::CreatePipe { .. } => 1,
        StartCall::Spawn { .. } => 0,
    }
}

/// Starting a decoder makes each call at most once, and in one order.
pub proof fn lemma_start_ends(call: StartCall, reply: StartReply, r: StartNext)
    requires
        answers_start(call, reply),
        follows_start(call, reply, r),
    ensures
        r matches StartNext::Call(next) ==> start_rank(next) < start_rank(call),
{
}

/// What each call of a start would give back.
pub struct StartWorld {
    pub length: Result<u64, DecodeError>,
    pub extractor: Result<(), MediaError>,
    pub source: Result<(), MediaError>,
    pub tracks: Vec<Result<MediaFormat, MediaError>>,
    pub selected: Result<(), MediaError>,
    pub created: Result<(), MediaError>,
    pub configured: Result<(), MediaError>,
    pub started: Result<(), MediaError>,
    pub pipe: Result<(), DecodeError>,
    pub spawned: Result<(), DecodeError>,
}

impl StartWorld {
    /// What a call gives back.
    pub open spec fn reply(self, call: StartCall) -> StartReply {
        match call {
            StartCall::SourceLength => StartReply::Length(self.length),
            StartCall::NewExtractor { .. } => StartReply::Media(self.extractor),
            StartCall::SetSource { .. } => StartReply::Media(self.source),
            StartCall::TrackFormats => StartReply::Tracks(self.tracks),
            StartCall::SelectTrack { .. } => StartReply::Media(self.selected),
            StartCall::CreateCodec { .. } => StartReply::Media(self.created),
            StartCall::ConfigureCodec { .. } => StartReply::Media(self.configured),
            StartCall::StartCodec { .. } => StartReply::Media(self.started),
            StartCall::CreatePipe { .. } => StartReply::System(self.pipe),
            StartCall::Spawn { .. } => StartReply::System(self.spawned),
        }
    }

    /// Whether a start goes through with this track: the source is not empty, the track is the
    /// one that is selected, its media type can be passed on, unencoded samples come in the
    /// format of the track, and every call succeeds.
    pub open spec fn starts_with(self, track: SelectedAudioTrack) -> bool {
        &&& self.length matches Ok(length) && length > 0
        &&& self.extractor is Ok
        &&& self.source is Ok
        &&& is_selected(self.tracks@, Ok(track))
        &&& self.selected is Ok
        &&& !has_nul(track.mime@)
        &&& self.created is Ok
        &&& self.configured is Ok
        &&& self.started is Ok
        &&& self.pipe is Ok
        &&& track.mime@ == "audio/raw"@ ==> (output_format(track.format) matches Ok(format)
            && format.sample_rate == track.sample_rate && format.channel_count
            == track.channel_count)
        &&& self.spawned is Ok
    }
}

/// What follows call `i` of a start.
pub open spec fn next_of(calls: Seq<StartCall>, end: StartNext, i: int) -> StartNext {
    if i + 1 < calls.len() {
        StartNext::Call(calls[i + 1])
    } else {
        end
    }
}

/// Whether calls follow each other from the first call of a start on, and end so.
pub open spec fn is_start_run(world: StartWorld, calls: Seq<StartCall>, end: StartNext) -> bool {
    &&& calls.len() > 0
    &&& calls[0] is SourceLength
    &&& forall|i: int|
        0 <= i < calls.len() ==> follows_start(
            calls[i],
            world.reply(calls[i]),
            #[trigger] next_of(calls, end, i),
        )
    &&& !(end is Call)
}

/// The choice among tracks is determined.
proof fn lemma_selection_determined(
    tracks: Seq<Result<MediaFormat, MediaError>>,
    a: Result<SelectedAudioTrack, DecodeError>,
    b: Result<SelectedAudioTrack, DecodeError>,
    i: int,
)
    requires
        is_selected(tracks, a),
        is_selected(tracks, b),
        0 <= i <= tracks.len(),
        forall|j: int| 0 <= j < i ==> !is_decisive(#[trigger] tracks[j]),
    ensures
        a == b,
    decreases tracks.len() - i,
{
    if i < tracks.len() {
        if is_decisive(tracks[i]) {
            assert(a == track_outcome(i as usize, tracks[i]));
            assert(b == track_outcome(i as usize, tracks[i]));
        } else {
            lemma_selection_determined(tracks, a, b, i + 1);
        }
    }
}

/// A start goes through exactly when its source is not empty, the first audio track is a proper
/// one, its media type can be passed on, unencoded samples come in the format of the track, and
/// every call succeeds. The sample rate and the channel count are then those of that track.
pub proof fn lemma_start_outcome(world: StartWorld, calls: Seq<StartCall>, end: StartNext)
    requires
        is_start_run(world, calls, end),
    ensures
        end is Started || end is Failed,
        end is Started <==> exists|track: SelectedAudioTrack| world.starts_with(track),
        forall|track: SelectedAudioTrack| #[trigger]
            world.starts_with(track) ==> end == (StartNext::Started {
                sample_rate: track.sample_rate,
                channel_count: track.channel_count,
            }),
{
    assert forall|track: SelectedAudioTrack| #[trigger] world.starts_with(track) implies end == (
    StartNext::Started { sample_rate: track.sample_rate, channel_count: track.channel_count }) by {
        lemma_start_goes_through_with(world, calls, end, track);
    }
    if end is Started {
        let track = lemma_started_with(world, calls, end);
        assert(world.starts_with(track));
    }
}

/// A start goes through with the track that it can go through with.
proof fn lemma_start_goes_through_with(
    world: StartWorld,
    calls: Seq<StartCall>,
    end: StartNext,
    track: SelectedAudioTrack,
)
    requires
        is_start_run(world, calls, end),
        world.starts_with(track),
    ensures
        end == (StartNext::Started {
            sample_rate: track.sample_rate,
            channel_count: track.channel_count,
        }),
{
    lemma_start_goes_on(world, calls, end);
    lemma_start_goes_through(world, calls, end);
    let tracks = world.tracks@;
    let chosen: Result<SelectedAudioTrack, DecodeError> = if calls.len() > 4 && calls[4] is SelectTrack {
        Ok(calls[4]->SelectTrack_track)
    } else {
        Err(end->Failed_0)
    };
    lemma_selection_determined(tracks, Ok(track), chosen, 0);
}

/// The track that a start went through with.
proof fn lemma_started_with(world: StartWorld, calls: Seq<StartCall>, end: StartNext) -> (track:
    SelectedAudioTrack)
    requires
        is_start_run(world, calls, end),
        end is Started,
    ensures
        world.starts_with(track),
{
    lemma_start_goes_on(world, calls, end);
    lemma_start_goes_through(world, calls, end);
    calls[4]->SelectTrack_track
}

/// The calls of a start up to the choice of a track.
proof fn lemma_start_goes_on(world: StartWorld, calls: Seq<StartCall>, end: StartNext)
    requires
        is_start_run(world, calls, end),
    ensures
        ({
            let open = (world.length matches Ok(length) && length > 0) && world.extractor is Ok
                && world.source is Ok;
            &&& !open ==> end is Failed
            &&& open ==> (if calls.len() > 4 && calls[4] is SelectTrack {
                is_selected(world.tracks@, Ok(calls[4]->SelectTrack_track))
            } else {
                end matches StartNext::Failed(e) && is_selected(world.tracks@, Err(e))
            })
        }),
{
    let n0 = next_of(calls, end, 0);
    let n1 = next_of(calls, end, 1);
    let n2 = next_of(calls, end, 2);
    let n3 = next_of(calls, end, 3);
    assert(follows_start(calls[0], world.reply(calls[0]), n0));
    if calls.len() > 1 {
        assert(follows_start(calls[1], world.reply(calls[1]), n1));
    }
    if calls.len() > 2 {
        assert(follows_start(calls[2], world.reply(calls[2]), n2));
    }
    if calls.len() > 3 {
        assert(follows_start(calls[3], world.reply(calls[3]), n3));
    }
}

/// The calls of a start from the choice of a track on.
proof fn lemma_start_goes_through(world: StartWorld, calls: Seq<StartCall>, end: StartNext)
    requires
        is_start_run(world, calls, end),
    ensures
        calls.len() > 4 && calls[4] is SelectTrack ==> ({
            let track = calls[4]->SelectTrack_track;
            if world.selected is Ok && !has_nul(track.mime@) && world.created is Ok
                && world.configured is Ok && world.started is Ok && world.pipe is Ok && (
            track.mime@ == "audio/raw"@ ==> (output_format(track.format) matches Ok(format)
                && format.sample_rate == track.sample_rate && format.channel_count
                == track.channel_count)) && world.spawned is Ok {
                end == (StartNext::Started {
                    sample_rate: track.sample_rate,
                    channel_count: track.channel_count,
                })
            } else {
                end is Failed
            }
        }),
{
    let n4 = next_of(calls, end, 4);
    let n5 = next_of(calls, end, 5);
    let n6 = next_of(calls, end, 6);
    let n7 = next_of(calls, end, 7);
    let n8 = next_of(calls, end, 8);
    let n9 = next_of(calls, end, 9);
    if calls.len() > 4 {
        assert(follows_start(calls[4], world.reply(calls[4]), n4));
    }
    if calls.len() > 5 {
        assert(follows_start(calls[5], world.reply(calls[5]), n5));
    }
    if calls.len() > 6 {
        assert(follows_start(calls[6], world.reply(calls[6]), n6));
    }
    if calls.len() > 7 {
        assert(follows_start(calls[7], world.reply(calls[7]), n7));
    }
    if calls.len() > 8 {
        assert(follows_start(calls[8], world.reply(calls[8]), n8));
    }
    if calls.len() > 9 {
        assert(follows_start(calls[9], world.reply(calls[9]), n9));
    }
}

/// The first call of a start for a caller: it needs a source and room for both outputs.
pub open spec fn first_call(
    source_fd: i32,
    has_out_sample_rate: bool,
    has_out_channel_count: bool,
) -> Option<StartCall> {
    if source_fd >= 0 && has_out_sample_rate && has_out_channel_count {
        Some(StartCall::SourceLength)
    } else {
        None
    }
}

/// The descriptor that a refused caller handed in, if it is one. It belongs to the decoder
/// although nothing is started, and has to be closed.
pub open spec fn refused(source_fd: i32) -> Option<i32> {
    if source_fd >= 0 {
        Some(source_fd)
    } else {
        None
    }
}

/// Decides whether a decoder is started for a caller: it needs a source and room for both
/// outputs. Without them the answer is [`crate::stream::refuse_call`], and
/// [`refused_descriptor`] names what has to be closed.
pub fn mic_spoofing_decoder_start(
    source_fd: i32,
    has_out_sample_rate: bool,
    has_out_channel_count: bool,
) -> (r: Option<StartCall>)
    ensures
        r == first_call(source_fd, has_out_sample_rate, has_out_channel_count),
{
    if source_fd < 0 || !has_out_sample_rate || !has_out_channel_count {
        return None;
    }
    Some(StartCall::SourceLength)
}

/// The descriptor that has to be closed when a caller is refused.
pub fn refused_descriptor(source_fd: i32) -> (r: Option<i32>)
    ensures
        r == refused(source_fd),
{
    if source_fd >= 0 {
        Some(source_fd)
    } else {
        None
    }
}

/// A descriptor that is handed in is never lost: either a start goes on with it, or it is the
/// one that has to be closed.
pub proof fn lemma_source_is_started_or_closed(
    source_fd: i32,
    has_out_sample_rate: bool,
    has_out_channel_count: bool,
)
    requires
        source_fd >= 0,
    ensures
        first_call(source_fd, has_out_sample_rate, has_out_channel_count) is None ==> refused(source_fd)
            == Some(source_fd) && !(has_out_sample_rate && has_out_channel_count),
        first_call(source_fd, has_out_sample_rate, has_out_channel_count) is Some
            ==> has_out_sample_rate && has_out_channel_count,
{
}

/// Whether a thread is started on the loop that fits a track: the loop without a codec just where
/// the track's media type is that of unencoded samples, and then with the encoding that the
/// track's own format names, or 16 bits; the loop around the codec for any other media type.
pub open spec fn is_loop_of(track: SelectedAudioTrack, call: StartCall) -> bool {
    call matches StartCall::Spawn { raw, sample_rate, channel_count } && {
        &&& sample_rate == track.sample_rate
        &&& channel_count == track.channel_count
        &&& raw is Some <==> track.mime@ == "audio/raw"@
        &&& raw matches Some(format) ==> {
            &&& format.sample_rate == track.sample_rate
            &&& format.channel_count == track.channel_count
            &&& track.format.sample_rate matches Some(n) && n == format.sample_rate
            &&& track.format.channel_count matches Some(n) && n == format.channel_count
            &&& format.pcm_encoding == match track.format.pcm_encoding {
                Some(e) => e,
                None => 2,
            }
        }
    }
}

/// The thread runs the loop that fits the track. There is always one, except for unencoded
/// samples whose format cannot be used.
pub proof fn lemma_loop_fits_track(track: SelectedAudioTrack, reply: StartReply, r: StartNext)
    requires
        reply matches StartReply::System(Ok(_)),
        follows_start(StartCall::CreatePipe { track }, reply, r),
    ensures
        r matches StartNext::Call(call) ==> is_loop_of(track, call),
        r is Call || r is Failed,
        r is Failed <==> track.mime@ == "audio/raw"@ && !is_usable(
            Ok(track.format),
            track.sample_rate,
            track.channel_count,
        ),
        r matches StartNext::Failed(e) ==> match output_format(track.format) {
            Err(fault) => e == fault,
            Ok(_) => e matches DecodeError::RawFormatChanged(c) && Some(c.sample_rate as i32)
                == track.format.sample_rate && Some(c.channel_count as i32)
                == track.format.channel_count && c.expected_sample_rate == track.sample_rate
                && c.expected_channel_count == track.channel_count,
        },
{
    lemma_output_format_is_read(track.format);
}

/// A start fails only for a cause: a call that failed, an empty source, a source without a proper
/// audio track, a media type that cannot be passed on, or unencoded samples in a format that
/// cannot be used. The failure of a call is passed on as it is.
pub proof fn lemma_start_fails_only_for_a_cause(call: StartCall, reply: StartReply, r: StartNext)
    requires
        answers_start(call, reply),
        follows_start(call, reply, r),
    ensures
        r is Failed <==> {
            ||| reply matches StartReply::Length(Err(_))
            ||| reply matches StartReply::Media(Err(_))
            ||| reply matches StartReply::System(Err(_))
            ||| reply matches StartReply::Length(Ok(length)) && length == 0
            ||| reply matches StartReply::Tracks(tracks) && !exists|track: SelectedAudioTrack|
                is_selected(tracks@, Ok(track))
            ||| call matches StartCall::SelectTrack { track } && exists|i: int|
                0 <= i < track.mime@.len() && track.mime@[i] == '\0'
            ||| call matches StartCall::CreatePipe { track } && track.mime@ == "audio/raw"@
                && !is_usable(Ok(track.format), track.sample_rate, track.channel_count)
        },
        reply matches StartReply::Length(Err(e)) ==> r == StartNext::Failed(e),
        reply matches StartReply::Media(Err(e)) ==> r == StartNext::Failed(DecodeError::Media(e)),
        reply matches StartReply::System(Err(e)) ==> r == StartNext::Failed(e),
        reply matches StartReply::Length(Ok(length)) ==> length == 0 ==> r == StartNext::Failed(
            DecodeError::EmptySource,
        ),
        reply matches StartReply::Tracks(tracks) ==> (r matches StartNext::Failed(e) ==> is_selected(
            tracks@,
            Err(e),
        )),
        call matches StartCall::SelectTrack { track } ==> !(reply matches StartReply::Media(Err(_)))
            ==> (r matches StartNext::Failed(e) ==> (e matches DecodeError::Media(below) && (
        below matches MediaError::InvalidMime(mime) && mime@ == quoted(track.mime@)))),
{
    match (call, reply) {
        (StartCall::CreatePipe { track }, StartReply::System(Ok(_))) => {
            lemma_loop_fits_track(track, reply, r);
        },
        (StartCall::TrackFormats, StartReply::Tracks(tracks)) => {
            if let StartNext::Failed(e) = r {
                if exists|track: SelectedAudioTrack| is_selected(tracks@, Ok(track)) {
                    let track = choose|track: SelectedAudioTrack| is_selected(tracks@, Ok(track));
                    lemma_selection_determined(tracks@, Ok(track), Err(e), 0);
                }
            }
        },
        (StartCall::SelectTrack { track }, StartReply::Media(Ok(_))) => {
            if has_nul(track.mime@) {
                let i = choose|i: int| 0 <= i < track.mime@.len() && track.mime@[i] == '\0';
                assert(track.mime@[i] == '\0');
            }
        },
        _ => {},
    }
}

/// A start that did not fail goes from call to call in one order. The extractor is given all of
/// the source, the calls from the choice of a track on are about that track, and what is
/// delivered is what the thread was started for.
pub proof fn lemma_start_steps(call: StartCall, reply: StartReply, r: StartNext)
    requires
        answers_start(call, reply),
        follows_start(call, reply, r),
        !(r is Failed),
    ensures
        match call {
            StartCall::SourceLength => r matches StartNext::Call(next) && (
            next matches StartCall::NewExtractor { source_length } && reply == StartReply::Length(
                Ok::<_, DecodeError>(source_length),
            )),
            StartCall::NewExtractor { source_length } => r matches StartNext::Call(next) && (
            next matches StartCall::SetSource { offset, length } && offset == 0 && length
                == source_length as i64),
            StartCall::SetSource { .. } => r == StartNext::Call(StartCall::TrackFormats),
            StartCall::TrackFormats => r matches StartNext::Call(next) && next is SelectTrack,
            StartCall::SelectTrack { track } => r matches StartNext::Call(next) && next
                is CreateCodec && track_of(next) == Some(track),
            StartCall::CreateCodec { track } => r matches StartNext::Call(next) && next
                is ConfigureCodec && track_of(next) == Some(track),
            StartCall::ConfigureCodec { track } => r matches StartNext::Call(next) && next
                is StartCodec && track_of(next) == Some(track),
            StartCall::StartCodec { track } => r matches StartNext::Call(next) && next
                is CreatePipe && track_of(next) == Some(track),
            StartCall::CreatePipe { track } => r matches StartNext::Call(next) && is_loop_of(
                track,
                next,
            ),
            StartCall::Spawn { sample_rate, channel_count, .. } => r == (StartNext::Started {
                sample_rate,
                channel_count,
            }),
        },
{
    if let StartCall::CreatePipe { track } = call {
        lemma_loop_fits_track(track, reply, r);
    }
}

/// In every start that goes through there is one track, the first audio track. It is what the
/// extractor selects, what the codec is made, configured and started for, and the thread runs
/// the loop that fits it.
pub proof fn lemma_started_on_the_loop_of_the_track(
    world: StartWorld,
    calls: Seq<StartCall>,
    end: StartNext,
)
    requires
        is_start_run(world, calls, end),
        end is Started,
    ensures
        calls.len() == 10,
        ({
            let track = calls[4]->SelectTrack_track;
            &&& is_selected(world.tracks@, Ok(track))
            &&& calls[4] == StartCall::SelectTrack { track }
            &&& calls[5] == StartCall::CreateCodec { track }
            &&& calls[6] == StartCall::ConfigureCodec { track }
            &&& calls[7] == StartCall::StartCodec { track }
            &&& calls[8] == StartCall::CreatePipe { track }
            &&& is_loop_of(track, calls[9])
            &&& end == (StartNext::Started {
                sample_rate: track.sample_rate,
                channel_count: track.channel_count,
            })
        }),
{
    lemma_start_goes_on(world, calls, end);
    lemma_start_goes_through(world, calls, end);
    lemma_run_step(world, calls, end, 0);
    lemma_run_step(world, calls, end, 1);
    lemma_run_step(world, calls, end, 2);
    lemma_run_step(world, calls, end, 3);
    lemma_run_step(world, calls, end, 4);
    lemma_run_step(world, calls, end, 5);
    lemma_run_step(world, calls, end, 6);
    lemma_run_step(world, calls, end, 7);
    lemma_run_step(world, calls, end, 8);
    lemma_run_step(world, calls, end, 9);
}

/// A call of a start that goes through is followed by its successor.
proof fn lemma_run_step(world: StartWorld, calls: Seq<StartCall>, end: StartNext, i: int)
    requires
        is_start_run(world, calls, end),
        end is Started,
        0 <= i < calls.len(),
    ensures
        calls[i] is Spawn <==> i + 1 == calls.len(),
        i + 1 < calls.len() ==> match calls[i] {
            StartCall::SourceLength => calls[i + 1] is NewExtractor,
            StartCall::NewExtractor { .. } => calls[i + 1] is SetSource,
            StartCall::SetSource { .. } => calls[i + 1] is TrackFormats,
            StartCall::TrackFormats => calls[i + 1] is SelectTrack,
            StartCall::SelectTrack { track } => calls[i + 1] == StartCall::CreateCodec { track },
            StartCall::CreateCodec { track } => calls[i + 1] == StartCall::ConfigureCodec { track },
            StartCall::ConfigureCodec { track } => calls[i + 1] == StartCall::StartCodec { track },
            StartCall::StartCodec { track } => calls[i + 1] == StartCall::CreatePipe { track },
            StartCall::CreatePipe { track } => is_loop_of(track, calls[i + 1]),
            StartCall::Spawn { .. } => false,
        },
{
    let r = next_of(calls, end, i);
    assert(follows_start(calls[i], world.reply(calls[i]), r));
    lemma_start_steps(calls[i], world.reply(calls[i]), r);
}

/// A decoder is started for a caller just where it hands in a source and room for both outputs,
/// and the first call is then for the length of the source.
pub proof fn lemma_callers_are_served(
    source_fd: i32,
    has_out_sample_rate: bool,
    has_out_channel_count: bool,
)
    ensures
        first_call(source_fd, has_out_sample_rate, has_out_channel_count) == Some(
            StartCall::SourceLength,
        ) <==> source_fd >= 0 && has_out_sample_rate && has_out_channel_count,
        first_call(source_fd, has_out_sample_rate, has_out_channel_count) is None <==> source_fd < 0
            || !has_out_sample_rate || !has_out_channel_count,
        refused(source_fd) is Some <==> source_fd >= 0,
        refused(source_fd) matches Some(fd) ==> fd == source_fd,
{
}

} // verus!
