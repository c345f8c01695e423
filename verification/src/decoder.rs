//! What the streaming decoder makes of the source's formats, times and samples.
use vstd::prelude::*;
use vstd::slice::*;
use vstd::string::*;
use crate::adapter::{fed, SourceView};
use crate::bytes::{
    bytes_of, lemma_words_round_trip, words_to_bytes, ByteOrder,
};
use crate::error::{DecodeError, FormatChange, MediaError, Parameter};
use crate::media_ndk::MediaFormat;
use crate::pcm::{
    encoded_size, PCM_ENCODING_PCM_16BIT, PCM_ENCODING_PCM_24BIT_PACKED, PCM_ENCODING_PCM_32BIT,
    PCM_ENCODING_PCM_8BIT, PCM_ENCODING_PCM_FLOAT,
};
use crate::text::starts_with;

verus! {

/// How long the codec is waited for, in microseconds.
pub const CODEC_TIMEOUT_US: i64 = 10_000;

/// The error number of a pipe that nobody reads any more.
pub const EPIPE: i32 = 32;

/// The audio track that is decoded.
#[derive(Debug)]
pub struct SelectedAudioTrack {
    pub index: usize,
    pub mime: String,
    pub sample_rate: u32,
    pub channel_count: u32,
    pub description: String,
    pub format: MediaFormat,
}

/// The format of decoded samples.
#[derive(Clone, Copy, Debug, PartialEq, Eq, Structural)]
pub struct OutputAudioFormat {
    pub sample_rate: u32,
    pub channel_count: u32,
    pub pcm_encoding: i32,
}

/// Why a decoder stops.
#[derive(Debug)]
pub enum DecoderThreadExit {
    /// Nobody reads the samples any more.
    ConsumerClosed,
    /// Something went wrong.
    Fatal(DecodeError),
}

/// How a decoder thread was seen to end.
#[derive(Debug)]
pub enum ObservedDecoderThreadExit {
    Completed,
    ConsumerClosed,
    Fatal(String),
    Panicked,
}

/// A number of a format, which has to be there and to be positive.
pub open spec fn positive(value: Option<i32>, parameter: Parameter) -> Result<u32, DecodeError> {
    match value {
        None => Err(DecodeError::Missing(parameter)),
        Some(value) => if value <= 0 {
            Err(DecodeError::Invalid { parameter, value })
        } else {
            Ok(value as u32)
        },
    }
}

/// Computes [`positive`].
pub fn parse_positive_u32(value: Option<i32>, parameter: Parameter) -> (r: Result<u32, DecodeError>)
    ensures
        r == positive(value, parameter),
{
    match value {
        None => Err(DecodeError::Missing(parameter)),
        Some(value) => {
            if value <= 0 {
                Err(DecodeError::Invalid { parameter, value })
            } else {
                Ok(value as u32)
            }
        },
    }
}

/// The encoding that a format names, or 16 bits if it names none.
pub open spec fn named_encoding(format: MediaFormat) -> i32 {
    match format.pcm_encoding {
        Some(e) => e,
        None => PCM_ENCODING_PCM_16BIT,
    }
}

/// The format of decoded samples: the sample rate is looked at first, then the channel count,
/// then the encoding.
pub open spec fn output_format(format: MediaFormat) -> Result<OutputAudioFormat, DecodeError> {
    match positive(format.sample_rate, Parameter::OutputSampleRate) {
        Err(e) => Err(e),
        Ok(sample_rate) => match positive(format.channel_count, Parameter::OutputChannelCount) {
            Err(e) => Err(e),
            Ok(channel_count) => if encoded_size(named_encoding(format)) == 0 {
                Err(DecodeError::UnsupportedEncoding(named_encoding(format)))
            } else {
                Ok(
                    OutputAudioFormat {
                        sample_rate,
                        channel_count,
                        pcm_encoding: named_encoding(format),
                    },
                )
            },
        },
    }
}

/// Computes [`output_format`].
pub fn parse_output_format(format: &MediaFormat) -> (r: Result<OutputAudioFormat, DecodeError>)
    ensures
        r == output_format(*format),
{
    let sample_rate: u32 = match parse_positive_u32(format.sample_rate, Parameter::OutputSampleRate) {
        Ok(v) => v,
        Err(e) => return Err(e),
    };
    let channel_count: u32 = match parse_positive_u32(
        format.channel_count,
        Parameter::OutputChannelCount,
    ) {
        Ok(v) => v,
        Err(e) => return Err(e),
    };
    let pcm_encoding: i32 = match format.pcm_encoding {
        Some(e) => e,
        None => PCM_ENCODING_PCM_16BIT,
    };
    match pcm_encoding {
        PCM_ENCODING_PCM_8BIT
        | PCM_ENCODING_PCM_16BIT
        | PCM_ENCODING_PCM_FLOAT
        | PCM_ENCODING_PCM_24BIT_PACKED
        | PCM_ENCODING_PCM_32BIT => Ok(OutputAudioFormat { sample_rate, channel_count, pcm_encoding }),
        other => Err(DecodeError::UnsupportedEncoding(other)),
    }
}

/// How a format differs from the one that was promised, if it does.
pub open spec fn format_change(
    format: OutputAudioFormat,
    expected_sample_rate: u32,
    expected_channel_count: u32,
) -> Option<FormatChange> {
    if format.sample_rate != expected_sample_rate || format.channel_count != expected_channel_count {
        Some(
            FormatChange {
                sample_rate: format.sample_rate,
                channel_count: format.channel_count,
                expected_sample_rate,
                expected_channel_count,
            },
        )
    } else {
        None
    }
}

/// Computes [`format_change`].
pub fn check_format(
    format: &OutputAudioFormat,
    expected_sample_rate: u32,
    expected_channel_count: u32,
) -> (r: Option<FormatChange>)
    ensures
        r == format_change(*format, expected_sample_rate, expected_channel_count),
{
    if format.sample_rate != expected_sample_rate || format.channel_count != expected_channel_count {
        Some(
            FormatChange {
                sample_rate: format.sample_rate,
                channel_count: format.channel_count,
                expected_sample_rate,
                expected_channel_count,
            },
        )
    } else {
        None
    }
}

/// Whether a track is an audio track.
pub open spec fn is_audio(format: MediaFormat) -> bool {
    format.mime matches Some(mime) && "audio/"@.is_prefix_of(mime@)
}

/// Whether the choice of a track ends with this one.
pub open spec fn is_decisive(track: Result<MediaFormat, MediaError>) -> bool {
    match track {
        Ok(format) => is_audio(format),
        Err(_) => true,
    }
}

/// What comes of a decisive track.
pub open spec fn track_outcome(index: usize, track: Result<MediaFormat, MediaError>) -> Result<
    SelectedAudioTrack,
    DecodeError,
> {
    match track {
        Err(e) => Err(DecodeError::Media(e)),
        Ok(format) => match positive(format.sample_rate, Parameter::SampleRate) {
            Err(e) => Err(e),
            Ok(sample_rate) => match positive(format.channel_count, Parameter::ChannelCount) {
                Err(e) => Err(e),
                Ok(channel_count) => Ok(
                    SelectedAudioTrack {
                        index,
                        mime: format.mime->0,
                        sample_rate,
                        channel_count,
                        description: format.description,
                        format,
                    },
                ),
            },
        },
    }
}

/// Whether a result is the choice among tracks: that of the first decisive track, or that there
/// is no audio track.
pub open spec fn is_selected(
    tracks: Seq<Result<MediaFormat, MediaError>>,
    r: Result<SelectedAudioTrack, DecodeError>,
) -> bool {
    &&& (forall|i: int| 0 <= i < tracks.len() ==> !is_decisive(#[trigger] tracks[i])) ==> r == Err::<
        SelectedAudioTrack,
        _,
    >(DecodeError::NoAudioTrack)
    &&& forall|i: int|
        0 <= i < tracks.len() && is_decisive(#[trigger] tracks[i]) && (forall|j: int|
            0 <= j < i ==> !is_decisive(#[trigger] tracks[j])) ==> r == track_outcome(
            i as usize,
            tracks[i],
        )
}

/// Picks the first audio track.
///
/// A track whose format cannot be had ends the search, as does an audio track without a proper
/// sample rate or channel count.
pub fn select_audio_track(tracks: Vec<Result<MediaFormat, MediaError>>) -> (r: Result<
    SelectedAudioTrack,
    DecodeError,
>)
    ensures
        is_selected(tracks@, r),
{
    let mut rest = tracks;
    let mut index: usize = 0;
    let count: usize = rest.len();
    while rest.len() > 0
        invariant
            index + rest@.len() == tracks@.len() == count,
            rest@ == tracks@.skip(index as int),
            forall|j: int| 0 <= j < index ==> !is_decisive(#[trigger] tracks@[j]),
        decreases rest@.len(),
    {
        let track = rest.remove(0);
        assert(track == tracks@[index as int]);
        match track {
            Err(e) => {
                return Err(DecodeError::Media(e));
            },
            Ok(format) => {
                let audio = match &format.mime {
                    Some(mime) => starts_with(mime.as_str(), "audio/"),
                    None => false,
                };
                assert(audio == is_audio(format));
                if audio {
                    let sample_rate: u32 = match parse_positive_u32(
                        format.sample_rate,
                        Parameter::SampleRate,
                    ) {
                        Ok(v) => v,
                        Err(e) => return Err(e),
                    };
                    let channel_count: u32 = match parse_positive_u32(
                        format.channel_count,
                        Parameter::ChannelCount,
                    ) {
                        Ok(v) => v,
                        Err(e) => return Err(e),
                    };
                    let mime = match &format.mime {
                        Some(mime) => mime.clone(),
                        None => String::new(),
                    };
                    let description = format.description.clone();
                    return Ok(
                        SelectedAudioTrack {
                            index,
                            mime,
                            sample_rate,
                            channel_count,
                            description,
                            format,
                        },
                    );
                }
            },
        }
        index = index + 1;
        assert(rest@ =~= tracks@.skip(index as int));
    }
    Err(DecodeError::NoAudioTrack)
}

/// The time that a sample is queued with, so that times do not run backwards.
pub open spec fn normalized_time(sample_time_us: i64, last: Option<i64>) -> i64 {
    match last {
        None => if sample_time_us < 0 {
            0
        } else {
            sample_time_us
        },
        Some(last) => if sample_time_us > last {
            sample_time_us
        } else if last == i64::MAX {
            last
        } else {
            (last + 1) as i64
        },
    }
}

/// Queued times start at zero or later and grow from sample to sample, as long as there is a
/// later time.
pub proof fn lemma_times_grow(sample_time_us: i64, last: Option<i64>)
    requires
        last matches Some(t) ==> t >= 0,
    ensures
        normalized_time(sample_time_us, last) >= 0,
        last matches Some(t) ==> normalized_time(sample_time_us, last) > t || t == i64::MAX,
{
}

/// Computes [`normalized_time`].
pub fn normalize_sample_time_us(sample_time_us: i64, last_queued_sample_time_us: Option<i64>) -> (r:
    i64)
    ensures
        r == normalized_time(sample_time_us, last_queued_sample_time_us),
{
    match last_queued_sample_time_us {
        None => {
            if sample_time_us < 0 {
                0
            } else {
                sample_time_us
            }
        },
        Some(last) => {
            if sample_time_us <= last {
                if last == i64::MAX {
                    last
                } else {
                    last + 1
                }
            } else {
                sample_time_us
            }
        },
    }
}

/// The outcome of one attempt to write the pipe.
pub enum PipeWrite {
    /// So many bytes were taken.
    Written(usize),
    /// The write failed.
    Failed { interrupted: bool, os_error: Option<i32>, message: String },
}

/// What became of an attempt to write the pipe.
#[derive(Debug)]
pub enum WriteProgress {
    /// There is more to write.
    More,
    /// Everything is written.
    Done,
    /// Writing is over for good.
    Exit(DecoderThreadExit),
}

/// Samples on their way into the pipe.
#[derive(Debug)]
pub struct SampleWriter {
    bytes: Vec<u8>,
    written: usize,
}

impl SampleWriter {
    /// The bytes that are still to be written.
    pub closed spec fn remaining(self) -> Seq<u8> {
        self.bytes@.skip(self.written as int)
    }

    pub closed spec fn wf(self) -> bool {
        self.written <= self.bytes@.len()
    }

    /// Starts to write samples.
    pub fn new(order: ByteOrder, samples: &[u32]) -> (r: SampleWriter)
        ensures
            r.wf(),
            r.remaining() == bytes_of(order, samples@),
    {
        let r = SampleWriter { bytes: words_to_bytes(order, samples), written: 0 };
        assert(r.remaining() =~= bytes_of(order, samples@));
        r
    }

    /// The bytes to offer to the pipe.
    pub fn pending(&self) -> (r: &[u8])
        requires
            self.wf(),
        ensures
            r@ == self.remaining(),
    {
        let r = slice_subrange(self.bytes.as_slice(), self.written, self.bytes.len());
        assert(r@ =~= self.remaining());
        r
    }

    /// Takes in the outcome of an attempt to write.
    ///
    /// An interrupted write is made again, a pipe that nobody reads ends the decoder quietly,
    /// and any other failure ends it with an error.
    pub fn write_f32_samples(&mut self, event: PipeWrite) -> (r: WriteProgress)
        requires
            old(self).wf(),
        ensures
            final(self).wf(),
            final(self).remaining() == match event {
                PipeWrite::Written(n) => left(old(self).remaining(), seq![n]),
                PipeWrite::Failed { .. } => old(self).remaining(),
            },
            match event {
                PipeWrite::Written(_) => r == if final(self).remaining().len() == 0 {
                    WriteProgress::Done
                } else {
                    WriteProgress::More
                },
                PipeWrite::Failed { interrupted, os_error, message } => r == if interrupted {
                    WriteProgress::More
                } else if os_error == Some(EPIPE) {
                    WriteProgress::Exit(DecoderThreadExit::ConsumerClosed)
                } else {
                    WriteProgress::Exit(DecoderThreadExit::Fatal(DecodeError::PipeWrite(message)))
                },
            },
    {
        match event {
            PipeWrite::Written(n) => {
                let most: usize = self.bytes.len() - self.written;
                let taken: usize = if n < most {
                    n
                } else {
                    most
                };
                self.written = self.written + taken;
                proof {
                    reveal_with_fuel(left, 2);
                    assert(self.remaining() =~= old(self).remaining().skip(taken as int));
                    assert(left(old(self).remaining(), seq![n]) == self.remaining());
                }
                if self.written == self.bytes.len() {
                    WriteProgress::Done
                } else {
                    WriteProgress::More
                }
            },
            PipeWrite::Failed { interrupted, os_error, message } => {
                if interrupted {
                    return WriteProgress::More;
                }
                match os_error {
                    Some(EPIPE) => WriteProgress::Exit(DecoderThreadExit::ConsumerClosed),
                    _ => WriteProgress::Exit(DecoderThreadExit::Fatal(DecodeError::PipeWrite(message))),
                }
            },
        }
    }
}

/// The bytes that the pipe has taken after some writes, each of which took up to so many.
pub open spec fn taken(bytes: Seq<u8>, writes: Seq<usize>) -> Seq<u8>
    decreases writes.len(),
{
    if writes.len() == 0 {
        Seq::empty()
    } else {
        let n = if writes[0] < bytes.len() {
            writes[0] as int
        } else {
            bytes.len() as int
        };
        bytes.take(n) + taken(bytes.skip(n), writes.drop_first())
    }
}

/// The bytes that are left after some writes, each of which took up to so many.
pub open spec fn left(bytes: Seq<u8>, writes: Seq<usize>) -> Seq<u8>
    decreases writes.len(),
{
    if writes.len() == 0 {
        bytes
    } else {
        let n = if writes[0] < bytes.len() {
            writes[0] as int
        } else {
            bytes.len() as int
        };
        left(bytes.skip(n), writes.drop_first())
    }
}

/// However the pipe cuts the bytes up, it takes them in their order, and none is lost or taken
/// twice: what was taken and what is left are the bytes.
pub proof fn lemma_writes_keep_the_bytes(bytes: Seq<u8>, writes: Seq<usize>)
    ensures
        taken(bytes, writes) + left(bytes, writes) == bytes,
    decreases writes.len(),
{
    if writes.len() == 0 {
        assert(taken(bytes, writes) + left(bytes, writes) =~= bytes);
    } else {
        let n = if writes[0] < bytes.len() {
            writes[0] as int
        } else {
            bytes.len() as int
        };
        let rest = bytes.skip(n);
        lemma_writes_keep_the_bytes(rest, writes.drop_first());
        assert(taken(bytes, writes) + left(bytes, writes) =~= bytes.take(n) + (taken(
            rest,
            writes.drop_first(),
        ) + left(rest, writes.drop_first())));
        assert(bytes.take(n) + rest =~= bytes);
    }
}

/// Samples that are written into the pipe and taken in by a source arrive as they are.
pub proof fn lemma_samples_cross_the_pipe(s: SourceView, samples: Seq<u32>)
    requires
        s.partial.len() == 0,
    ensures
        fed(s, bytes_of(s.order, samples)) == (SourceView { queue: s.queue + samples, ..s }),
{
    lemma_words_round_trip(s.order, samples);
    let bytes = bytes_of(s.order, samples);
    assert(s.partial + bytes =~= bytes);
    assert(s.partial =~= Seq::<u8>::empty());
}

/// How the end of a decoder thread is seen; a thread that gave no result has panicked.
pub open spec fn observed(result: Option<Result<(), DecoderThreadExit>>, r: ObservedDecoderThreadExit) -> bool {
    match result {
        None => r is Panicked,
        Some(Ok(_)) => r is Completed,
        Some(Err(DecoderThreadExit::ConsumerClosed)) => r is ConsumerClosed,
        Some(Err(DecoderThreadExit::Fatal(e))) => r matches ObservedDecoderThreadExit::Fatal(m) && m@
            == e.text(),
    }
}

/// Tells how a decoder thread ended.
pub fn observe_exit(result: Option<Result<(), DecoderThreadExit>>) -> (r: ObservedDecoderThreadExit)
    ensures
        observed(result, r),
{
    match result {
        None => ObservedDecoderThreadExit::Panicked,
        Some(Ok(_)) => ObservedDecoderThreadExit::Completed,
        Some(Err(DecoderThreadExit::ConsumerClosed)) => ObservedDecoderThreadExit::ConsumerClosed,
        Some(Err(DecoderThreadExit::Fatal(e))) => ObservedDecoderThreadExit::Fatal(e.message()),
    }
}

/// Notes how a decoder thread ended.
pub fn record_observed_decoder_thread_exit(
    exits: &mut Vec<ObservedDecoderThreadExit>,
    exit: ObservedDecoderThreadExit,
)
    ensures
        final(exits)@ == old(exits)@.push(exit),
{
    exits.push(exit);
}

/// Forgets how decoder threads ended.
pub fn clear_observed_decoder_thread_exits(exits: &mut Vec<ObservedDecoderThreadExit>)
    ensures
        final(exits)@ == Seq::<ObservedDecoderThreadExit>::empty(),
{
    exits.clear();
}

/// The time that a sample is queued with is the least one that is no earlier than its own, later
/// than the previous one and not negative, as long as there is such a time.
pub proof fn lemma_least_time(sample_time_us: i64, last: Option<i64>, other: i64)
    requires
        last matches Some(t) ==> 0 <= t < i64::MAX,
    ensures
        normalized_time(sample_time_us, last) >= sample_time_us,
        normalized_time(sample_time_us, last) >= 0,
        last matches Some(t) ==> normalized_time(sample_time_us, last) > t,
        other >= sample_time_us && other >= 0 && (last matches Some(t) ==> other > t)
            ==> normalized_time(sample_time_us, last) <= other,
{
}

/// A number of a format counts just where it is there and above zero; otherwise the failure names
/// the number that is missing, or the value that it has.
pub proof fn lemma_positive_numbers(value: Option<i32>, parameter: Parameter)
    ensures
        value is None ==> positive(value, parameter) == Err::<u32, _>(
            DecodeError::Missing(parameter),
        ),
        value matches Some(n) ==> n <= 0 ==> positive(value, parameter) == Err::<u32, _>(
            DecodeError::Invalid { parameter, value: value->0 },
        ),
        value matches Some(n) ==> n > 0 ==> (positive(value, parameter) matches Ok(m) && m == n),
{
}

/// An output format is read just where it has a sample rate and channels and names an encoding
/// that is known, or none, which stands for 16 bits. It is what the media format says.
pub proof fn lemma_output_format_is_read(format: MediaFormat)
    ensures
        output_format(format) is Ok <==> {
            &&& format.sample_rate matches Some(n) && n > 0
            &&& format.channel_count matches Some(n) && n > 0
            &&& format.pcm_encoding matches Some(e) ==> e == 2 || e == 3 || e == 4 || e == 21 || e
                == 22
        },
        output_format(format) matches Ok(r) ==> {
            &&& format.sample_rate == Some(r.sample_rate as i32) && r.sample_rate as i32
                == r.sample_rate
            &&& format.channel_count == Some(r.channel_count as i32) && r.channel_count as i32
                == r.channel_count
            &&& r.pcm_encoding == match format.pcm_encoding {
                Some(e) => e,
                None => 2,
            }
        },
        format.sample_rate is None ==> output_format(format) == Err::<OutputAudioFormat, _>(
            DecodeError::Missing(Parameter::OutputSampleRate),
        ),
        (format.sample_rate matches Some(n) && n > 0) && format.channel_count is None ==> output_format(
            format,
        ) == Err::<OutputAudioFormat, _>(DecodeError::Missing(Parameter::OutputChannelCount)),
        output_format(format) matches Err(DecodeError::UnsupportedEncoding(e)) ==> format.pcm_encoding
            == Some(e),
{
}

/// A format is as promised just where sample rate and channel count are; otherwise the change
/// names both sides.
pub proof fn lemma_format_changes(format: OutputAudioFormat, sample_rate: u32, channel_count: u32)
    ensures
        format_change(format, sample_rate, channel_count) is None <==> format.sample_rate
            == sample_rate && format.channel_count == channel_count,
        format_change(format, sample_rate, channel_count) matches Some(c) ==> c.sample_rate
            == format.sample_rate && c.channel_count == format.channel_count
            && c.expected_sample_rate == sample_rate && c.expected_channel_count == channel_count,
{
}

/// Whether the choice of a track goes on past one: its format is there and is none of audio.
pub open spec fn is_passed_over(track: Result<MediaFormat, MediaError>) -> bool {
    track matches Ok(format) && match format.mime {
        Some(mime) => !(mime@.len() >= 6 && mime@.take(6) == seq!['a', 'u', 'd', 'i', 'o', '/']),
        None => true,
    }
}

/// The tracks that are passed over are those that do not decide.
proof fn lemma_passed_over(track: Result<MediaFormat, MediaError>)
    ensures
        is_passed_over(track) == !is_decisive(track),
{
    reveal_strlit("audio/");
    assert("audio/"@ =~= seq!['a', 'u', 'd', 'i', 'o', '/']);
    if let Ok(format) = track {
        if let Some(mime) = format.mime {
            if mime@.len() >= 6 {
                assert(mime@.take(6) =~= mime@.subrange(0, 6));
            }
        }
    }
}

/// The first audio track is selected, and no other, provided that every format up to it can be
/// had and that it has a sample rate and channels. What is selected is what its format says.
pub proof fn lemma_first_audio_track(
    tracks: Seq<Result<MediaFormat, MediaError>>,
    r: Result<SelectedAudioTrack, DecodeError>,
    i: int,
)
    requires
        tracks.len() <= usize::MAX,
        is_selected(tracks, r),
        0 <= i < tracks.len(),
        forall|j: int| 0 <= j < i ==> is_passed_over(#[trigger] tracks[j]),
        !is_passed_over(tracks[i]),
    ensures
        match tracks[i] {
            Err(e) => r == Err::<SelectedAudioTrack, _>(DecodeError::Media(e)),
            Ok(format) => {
                &&& r is Ok <==> (format.sample_rate matches Some(n) && n > 0) && (
                format.channel_count matches Some(n) && n > 0)
                &&& r matches Ok(track) ==> {
                    &&& track.index == i
                    &&& Some(track.mime) == format.mime
                    &&& format.sample_rate matches Some(n) && track.sample_rate == n
                    &&& format.channel_count matches Some(n) && track.channel_count == n
                    &&& track.description == format.description
                    &&& track.format == format
                }
                &&& r matches Err(e) ==> match (format.sample_rate, format.channel_count) {
                    (None, _) => e == DecodeError::Missing(Parameter::SampleRate),
                    (Some(n), _) if n <= 0 => e == (DecodeError::Invalid {
                        parameter: Parameter::SampleRate,
                        value: n,
                    }),
                    (_, None) => e == DecodeError::Missing(Parameter::ChannelCount),
                    (_, Some(n)) => e == (DecodeError::Invalid {
                        parameter: Parameter::ChannelCount,
                        value: n,
                    }),
                }
            },
        },
{
    assert forall|j: int| 0 <= j < i implies !is_decisive(#[trigger] tracks[j]) by {
        lemma_passed_over(tracks[j]);
    }
    lemma_passed_over(tracks[i]);
    assert(r == track_outcome(i as usize, tracks[i]));
}

/// Where every track is passed over, there is no audio track.
pub proof fn lemma_no_audio_track(
    tracks: Seq<Result<MediaFormat, MediaError>>,
    r: Result<SelectedAudioTrack, DecodeError>,
)
    requires
        is_selected(tracks, r),
        forall|j: int| 0 <= j < tracks.len() ==> is_passed_over(#[trigger] tracks[j]),
    ensures
        r == Err::<SelectedAudioTrack, _>(DecodeError::NoAudioTrack),
{
    assert forall|j: int| 0 <= j < tracks.len() implies !is_decisive(#[trigger] tracks[j]) by {
        lemma_passed_over(tracks[j]);
    }
}

/// One write takes the first bytes, as many as it says or all there are, and leaves the others.
pub proof fn lemma_one_write(bytes: Seq<u8>, n: usize)
    ensures
        n <= bytes.len() ==> taken(bytes, seq![n]) == bytes.take(n as int) && left(bytes, seq![n])
            == bytes.skip(n as int),
        n > bytes.len() ==> taken(bytes, seq![n]) == bytes && left(bytes, seq![n]) == Seq::<
            u8,
        >::empty(),
{
    reveal_with_fuel(taken, 2);
    reveal_with_fuel(left, 2);
    let m = if n < bytes.len() {
        n as int
    } else {
        bytes.len() as int
    };
    assert(taken(bytes.skip(m), seq![n].drop_first()) =~= Seq::<u8>::empty());
    assert(taken(bytes, seq![n]) =~= bytes.take(m));
    assert(left(bytes, seq![n]) =~= bytes.skip(m));
    if n > bytes.len() {
        assert(bytes.take(m) =~= bytes);
        assert(bytes.skip(m) =~= Seq::<u8>::empty());
    }
}

/// How a decoder thread is seen to end tells how it ended, with the very message of an error.
pub proof fn lemma_ends_are_told_apart(
    result: Option<Result<(), DecoderThreadExit>>,
    r: ObservedDecoderThreadExit,
)
    requires
        observed(result, r),
    ensures
        r is Panicked <==> result is None,
        r is Completed <==> (result matches Some(ended) && ended is Ok),
        r is ConsumerClosed <==> result == Some(
            Err::<(), DecoderThreadExit>(DecoderThreadExit::ConsumerClosed),
        ),
        r matches ObservedDecoderThreadExit::Fatal(m) ==> (result matches Some(Err(exit)) && (
        exit matches DecoderThreadExit::Fatal(e) && m@ == e.text())),
{
}

/// The first thing that is wrong with an output format is the failure: the sample rate is looked
/// at first, then the channel count, then the encoding.
pub proof fn lemma_first_fault_of_a_format(format: MediaFormat)
    ensures
        output_format(format) matches Err(e) ==> match (format.sample_rate, format.channel_count) {
            (None, _) => e == DecodeError::Missing(Parameter::OutputSampleRate),
            (Some(n), _) if n <= 0 => e == (DecodeError::Invalid {
                parameter: Parameter::OutputSampleRate,
                value: n,
            }),
            (_, None) => e == DecodeError::Missing(Parameter::OutputChannelCount),
            (_, Some(n)) if n <= 0 => e == (DecodeError::Invalid {
                parameter: Parameter::OutputChannelCount,
                value: n,
            }),
            _ => format.pcm_encoding matches Some(encoding) && e
                == DecodeError::UnsupportedEncoding(encoding),
        },
{
}

} // verus!
