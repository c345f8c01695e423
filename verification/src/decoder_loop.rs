//! The loops that feed the codec and carry its output into the pipe.
//!
//! Each loop is driven from outside. A value of a `..Call` type names the call to make next,
//! with the arguments that vary; what the call gave back is handed in as the `..Reply`, and the answer is
//! the next call or the end of the loop.
use vstd::prelude::*;
use crate::bytes::{bytes_of, lemma_bytes_in_order, ByteOrder};
use crate::decoder::{
    check_format, format_change, left, lemma_writes_keep_the_bytes, normalize_sample_time_us,
    normalized_time, output_format, parse_output_format, taken, DecoderThreadExit,
    OutputAudioFormat, PipeWrite, SampleWriter, WriteProgress,
};
use crate::error::{BufferInfo, DecodeError, MediaError, WideEncoding};
use crate::media_ndk::{
    has_flag, is_encrypted, is_end_of_stream, lemma_flags_are_bits, MediaFormat, OutputBufferResult,
    AMEDIACODEC_BUFFER_FLAG_END_OF_STREAM, AMEDIAEXTRACTOR_SAMPLE_FLAG_ENCRYPTED,
};
use crate::pcm::{
    encoded_size, is_normalized, lemma_samples_determined, lemma_what_is_decoded,
    normalize_pcm_buffer, normalized,
};

verus! {

/// A call that queueing the next input sample needs.
#[derive(Clone, Copy, Debug, PartialEq, Eq, Structural)]
pub enum InputCall {
    /// Ask the codec for an input buffer.
    DequeueBuffer,
    /// Ask the extractor for the size of its sample; it is negative at the end.
    SampleSize { index: usize },
    /// Queue the buffer without contents, as the end of the stream, with [`queue_arguments`].
    QueueEnd { index: usize },
    /// Ask the extractor for the flags of its sample.
    SampleFlags { index: usize, size: usize },
    /// Ask the extractor for the time of its sample.
    SampleTime { index: usize, size: usize },
    /// Ask the codec how large the buffer is.
    BufferSize { index: usize, size: usize, time_us: i64 },
    /// Read the sample into the buffer.
    ReadSample { index: usize, size: usize, time_us: i64 },
    /// Queue the buffer with the sample, with [`queue_arguments`].
    QueueSample { index: usize, size: usize, time_us: i64 },
    /// Move the extractor on to the next sample.
    Advance { time_us: i64 },
}

/// What such a call gave back.
pub enum InputReply {
    Buffer(Result<Option<usize>, MediaError>),
    Size(isize),
    Flags(u32),
    Time(i64),
    Length(Result<usize, MediaError>),
    Status(Result<(), MediaError>),
    Advanced,
}

/// What follows.
#[derive(Debug)]
pub enum InputNext {
    /// Make this call.
    Call(InputCall),
    /// The round is over.
    Finished {
        /// The end of the stream was queued.
        end: bool,
        /// A sample was queued, with this time.
        queued_time_us: Option<i64>,
    },
    /// Something went wrong.
    Failed(DecodeError),
}

/// Whether a reply is one to a call.
pub open spec fn answers_input(call: InputCall, reply: InputReply) -> bool {
    match call {
        InputCall::DequeueBuffer => reply is Buffer,
        InputCall::SampleSize { .. } => reply is Size,
        InputCall::QueueEnd { .. } => reply is Status,
        InputCall::SampleFlags { .. } => reply is Flags,
        InputCall::SampleTime { .. } => reply is Time,
        InputCall::BufferSize { .. } => reply is Length,
        InputCall::ReadSample { .. } => reply is Length,
        InputCall::QueueSample { .. } => reply is Status,
        InputCall::Advance { .. } => reply is Advanced,
    }
}

/// What follows a call and its reply.
pub open spec fn input_next(call: InputCall, last: Option<i64>, reply: InputReply) -> InputNext {
    match (call, reply) {
        (_, InputReply::Buffer(Err(e))) => InputNext::Failed(DecodeError::Media(e)),
        (_, InputReply::Length(Err(e))) => InputNext::Failed(DecodeError::Media(e)),
        (_, InputReply::Status(Err(e))) => InputNext::Failed(DecodeError::Media(e)),
        (InputCall::DequeueBuffer, InputReply::Buffer(Ok(None))) => InputNext::Finished {
            end: false,
            queued_time_us: None,
        },
        (InputCall::DequeueBuffer, InputReply::Buffer(Ok(Some(index)))) => InputNext::Call(
            InputCall::SampleSize { index },
        ),
        (InputCall::SampleSize { index }, InputReply::Size(size)) => if size < 0 {
            InputNext::Call(InputCall::QueueEnd { index })
        } else {
            InputNext::Call(InputCall::SampleFlags { index, size: size as usize })
        },
        (InputCall::QueueEnd { .. }, InputReply::Status(Ok(_))) => InputNext::Finished {
            end: true,
            queued_time_us: None,
        },
        (InputCall::SampleFlags { index, size }, InputReply::Flags(flags)) => if has_flag(
            flags,
            AMEDIAEXTRACTOR_SAMPLE_FLAG_ENCRYPTED,
        ) {
            InputNext::Failed(DecodeError::Encrypted)
        } else {
            InputNext::Call(InputCall::SampleTime { index, size })
        },
        (InputCall::SampleTime { index, size }, InputReply::Time(time)) => InputNext::Call(
            InputCall::BufferSize { index, size, time_us: normalized_time(time, last) },
        ),
        (InputCall::BufferSize { index, size, time_us }, InputReply::Length(Ok(capacity))) => if size
            > capacity {
            InputNext::Failed(DecodeError::SampleTooLarge { size, capacity })
        } else {
            InputNext::Call(InputCall::ReadSample { index, size, time_us })
        },
        (InputCall::ReadSample { index, size, time_us }, InputReply::Length(Ok(read))) => if read
            != size {
            InputNext::Failed(DecodeError::ShortRead { read, expected: size })
        } else {
            InputNext::Call(InputCall::QueueSample { index, size, time_us })
        },
        (InputCall::QueueSample { time_us, .. }, InputReply::Status(Ok(_))) => InputNext::Call(
            InputCall::Advance { time_us },
        ),
        (InputCall::Advance { time_us }, InputReply::Advanced) => InputNext::Finished {
            end: false,
            queued_time_us: Some(time_us),
        },
        _ => arbitrary(),
    }
}

/// Goes on with queueing the next input sample. It begins with [`InputCall::DequeueBuffer`].
pub fn queue_next_input_sample(
    call: InputCall,
    last_queued_sample_time_us: Option<i64>,
    reply: InputReply,
) -> (r: InputNext)
    requires
        answers_input(call, reply),
    ensures
        r == input_next(call, last_queued_sample_time_us, reply),
{
    match (call, reply) {
        (_, InputReply::Buffer(Err(e))) => InputNext::Failed(DecodeError::Media(e)),
        (_, InputReply::Length(Err(e))) => InputNext::Failed(DecodeError::Media(e)),
        (_, InputReply::Status(Err(e))) => InputNext::Failed(DecodeError::Media(e)),
        (_, InputReply::Buffer(Ok(None))) => InputNext::Finished { end: false, queued_time_us: None },
        (_, InputReply::Buffer(Ok(Some(index)))) => InputNext::Call(InputCall::SampleSize { index }),
        (InputCall::SampleSize { index }, InputReply::Size(size)) => {
            if size < 0 {
                InputNext::Call(InputCall::QueueEnd { index })
            } else {
                InputNext::Call(InputCall::SampleFlags { index, size: size as usize })
            }
        },
        (InputCall::QueueEnd { .. }, InputReply::Status(Ok(_))) => InputNext::Finished {
            end: true,
            queued_time_us: None,
        },
        (InputCall::SampleFlags { index, size }, InputReply::Flags(flags)) => {
            if is_encrypted(flags) {
                InputNext::Failed(DecodeError::Encrypted)
            } else {
                InputNext::Call(InputCall::SampleTime { index, size })
            }
        },
        (InputCall::SampleTime { index, size }, InputReply::Time(time)) => {
            let time_us: i64 = normalize_sample_time_us(time, last_queued_sample_time_us);
            InputNext::Call(InputCall::BufferSize { index, size, time_us })
        },
        (InputCall::BufferSize { index, size, time_us }, InputReply::Length(Ok(capacity))) => {
            if size > capacity {
                InputNext::Failed(DecodeError::SampleTooLarge { size, capacity })
            } else {
                InputNext::Call(InputCall::ReadSample { index, size, time_us })
            }
        },
        (InputCall::ReadSample { index, size, time_us }, InputReply::Length(Ok(read))) => {
            if read != size {
                InputNext::Failed(DecodeError::ShortRead { read, expected: size })
            } else {
                InputNext::Call(InputCall::QueueSample { index, size, time_us })
            }
        },
        (InputCall::QueueSample { time_us, .. }, InputReply::Status(Ok(_))) => InputNext::Call(
            InputCall::Advance { time_us },
        ),
        (InputCall::Advance { time_us }, _) => InputNext::Finished {
            end: false,
            queued_time_us: Some(time_us),
        },
        _ => unreached(),
    }
}

/// The arguments with which a buffer is queued.
#[derive(Clone, Copy, Debug, PartialEq, Eq, Structural)]
pub struct QueueArguments {
    pub index: usize,
    pub offset: usize,
    pub size: usize,
    pub time_us: i64,
    pub flags: u32,
}

/// The arguments of a call that queues a buffer.
pub open spec fn queued_with(call: InputCall) -> Option<QueueArguments> {
    match call {
        InputCall::QueueSample { index, size, time_us } => Some(
            QueueArguments { index, offset: 0, size, time_us, flags: 0 },
        ),
        InputCall::QueueEnd { index } => Some(
            QueueArguments {
                index,
                offset: 0,
                size: 0,
                time_us: 0,
                flags: AMEDIACODEC_BUFFER_FLAG_END_OF_STREAM,
            },
        ),
        _ => None,
    }
}

/// The arguments of a call that queues a buffer: a sample goes in with its size and time and
/// without flags, the end of the stream without contents, at time zero and marked as the end.
pub fn queue_arguments(call: InputCall) -> (r: Option<QueueArguments>)
    ensures
        r == queued_with(call),
        r == match call {
            InputCall::QueueSample { index, size, time_us } => Some(
                QueueArguments { index, offset: 0, size, time_us, flags: 0 },
            ),
            InputCall::QueueEnd { index } => Some(
                QueueArguments {
                    index,
                    offset: 0,
                    size: 0,
                    time_us: 0,
                    flags: AMEDIACODEC_BUFFER_FLAG_END_OF_STREAM,
                },
            ),
            _ => None,
        },
{
    match call {
        InputCall::QueueSample { index, size, time_us } => Some(
            QueueArguments { index, offset: 0, size, time_us, flags: 0 },
        ),
        InputCall::QueueEnd { index } => Some(
            QueueArguments {
                index,
                offset: 0,
                size: 0,
                time_us: 0,
                flags: AMEDIACODEC_BUFFER_FLAG_END_OF_STREAM,
            },
        ),
        _ => None,
    }
}

/// How many calls are left at most.
pub open spec fn input_rank(call: InputCall) -> nat {
    match call {
        InputCall::DequeueBuffer => 8,
        InputCall::SampleSize { .. } => 7,
        InputCall::SampleFlags { .. } => 6,
        InputCall::SampleTime { .. } => 5,
        InputCall::BufferSize { .. } => 4,
        InputCall::ReadSample { .. } => 3,
        InputCall::QueueSample { .. } => 2,
        InputCall::QueueEnd { .. } => 1,
        InputCall::Advance { .. } => 1,
    }
}

/// Queueing a sample comes to an end: each call is followed by a later one or by none.
pub proof fn lemma_input_ends(call: InputCall, last: Option<i64>, reply: InputReply)
    requires
        answers_input(call, reply),
    ensures
        input_next(call, last, reply) matches InputNext::Call(next) ==> input_rank(next)
            < input_rank(call),
{
}

/// Where a run of replies leads from a call; none of them may follow the end.
pub open spec fn input_run(call: InputCall, last: Option<i64>, replies: Seq<InputReply>) -> InputNext
    decreases replies.len(),
{
    if replies.len() == 0 {
        InputNext::Call(call)
    } else {
        match input_next(call, last, replies[0]) {
            InputNext::Call(next) => input_run(next, last, replies.drop_first()),
            end => if replies.len() == 1 {
                end
            } else {
                arbitrary()
            },
        }
    }
}

/// Whether each of a run of replies answers the call that it is given to, and the last one ends
/// the round.
pub open spec fn is_input_run(call: InputCall, last: Option<i64>, replies: Seq<InputReply>) -> bool
    decreases replies.len(),
{
    replies.len() > 0 && answers_input(call, replies[0]) && match input_next(call, last, replies[0]) {
        InputNext::Call(next) => is_input_run(next, last, replies.drop_first()),
        _ => replies.len() == 1,
    }
}

/// A sample that was queued was not encrypted, fitted into the buffer, was read in full, and has
/// a time after the previous one.
pub proof fn lemma_queued_sample(last: Option<i64>, replies: Seq<InputReply>)
    requires
        is_input_run(InputCall::DequeueBuffer, last, replies),
        input_run(InputCall::DequeueBuffer, last, replies) matches InputNext::Finished {
            queued_time_us: Some(_),
            ..
        },
    ensures
        replies.len() == 8,
        replies[1] matches InputReply::Size(size) && size >= 0 && {
            &&& replies[2] matches InputReply::Flags(flags) && !has_flag(
                flags,
                AMEDIAEXTRACTOR_SAMPLE_FLAG_ENCRYPTED,
            )
            &&& replies[3] matches InputReply::Time(time) && input_run(
                InputCall::DequeueBuffer,
                last,
                replies,
            ) == (InputNext::Finished {
                end: false,
                queued_time_us: Some(normalized_time(time, last)),
            })
            &&& replies[4] matches InputReply::Length(Ok(capacity)) && size <= capacity
            &&& replies[5] == InputReply::Length(Ok::<usize, MediaError>(size as usize))
        },
{
    reveal_with_fuel(input_run, 10);
    reveal_with_fuel(is_input_run, 10);
    let r1 = replies.drop_first();
    let r2 = r1.drop_first();
    let r3 = r2.drop_first();
    let r4 = r3.drop_first();
    let r5 = r4.drop_first();
    let r6 = r5.drop_first();
    let r7 = r6.drop_first();
    assert(r1.len() > 0 ==> r1[0] == replies[1]);
    assert(r2.len() > 0 ==> r2[0] == replies[2]);
    assert(r3.len() > 0 ==> r3[0] == replies[3]);
    assert(r4.len() > 0 ==> r4[0] == replies[4]);
    assert(r5.len() > 0 ==> r5[0] == replies[5]);
    assert(r6.len() > 0 ==> r6[0] == replies[6]);
    assert(r7.len() > 0 ==> r7[0] == replies[7]);
}

/// A call that handling an output buffer needs.
#[derive(Debug)]
pub enum OutputCall {
    /// Ask the codec for the format of its output.
    Format { index: usize, info: BufferInfo },
    /// Get the contents of the buffer.
    Bytes { index: usize, info: BufferInfo, format: OutputAudioFormat },
    /// Write samples into the pipe.
    Write { writer: SampleWriter },
}

/// What such a call gave back.
pub enum OutputReply {
    Format(Result<MediaFormat, MediaError>),
    Bytes(Result<Vec<u8>, MediaError>),
    Write(PipeWrite),
}

/// What follows.
#[derive(Debug)]
pub enum OutputNext {
    /// Make this call.
    Call(OutputCall),
    /// The buffer is dealt with.
    Done(Result<(), DecoderThreadExit>),
}

/// Whether a reply is one to a call.
pub open spec fn answers_output(call: OutputCall, reply: OutputReply) -> bool {
    match call {
        OutputCall::Format { .. } => reply is Format,
        OutputCall::Bytes { .. } => reply is Bytes,
        OutputCall::Write { writer } => reply is Write && writer.wf(),
    }
}

/// The format that a codec reports, where it is the one that was promised.
pub open spec fn promised_format(
    format: Result<MediaFormat, MediaError>,
    expected_sample_rate: u32,
    expected_channel_count: u32,
) -> Result<OutputAudioFormat, DecodeError> {
    match format {
        Err(e) => Err(DecodeError::Media(e)),
        Ok(format) => match output_format(format) {
            Err(e) => Err(e),
            Ok(parsed) => match format_change(parsed, expected_sample_rate, expected_channel_count) {
                Some(change) => Err(DecodeError::FormatChanged(change)),
                None => Ok(parsed),
            },
        },
    }
}

/// Computes [`promised_format`].
fn take_format(
    format: Result<MediaFormat, MediaError>,
    expected_sample_rate: u32,
    expected_channel_count: u32,
) -> (r: Result<OutputAudioFormat, DecodeError>)
    ensures
        r == promised_format(format, expected_sample_rate, expected_channel_count),
{
    match format {
        Err(e) => Err(DecodeError::Media(e)),
        Ok(format) => {
            match parse_output_format(&format) {
                Err(e) => Err(e),
                Ok(parsed) => {
                    match check_format(&parsed, expected_sample_rate, expected_channel_count) {
                        Some(change) => Err(DecodeError::FormatChanged(change)),
                        None => Ok(parsed),
                    }
                },
            }
        },
    }
}

/// What an output buffer needs first: an empty one nothing, any other its contents and, unless
/// it is known, their format.
pub open spec fn output_begin(
    index: usize,
    info: BufferInfo,
    output_format: Option<OutputAudioFormat>,
) -> OutputNext {
    if info.size == 0 {
        OutputNext::Done(Ok(()))
    } else {
        match output_format {
            Some(format) => OutputNext::Call(OutputCall::Bytes { index, info, format }),
            None => OutputNext::Call(OutputCall::Format { index, info }),
        }
    }
}

/// Computes [`output_begin`].
pub fn begin_output_buffer(
    index: usize,
    info: BufferInfo,
    output_format: Option<OutputAudioFormat>,
) -> (r: OutputNext)
    ensures
        r == output_begin(index, info, output_format),
{
    if info.size == 0 {
        return OutputNext::Done(Ok(()));
    }
    match output_format {
        Some(format) => OutputNext::Call(OutputCall::Bytes { index, info, format }),
        None => OutputNext::Call(OutputCall::Format { index, info }),
    }
}

/// What follows once a buffer's samples are known: they are written, if there are any.
pub open spec fn follows_samples(
    order: ByteOrder,
    samples: Result<Vec<u32>, DecodeError>,
    r: OutputNext,
) -> bool {
    match samples {
        Err(e) => r == OutputNext::Done(Err(DecoderThreadExit::Fatal(e))),
        Ok(samples) => if samples@.len() == 0 {
            r == OutputNext::Done(Ok(()))
        } else {
            r matches OutputNext::Call(OutputCall::Write { writer }) && writer.wf()
                && writer.remaining() == bytes_of(order, samples@)
        },
    }
}

/// What follows an attempt to write: the rest is written, or the buffer is dealt with.
pub open spec fn follows_write(writer: SampleWriter, event: PipeWrite, r: OutputNext) -> bool {
    match event {
        PipeWrite::Written(n) => if n >= writer.remaining().len() {
            r == OutputNext::Done(Ok(()))
        } else {
            r matches OutputNext::Call(OutputCall::Write { writer: rest }) && rest.wf()
                && rest.remaining() == writer.remaining().skip(n as int)
        },
        PipeWrite::Failed { interrupted, os_error, message } => if interrupted {
            r matches OutputNext::Call(OutputCall::Write { writer: rest }) && rest.wf()
                && rest.remaining() == writer.remaining()
        } else if os_error == Some(crate::decoder::EPIPE) {
            r == OutputNext::Done(Err(DecoderThreadExit::ConsumerClosed))
        } else {
            r == OutputNext::Done(Err(DecoderThreadExit::Fatal(DecodeError::PipeWrite(message))))
        },
    }
}

fn go_on_writing(writer: SampleWriter, event: PipeWrite) -> (r: OutputNext)
    requires
        writer.wf(),
    ensures
        follows_write(writer, event, r),
{
    proof {
        reveal_with_fuel(left, 2);
    }
    let mut writer = writer;
    match writer.write_f32_samples(event) {
        WriteProgress::More => OutputNext::Call(OutputCall::Write { writer }),
        WriteProgress::Done => OutputNext::Done(Ok(())),
        WriteProgress::Exit(exit) => OutputNext::Done(Err(exit)),
    }
}

/// Whether a known format and a result follow a known format, a call and its reply.
pub open spec fn follows_output(
    order: ByteOrder,
    call: OutputCall,
    reply: OutputReply,
    known: Option<OutputAudioFormat>,
    expected_sample_rate: u32,
    expected_channel_count: u32,
    known_after: Option<OutputAudioFormat>,
    r: OutputNext,
) -> bool {
    match (call, reply) {
        (OutputCall::Format { index, info }, OutputReply::Format(format)) => match promised_format(
            format,
            expected_sample_rate,
            expected_channel_count,
        ) {
            Err(e) => known_after == known && r == OutputNext::Done(
                Err(DecoderThreadExit::Fatal(e)),
            ),
            Ok(parsed) => known_after == Some(parsed) && r == OutputNext::Call(
                OutputCall::Bytes { index, info, format: parsed },
            ),
        },
        (OutputCall::Bytes { format, .. }, OutputReply::Bytes(bytes)) => {
            &&& known_after == known
            &&& match bytes {
                Err(e) => r == OutputNext::Done(
                    Err(DecoderThreadExit::Fatal(DecodeError::Media(e))),
                ),
                Ok(bytes) => exists|samples: Result<Vec<u32>, DecodeError>|
                    #[trigger] normalized(order, bytes@, format.pcm_encoding, samples)
                        && follows_samples(order, samples, r),
            }
        },
        (OutputCall::Write { writer }, OutputReply::Write(event)) => known_after == known
            && follows_write(writer, event, r),
        _ => true,
    }
}

/// Goes on with an output buffer. The format is taken over where it was not known and is the
/// one that was promised.
pub fn handle_output_buffer(
    order: ByteOrder,
    call: OutputCall,
    reply: OutputReply,
    output_format: &mut Option<OutputAudioFormat>,
    expected_sample_rate: u32,
    expected_channel_count: u32,
) -> (r: OutputNext)
    requires
        answers_output(call, reply),
    ensures
        follows_output(
            order,
            call,
            reply,
            *old(output_format),
            expected_sample_rate,
            expected_channel_count,
            *final(output_format),
            r,
        ),
{
    match (call, reply) {
        (OutputCall::Format { index, info }, OutputReply::Format(format)) => {
            match take_format(format, expected_sample_rate, expected_channel_count) {
                Err(e) => OutputNext::Done(Err(DecoderThreadExit::Fatal(e))),
                Ok(parsed) => {
                    *output_format = Some(parsed);
                    OutputNext::Call(OutputCall::Bytes { index, info, format: parsed })
                },
            }
        },
        (OutputCall::Bytes { format, .. }, OutputReply::Bytes(bytes)) => {
            match bytes {
                Err(e) => OutputNext::Done(Err(DecoderThreadExit::Fatal(DecodeError::Media(e)))),
                Ok(bytes) => {
                    let samples = normalize_pcm_buffer(order, bytes.as_slice(), format.pcm_encoding);
                    let ghost given = samples;
                    let next = write_samples(order, samples);
                    assert(normalized(order, bytes@, format.pcm_encoding, given));
                    next
                },
            }
        },
        (OutputCall::Write { writer }, OutputReply::Write(event)) => go_on_writing(writer, event),
        _ => unreached(),
    }
}

fn write_samples(order: ByteOrder, samples: Result<Vec<u32>, DecodeError>) -> (r: OutputNext)
    ensures
        follows_samples(order, samples, r),
{
    match samples {
        Err(e) => OutputNext::Done(Err(DecoderThreadExit::Fatal(e))),
        Ok(samples) => {
            if samples.len() == 0 {
                OutputNext::Done(Ok(()))
            } else {
                OutputNext::Call(OutputCall::Write { writer: SampleWriter::new(order, samples.as_slice()) })
            }
        },
    }
}

/// Where the loop around a codec stands.
#[derive(Clone, Copy, Debug, PartialEq, Eq, Structural)]
pub struct DecoderLoop {
    /// The end of the stream was queued.
    pub input_eos: bool,
    /// The end of the stream came out.
    pub output_eos: bool,
    /// Samples came out, in this pass over the source or an earlier one.
    pub saw_output_samples: bool,
    /// The format of the output, once it is known.
    pub output_format: Option<OutputAudioFormat>,
    /// The time of the sample that was queued last in this pass.
    pub last_queued_sample_time_us: Option<i64>,
    /// The sample rate that was promised.
    pub expected_sample_rate: u32,
    /// The channel count that was promised.
    pub expected_channel_count: u32,
}

/// A call that the loop around a codec needs.
#[derive(Debug)]
pub enum LoopCall {
    /// Queue the next input sample.
    QueueInput,
    /// Ask the codec for an output buffer.
    DequeueOutput,
    /// Ask the codec for the format of its output.
    OutputFormat,
    /// Deal with an output buffer.
    HandleBuffer { index: usize, info: BufferInfo },
    /// Give an output buffer back; dealing with it ended so.
    ReleaseBuffer { index: usize, outcome: Result<(), DecoderThreadExit> },
    /// Move the extractor back to the start of the source.
    SeekToStart,
    /// Empty the codec.
    Flush,
}

/// What such a call gave back.
pub enum LoopReply {
    /// How queueing a sample ended: whether the end was queued, and the time of the sample if
    /// one was queued.
    Input(Result<(bool, Option<i64>), DecodeError>),
    Output(Result<OutputBufferResult, MediaError>),
    Format(Result<MediaFormat, MediaError>),
    /// How dealing with a buffer ended, and the format that is known now.
    Handled { outcome: Result<(), DecoderThreadExit>, output_format: Option<OutputAudioFormat> },
    Status(Result<(), MediaError>),
}

/// Whether a reply is one to a call.
pub open spec fn answers_loop(call: LoopCall, reply: LoopReply) -> bool {
    match call {
        LoopCall::QueueInput => reply is Input,
        LoopCall::DequeueOutput => reply is Output,
        LoopCall::OutputFormat => reply is Format,
        LoopCall::HandleBuffer { .. } => reply is Handled,
        LoopCall::ReleaseBuffer { .. } => reply is Status,
        LoopCall::SeekToStart => reply is Status,
        LoopCall::Flush => reply is Status,
    }
}

impl DecoderLoop {
    /// What follows when the codec's output was looked at.
    ///
    /// When the whole source went in and came out, it is decoded again from the start, unless
    /// there were no samples at all.
    pub open spec fn after_output(self) -> Result<LoopCall, DecoderThreadExit> {
        if self.input_eos && self.output_eos {
            if self.saw_output_samples {
                Ok(LoopCall::SeekToStart)
            } else {
                Err(DecoderThreadExit::Fatal(DecodeError::NoSamples))
            }
        } else if self.input_eos {
            Ok(LoopCall::DequeueOutput)
        } else {
            Ok(LoopCall::QueueInput)
        }
    }

    /// The state and the call that follow a call and its reply.
    pub open spec fn next(self, call: LoopCall, reply: LoopReply) -> (
        DecoderLoop,
        Result<LoopCall, DecoderThreadExit>,
    ) {
        match (call, reply) {
            (_, LoopReply::Input(Err(e))) => (self, Err(DecoderThreadExit::Fatal(e))),
            (_, LoopReply::Output(Err(e))) => (
                self,
                Err(DecoderThreadExit::Fatal(DecodeError::Media(e))),
            ),
            (_, LoopReply::Status(Err(e))) => (
                self,
                Err(DecoderThreadExit::Fatal(DecodeError::Media(e))),
            ),
            (LoopCall::QueueInput, LoopReply::Input(Ok((end, time)))) => (
                DecoderLoop {
                    input_eos: self.input_eos || end,
                    last_queued_sample_time_us: if time is Some {
                        time
                    } else {
                        self.last_queued_sample_time_us
                    },
                    ..self
                },
                Ok(LoopCall::DequeueOutput),
            ),
            (LoopCall::DequeueOutput, LoopReply::Output(Ok(output))) => (
                self,
                match output {
                    OutputBufferResult::TryAgainLater => self.after_output(),
                    OutputBufferResult::OutputBuffersChanged => self.after_output(),
                    OutputBufferResult::OutputFormatChanged => Ok(LoopCall::OutputFormat),
                    OutputBufferResult::Buffer { index, info } => Ok(
                        LoopCall::HandleBuffer { index, info },
                    ),
                },
            ),
            (LoopCall::OutputFormat, LoopReply::Format(format)) => match promised_format(
                format,
                self.expected_sample_rate,
                self.expected_channel_count,
            ) {
                Err(e) => (self, Err(DecoderThreadExit::Fatal(e))),
                Ok(parsed) => (
                    DecoderLoop { output_format: Some(parsed), ..self },
                    self.after_output(),
                ),
            },
            (
                LoopCall::HandleBuffer { index, info },
                LoopReply::Handled { outcome, output_format },
            ) => (
                DecoderLoop {
                    output_format,
                    saw_output_samples: self.saw_output_samples || info.size > 0,
                    output_eos: self.output_eos || has_flag(
                        info.flags,
                        AMEDIACODEC_BUFFER_FLAG_END_OF_STREAM,
                    ),
                    ..self
                },
                Ok(LoopCall::ReleaseBuffer { index, outcome }),
            ),
            (LoopCall::ReleaseBuffer { outcome, .. }, LoopReply::Status(Ok(_))) => (
                self,
                match outcome {
                    Ok(_) => self.after_output(),
                    Err(exit) => Err(exit),
                },
            ),
            (LoopCall::SeekToStart, LoopReply::Status(Ok(_))) => (self, Ok(LoopCall::Flush)),
            (LoopCall::Flush, LoopReply::Status(Ok(_))) => (
                DecoderLoop {
                    input_eos: false,
                    output_eos: false,
                    last_queued_sample_time_us: None,
                    ..self
                },
                Ok(LoopCall::QueueInput),
            ),
            _ => arbitrary(),
        }
    }

    /// What holds whenever a call is made.
    ///
    /// Input is queued only until its end is queued. The source is rewound only after all of it
    /// went in and came out and gave samples. A known format is the one that was promised.
    pub open spec fn inv(self, call: LoopCall) -> bool {
        &&& call is QueueInput ==> !self.input_eos
        &&& call is SeekToStart || call is Flush ==> self.input_eos && self.output_eos
            && self.saw_output_samples
        &&& self.output_format matches Some(format) ==> format_change(
            format,
            self.expected_sample_rate,
            self.expected_channel_count,
        ) is None
    }

    /// A loop before its first call.
    pub open spec fn initial(expected_sample_rate: u32, expected_channel_count: u32) -> DecoderLoop {
        DecoderLoop {
            input_eos: false,
            output_eos: false,
            saw_output_samples: false,
            output_format: None,
            last_queued_sample_time_us: None,
            expected_sample_rate,
            expected_channel_count,
        }
    }

    /// A loop before its first call, which is [`LoopCall::QueueInput`].
    pub fn new(expected_sample_rate: u32, expected_channel_count: u32) -> (r: DecoderLoop)
        ensures
            r == DecoderLoop::initial(expected_sample_rate, expected_channel_count),
            r == (DecoderLoop {
                input_eos: false,
                output_eos: false,
                saw_output_samples: false,
                output_format: None,
                last_queued_sample_time_us: None,
                expected_sample_rate,
                expected_channel_count,
            }),
            r.inv(LoopCall::QueueInput),
    {
        DecoderLoop {
            input_eos: false,
            output_eos: false,
            saw_output_samples: false,
            output_format: None,
            last_queued_sample_time_us: None,
            expected_sample_rate,
            expected_channel_count,
        }
    }

    fn finish_output(&self) -> (r: Result<LoopCall, DecoderThreadExit>)
        ensures
            r == self.after_output(),
    {
        if self.input_eos && self.output_eos {
            if !self.saw_output_samples {
                return Err(DecoderThreadExit::Fatal(DecodeError::NoSamples));
            }
            Ok(LoopCall::SeekToStart)
        } else if self.input_eos {
            Ok(LoopCall::DequeueOutput)
        } else {
            Ok(LoopCall::QueueInput)
        }
    }

    /// Goes on with the loop. It ends only with an error.
    pub fn run_decoder_loop(&mut self, call: LoopCall, reply: LoopReply) -> (r: Result<
        LoopCall,
        DecoderThreadExit,
    >)
        requires
            answers_loop(call, reply),
        ensures
            (*final(self), r) == old(self).next(call, reply),
    {
        match (call, reply) {
            (_, LoopReply::Input(Err(e))) => Err(DecoderThreadExit::Fatal(e)),
            (_, LoopReply::Output(Err(e))) => Err(DecoderThreadExit::Fatal(DecodeError::Media(e))),
            (_, LoopReply::Status(Err(e))) => Err(DecoderThreadExit::Fatal(DecodeError::Media(e))),
            (_, LoopReply::Input(Ok((end, time)))) => {
                if end {
                    self.input_eos = true;
                }
                match time {
                    Some(time) => {
                        self.last_queued_sample_time_us = Some(time);
                    },
                    None => {},
                }
                Ok(LoopCall::DequeueOutput)
            },
            (_, LoopReply::Output(Ok(output))) => {
                match output {
                    OutputBufferResult::TryAgainLater => self.finish_output(),
                    OutputBufferResult::OutputBuffersChanged => self.finish_output(),
                    OutputBufferResult::OutputFormatChanged => Ok(LoopCall::OutputFormat),
                    OutputBufferResult::Buffer { index, info } => {
                        Ok(LoopCall::HandleBuffer { index, info })
                    },
                }
            },
            (_, LoopReply::Format(format)) => {
                match take_format(format, self.expected_sample_rate, self.expected_channel_count) {
                    Err(e) => Err(DecoderThreadExit::Fatal(e)),
                    Ok(parsed) => {
                        self.output_format = Some(parsed);
                        self.finish_output()
                    },
                }
            },
            (
                LoopCall::HandleBuffer { index, info },
                LoopReply::Handled { outcome, output_format },
            ) => {
                self.output_format = output_format;
                if info.size > 0 {
                    self.saw_output_samples = true;
                }
                if is_end_of_stream(info.flags) {
                    self.output_eos = true;
                }
                Ok(LoopCall::ReleaseBuffer { index, outcome })
            },
            (LoopCall::ReleaseBuffer { outcome, .. }, LoopReply::Status(Ok(_))) => {
                match outcome {
                    Ok(_) => self.finish_output(),
                    Err(exit) => Err(exit),
                }
            },
            (LoopCall::SeekToStart, _) => Ok(LoopCall::Flush),
            (LoopCall::Flush, _) => {
                self.input_eos = false;
                self.output_eos = false;
                self.last_queued_sample_time_us = None;
                Ok(LoopCall::QueueInput)
            },
            _ => unreached(),
        }
    }
}

/// What holds whenever the loop around a codec makes a call is kept from call to call, and the
/// promised format never changes.
///
/// The format that dealing with a buffer leaves is the one known before, or else one that is as
/// promised.
pub proof fn lemma_decoder_loop_invariant(s: DecoderLoop, call: LoopCall, reply: LoopReply)
    requires
        answers_loop(call, reply),
        s.inv(call),
        reply matches LoopReply::Handled { output_format: Some(format), .. } ==> format_change(
            format,
            s.expected_sample_rate,
            s.expected_channel_count,
        ) is None,
    ensures
        s.next(call, reply).1 matches Ok(next) ==> s.next(call, reply).0.inv(next),
        s.next(call, reply).0.expected_sample_rate == s.expected_sample_rate,
        s.next(call, reply).0.expected_channel_count == s.expected_channel_count,
{
}

/// A source is decoded over and over: once all of it went in and came out, the loop goes back to
/// the start of the source and begins again as it began first, knowing only the format and that
/// there are samples.
pub proof fn lemma_source_is_repeated(s: DecoderLoop)
    requires
        s.input_eos && s.output_eos && s.saw_output_samples,
    ensures
        s.after_output() == Ok::<_, DecoderThreadExit>(LoopCall::SeekToStart),
        s.next(LoopCall::SeekToStart, LoopReply::Status(Ok(()))) == (
            s,
            Ok::<_, DecoderThreadExit>(LoopCall::Flush),
        ),
        s.next(LoopCall::Flush, LoopReply::Status(Ok(()))) == (
            DecoderLoop {
                input_eos: false,
                output_eos: false,
                saw_output_samples: true,
                output_format: s.output_format,
                last_queued_sample_time_us: None,
                expected_sample_rate: s.expected_sample_rate,
                expected_channel_count: s.expected_channel_count,
            },
            Ok::<_, DecoderThreadExit>(LoopCall::QueueInput),
        ),
{
}

/// The loop around a codec never reports that a source holds no samples once samples came out.
pub proof fn lemma_samples_are_remembered(s: DecoderLoop, call: LoopCall, reply: LoopReply)
    requires
        answers_loop(call, reply),
        s.saw_output_samples,
        !(reply matches LoopReply::Input(Err(DecodeError::NoSamples))),
        !(call matches LoopCall::ReleaseBuffer {
            outcome: Err(DecoderThreadExit::Fatal(DecodeError::NoSamples)),
            ..
        }),
    ensures
        s.next(call, reply).0.saw_output_samples,
        s.next(call, reply).1 != Err::<LoopCall, _>(DecoderThreadExit::Fatal(DecodeError::NoSamples)),
{
}

/// Where the loop over a source that needs no codec stands.
#[derive(Clone, Copy, Debug, PartialEq, Eq, Structural)]
pub struct RawLoop {
    /// The source held samples, in this pass over it or an earlier one.
    pub saw_output_samples: bool,
    /// The format of the samples.
    pub output_format: OutputAudioFormat,
}

/// A call that the loop over such a source needs.
#[derive(Debug)]
pub enum RawCall {
    /// Ask the extractor for the size of its sample; it is negative at the end.
    SampleSize,
    /// Move the extractor back to the start of the source.
    SeekToStart,
    /// Ask the extractor for the flags of its sample.
    SampleFlags { size: usize },
    /// Read the sample into a buffer of that size.
    ReadSample { size: usize },
    /// Write samples into the pipe.
    Write { writer: SampleWriter },
    /// Move the extractor on to the next sample.
    Advance,
}

/// What such a call gave back.
pub enum RawReply {
    Size(isize),
    Status(Result<(), MediaError>),
    Flags(u32),
    /// The bytes that were read.
    Sample(Result<Vec<u8>, MediaError>),
    Write(PipeWrite),
    Advanced,
}

/// Whether a reply is one to a call.
pub open spec fn answers_raw(call: RawCall, reply: RawReply) -> bool {
    match call {
        RawCall::SampleSize => reply is Size,
        RawCall::SeekToStart => reply is Status,
        RawCall::SampleFlags { .. } => reply is Flags,
        RawCall::ReadSample { .. } => reply is Sample,
        RawCall::Write { writer } => reply is Write && writer.wf(),
        RawCall::Advance => reply is Advanced,
    }
}

/// The call that follows a step of writing the samples of a buffer.
pub open spec fn raw_call_after(step: OutputNext) -> Result<RawCall, DecoderThreadExit> {
    match step {
        OutputNext::Call(OutputCall::Write { writer }) => Ok(RawCall::Write { writer }),
        OutputNext::Done(Err(exit)) => Err(exit),
        _ => Ok(RawCall::Advance),
    }
}

/// Computes [`raw_call_after`].
fn after_step(step: OutputNext) -> (r: Result<RawCall, DecoderThreadExit>)
    ensures
        r == raw_call_after(step),
{
    match step {
        OutputNext::Call(OutputCall::Write { writer }) => Ok(RawCall::Write { writer }),
        OutputNext::Done(Err(exit)) => Err(exit),
        _ => Ok(RawCall::Advance),
    }
}

/// Whether a state and a result follow a state, a call and its reply.
pub open spec fn follows_raw(
    s: RawLoop,
    order: ByteOrder,
    call: RawCall,
    reply: RawReply,
    t: RawLoop,
    r: Result<RawCall, DecoderThreadExit>,
) -> bool {
    &&& t.output_format == s.output_format
    &&& !(call is ReadSample) ==> t.saw_output_samples == s.saw_output_samples
    &&& match (call, reply) {
        (RawCall::SampleSize, RawReply::Size(size)) => r == if size >= 0 {
            Ok(RawCall::SampleFlags { size: size as usize })
        } else if s.saw_output_samples {
            Ok(RawCall::SeekToStart)
        } else {
            Err(DecoderThreadExit::Fatal(DecodeError::NoSamples))
        },
        (RawCall::SeekToStart, RawReply::Status(status)) => r == match status {
            Ok(_) => Ok(RawCall::SampleSize),
            Err(e) => Err(DecoderThreadExit::Fatal(DecodeError::Media(e))),
        },
        (RawCall::SampleFlags { size }, RawReply::Flags(flags)) => r == if has_flag(
            flags,
            AMEDIAEXTRACTOR_SAMPLE_FLAG_ENCRYPTED,
        ) {
            Err(DecoderThreadExit::Fatal(DecodeError::Encrypted))
        } else {
            Ok(RawCall::ReadSample { size })
        },
        (RawCall::ReadSample { .. }, RawReply::Sample(Err(e))) => t == s && r == Err::<RawCall, _>(
            DecoderThreadExit::Fatal(DecodeError::Media(e)),
        ),
        (RawCall::ReadSample { size }, RawReply::Sample(Ok(bytes))) => if bytes@.len() != size {
            t == s && r == Err::<RawCall, _>(
                DecoderThreadExit::Fatal(
                    DecodeError::ShortRead { read: bytes@.len() as usize, expected: size },
                ),
            )
        } else {
            exists|samples: Result<Vec<u32>, DecodeError>, step: OutputNext|
                {
                    &&& #[trigger] normalized(order, bytes@, s.output_format.pcm_encoding, samples)
                    &&& #[trigger] follows_samples(order, samples, step)
                    &&& r == raw_call_after(step)
                    &&& t.saw_output_samples == (s.saw_output_samples || step is Call)
                }
        },
        (RawCall::Write { writer }, RawReply::Write(event)) => exists|step: OutputNext| #[trigger]
            follows_write(writer, event, step) && r == raw_call_after(step),
        (RawCall::Advance, _) => r == Ok::<_, DecoderThreadExit>(RawCall::SampleSize),
        _ => true,
    }
}

impl RawLoop {
    /// Whether a call may be made: the source is rewound only if it held samples.
    pub open spec fn inv(self, call: RawCall) -> bool {
        call is SeekToStart || call is Write ==> self.saw_output_samples
    }

    /// A loop before its first call.
    pub open spec fn initial(output_format: OutputAudioFormat) -> RawLoop {
        RawLoop { saw_output_samples: false, output_format }
    }

    /// A loop before its first call, which is [`RawCall::SampleSize`].
    pub fn new(output_format: OutputAudioFormat) -> (r: RawLoop)
        ensures
            r == RawLoop::initial(output_format),
            r == (RawLoop { saw_output_samples: false, output_format }),
            r.inv(RawCall::SampleSize),
    {
        RawLoop { saw_output_samples: false, output_format }
    }

    /// Goes on with the loop. It ends only with an error.
    pub fn run_raw_extractor_loop(&mut self, order: ByteOrder, call: RawCall, reply: RawReply) -> (r:
        Result<RawCall, DecoderThreadExit>)
        requires
            answers_raw(call, reply),
        ensures
            follows_raw(*old(self), order, call, reply, *final(self), r),
            old(self).inv(call) && r is Ok ==> final(self).inv(r->Ok_0),
    {
        match (call, reply) {
            (_, RawReply::Size(size)) => {
                if size < 0 {
                    if !self.saw_output_samples {
                        return Err(DecoderThreadExit::Fatal(DecodeError::NoSamples));
                    }
                    Ok(RawCall::SeekToStart)
                } else {
                    Ok(RawCall::SampleFlags { size: size as usize })
                }
            },
            (_, RawReply::Status(status)) => {
                match status {
                    Ok(_) => Ok(RawCall::SampleSize),
                    Err(e) => Err(DecoderThreadExit::Fatal(DecodeError::Media(e))),
                }
            },
            (RawCall::SampleFlags { size }, RawReply::Flags(flags)) => {
                if is_encrypted(flags) {
                    Err(DecoderThreadExit::Fatal(DecodeError::Encrypted))
                } else {
                    Ok(RawCall::ReadSample { size })
                }
            },
            (_, RawReply::Sample(Err(e))) => Err(DecoderThreadExit::Fatal(DecodeError::Media(e))),
            (RawCall::ReadSample { size }, RawReply::Sample(Ok(bytes))) => {
                if bytes.len() != size {
                    return Err(
                        DecoderThreadExit::Fatal(
                            DecodeError::ShortRead { read: bytes.len(), expected: size },
                        ),
                    );
                }
                let samples = normalize_pcm_buffer(order, bytes.as_slice(), self.output_format.pcm_encoding);
                let ghost given = samples;
                let step = write_samples(order, samples);
                if let OutputNext::Call(_) = &step {
                    self.saw_output_samples = true;
                }
                assert(normalized(order, bytes@, old(self).output_format.pcm_encoding, given));
                assert(follows_samples(order, given, step));
                after_step(step)
            },
            (RawCall::Write { writer }, RawReply::Write(event)) => {
                let ghost (before, outcome) = (writer, event);
                let step = go_on_writing(writer, event);
                assert(follows_write(before, outcome, step));
                after_step(step)
            },
            (RawCall::Advance, _) => Ok(RawCall::SampleSize),
            _ => unreached(),
        }
    }
}

/// The bytes that are still to be written when a call is made.
pub open spec fn outstanding(call: RawCall) -> Seq<u8> {
    match call {
        RawCall::Write { writer } => writer.remaining(),
        _ => Seq::empty(),
    }
}

/// The bytes that the pipe takes with a reply.
pub open spec fn taken_with(call: RawCall, reply: RawReply) -> Seq<u8> {
    match (call, reply) {
        (RawCall::Write { writer }, RawReply::Write(PipeWrite::Written(n))) => taken(
            writer.remaining(),
            seq![n],
        ),
        _ => Seq::empty(),
    }
}

/// The bytes that are to be written because of a reply: those of the samples that were read.
pub open spec fn due_with(s: RawLoop, order: ByteOrder, call: RawCall, reply: RawReply) -> Seq<u8> {
    match (call, reply) {
        (RawCall::ReadSample { .. }, RawReply::Sample(Ok(bytes))) => bytes_of(
            order,
            choose|samples: Seq<u32>|
                is_normalized(order, s.output_format.pcm_encoding, bytes@, samples),
        ),
        _ => Seq::empty(),
    }
}

/// With each step of the loop over a source that needs no codec, what the pipe takes and what
/// is to be written afterwards are what was to be written before and what came in addition.
pub proof fn lemma_raw_step_keeps_the_bytes(
    s: RawLoop,
    order: ByteOrder,
    call: RawCall,
    reply: RawReply,
    t: RawLoop,
    next: RawCall,
)
    requires
        answers_raw(call, reply),
        follows_raw(s, order, call, reply, t, Ok(next)),
    ensures
        taken_with(call, reply) + outstanding(next) == outstanding(call) + due_with(
            s,
            order,
            call,
            reply,
        ),
{
    let nothing = Seq::<u8>::empty();
    match (call, reply) {
        (RawCall::ReadSample { .. }, RawReply::Sample(Ok(bytes))) => {
            let encoding = s.output_format.pcm_encoding;
            let (samples, step) = choose|samples: Result<Vec<u32>, DecodeError>, step: OutputNext|
                {
                    &&& #[trigger] normalized(order, bytes@, encoding, samples)
                    &&& #[trigger] follows_samples(order, samples, step)
                    &&& Ok::<_, DecoderThreadExit>(next) == raw_call_after(step)
                    &&& t.saw_output_samples == (s.saw_output_samples || step is Call)
                };
            assert(samples is Ok);
            let found = samples->Ok_0@;
            let chosen = choose|v: Seq<u32>| is_normalized(order, encoding, bytes@, v);
            assert(is_normalized(order, encoding, bytes@, found));
            lemma_samples_determined(order, encoding, bytes@, found, chosen);
            if found.len() == 0 {
                assert(bytes_of(order, found) =~= nothing);
            }
            assert(outstanding(next) == bytes_of(order, found));
            assert(nothing + outstanding(next) =~= nothing + bytes_of(order, chosen));
        },
        (RawCall::Write { writer }, RawReply::Write(event)) => {
            let step = choose|step: OutputNext| #[trigger]
                follows_write(writer, event, step) && Ok::<_, DecoderThreadExit>(next)
                    == raw_call_after(step);
            reveal_with_fuel(left, 2);
            reveal_with_fuel(taken, 2);
            if let PipeWrite::Written(n) = event {
                lemma_writes_keep_the_bytes(writer.remaining(), seq![n]);
                assert(left(writer.remaining(), seq![n]) =~= outstanding(next));
            }
            assert(taken_with(call, reply) + outstanding(next) =~= writer.remaining() + nothing);
        },
        _ => {
            assert(taken_with(call, reply) + outstanding(next) =~= outstanding(call) + nothing);
        },
    }
}

/// Dealing with an output buffer leaves a format known only if it is as promised.
pub proof fn lemma_known_format_is_promised(
    order: ByteOrder,
    call: OutputCall,
    reply: OutputReply,
    known: Option<OutputAudioFormat>,
    expected_sample_rate: u32,
    expected_channel_count: u32,
    known_after: Option<OutputAudioFormat>,
    r: OutputNext,
)
    requires
        answers_output(call, reply),
        follows_output(
            order,
            call,
            reply,
            known,
            expected_sample_rate,
            expected_channel_count,
            known_after,
            r,
        ),
        known matches Some(format) ==> format_change(
            format,
            expected_sample_rate,
            expected_channel_count,
        ) is None,
    ensures
        known_after matches Some(format) ==> format_change(
            format,
            expected_sample_rate,
            expected_channel_count,
        ) is None,
{
}

/// A call of the loop over a source that needs no codec, the state it was made in and its reply.
pub struct RawStep {
    pub state: RawLoop,
    pub call: RawCall,
    pub reply: RawReply,
}

/// Whether steps follow each other from the first call of a loop on, and lead to a state and a
/// call.
pub open spec fn is_raw_run(order: ByteOrder, steps: Seq<RawStep>, state: RawLoop, call: RawCall) -> bool
    decreases steps.len(),
{
    if steps.len() == 0 {
        call is SampleSize
    } else {
        let last = steps.last();
        &&& answers_raw(last.call, last.reply)
        &&& follows_raw(last.state, order, last.call, last.reply, state, Ok(call))
        &&& is_raw_run(order, steps.drop_last(), last.state, last.call)
    }
}

/// All that the pipe took in a run.
pub open spec fn all_taken(steps: Seq<RawStep>) -> Seq<u8>
    decreases steps.len(),
{
    if steps.len() == 0 {
        Seq::empty()
    } else {
        all_taken(steps.drop_last()) + taken_with(steps.last().call, steps.last().reply)
    }
}

/// All that was to be written in a run: the bytes of the samples of every buffer that was read,
/// one buffer after the other.
pub open spec fn all_due(order: ByteOrder, steps: Seq<RawStep>) -> Seq<u8>
    decreases steps.len(),
{
    if steps.len() == 0 {
        Seq::empty()
    } else {
        all_due(order, steps.drop_last()) + due_with(
            steps.last().state,
            order,
            steps.last().call,
            steps.last().reply,
        )
    }
}

/// A run over a source that needs no codec writes the samples of every buffer that it read, in
/// their order, each once, up to those that it is still writing.
pub proof fn lemma_raw_run_writes_every_sample(
    order: ByteOrder,
    steps: Seq<RawStep>,
    state: RawLoop,
    call: RawCall,
)
    requires
        is_raw_run(order, steps, state, call),
    ensures
        all_taken(steps) + outstanding(call) == all_due(order, steps),
    decreases steps.len(),
{
    if steps.len() == 0 {
        assert(all_taken(steps) + outstanding(call) =~= all_due(order, steps));
    } else {
        let last = steps.last();
        let earlier = steps.drop_last();
        lemma_raw_run_writes_every_sample(order, earlier, last.state, last.call);
        lemma_raw_step_keeps_the_bytes(last.state, order, last.call, last.reply, state, call);
        let due = due_with(last.state, order, last.call, last.reply);
        assert(all_taken(steps) + outstanding(call) =~= all_taken(earlier) + (taken_with(
            last.call,
            last.reply,
        ) + outstanding(call)));
        assert(all_taken(earlier) + (outstanding(last.call) + due) =~= (all_taken(earlier)
            + outstanding(last.call)) + due);
    }
}

/// A source that needs no codec is read over and over: at its end the loop goes back to its
/// start and changes nothing else, once there were samples.
pub proof fn lemma_raw_source_is_repeated(
    s: RawLoop,
    order: ByteOrder,
    size: isize,
    t: RawLoop,
    u: RawLoop,
    first: Result<RawCall, DecoderThreadExit>,
    second: Result<RawCall, DecoderThreadExit>,
)
    requires
        s.saw_output_samples,
        size < 0,
        follows_raw(s, order, RawCall::SampleSize, RawReply::Size(size), t, first),
        follows_raw(t, order, RawCall::SeekToStart, RawReply::Status(Ok(())), u, second),
    ensures
        first == Ok::<_, DecoderThreadExit>(RawCall::SeekToStart),
        second == Ok::<_, DecoderThreadExit>(RawCall::SampleSize),
        u == s,
{
}

/// What each call of queueing a sample would give back.
pub struct InputWorld {
    pub buffer: Result<Option<usize>, MediaError>,
    pub size: isize,
    pub flags: u32,
    pub time: i64,
    pub capacity: Result<usize, MediaError>,
    pub read: Result<usize, MediaError>,
    pub queued: Result<(), MediaError>,
    pub ended: Result<(), MediaError>,
}

impl InputWorld {
    /// What a call gives back.
    pub open spec fn reply(self, call: InputCall) -> InputReply {
        match call {
            InputCall::DequeueBuffer => InputReply::Buffer(self.buffer),
            InputCall::SampleSize { .. } => InputReply::Size(self.size),
            InputCall::QueueEnd { .. } => InputReply::Status(self.ended),
            InputCall::SampleFlags { .. } => InputReply::Flags(self.flags),
            InputCall::SampleTime { .. } => InputReply::Time(self.time),
            InputCall::BufferSize { .. } => InputReply::Length(self.capacity),
            InputCall::ReadSample { .. } => InputReply::Length(self.read),
            InputCall::QueueSample { .. } => InputReply::Status(self.queued),
            InputCall::Advance { .. } => InputReply::Advanced,
        }
    }

    /// The outcome of queueing a sample, from a call on.
    pub open spec fn run(self, call: InputCall, last: Option<i64>) -> InputNext
        decreases input_rank(call),
    {
        match input_next(call, last, self.reply(call)) {
            InputNext::Call(next) => self.run(next, last),
            end => end,
        }
    }
}

/// The outcome of queueing a sample. Without a buffer nothing is queued. At the end of the
/// source the end is queued. A sample is queued where it is not encrypted, fits into the buffer
/// and is read in full, with its own time or else the one after the previous; and the first
/// thing that fails is the failure.
pub proof fn lemma_input_outcome(world: InputWorld, last: Option<i64>)
    ensures
        world.run(InputCall::DequeueBuffer, last) == match world.buffer {
            Err(e) => InputNext::Failed(DecodeError::Media(e)),
            Ok(None) => InputNext::Finished { end: false, queued_time_us: None },
            Ok(Some(_)) => if world.size < 0 {
                match world.ended {
                    Err(e) => InputNext::Failed(DecodeError::Media(e)),
                    Ok(_) => InputNext::Finished { end: true, queued_time_us: None },
                }
            } else if world.flags & 2 != 0 {
                InputNext::Failed(DecodeError::Encrypted)
            } else {
                match (world.capacity, world.read, world.queued) {
                    (Err(e), _, _) => InputNext::Failed(DecodeError::Media(e)),
                    (Ok(capacity), _, _) if world.size > capacity => InputNext::Failed(
                        DecodeError::SampleTooLarge { size: world.size as usize, capacity },
                    ),
                    (_, Err(e), _) => InputNext::Failed(DecodeError::Media(e)),
                    (_, Ok(read), _) if read != world.size => InputNext::Failed(
                        DecodeError::ShortRead { read, expected: world.size as usize },
                    ),
                    (_, _, Err(e)) => InputNext::Failed(DecodeError::Media(e)),
                    (_, _, Ok(_)) => InputNext::Finished {
                        end: false,
                        queued_time_us: Some(
                            match last {
                                None => if world.time > 0 {
                                    world.time
                                } else {
                                    0i64
                                },
                                Some(t) => if world.time > t {
                                    world.time
                                } else if t < i64::MAX {
                                    (t + 1) as i64
                                } else {
                                    t
                                },
                            },
                        ),
                    },
                }
            },
        },
{
    lemma_flags_are_bits(world.flags);
    reveal_with_fuel(InputWorld::run, 10);
}

/// The buffer that a call of queueing a sample is about, and the size of the sample, where they
/// are known.
pub open spec fn about_buffer(call: InputCall) -> Option<usize> {
    match call {
        InputCall::SampleSize { index } => Some(index),
        InputCall::QueueEnd { index } => Some(index),
        InputCall::SampleFlags { index, .. } => Some(index),
        InputCall::SampleTime { index, .. } => Some(index),
        InputCall::BufferSize { index, .. } => Some(index),
        InputCall::ReadSample { index, .. } => Some(index),
        InputCall::QueueSample { index, .. } => Some(index),
        _ => None,
    }
}

/// The size of the sample that a call of queueing a sample is about, where it is known.
pub open spec fn about_size(call: InputCall) -> Option<usize> {
    match call {
        InputCall::SampleFlags { size, .. } => Some(size),
        InputCall::SampleTime { size, .. } => Some(size),
        InputCall::BufferSize { size, .. } => Some(size),
        InputCall::ReadSample { size, .. } => Some(size),
        InputCall::QueueSample { size, .. } => Some(size),
        _ => None,
    }
}

/// The time that a call of queueing a sample is about, where it is known.
pub open spec fn about_time(call: InputCall) -> Option<i64> {
    match call {
        InputCall::BufferSize { time_us, .. } => Some(time_us),
        InputCall::ReadSample { time_us, .. } => Some(time_us),
        InputCall::QueueSample { time_us, .. } => Some(time_us),
        InputCall::Advance { time_us } => Some(time_us),
        _ => None,
    }
}

/// One buffer, one sample and one time: once a call names the buffer that the codec gave, the
/// size that the extractor told or the time of the sample, the later calls name the same.
pub proof fn lemma_input_stays_about(call: InputCall, last: Option<i64>, reply: InputReply)
    requires
        answers_input(call, reply),
    ensures
        input_next(call, last, reply) matches InputNext::Call(next) ==> {
            &&& about_buffer(call) is Some && about_buffer(next) is Some ==> about_buffer(next)
                == about_buffer(call)
            &&& about_size(call) is Some && about_size(next) is Some ==> about_size(next)
                == about_size(call)
            &&& about_time(call) is Some ==> about_time(next) == about_time(call)
            &&& reply matches InputReply::Buffer(Ok(Some(index))) ==> about_buffer(next) == Some(
                index,
            )
            &&& reply matches InputReply::Size(size) ==> (about_size(next) matches Some(n) ==> n
                == size)
        },
        input_next(call, last, reply) matches InputNext::Finished { queued_time_us: Some(t), .. }
            ==> about_time(call) == Some(t),
{
}

/// A buffer with contents has them asked for, in the format that is known or after asking for
/// it; one without is passed over.
pub proof fn lemma_buffers_are_looked_into(
    index: usize,
    info: BufferInfo,
    known: Option<OutputAudioFormat>,
)
    ensures
        info.size == 0 <==> output_begin(index, info, known) is Done,
        info.size == 0 ==> output_begin(index, info, known) == OutputNext::Done(Ok(())),
        info.size != 0 && known is Some ==> output_begin(index, info, known) == OutputNext::Call(
            OutputCall::Bytes { index, info, format: known->0 },
        ),
        info.size != 0 && known is None ==> output_begin(index, info, known) == OutputNext::Call(
            OutputCall::Format { index, info },
        ),
{
}

/// Whether a codec's format can be used: it can be had, has the promised sample rate and channel
/// count, and names an encoding that is known, or none.
pub open spec fn is_usable(
    format: Result<MediaFormat, MediaError>,
    sample_rate: u32,
    channel_count: u32,
) -> bool {
    format matches Ok(f) && {
        &&& f.sample_rate matches Some(n) && n > 0 && n == sample_rate
        &&& f.channel_count matches Some(n) && n > 0 && n == channel_count
        &&& f.pcm_encoding matches Some(e) ==> e == 2 || e == 3 || e == 4 || e == 21 || e == 22
    }
}

/// A format is taken over just where it can be used, with the promised sample rate and channel
/// count and with the encoding that it names, or 16 bits. Where it cannot be had, the failure is
/// the media library's; where only the rate or the channels differ, it tells the change.
pub proof fn lemma_usable_formats(
    format: Result<MediaFormat, MediaError>,
    sample_rate: u32,
    channel_count: u32,
)
    ensures
        promised_format(format, sample_rate, channel_count) is Ok <==> is_usable(
            format,
            sample_rate,
            channel_count,
        ),
        promised_format(format, sample_rate, channel_count) matches Ok(parsed) ==> {
            &&& parsed.sample_rate == sample_rate
            &&& parsed.channel_count == channel_count
            &&& parsed.pcm_encoding == match format->Ok_0.pcm_encoding {
                Some(e) => e,
                None => 2,
            }
        },
        format matches Err(e) ==> promised_format(format, sample_rate, channel_count) == Err::<
            OutputAudioFormat,
            _,
        >(DecodeError::Media(format->Err_0)),
        format matches Ok(f) ==> (output_format(f) matches Err(e) ==> promised_format(
            format,
            sample_rate,
            channel_count,
        ) == Err::<OutputAudioFormat, _>(e)),
        format matches Ok(f) ==> output_format(f) is Ok ==> (promised_format(
            format,
            sample_rate,
            channel_count,
        ) matches Err(e) ==> e is FormatChanged),
        promised_format(format, sample_rate, channel_count) matches Err(
            DecodeError::FormatChanged(c),
        ) ==> (format matches Ok(f) && (f.sample_rate matches Some(n) && n == c.sample_rate) && (
        f.channel_count matches Some(n) && n == c.channel_count)) && c.expected_sample_rate
            == sample_rate && c.expected_channel_count == channel_count && (c.sample_rate
            != sample_rate || c.channel_count != channel_count),
{
}

/// Dealing with an output buffer goes on or ends for these causes alone. A format that can be
/// used is followed by asking for the contents; contents that consist of samples are followed by
/// writing them, if there are any; a write that took all or was the last is followed by the end,
/// any other by the rest; and only a failure ends it with an error, which is that failure.
pub proof fn lemma_output_steps(
    order: ByteOrder,
    call: OutputCall,
    reply: OutputReply,
    known: Option<OutputAudioFormat>,
    sample_rate: u32,
    channel_count: u32,
    known_after: Option<OutputAudioFormat>,
    r: OutputNext,
)
    requires
        answers_output(call, reply),
        follows_output(
            order,
            call,
            reply,
            known,
            sample_rate,
            channel_count,
            known_after,
            r,
        ),
    ensures
        match (call, reply) {
            (OutputCall::Format { index, info }, OutputReply::Format(format)) => {
                &&& is_usable(format, sample_rate, channel_count) ==> (r matches OutputNext::Call(
                    OutputCall::Bytes { index: i, info: n, format: f },
                ) && i == index && n == info && known_after == Some(f) && f.sample_rate
                    == sample_rate && f.channel_count == channel_count)
                &&& !is_usable(format, sample_rate, channel_count) ==> known_after == known && (
                r matches OutputNext::Done(Err(exit)) && (exit matches DecoderThreadExit::Fatal(e)
                    && promised_format(format, sample_rate, channel_count) == Err::<
                    OutputAudioFormat,
                    _,
                >(e)))
            },
            (OutputCall::Bytes { format, .. }, OutputReply::Bytes(Err(e))) => known_after == known
                && r == OutputNext::Done(Err(DecoderThreadExit::Fatal(DecodeError::Media(e)))),
            (OutputCall::Bytes { format, .. }, OutputReply::Bytes(Ok(bytes))) => {
                &&& known_after == known
                &&& r is Call <==> holds_samples(format.pcm_encoding, bytes@) && bytes@.len() > 0
                &&& r == OutputNext::Done(Ok(())) <==> holds_samples(format.pcm_encoding, bytes@)
                    && bytes@.len() == 0
                &&& r matches OutputNext::Done(Err(exit)) ==> is_no_run(format.pcm_encoding, exit)
                &&& r is Call ==> (r matches OutputNext::Call(OutputCall::Write { writer })
                    && writer.wf() && is_encoding_of(
                    order,
                    format.pcm_encoding,
                    bytes@,
                    writer.remaining(),
                ))
            },
            (OutputCall::Write { writer }, OutputReply::Write(event)) => known_after == known
                && is_write_step(writer, event, r),
            _ => true,
        },
{
    if let (OutputCall::Format { .. }, OutputReply::Format(format)) = (call, reply) {
        lemma_usable_formats(format, sample_rate, channel_count);
    }
    if let (OutputCall::Bytes { format, .. }, OutputReply::Bytes(Ok(bytes))) = (call, reply) {
        let samples = choose|samples: Result<Vec<u32>, DecodeError>|
            #[trigger] normalized(order, bytes@, format.pcm_encoding, samples) && follows_samples(
                order,
                samples,
                r,
            );
        lemma_written_encoding(order, format.pcm_encoding, bytes@, samples, r);
    }
    if let (OutputCall::Write { writer }, OutputReply::Write(event)) = (call, reply) {
        lemma_write_steps(writer, event, r);
    }
}

/// Whether a run of bytes consists of whole samples of an encoding that is known.
pub open spec fn holds_samples(encoding: i32, bytes: Seq<u8>) -> bool {
    ||| encoding == 3
    ||| encoding == 2 && bytes.len() % 2 == 0
    ||| encoding == 21 && bytes.len() % 3 == 0
    ||| (encoding == 4 || encoding == 22) && bytes.len() % 4 == 0
}

/// Whether an exit tells why bytes are no run of samples: their encoding is not known, or they end
/// within a sample of it.
pub open spec fn is_no_run(encoding: i32, exit: DecoderThreadExit) -> bool {
    exit == DecoderThreadExit::Fatal(
        match encoding {
            2 => DecodeError::PartialSample(WideEncoding::Pcm16),
            4 => DecodeError::PartialSample(WideEncoding::Float),
            21 => DecodeError::PartialSample(WideEncoding::Pcm24),
            22 => DecodeError::PartialSample(WideEncoding::Pcm32),
            _ => DecodeError::UnsupportedEncoding(encoding),
        },
    )
}

/// Whether bytes are the samples of a run of decoded bytes, as they go into the pipe: four bytes
/// for each, in the given byte order.
pub open spec fn is_encoding_of(order: ByteOrder, encoding: i32, bytes: Seq<u8>, written: Seq<u8>) -> bool {
    exists|samples: Seq<u32>| #[trigger]
        is_normalized(order, encoding, bytes, samples) && written.len() == 4 * samples.len() && (
        forall|i: int|
            0 <= i < samples.len() ==> {
                let w = #[trigger] samples[i];
                &&& order == ByteOrder::Little ==> w == written[4 * i] + 0x100 * written[4 * i + 1]
                    + 0x1_0000 * written[4 * i + 2] + 0x100_0000 * written[4 * i + 3]
                &&& order == ByteOrder::Big ==> w == written[4 * i + 3] + 0x100 * written[4 * i + 2]
                    + 0x1_0000 * written[4 * i + 1] + 0x100_0000 * written[4 * i]
            })
}

/// What follows an attempt to write. A write that took everything ends the buffer; one that took
/// less is followed by the rest, an interrupted one by all of it; a pipe that nobody reads ends
/// the decoder quietly, and any other failure with its message.
pub open spec fn is_write_step(writer: SampleWriter, event: PipeWrite, r: OutputNext) -> bool {
    match event {
        PipeWrite::Written(n) => {
            &&& n >= writer.remaining().len() <==> r == OutputNext::Done(Ok(()))
            &&& n < writer.remaining().len() <==> (r matches OutputNext::Call(
                OutputCall::Write { writer: rest },
            ) && rest.wf() && writer.remaining() == writer.remaining().take(n as int)
                + rest.remaining())
        },
        PipeWrite::Failed { interrupted, os_error, message } => {
            &&& interrupted <==> (r matches OutputNext::Call(OutputCall::Write { writer: rest })
                && rest.wf() && rest.remaining() == writer.remaining())
            &&& !interrupted && os_error == Some(32i32) <==> r == OutputNext::Done(
                Err(DecoderThreadExit::ConsumerClosed),
            )
            &&& !interrupted && os_error != Some(32i32) <==> r == OutputNext::Done(
                Err(DecoderThreadExit::Fatal(DecodeError::PipeWrite(message))),
            )
        },
    }
}

proof fn lemma_write_steps(writer: SampleWriter, event: PipeWrite, r: OutputNext)
    requires
        follows_write(writer, event, r),
    ensures
        is_write_step(writer, event, r),
{
    if let PipeWrite::Written(n) = event {
        if n < writer.remaining().len() {
            let rest = writer.remaining().skip(n as int);
            assert(writer.remaining() =~= writer.remaining().take(n as int) + rest);
        }
    }
}

proof fn lemma_written_encoding(
    order: ByteOrder,
    encoding: i32,
    bytes: Seq<u8>,
    samples: Result<Vec<u32>, DecodeError>,
    r: OutputNext,
)
    requires
        normalized(order, bytes, encoding, samples),
        follows_samples(order, samples, r),
    ensures
        r is Call <==> holds_samples(encoding, bytes) && bytes.len() > 0,
        r == OutputNext::Done(Ok(())) <==> holds_samples(encoding, bytes) && bytes.len() == 0,
        r is Call ==> (r matches OutputNext::Call(OutputCall::Write { writer }) && writer.wf()
            && is_encoding_of(order, encoding, bytes, writer.remaining())),
        r matches OutputNext::Done(Err(exit)) ==> is_no_run(encoding, exit),
{
    lemma_what_is_decoded(order, bytes, encoding, samples);
    assert(samples is Ok <==> holds_samples(encoding, bytes));
    if let Ok(found) = samples {
        let v = found@;
        let size = encoded_size(encoding) as int;
        assert(v.len() * size == bytes.len());
        assert(v.len() == 0 <==> bytes.len() == 0) by (nonlinear_arith)
            requires
                v.len() * size == bytes.len(),
                size > 0,
        ;
        if v.len() > 0 {
            let written = bytes_of(order, v);
            assert forall|i: int| 0 <= i < v.len() implies {
                let w = #[trigger] v[i];
                &&& order == ByteOrder::Little ==> w == written[4 * i] + 0x100 * written[4 * i + 1]
                    + 0x1_0000 * written[4 * i + 2] + 0x100_0000 * written[4 * i + 3]
                &&& order == ByteOrder::Big ==> w == written[4 * i + 3] + 0x100 * written[4 * i + 2]
                    + 0x1_0000 * written[4 * i + 1] + 0x100_0000 * written[4 * i]
            } by {
                lemma_bytes_in_order(v, i);
                if order == ByteOrder::Big {
                    let big = bytes_of(ByteOrder::Big, v);
                    assert(big[4 * i + 0] == bytes_of(ByteOrder::Little, v)[4 * i + 3]);
                    assert(big[4 * i + 1] == bytes_of(ByteOrder::Little, v)[4 * i + 2]);
                    assert(big[4 * i + 2] == bytes_of(ByteOrder::Little, v)[4 * i + 1]);
                    assert(big[4 * i + 3] == bytes_of(ByteOrder::Little, v)[4 * i + 0]);
                }
            }
            assert(is_normalized(order, encoding, bytes, v));
        }
    }
}

/// The loop around a codec ends only for a cause: a reply that is an error, a buffer that was
/// dealt with unsuccessfully, a format that cannot be used, or a whole source without samples.
pub proof fn lemma_loop_ends_only_for_a_cause(s: DecoderLoop, call: LoopCall, reply: LoopReply)
    requires
        answers_loop(call, reply),
    ensures
        s.next(call, reply).1 is Err <==> {
            ||| reply matches LoopReply::Input(Err(_))
            ||| reply matches LoopReply::Output(Err(_))
            ||| reply matches LoopReply::Status(Err(_))
            ||| call matches LoopCall::ReleaseBuffer { outcome: Err(_), .. }
            ||| reply matches LoopReply::Format(format) && !is_usable(
                format,
                s.expected_sample_rate,
                s.expected_channel_count,
            )
            ||| s.input_eos && s.output_eos && !s.saw_output_samples && (call is OutputFormat
                || call is ReleaseBuffer || reply == LoopReply::Output(
                Ok::<_, MediaError>(OutputBufferResult::TryAgainLater),
            ) || reply == LoopReply::Output(
                Ok::<_, MediaError>(OutputBufferResult::OutputBuffersChanged),
            ))
        },
{
    if let LoopReply::Format(format) = reply {
        lemma_usable_formats(format, s.expected_sample_rate, s.expected_channel_count);
    }
}

/// The error that the loop around a codec ends with is the one that made it end.
pub proof fn lemma_loop_passes_errors_on(s: DecoderLoop, call: LoopCall, reply: LoopReply)
    requires
        answers_loop(call, reply),
    ensures
        reply matches LoopReply::Input(Err(e)) ==> s.next(call, reply).1 == Err::<LoopCall, _>(
            DecoderThreadExit::Fatal(e),
        ),
        reply matches LoopReply::Output(Err(e)) ==> s.next(call, reply).1 == Err::<LoopCall, _>(
            DecoderThreadExit::Fatal(DecodeError::Media(e)),
        ),
        reply matches LoopReply::Status(Err(e)) ==> s.next(call, reply).1 == Err::<LoopCall, _>(
            DecoderThreadExit::Fatal(DecodeError::Media(e)),
        ),
        reply matches LoopReply::Format(Err(e)) ==> s.next(call, reply).1 == Err::<LoopCall, _>(
            DecoderThreadExit::Fatal(DecodeError::Media(e)),
        ),
        reply matches LoopReply::Format(format) ==> (promised_format(
            format,
            s.expected_sample_rate,
            s.expected_channel_count,
        ) matches Err(e) ==> s.next(call, reply).1 == Err::<LoopCall, _>(
            DecoderThreadExit::Fatal(e),
        )),
        reply matches LoopReply::Status(Ok(_)) ==> (call matches LoopCall::ReleaseBuffer {
            outcome: Err(exit),
            ..
        } ==> s.next(call, reply).1 == Err::<LoopCall, _>(exit)),
        s.next(call, reply).1 is Err && !(reply matches LoopReply::Input(Err(_))) && !(
        reply matches LoopReply::Output(Err(_))) && !(reply matches LoopReply::Status(Err(_)))
            && !(reply is Format) && !(call matches LoopCall::ReleaseBuffer { outcome: Err(_), .. })
            ==> s.next(call, reply).1 == Err::<LoopCall, _>(
            DecoderThreadExit::Fatal(DecodeError::NoSamples),
        ),
{
}

/// Whether a call is the one with which the loop around a codec goes on, as long as it is not
/// over: more input until its end is queued, then only output, and once all of the source went
/// in and came out, the start of the source again.
pub open spec fn goes_on_with(s: DecoderLoop, call: LoopCall) -> bool {
    &&& !s.input_eos ==> call is QueueInput
    &&& s.input_eos && !s.output_eos ==> call is DequeueOutput
    &&& s.input_eos && s.output_eos ==> call is SeekToStart
}

/// An answer of the codec that it has no output yet, or that its buffers changed, changes nothing:
/// the loop goes on.
pub proof fn lemma_no_output_yet(s: DecoderLoop, reply: LoopReply)
    requires
        reply == LoopReply::Output(Ok::<_, MediaError>(OutputBufferResult::TryAgainLater)) || reply
            == LoopReply::Output(Ok::<_, MediaError>(OutputBufferResult::OutputBuffersChanged)),
        !(s.input_eos && s.output_eos && !s.saw_output_samples),
    ensures
        s.next(LoopCall::DequeueOutput, reply).0 == s,
        s.next(LoopCall::DequeueOutput, reply).1 matches Ok(call) && goes_on_with(s, call),
{
}

/// What each successful call of the loop around a codec changes and what follows it.
///
/// Queueing input notes its end and the time of the sample, and output is looked for next. A
/// buffer that is given out is dealt with, and then given back. Dealing with it notes that there
/// were samples if it was not empty, and the end of the output if the third flag says so. A new
/// format is noted. Going back to the start and emptying the codec leaves the format and that
/// there are samples, and nothing else.
pub proof fn lemma_loop_steps(s: DecoderLoop, call: LoopCall, reply: LoopReply)
    requires
        answers_loop(call, reply),
        s.next(call, reply).1 is Ok,
    ensures
        ({
            let t = s.next(call, reply).0;
            let next = s.next(call, reply).1->Ok_0;
            match (call, reply) {
                (LoopCall::QueueInput, LoopReply::Input(Ok((end, time)))) => {
                    &&& next is DequeueOutput
                    &&& t.input_eos == (s.input_eos || end)
                    &&& time is Some ==> t.last_queued_sample_time_us == time
                    &&& time is None ==> t.last_queued_sample_time_us
                        == s.last_queued_sample_time_us
                    &&& t.output_eos == s.output_eos
                    &&& t.saw_output_samples == s.saw_output_samples
                    &&& t.output_format == s.output_format
                },
                (LoopCall::DequeueOutput, LoopReply::Output(Ok(output))) => {
                    &&& t == s
                    &&& output matches OutputBufferResult::Buffer { index, info } ==> next == (
                    LoopCall::HandleBuffer { index, info })
                    &&& output is OutputFormatChanged ==> next is OutputFormat
                    &&& output is TryAgainLater || output is OutputBuffersChanged ==> goes_on_with(
                        s,
                        next,
                    )
                },
                (LoopCall::OutputFormat, LoopReply::Format(Ok(format))) => {
                    &&& goes_on_with(s, next)
                    &&& t.output_format == Some(
                        OutputAudioFormat {
                            sample_rate: s.expected_sample_rate,
                            channel_count: s.expected_channel_count,
                            pcm_encoding: match format.pcm_encoding {
                                Some(e) => e,
                                None => 2,
                            },
                        },
                    )
                    &&& t == (DecoderLoop { output_format: t.output_format, ..s })
                },
                (
                    LoopCall::HandleBuffer { index, info },
                    LoopReply::Handled { outcome, output_format },
                ) => {
                    &&& next == (LoopCall::ReleaseBuffer { index, outcome })
                    &&& t.saw_output_samples == (s.saw_output_samples || info.size > 0)
                    &&& t.output_eos == (s.output_eos || info.flags & 4 != 0)
                    &&& t.output_format == output_format
                    &&& t.input_eos == s.input_eos
                    &&& t.last_queued_sample_time_us == s.last_queued_sample_time_us
                },
                (LoopCall::ReleaseBuffer { .. }, _) => t == s && goes_on_with(s, next),
                (LoopCall::SeekToStart, _) => t == s && next is Flush,
                (LoopCall::Flush, _) => {
                    &&& next is QueueInput
                    &&& !t.input_eos && !t.output_eos
                    &&& t.last_queued_sample_time_us is None
                    &&& t.saw_output_samples == s.saw_output_samples
                    &&& t.output_format == s.output_format
                },
                _ => true,
            }
        }),
{
    if let LoopReply::Format(format) = reply {
        lemma_usable_formats(format, s.expected_sample_rate, s.expected_channel_count);
    }
    if let LoopCall::HandleBuffer { info, .. } = call {
        lemma_flags_are_bits(info.flags);
    }
}

/// The loop over a source that needs no codec goes on to read a sample just where it is not
/// encrypted, and ends with that failure just where it is: the second flag says so, whatever the
/// others are.
pub proof fn lemma_raw_flags(
    s: RawLoop,
    order: ByteOrder,
    size: usize,
    flags: u32,
    t: RawLoop,
    r: Result<RawCall, DecoderThreadExit>,
)
    requires
        follows_raw(s, order, RawCall::SampleFlags { size }, RawReply::Flags(flags), t, r),
    ensures
        flags & 2 == 0 <==> r == Ok::<_, DecoderThreadExit>(RawCall::ReadSample { size }),
        flags & 2 != 0 <==> r == Err::<RawCall, _>(DecoderThreadExit::Fatal(DecodeError::Encrypted)),
        t == s,
{
    lemma_flags_are_bits(flags);
}

/// What each step of the loop over a source that needs no codec leads to.
///
/// A sample is asked for its flags with its size. One that is read in full and consists of
/// samples has them written, if there are any, and it is noted that there were some; after that
/// the extractor moves on, and the next sample is looked at. At the end the loop goes back to the
/// start if there were samples. Any failure ends the loop.
pub proof fn lemma_raw_steps(
    s: RawLoop,
    order: ByteOrder,
    call: RawCall,
    reply: RawReply,
    t: RawLoop,
    r: Result<RawCall, DecoderThreadExit>,
)
    requires
        answers_raw(call, reply),
        follows_raw(s, order, call, reply, t, r),
    ensures
        t.output_format == s.output_format,
        match (call, reply) {
            (RawCall::SampleSize, RawReply::Size(size)) => {
                &&& t == s
                &&& size >= 0 ==> (r matches Ok(next) && (next matches RawCall::SampleFlags { size: n }
                    && n == size))
                &&& size < 0 && s.saw_output_samples ==> r == Ok::<_, DecoderThreadExit>(
                    RawCall::SeekToStart,
                )
                &&& size < 0 && !s.saw_output_samples ==> r == Err::<RawCall, _>(
                    DecoderThreadExit::Fatal(DecodeError::NoSamples),
                )
            },
            (RawCall::SeekToStart, RawReply::Status(Ok(_))) => t == s && r == Ok::<
                _,
                DecoderThreadExit,
            >(RawCall::SampleSize),
            (RawCall::SeekToStart, RawReply::Status(Err(e))) => r == Err::<RawCall, _>(
                DecoderThreadExit::Fatal(DecodeError::Media(e)),
            ),
            (RawCall::ReadSample { .. }, RawReply::Sample(Err(e))) => r == Err::<RawCall, _>(
                DecoderThreadExit::Fatal(DecodeError::Media(e)),
            ),
            (RawCall::ReadSample { size }, RawReply::Sample(Ok(bytes))) => {
                let whole = bytes@.len() == size;
                let sound = whole && holds_samples(s.output_format.pcm_encoding, bytes@);
                &&& !whole ==> r == Err::<RawCall, _>(
                    DecoderThreadExit::Fatal(
                        DecodeError::ShortRead { read: bytes@.len() as usize, expected: size },
                    ),
                )
                &&& !sound ==> r is Err
                &&& whole && !sound ==> (r matches Err(exit) && is_no_run(
                    s.output_format.pcm_encoding,
                    exit,
                ))
                &&& sound && bytes@.len() > 0 ==> t.saw_output_samples && (r matches Ok(next) && (
                next matches RawCall::Write { writer } && writer.wf() && is_encoding_of(
                    order,
                    s.output_format.pcm_encoding,
                    bytes@,
                    writer.remaining(),
                )))
                &&& sound && bytes@.len() == 0 ==> t == s && r == Ok::<_, DecoderThreadExit>(
                    RawCall::Advance,
                )
            },
            (RawCall::Write { writer }, RawReply::Write(event)) => {
                &&& t == s
                &&& exists|step: OutputNext| #[trigger]
                    is_write_step(writer, event, step) && match step {
                        OutputNext::Done(Ok(_)) => r == Ok::<_, DecoderThreadExit>(
                            RawCall::Advance,
                        ),
                        OutputNext::Done(Err(exit)) => r == Err::<RawCall, _>(exit),
                        OutputNext::Call(OutputCall::Write { writer: rest }) => r == Ok::<
                            _,
                            DecoderThreadExit,
                        >(RawCall::Write { writer: rest }),
                        _ => false,
                    }
            },
            (RawCall::Advance, _) => t == s && r == Ok::<_, DecoderThreadExit>(RawCall::SampleSize),
            _ => true,
        },
{
    match (call, reply) {
        (RawCall::ReadSample { size }, RawReply::Sample(Ok(bytes))) => {
            if bytes@.len() == size {
                let encoding = s.output_format.pcm_encoding;
                let (samples, step) = choose|
                    samples: Result<Vec<u32>, DecodeError>,
                    step: OutputNext,
                |
                    {
                        &&& #[trigger] normalized(order, bytes@, encoding, samples)
                        &&& #[trigger] follows_samples(order, samples, step)
                        &&& r == raw_call_after(step)
                        &&& t.saw_output_samples == (s.saw_output_samples || step is Call)
                    };
                lemma_written_encoding(order, encoding, bytes@, samples, step);
            }
        },
        (RawCall::Write { writer }, RawReply::Write(event)) => {
            let step = choose|step: OutputNext| #[trigger]
                follows_write(writer, event, step) && r == raw_call_after(step);
            lemma_write_steps(writer, event, step);
        },
        _ => {},
    }
}

/// The call that a run made at a place, or makes next.
pub open spec fn call_at(steps: Seq<RawStep>, call: RawCall, i: int) -> RawCall {
    if i < steps.len() {
        steps[i].call
    } else {
        call
    }
}

/// The state that a run was in at a place, or is in now.
pub open spec fn state_at(steps: Seq<RawStep>, state: RawLoop, i: int) -> RawLoop {
    if i < steps.len() {
        steps[i].state
    } else {
        state
    }
}

proof fn lemma_raw_run_step(
    order: ByteOrder,
    steps: Seq<RawStep>,
    state: RawLoop,
    call: RawCall,
    i: int,
)
    requires
        is_raw_run(order, steps, state, call),
        0 <= i < steps.len(),
    ensures
        answers_raw(steps[i].call, steps[i].reply),
        follows_raw(
            steps[i].state,
            order,
            steps[i].call,
            steps[i].reply,
            state_at(steps, state, i + 1),
            Ok(call_at(steps, call, i + 1)),
        ),
    decreases steps.len(),
{
    let last = steps.last();
    let earlier = steps.drop_last();
    if i < earlier.len() {
        lemma_raw_run_step(order, earlier, last.state, last.call, i);
        assert(earlier[i] == steps[i]);
        assert(state_at(earlier, last.state, i + 1) == state_at(steps, state, i + 1));
        assert(call_at(earlier, last.call, i + 1) == call_at(steps, call, i + 1));
    }
}

/// In a run over a source that needs no codec, a sample of which the extractor tells a size that
/// is not negative is asked for its flags, and one that is not encrypted is read; once it is read
/// in full, its samples go into the pipe, and the extractor moves on only when every byte of them
/// is taken.
pub proof fn lemma_raw_run_streams_every_sample(
    order: ByteOrder,
    steps: Seq<RawStep>,
    state: RawLoop,
    call: RawCall,
    i: int,
)
    requires
        is_raw_run(order, steps, state, call),
        0 <= i < steps.len(),
    ensures
        ({
            let next = call_at(steps, call, i + 1);
            match (steps[i].call, steps[i].reply) {
                (RawCall::SampleSize, RawReply::Size(size)) => size >= 0 ==> (
                next matches RawCall::SampleFlags { size: n } && n == size),
                (RawCall::SampleFlags { size }, RawReply::Flags(flags)) => flags & 2 == 0 && next
                    == (RawCall::ReadSample { size }),
                (RawCall::ReadSample { size }, RawReply::Sample(read)) => read matches Ok(bytes)
                    && bytes@.len() == size && is_encoding_of(
                    order,
                    steps[i].state.output_format.pcm_encoding,
                    bytes@,
                    outstanding(next),
                ) && (bytes@.len() > 0 ==> next is Write),
                (RawCall::Write { writer }, RawReply::Write(event)) => {
                    &&& next is Write || next is Advance
                    &&& next is Advance ==> (event matches PipeWrite::Written(n) && n
                        >= writer.remaining().len())
                    &&& next is Write ==> match event {
                        PipeWrite::Written(n) => writer.remaining() == writer.remaining().take(
                            n as int,
                        ) + outstanding(next),
                        PipeWrite::Failed { interrupted, .. } => interrupted && outstanding(next)
                            == writer.remaining(),
                    }
                },
                _ => true,
            }
        }),
{
    lemma_raw_run_step(order, steps, state, call, i);
    let s = steps[i];
    let t = state_at(steps, state, i + 1);
    let next = call_at(steps, call, i + 1);
    lemma_raw_steps(s.state, order, s.call, s.reply, t, Ok(next));
    match (s.call, s.reply) {
        (RawCall::SampleFlags { size }, RawReply::Flags(flags)) => {
            lemma_raw_flags(s.state, order, size, flags, t, Ok(next));
        },
        (RawCall::ReadSample { size }, RawReply::Sample(Ok(bytes))) => {
            if bytes@.len() == 0 {
                let nothing = Seq::<u32>::empty();
                let encoding = s.state.output_format.pcm_encoding;
                assert(holds_samples(encoding, bytes@));
                assert(0 * encoded_size(encoding) == 0);
                assert(is_normalized(order, encoding, bytes@, nothing));
            }
        },
        _ => {},
    }
}

/// A sample is queued as it was announced and unmarked; the end of the stream is queued empty and
/// with the mark of the end. Nothing else is queued.
pub proof fn lemma_what_is_queued(call: InputCall)
    ensures
        queued_with(call) is Some <==> call is QueueSample || call is QueueEnd,
        queued_with(call) matches Some(a) ==> {
            &&& about_buffer(call) == Some(a.index)
            &&& a.offset == 0
            &&& call is QueueSample ==> about_size(call) == Some(a.size) && about_time(call) == Some(
                a.time_us,
            ) && a.flags == 0
            &&& call is QueueEnd ==> a.size == 0 && a.time_us == 0 && a.flags == 4
        },
{
}

/// A loop begins with nothing queued, nothing seen and no format known, and keeps the format that
/// it was promised; asking for input is what it may do first.
pub proof fn lemma_loops_begin_afresh(sample_rate: u32, channel_count: u32, format: OutputAudioFormat)
    ensures
        ({
            let s = DecoderLoop::initial(sample_rate, channel_count);
            &&& !s.input_eos && !s.output_eos && !s.saw_output_samples
            &&& s.output_format is None && s.last_queued_sample_time_us is None
            &&& s.expected_sample_rate == sample_rate
            &&& s.expected_channel_count == channel_count
            &&& s.inv(LoopCall::QueueInput)
        }),
        ({
            let s = RawLoop::initial(format);
            !s.saw_output_samples && s.output_format == format && s.inv(RawCall::SampleSize)
        }),
{
}

} // verus!
