//! The platform's media library, as far as its results go.
//!
//! The library is called from outside; what a call gave back (a status, a code, a size, an
//! object or none) is turned here into a value or a [`MediaError`].
use vstd::prelude::*;
use vstd::string::*;
use crate::error::{BufferInfo, MediaError};
use crate::text::decimal_int;

verus! {

/// A codec of the media library, which is only known by its address.
pub enum AMediaCodec {
    Opaque,
}

/// An extractor of the media library, which is only known by its address.
pub enum AMediaExtractor {
    Opaque,
}

/// A format of the media library, which is only known by its address.
pub enum AMediaFormat {
    Opaque,
}

/// What the media library says of an output buffer.
#[derive(Clone, Copy, Debug)]
pub struct AMediaCodecBufferInfo {
    pub offset: i32,
    pub size: i32,
    pub presentation_time_us: i64,
    pub flags: u32,
}

pub type MediaStatus = i32;

pub const AMEDIA_OK: MediaStatus = 0;

pub const AMEDIACODEC_BUFFER_FLAG_END_OF_STREAM: u32 = 4;

pub const AMEDIACODEC_INFO_OUTPUT_BUFFERS_CHANGED: isize = -3;

pub const AMEDIACODEC_INFO_OUTPUT_FORMAT_CHANGED: isize = -2;

pub const AMEDIACODEC_INFO_TRY_AGAIN_LATER: isize = -1;

pub const AMEDIAEXTRACTOR_SAMPLE_FLAG_ENCRYPTED: u32 = 2;

pub const AMEDIAEXTRACTOR_SEEK_PREVIOUS_SYNC: i32 = 0;

impl Default for AMediaCodecBufferInfo {
    fn default() -> (r: Self)
        ensures
            r.offset == 0,
            r.size == 0,
            r.presentation_time_us == 0,
            r.flags == 0,
    {
        AMediaCodecBufferInfo { offset: 0, size: 0, presentation_time_us: 0, flags: 0 }
    }
}

impl From<AMediaCodecBufferInfo> for BufferInfo {
    fn from(value: AMediaCodecBufferInfo) -> (r: Self) {
        BufferInfo { offset: value.offset, size: value.size, flags: value.flags }
    }
}

impl vstd::std_specs::convert::FromSpecImpl<AMediaCodecBufferInfo> for BufferInfo {
    open spec fn obeys_from_spec() -> bool {
        true
    }

    open spec fn from_spec(value: AMediaCodecBufferInfo) -> Self {
        BufferInfo { offset: value.offset, size: value.size, flags: value.flags }
    }
}

/// Whether a flag is among the flags of a sample or buffer. A flag is a power of two.
pub open spec fn has_flag(flags: u32, flag: u32) -> bool {
    (flags / flag) % 2 == 1
}

/// Whether the samples of a buffer are the last ones.
pub fn is_end_of_stream(flags: u32) -> (r: bool)
    ensures
        r == has_flag(flags, AMEDIACODEC_BUFFER_FLAG_END_OF_STREAM),
        r == (flags & AMEDIACODEC_BUFFER_FLAG_END_OF_STREAM != 0),
{
    assert((flags & 4 != 0) == ((flags / 4) % 2 == 1)) by (bit_vector);
    flags & AMEDIACODEC_BUFFER_FLAG_END_OF_STREAM != 0
}

/// Whether a sample is encrypted.
pub fn is_encrypted(flags: u32) -> (r: bool)
    ensures
        r == has_flag(flags, AMEDIAEXTRACTOR_SAMPLE_FLAG_ENCRYPTED),
        r == (flags & AMEDIAEXTRACTOR_SAMPLE_FLAG_ENCRYPTED != 0),
{
    assert((flags & 2 != 0) == ((flags / 2) % 2 == 1)) by (bit_vector);
    flags & AMEDIAEXTRACTOR_SAMPLE_FLAG_ENCRYPTED != 0
}

/// The message of an operation that failed with a status.
pub fn media_status_error(operation: &'static str, status: MediaStatus) -> (r: String)
    ensures
        r@ == operation@ + " failed with media status "@ + decimal_int(status as int),
{
    MediaError::Status { operation, status }.message()
}

/// The operations of the media library whose failure is told by their name.
#[derive(Clone, Copy, Debug, PartialEq, Eq, Structural)]
pub enum Operation {
    NewExtractor,
    SetDataSource,
    TrackFormat,
    SelectTrack,
    SeekTo,
    CreateDecoder,
    Configure,
    Start,
    Flush,
    QueueInput,
    OutputFormat,
    ReleaseOutput,
}

impl Operation {
    /// What the media library calls the operation.
    pub open spec fn name(self) -> &'static str {
        match self {
            Operation::NewExtractor => "AMediaExtractor_new",
            Operation::SetDataSource => "AMediaExtractor_setDataSourceFd",
            Operation::TrackFormat => "AMediaExtractor_getTrackFormat",
            Operation::SelectTrack => "AMediaExtractor_selectTrack",
            Operation::SeekTo => "AMediaExtractor_seekTo",
            Operation::CreateDecoder => "AMediaCodec_createDecoderByType",
            Operation::Configure => "AMediaCodec_configure",
            Operation::Start => "AMediaCodec_start",
            Operation::Flush => "AMediaCodec_flush",
            Operation::QueueInput => "AMediaCodec_queueInputBuffer",
            Operation::OutputFormat => "AMediaCodec_getOutputFormat",
            Operation::ReleaseOutput => "AMediaCodec_releaseOutputBuffer",
        }
    }
}

/// An operation succeeded where its status says so.
pub open spec fn by_status(operation: &'static str, status: MediaStatus) -> Result<(), MediaError> {
    if status == AMEDIA_OK {
        Ok(())
    } else {
        Err(MediaError::Status { operation, status })
    }
}

fn check_status(operation: &'static str, status: MediaStatus) -> (r: Result<(), MediaError>)
    ensures
        r == by_status(operation, status),
{
    if status == AMEDIA_OK {
        Ok(())
    } else {
        Err(MediaError::Status { operation, status })
    }
}

/// What a format of the media library says, key by key.
#[derive(Debug)]
pub struct MediaFormat {
    pub mime: Option<String>,
    pub sample_rate: Option<i32>,
    pub channel_count: Option<i32>,
    pub pcm_encoding: Option<i32>,
    /// The format in words.
    pub description: String,
}

/// The format that an operation gave, if it gave one.
pub open spec fn given_format(raw: Option<MediaFormat>, operation: &'static str) -> Result<
    MediaFormat,
    MediaError,
> {
    match raw {
        Some(format) => Ok(format),
        None => Err(MediaError::Null { operation }),
    }
}

/// The size of an input buffer, if there is such a buffer.
pub open spec fn input_capacity(index: usize, size: Option<usize>) -> Result<usize, MediaError> {
    match size {
        Some(size) => Ok(size),
        None => Err(MediaError::NullInputBuffer { index }),
    }
}

/// Where the contents of an output buffer lie, if there is such a buffer.
pub open spec fn output_contents(index: usize, out_size: Option<usize>, info: BufferInfo) -> Result<
    (usize, usize),
    MediaError,
> {
    match out_size {
        Some(out_size) => output_range(info, out_size),
        None => Err(MediaError::NullOutputBuffer { index }),
    }
}

impl MediaFormat {
    /// The format that an operation gave, if it gave one.
    pub fn from_raw(raw: Option<MediaFormat>, operation: &'static str) -> (r: Result<
        MediaFormat,
        MediaError,
    >)
        ensures
            r == given_format(raw, operation),
            r == match raw {
                Some(format) => Ok(format),
                None => Err(MediaError::Null { operation }),
            },
    {
        match raw {
            Some(format) => Ok(format),
            None => Err(MediaError::Null { operation }),
        }
    }
}

/// Whether a range of bytes lies within a buffer.
pub open spec fn within_buffer(offset: usize, size: usize, out_size: usize) -> Result<(), MediaError> {
    if offset + size > usize::MAX {
        Err(MediaError::RangeOverflow { offset, size, out_size })
    } else if offset + size > out_size {
        Err(MediaError::OutOfRange { offset, size, out_size })
    } else {
        Ok(())
    }
}

/// Checks that a range of bytes lies within a buffer.
pub fn validate_output_buffer_range(offset: usize, size: usize, out_size: usize) -> (r: Result<
    (),
    MediaError,
>)
    ensures
        r == within_buffer(offset, size, out_size),
        r == if offset + size > usize::MAX {
            Err(MediaError::RangeOverflow { offset, size, out_size })
        } else if offset + size > out_size {
            Err(MediaError::OutOfRange { offset, size, out_size })
        } else {
            Ok(())
        },
{
    match offset.checked_add(size) {
        None => Err(MediaError::RangeOverflow { offset, size, out_size }),
        Some(end) => {
            if end > out_size {
                Err(MediaError::OutOfRange { offset, size, out_size })
            } else {
                Ok(())
            }
        },
    }
}

/// The offset and size of an output buffer's contents, where they lie within the buffer.
pub open spec fn output_range(info: BufferInfo, out_size: usize) -> Result<
    (usize, usize),
    MediaError,
> {
    let offset = info.offset as usize;
    let size = info.size as usize;
    if info.offset < 0 || info.size < 0 {
        Err(MediaError::NegativeBounds { info })
    } else if info.offset + info.size > usize::MAX {
        Err(MediaError::RangeOverflow { offset, size, out_size })
    } else if info.offset + info.size > out_size {
        Err(MediaError::OutOfRange { offset, size, out_size })
    } else {
        Ok((offset, size))
    }
}

/// Computes [`output_range`].
pub fn validate_output_buffer_bounds(info: &BufferInfo, out_size: usize) -> (r: Result<
    (usize, usize),
    MediaError,
>)
    ensures
        r == output_range(*info, out_size),
        r matches Ok((offset, size)) ==> offset == info.offset && size == info.size && offset + size
            <= out_size,
{
    if info.offset < 0 || info.size < 0 {
        return Err(MediaError::NegativeBounds { info: *info });
    }
    let offset: usize = info.offset as usize;
    let size: usize = info.size as usize;
    match validate_output_buffer_range(offset, size, out_size) {
        Ok(_) => Ok((offset, size)),
        Err(e) => Err(e),
    }
}

/// What a codec answers when it is asked for output.
#[derive(Clone, Copy, Debug, PartialEq, Eq, Structural)]
pub enum OutputBufferResult {
    TryAgainLater,
    OutputBuffersChanged,
    OutputFormatChanged,
    Buffer { index: usize, info: BufferInfo },
}

/// The size of a sample, as the size or code that reading it gave says.
pub open spec fn sample_size(size: isize) -> Result<usize, MediaError> {
    if size < 0 {
        Err(MediaError::ReadSampleData { code: size })
    } else {
        Ok(size as usize)
    }
}

/// An extractor, as far as the results of its operations go.
pub struct MediaExtractor {}

impl MediaExtractor {
    /// An extractor, if the media library gave one.
    pub fn new(created: bool) -> (r: Result<MediaExtractor, MediaError>)
        ensures
            !created ==> r == Err::<MediaExtractor, _>(
                MediaError::Null { operation: Operation::NewExtractor.name() },
            ),
            r == if created {
                Ok(MediaExtractor {  })
            } else {
                Err(MediaError::Null { operation: "AMediaExtractor_new" })
            },
    {
        if created {
            Ok(MediaExtractor {  })
        } else {
            Err(MediaError::Null { operation: "AMediaExtractor_new" })
        }
    }

    pub fn set_data_source_fd(&self, status: MediaStatus) -> (r: Result<(), MediaError>)
        ensures
            r == by_status("AMediaExtractor_setDataSourceFd", status),
            r == by_status(Operation::SetDataSource.name(), status),
    {
        check_status("AMediaExtractor_setDataSourceFd", status)
    }

    pub fn track_format(&self, raw: Option<MediaFormat>) -> (r: Result<MediaFormat, MediaError>)
        ensures
            r == given_format(raw, Operation::TrackFormat.name()),
            r == match raw {
                Some(format) => Ok(format),
                None => Err(MediaError::Null { operation: "AMediaExtractor_getTrackFormat" }),
            },
    {
        MediaFormat::from_raw(raw, "AMediaExtractor_getTrackFormat")
    }

    pub fn select_track(&self, status: MediaStatus) -> (r: Result<(), MediaError>)
        ensures
            r == by_status("AMediaExtractor_selectTrack", status),
            r == by_status(Operation::SelectTrack.name(), status),
    {
        check_status("AMediaExtractor_selectTrack", status)
    }

    /// The size of a sample that was read.
    pub fn read_sample_data(&self, size: isize) -> (r: Result<usize, MediaError>)
        ensures
            r == sample_size(size),
            r == if size < 0 {
                Err(MediaError::ReadSampleData { code: size })
            } else {
                Ok(size as usize)
            },
    {
        if size < 0 {
            Err(MediaError::ReadSampleData { code: size })
        } else {
            Ok(size as usize)
        }
    }

    pub fn seek_to_start(&self, status: MediaStatus) -> (r: Result<(), MediaError>)
        ensures
            r == by_status("AMediaExtractor_seekTo", status),
            r == by_status(Operation::SeekTo.name(), status),
    {
        check_status("AMediaExtractor_seekTo", status)
    }
}

/// Whether a codec runs after an attempt to start it.
pub open spec fn runs_after_start(running: bool, status: MediaStatus) -> bool {
    running || status == AMEDIA_OK
}

/// The input buffer that a codec gave, as its index or code says.
pub open spec fn dequeued_input(index: isize) -> Result<Option<usize>, MediaError> {
    if index >= 0 {
        Ok(Some(index as usize))
    } else if index == AMEDIACODEC_INFO_TRY_AGAIN_LATER {
        Ok(None)
    } else {
        Err(MediaError::DequeueInput { code: index })
    }
}

/// What a codec answered when it was asked for output, as its index or code says.
pub open spec fn dequeued_output(index: isize, info: AMediaCodecBufferInfo) -> Result<
    OutputBufferResult,
    MediaError,
> {
    if index >= 0 {
        Ok(
            OutputBufferResult::Buffer {
                index: index as usize,
                info: BufferInfo { offset: info.offset, size: info.size, flags: info.flags },
            },
        )
    } else if index == AMEDIACODEC_INFO_TRY_AGAIN_LATER {
        Ok(OutputBufferResult::TryAgainLater)
    } else if index == AMEDIACODEC_INFO_OUTPUT_BUFFERS_CHANGED {
        Ok(OutputBufferResult::OutputBuffersChanged)
    } else if index == AMEDIACODEC_INFO_OUTPUT_FORMAT_CHANGED {
        Ok(OutputBufferResult::OutputFormatChanged)
    } else {
        Err(MediaError::DequeueOutput { code: index })
    }
}

/// A codec, as far as the results of its operations go.
pub struct MediaCodec {
    started: bool,
}

impl MediaCodec {
    /// Whether the codec runs and has to be stopped.
    pub closed spec fn is_started(self) -> bool {
        self.started
    }

    /// A decoder, if the media library gave one.
    pub fn create_decoder_by_type(created: bool) -> (r: Result<MediaCodec, MediaError>)
        ensures
            created ==> (r matches Ok(codec) && !codec.is_started()),
            !created ==> r == Err::<MediaCodec, _>(
                MediaError::Null { operation: Operation::CreateDecoder.name() },
            ),
            !created ==> r == Err::<MediaCodec, _>(
                MediaError::Null { operation: "AMediaCodec_createDecoderByType" },
            ),
    {
        if created {
            Ok(MediaCodec { started: false })
        } else {
            Err(MediaError::Null { operation: "AMediaCodec_createDecoderByType" })
        }
    }

    pub fn configure(&self, status: MediaStatus) -> (r: Result<(), MediaError>)
        ensures
            r == by_status("AMediaCodec_configure", status),
            r == by_status(Operation::Configure.name(), status),
    {
        check_status("AMediaCodec_configure", status)
    }

    /// A codec whose start succeeded runs.
    pub fn start(&mut self, status: MediaStatus) -> (r: Result<(), MediaError>)
        ensures
            r == by_status("AMediaCodec_start", status),
            r == by_status(Operation::Start.name(), status),
            final(self).is_started() == runs_after_start(old(self).is_started(), status),
            final(self).is_started() == (old(self).is_started() || r is Ok),
    {
        if status == AMEDIA_OK {
            self.started = true;
        }
        check_status("AMediaCodec_start", status)
    }

    pub fn flush(&self, status: MediaStatus) -> (r: Result<(), MediaError>)
        ensures
            r == by_status("AMediaCodec_flush", status),
            r == by_status(Operation::Flush.name(), status),
    {
        check_status("AMediaCodec_flush", status)
    }

    /// The index of an input buffer, none if there is none yet.
    pub fn dequeue_input_buffer(&self, index: isize) -> (r: Result<Option<usize>, MediaError>)
        ensures
            r == dequeued_input(index),
            r == if index >= 0 {
                Ok(Some(index as usize))
            } else if index == AMEDIACODEC_INFO_TRY_AGAIN_LATER {
                Ok(None)
            } else {
                Err(MediaError::DequeueInput { code: index })
            },
    {
        if index >= 0 {
            Ok(Some(index as usize))
        } else if index == AMEDIACODEC_INFO_TRY_AGAIN_LATER {
            Ok(None)
        } else {
            Err(MediaError::DequeueInput { code: index })
        }
    }

    /// The size of an input buffer, if there is such a buffer.
    pub fn input_buffer(&self, index: usize, size: Option<usize>) -> (r: Result<usize, MediaError>)
        ensures
            r == input_capacity(index, size),
            r == match size {
                Some(size) => Ok(size),
                None => Err(MediaError::NullInputBuffer { index }),
            },
    {
        match size {
            Some(size) => Ok(size),
            None => Err(MediaError::NullInputBuffer { index }),
        }
    }

    pub fn queue_input_buffer(&self, status: MediaStatus) -> (r: Result<(), MediaError>)
        ensures
            r == by_status("AMediaCodec_queueInputBuffer", status),
            r == by_status(Operation::QueueInput.name(), status),
    {
        check_status("AMediaCodec_queueInputBuffer", status)
    }

    /// What the codec answered when it was asked for output.
    pub fn dequeue_output_buffer(&self, index: isize, info: AMediaCodecBufferInfo) -> (r: Result<
        OutputBufferResult,
        MediaError,
    >)
        ensures
            r == dequeued_output(index, info),
            r == if index >= 0 {
                Ok(
                    OutputBufferResult::Buffer {
                        index: index as usize,
                        info: BufferInfo { offset: info.offset, size: info.size, flags: info.flags },
                    },
                )
            } else if index == AMEDIACODEC_INFO_TRY_AGAIN_LATER {
                Ok(OutputBufferResult::TryAgainLater)
            } else if index == AMEDIACODEC_INFO_OUTPUT_BUFFERS_CHANGED {
                Ok(OutputBufferResult::OutputBuffersChanged)
            } else if index == AMEDIACODEC_INFO_OUTPUT_FORMAT_CHANGED {
                Ok(OutputBufferResult::OutputFormatChanged)
            } else {
                Err(MediaError::DequeueOutput { code: index })
            },
    {
        if index >= 0 {
            Ok(OutputBufferResult::Buffer { index: index as usize, info: BufferInfo::from(info) })
        } else if index == AMEDIACODEC_INFO_TRY_AGAIN_LATER {
            Ok(OutputBufferResult::TryAgainLater)
        } else if index == AMEDIACODEC_INFO_OUTPUT_BUFFERS_CHANGED {
            Ok(OutputBufferResult::OutputBuffersChanged)
        } else if index == AMEDIACODEC_INFO_OUTPUT_FORMAT_CHANGED {
            Ok(OutputBufferResult::OutputFormatChanged)
        } else {
            Err(MediaError::DequeueOutput { code: index })
        }
    }

    /// Where the contents of an output buffer lie, if there is such a buffer.
    pub fn output_buffer(&self, index: usize, out_size: Option<usize>, info: &BufferInfo) -> (r: Result<
        (usize, usize),
        MediaError,
    >)
        ensures
            r == output_contents(index, out_size, *info),
            r == match out_size {
                Some(out_size) => output_range(*info, out_size),
                None => Err(MediaError::NullOutputBuffer { index }),
            },
            r matches Ok((offset, size)) ==> (out_size matches Some(n) && offset + size <= n && size
                == info.size),
    {
        match out_size {
            Some(out_size) => validate_output_buffer_bounds(info, out_size),
            None => Err(MediaError::NullOutputBuffer { index }),
        }
    }

    pub fn output_format(&self, raw: Option<MediaFormat>) -> (r: Result<MediaFormat, MediaError>)
        ensures
            r == given_format(raw, Operation::OutputFormat.name()),
            r == match raw {
                Some(format) => Ok(format),
                None => Err(MediaError::Null { operation: "AMediaCodec_getOutputFormat" }),
            },
    {
        MediaFormat::from_raw(raw, "AMediaCodec_getOutputFormat")
    }

    pub fn release_output_buffer(&self, status: MediaStatus) -> (r: Result<(), MediaError>)
        ensures
            r == by_status("AMediaCodec_releaseOutputBuffer", status),
            r == by_status(Operation::ReleaseOutput.name(), status),
    {
        check_status("AMediaCodec_releaseOutputBuffer", status)
    }

    /// Whether the codec has to be stopped; it counts as stopped from then on.
    pub fn stop_if_started(&mut self) -> (r: bool)
        ensures
            r == old(self).is_started(),
            !final(self).is_started(),
    {
        let running = self.started;
        self.started = false;
        running
    }
}

/// The flags are bits: the second one of a sample marks it as encrypted, the third one of a
/// buffer marks the end, whatever the others are.
pub proof fn lemma_flags_are_bits(flags: u32)
    ensures
        has_flag(flags, AMEDIAEXTRACTOR_SAMPLE_FLAG_ENCRYPTED) <==> flags & 2 != 0,
        has_flag(flags, AMEDIACODEC_BUFFER_FLAG_END_OF_STREAM) <==> flags & 4 != 0,
{
    assert((flags & 2 != 0) == ((flags / 2) % 2 == 1)) by (bit_vector);
    assert((flags & 4 != 0) == ((flags / 4) % 2 == 1)) by (bit_vector);
}

/// A status of zero is success; any other is a failure that names the operation and the status.
pub proof fn lemma_status_tells(operation: &'static str, status: MediaStatus)
    ensures
        by_status(operation, status) is Ok <==> status == 0,
        status != 0 ==> by_status(operation, status) == Err::<(), _>(
            MediaError::Status { operation, status },
        ),
{
}

/// The contents of an output buffer are taken just where they lie within it, and from where the
/// codec says that they lie.
pub proof fn lemma_contents_lie_within(info: BufferInfo, out_size: usize)
    ensures
        output_range(info, out_size) is Ok <==> 0 <= info.offset && 0 <= info.size && info.offset
            + info.size <= out_size,
        output_range(info, out_size) matches Ok((offset, size)) ==> offset == info.offset && size
            == info.size,
        info.offset < 0 || info.size < 0 ==> output_range(info, out_size) == Err::<(usize, usize), _>(
            MediaError::NegativeBounds { info },
        ),
        output_range(info, out_size) matches Err(MediaError::OutOfRange { offset, size, out_size: n })
            ==> offset == info.offset && size == info.size && n == out_size,
{
}

/// What a codec answers is told apart by its code: from zero on it is a buffer, with what was said
/// of it, and below zero one of three messages or a failure that names the code.
pub proof fn lemma_output_codes(index: isize, info: AMediaCodecBufferInfo)
    ensures
        ({
            let r = dequeued_output(index, info);
            &&& index >= 0 <==> (r matches Ok(found) && found is Buffer)
            &&& r matches Ok(OutputBufferResult::Buffer { index: i, info: told }) ==> i == index
                && told.offset == info.offset && told.size == info.size && told.flags == info.flags
            &&& index == -1 <==> r == Ok::<_, MediaError>(OutputBufferResult::TryAgainLater)
            &&& index == -2 <==> r == Ok::<_, MediaError>(OutputBufferResult::OutputFormatChanged)
            &&& index == -3 <==> r == Ok::<_, MediaError>(OutputBufferResult::OutputBuffersChanged)
            &&& index < -3 <==> r is Err
            &&& r matches Err(e) ==> e == (MediaError::DequeueOutput { code: index })
        }),
{
}

/// An input buffer is there from code zero on; one code says that there is none yet, and any
/// other is a failure that names it.
pub proof fn lemma_input_codes(index: isize)
    ensures
        index >= 0 <==> (dequeued_input(index) matches Ok(found) && found is Some),
        dequeued_input(index) matches Ok(Some(i)) ==> i == index,
        index == -1 <==> (dequeued_input(index) matches Ok(found) && found is None),
        index < -1 <==> dequeued_input(index) == Err::<Option<usize>, _>(
            MediaError::DequeueInput { code: index },
        ),
{
}

/// A sample that was read has a size; a negative one is a failure that names it.
pub proof fn lemma_sample_sizes(size: isize)
    ensures
        size >= 0 <==> (sample_size(size) matches Ok(n) && n == size),
        size < 0 <==> sample_size(size) == Err::<usize, _>(
            MediaError::ReadSampleData { code: size },
        ),
{
}

/// A range lies within a buffer just where it ends within it; the failure names the range, and
/// tells one that is no range of memory from one that is merely too long.
pub proof fn lemma_ranges(offset: usize, size: usize, out_size: usize)
    ensures
        within_buffer(offset, size, out_size) is Ok <==> offset + size <= out_size,
        within_buffer(offset, size, out_size) == Err::<(), _>(
            MediaError::RangeOverflow { offset, size, out_size },
        ) <==> offset + size > usize::MAX,
        within_buffer(offset, size, out_size) == Err::<(), _>(
            MediaError::OutOfRange { offset, size, out_size },
        ) <==> out_size < offset + size <= usize::MAX,
{
}

/// A codec runs once a start has succeeded, and a start that fails changes nothing.
pub proof fn lemma_started_codec_runs(running: bool, status: MediaStatus)
    ensures
        status == 0 ==> runs_after_start(running, status),
        status != 0 ==> runs_after_start(running, status) == running,
{
}

/// What the media library gave is passed on as it is; where it gave nothing, the failure names the
/// operation or the buffer.
pub proof fn lemma_given_objects(
    raw: Option<MediaFormat>,
    operation: &'static str,
    index: usize,
    size: Option<usize>,
    info: BufferInfo,
)
    ensures
        raw matches Some(format) ==> given_format(raw, operation) == Ok::<_, MediaError>(format),
        raw is None ==> given_format(raw, operation) == Err::<MediaFormat, _>(
            MediaError::Null { operation },
        ),
        size matches Some(n) ==> input_capacity(index, size) == Ok::<_, MediaError>(n),
        size is None ==> input_capacity(index, size) == Err::<usize, _>(
            MediaError::NullInputBuffer { index },
        ),
        size is None ==> output_contents(index, size, info) == Err::<(usize, usize), _>(
            MediaError::NullOutputBuffer { index },
        ),
        size matches Some(n) ==> (output_contents(index, size, info) is Ok <==> 0 <= info.offset && 0
            <= info.size && info.offset + info.size <= n),
        output_contents(index, size, info) matches Ok((offset, length)) ==> offset == info.offset
            && length == info.size,
{
}

/// A failure names its own operation: the message of a status begins with the name that the media
/// library has for it, and no two operations share a name.
pub proof fn lemma_failures_name_their_operation(a: Operation, b: Operation, status: MediaStatus)
    ensures
        status != 0 ==> (by_status(a.name(), status) matches Err(e) && a.name()@.is_prefix_of(
            e.text(),
        )),
        a.name()@ == match a {
            Operation::NewExtractor => "AMediaExtractor_new"@,
            Operation::SetDataSource => "AMediaExtractor_setDataSourceFd"@,
            Operation::TrackFormat => "AMediaExtractor_getTrackFormat"@,
            Operation::SelectTrack => "AMediaExtractor_selectTrack"@,
            Operation::SeekTo => "AMediaExtractor_seekTo"@,
            Operation::CreateDecoder => "AMediaCodec_createDecoderByType"@,
            Operation::Configure => "AMediaCodec_configure"@,
            Operation::Start => "AMediaCodec_start"@,
            Operation::Flush => "AMediaCodec_flush"@,
            Operation::QueueInput => "AMediaCodec_queueInputBuffer"@,
            Operation::OutputFormat => "AMediaCodec_getOutputFormat"@,
            Operation::ReleaseOutput => "AMediaCodec_releaseOutputBuffer"@,
        },
        a.name()@ == b.name()@ ==> a == b,
{
    reveal_strlit("AMediaExtractor_new");
    reveal_strlit("AMediaExtractor_setDataSourceFd");
    reveal_strlit("AMediaExtractor_getTrackFormat");
    reveal_strlit("AMediaExtractor_selectTrack");
    reveal_strlit("AMediaExtractor_seekTo");
    reveal_strlit("AMediaCodec_createDecoderByType");
    reveal_strlit("AMediaCodec_configure");
    reveal_strlit("AMediaCodec_start");
    reveal_strlit("AMediaCodec_flush");
    reveal_strlit("AMediaCodec_queueInputBuffer");
    reveal_strlit("AMediaCodec_getOutputFormat");
    reveal_strlit("AMediaCodec_releaseOutputBuffer");
    if status != 0 {
        let text = by_status(a.name(), status)->Err_0.text();
        assert(a.name()@ =~= text.subrange(0, a.name()@.len() as int));
    }
    if a.name()@ == b.name()@ {
        assert(a.name()@.len() == b.name()@.len());
        assert(a.name()@[6] == b.name()@[6]);
        assert(a.name()@[12] == b.name()@[12]);
    }
}

} // verus!
