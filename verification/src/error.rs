//! What can go wrong, and how it is worded.
use vstd::prelude::*;
use vstd::string::*;
use crate::text::{
    append_decimal, append_decimal_int, decimal, decimal_int, lemma_reads_as, lemma_tells, reads_as,
    tells, tells_both,
};

verus! {

/// An output buffer's range and flags, as a codec reports them.
#[derive(Clone, Copy, Debug, PartialEq, Eq, Structural)]
pub struct BufferInfo {
    pub offset: i32,
    pub size: i32,
    pub flags: u32,
}

/// A failure of the platform's media library.
#[derive(Debug)]
pub enum MediaError {
    /// An operation ended with a status other than success.
    Status { operation: &'static str, status: i32 },
    /// An operation gave no object.
    Null { operation: &'static str },
    /// A media type cannot be passed on; the text is its quoted form.
    InvalidMime(String),
    /// Reading a sample gave a negative size.
    ReadSampleData { code: isize },
    /// Asking for an input buffer gave an unknown code.
    DequeueInput { code: isize },
    /// There is no input buffer of that index.
    NullInputBuffer { index: usize },
    /// Asking for an output buffer gave an unknown code.
    DequeueOutput { code: isize },
    /// There is no output buffer of that index.
    NullOutputBuffer { index: usize },
    /// The range of an output buffer is not a range of memory.
    RangeOverflow { offset: usize, size: usize, out_size: usize },
    /// The range of an output buffer does not lie in the buffer.
    OutOfRange { offset: usize, size: usize, out_size: usize },
    /// The range of an output buffer has a negative bound.
    NegativeBounds { info: BufferInfo },
}

impl MediaError {
    /// The message of a failure.
    pub open spec fn text(self) -> Seq<char> {
        match self {
            MediaError::Status { operation, status } => operation@ + " failed with media status "@
                + decimal_int(status as int),
            MediaError::Null { operation } => operation@ + " returned null"@,
            MediaError::InvalidMime(mime) => "invalid MIME type: "@ + mime@,
            MediaError::ReadSampleData { code } => "AMediaExtractor_readSampleData returned "@
                + decimal_int(code as int),
            MediaError::DequeueInput { code } => "AMediaCodec_dequeueInputBuffer returned "@
                + decimal_int(code as int),
            MediaError::NullInputBuffer { index } =>
                "AMediaCodec_getInputBuffer returned null for index "@ + decimal(index as nat),
            MediaError::DequeueOutput { code } => "AMediaCodec_dequeueOutputBuffer returned "@
                + decimal_int(code as int),
            MediaError::NullOutputBuffer { index } =>
                "AMediaCodec_getOutputBuffer returned null for index "@ + decimal(index as nat),
            MediaError::RangeOverflow { offset, size, out_size } =>
                "output buffer range overflow: offset="@ + decimal(offset as nat) + " size="@
                    + decimal(size as nat) + " out_size="@ + decimal(out_size as nat),
            MediaError::OutOfRange { offset, size, out_size } =>
                "invalid output buffer bounds: offset="@ + decimal(offset as nat) + " size="@
                    + decimal(size as nat) + " out_size="@ + decimal(out_size as nat),
            MediaError::NegativeBounds { info } =>
                "invalid output buffer bounds: BufferInfo { offset: "@ + decimal_int(info.offset as int)
                    + ", size: "@ + decimal_int(info.size as int) + ", flags: "@ + decimal(
                    info.flags as nat,
                ) + " }"@,
        }
    }

    /// The message of a failure.
    pub fn message(&self) -> (r: String)
        ensures
            r@ == self.text(),
    {
        match self {
            MediaError::Status { operation, status } => {
                let mut s = (*operation).to_owned();
                s.append(" failed with media status ");
                append_decimal_int(&mut s, *status as i64);
                s
            },
            MediaError::Null { operation } => {
                let mut s = (*operation).to_owned();
                s.append(" returned null");
                s
            },
            MediaError::InvalidMime(mime) => {
                let mut s = "invalid MIME type: ".to_owned();
                s.append(mime.as_str());
                s
            },
            MediaError::ReadSampleData { code } => {
                let mut s = "AMediaExtractor_readSampleData returned ".to_owned();
                append_decimal_int(&mut s, *code as i64);
                s
            },
            MediaError::DequeueInput { code } => {
                let mut s = "AMediaCodec_dequeueInputBuffer returned ".to_owned();
                append_decimal_int(&mut s, *code as i64);
                s
            },
            MediaError::NullInputBuffer { index } => {
                let mut s = "AMediaCodec_getInputBuffer returned null for index ".to_owned();
                append_decimal(&mut s, *index as u64);
                s
            },
            MediaError::DequeueOutput { code } => {
                let mut s = "AMediaCodec_dequeueOutputBuffer returned ".to_owned();
                append_decimal_int(&mut s, *code as i64);
                s
            },
            MediaError::NullOutputBuffer { index } => {
                let mut s = "AMediaCodec_getOutputBuffer returned null for index ".to_owned();
                append_decimal(&mut s, *index as u64);
                s
            },
            MediaError::RangeOverflow { offset, size, out_size } => {
                let mut s = "output buffer range overflow: offset=".to_owned();
                append_range(&mut s, *offset, *size, *out_size);
                assert(s@ =~= self.text());
                s
            },
            MediaError::OutOfRange { offset, size, out_size } => {
                let mut s = "invalid output buffer bounds: offset=".to_owned();
                append_range(&mut s, *offset, *size, *out_size);
                assert(s@ =~= self.text());
                s
            },
            MediaError::NegativeBounds { info } => {
                let mut s = "invalid output buffer bounds: BufferInfo { offset: ".to_owned();
                append_decimal_int(&mut s, info.offset as i64);
                s.append(", size: ");
                append_decimal_int(&mut s, info.size as i64);
                s.append(", flags: ");
                append_decimal(&mut s, info.flags as u64);
                s.append(" }");
                s
            },
        }
    }
}

fn append_range(s: &mut String, offset: usize, size: usize, out_size: usize)
    ensures
        final(s)@ == old(s)@ + decimal(offset as nat) + " size="@ + decimal(size as nat)
            + " out_size="@ + decimal(out_size as nat),
{
    append_decimal(s, offset as u64);
    s.append(" size=");
    append_decimal(s, size as u64);
    s.append(" out_size=");
    append_decimal(s, out_size as u64);
}

/// A number that an audio format must give.
#[derive(Clone, Copy, Debug, PartialEq, Eq, Structural)]
pub enum Parameter {
    SampleRate,
    ChannelCount,
    OutputSampleRate,
    OutputChannelCount,
}

impl Parameter {
    pub open spec fn text(self) -> Seq<char> {
        match self {
            Parameter::SampleRate => "sample rate"@,
            Parameter::ChannelCount => "channel count"@,
            Parameter::OutputSampleRate => "output sample rate"@,
            Parameter::OutputChannelCount => "output channel count"@,
        }
    }

    /// What the number is called.
    pub fn name(&self) -> (r: &'static str)
        ensures
            r@ == self.text(),
    {
        match self {
            Parameter::SampleRate => "sample rate",
            Parameter::ChannelCount => "channel count",
            Parameter::OutputSampleRate => "output sample rate",
            Parameter::OutputChannelCount => "output channel count",
        }
    }
}

/// An encoding whose samples take more than one byte.
#[derive(Clone, Copy, Debug, PartialEq, Eq, Structural)]
pub enum WideEncoding {
    Pcm16,
    Float,
    Pcm24,
    Pcm32,
}

/// Sample rate and channel count that were found, and those that were expected.
#[derive(Clone, Copy, Debug, PartialEq, Eq, Structural)]
pub struct FormatChange {
    pub sample_rate: u32,
    pub channel_count: u32,
    pub expected_sample_rate: u32,
    pub expected_channel_count: u32,
}

impl FormatChange {
    pub open spec fn text(self) -> Seq<char> {
        decimal(self.sample_rate as nat) + " Hz / "@ + decimal(self.channel_count as nat)
            + " channels, expected "@ + decimal(self.expected_sample_rate as nat) + " Hz / "@
            + decimal(self.expected_channel_count as nat) + " channels"@
    }

    fn append_to(&self, s: &mut String)
        ensures
            final(s)@ == old(s)@ + self.text(),
    {
        append_decimal(s, self.sample_rate as u64);
        s.append(" Hz / ");
        append_decimal(s, self.channel_count as u64);
        s.append(" channels, expected ");
        append_decimal(s, self.expected_sample_rate as u64);
        s.append(" Hz / ");
        append_decimal(s, self.expected_channel_count as u64);
        s.append(" channels");
        assert(s@ =~= old(s)@ + self.text());
    }
}

/// A failure of the decoder.
#[derive(Debug)]
pub enum DecodeError {
    /// The length of the source cannot be had: its descriptor could not be duplicated.
    Duplicate(String),
    /// The length of the source cannot be had.
    Stat(String),
    /// The source has no bytes.
    EmptySource,
    /// The source has no audio track.
    NoAudioTrack,
    /// A format does not give a number that it must give.
    Missing(Parameter),
    /// A format gives a number that is not positive.
    Invalid { parameter: Parameter, value: i32 },
    /// Samples come in an unknown encoding.
    UnsupportedEncoding(i32),
    /// A buffer ends within a sample.
    PartialSample(WideEncoding),
    /// Unencoded samples come in another format than the track's.
    RawFormatChanged(FormatChange),
    /// Decoded samples come in another format than the track's.
    FormatChanged(FormatChange),
    /// A whole pass over the source gave no samples.
    NoSamples,
    /// The source is encrypted.
    Encrypted,
    /// A sample does not fit into the codec's buffer.
    SampleTooLarge { size: usize, capacity: usize },
    /// A sample was read in part only.
    ShortRead { read: usize, expected: usize },
    /// No pipe could be made.
    Pipe(String),
    /// The pipe cannot be written.
    PipeWrite(String),
    /// No thread could be started.
    Spawn(String),
    /// The media library failed.
    Media(MediaError),
}

impl DecodeError {
    /// The message of a failure.
    pub open spec fn text(self) -> Seq<char> {
        match self {
            DecodeError::Duplicate(e) => "dup failed while cloning source fd: "@ + e@,
            DecodeError::Stat(e) => "failed to stat source fd: "@ + e@,
            DecodeError::EmptySource => "audio source file is empty"@,
            DecodeError::NoAudioTrack => "audio source contains no audio track"@,
            DecodeError::Missing(p) => "audio track is missing "@ + p.text(),
            DecodeError::Invalid { parameter, value } => "audio track has invalid "@
                + parameter.text() + ": "@ + decimal_int(value as int),
            DecodeError::UnsupportedEncoding(e) => "unsupported decoder PCM encoding "@
                + decimal_int(e as int),
            DecodeError::PartialSample(WideEncoding::Pcm16) =>
                "PCM 16-bit buffer length is not divisible by 2"@,
            DecodeError::PartialSample(WideEncoding::Float) =>
                "PCM float buffer length is not divisible by 4"@,
            DecodeError::PartialSample(WideEncoding::Pcm24) =>
                "PCM 24-bit buffer length is not divisible by 3"@,
            DecodeError::PartialSample(WideEncoding::Pcm32) =>
                "PCM 32-bit buffer length is not divisible by 4"@,
            DecodeError::RawFormatChanged(c) => "raw extractor output format changed to "@ + c.text(),
            DecodeError::FormatChanged(c) => "decoder output format changed to "@ + c.text(),
            DecodeError::NoSamples => "decoded source produced no audio samples"@,
            DecodeError::Encrypted => "audio source contains encrypted samples"@,
            DecodeError::SampleTooLarge { size, capacity } => "extractor sample size "@ + decimal(
                size as nat,
            ) + " exceeds codec input buffer "@ + decimal(capacity as nat),
            DecodeError::ShortRead { read, expected } => "extractor read "@ + decimal(read as nat)
                + " bytes but expected "@ + decimal(expected as nat),
            DecodeError::Pipe(e) => "pipe2 failed: "@ + e@,
            DecodeError::PipeWrite(e) => "pipe write failed: "@ + e@,
            DecodeError::Spawn(e) => "failed to spawn decoder thread: "@ + e@,
            DecodeError::Media(e) => e.text(),
        }
    }

    /// The message of a failure.
    pub fn message(&self) -> (r: String)
        ensures
            r@ == self.text(),
    {
        match self {
            DecodeError::Duplicate(e) => joined("dup failed while cloning source fd: ", e),
            DecodeError::Stat(e) => joined("failed to stat source fd: ", e),
            DecodeError::EmptySource => "audio source file is empty".to_owned(),
            DecodeError::NoAudioTrack => "audio source contains no audio track".to_owned(),
            DecodeError::Missing(p) => {
                let mut s = "audio track is missing ".to_owned();
                s.append(p.name());
                s
            },
            DecodeError::Invalid { parameter, value } => {
                let mut s = "audio track has invalid ".to_owned();
                s.append(parameter.name());
                s.append(": ");
                append_decimal_int(&mut s, *value as i64);
                s
            },
            DecodeError::UnsupportedEncoding(e) => {
                let mut s = "unsupported decoder PCM encoding ".to_owned();
                append_decimal_int(&mut s, *e as i64);
                s
            },
            DecodeError::PartialSample(encoding) => {
                match encoding {
                    WideEncoding::Pcm16 => "PCM 16-bit buffer length is not divisible by 2".to_owned(),
                    WideEncoding::Float => "PCM float buffer length is not divisible by 4".to_owned(),
                    WideEncoding::Pcm24 => "PCM 24-bit buffer length is not divisible by 3".to_owned(),
                    WideEncoding::Pcm32 => "PCM 32-bit buffer length is not divisible by 4".to_owned(),
                }
            },
            DecodeError::RawFormatChanged(c) => {
                let mut s = "raw extractor output format changed to ".to_owned();
                c.append_to(&mut s);
                s
            },
            DecodeError::FormatChanged(c) => {
                let mut s = "decoder output format changed to ".to_owned();
                c.append_to(&mut s);
                s
            },
            DecodeError::NoSamples => "decoded source produced no audio samples".to_owned(),
            DecodeError::Encrypted => "audio source contains encrypted samples".to_owned(),
            DecodeError::SampleTooLarge { size, capacity } => {
                let mut s = "extractor sample size ".to_owned();
                append_decimal(&mut s, *size as u64);
                s.append(" exceeds codec input buffer ");
                append_decimal(&mut s, *capacity as u64);
                s
            },
            DecodeError::ShortRead { read, expected } => {
                let mut s = "extractor read ".to_owned();
                append_decimal(&mut s, *read as u64);
                s.append(" bytes but expected ");
                append_decimal(&mut s, *expected as u64);
                s
            },
            DecodeError::Pipe(e) => joined("pipe2 failed: ", e),
            DecodeError::PipeWrite(e) => joined("pipe write failed: ", e),
            DecodeError::Spawn(e) => joined("failed to spawn decoder thread: ", e),
            DecodeError::Media(e) => e.message(),
        }
    }
}

/// Two texts, one after the other.
pub fn joined(prefix: &str, rest: &String) -> (r: String)
    ensures
        r@ == prefix@ + rest@,
{
    let mut s = prefix.to_owned();
    s.append(rest.as_str());
    s
}

/// What a failure of the media library names can be read from its message: the operation and its
/// status, the media type, the code, the index or the range.
pub proof fn lemma_media_messages(e: MediaError)
    ensures
        match e {
            MediaError::Status { operation, status } => tells(
                e.text(),
                operation@ + " failed with media status "@,
                status as int,
            ),
            MediaError::Null { operation } => e.text() == operation@ + " returned null"@,
            MediaError::InvalidMime(mime) => e.text() == "invalid MIME type: "@ + mime@,
            MediaError::ReadSampleData { code } => tells(
                e.text(),
                "AMediaExtractor_readSampleData returned "@,
                code as int,
            ),
            MediaError::DequeueInput { code } => tells(
                e.text(),
                "AMediaCodec_dequeueInputBuffer returned "@,
                code as int,
            ),
            MediaError::NullInputBuffer { index } => tells(
                e.text(),
                "AMediaCodec_getInputBuffer returned null for index "@,
                index as int,
            ),
            MediaError::DequeueOutput { code } => tells(
                e.text(),
                "AMediaCodec_dequeueOutputBuffer returned "@,
                code as int,
            ),
            MediaError::NullOutputBuffer { index } => tells(
                e.text(),
                "AMediaCodec_getOutputBuffer returned null for index "@,
                index as int,
            ),
            MediaError::RangeOverflow { offset, size, out_size } => exists|a: Seq<char>|
                #[trigger] reads_as(a, offset as int) && exists|b: Seq<char>, c: Seq<char>|
                    #[trigger] reads_as(b, size as int) && #[trigger] reads_as(c, out_size as int)
                        && e.text() == "output buffer range overflow: offset="@ + a + " size="@ + b
                        + " out_size="@ + c,
            MediaError::OutOfRange { offset, size, out_size } => exists|a: Seq<char>|
                #[trigger] reads_as(a, offset as int) && exists|b: Seq<char>, c: Seq<char>|
                    #[trigger] reads_as(b, size as int) && #[trigger] reads_as(c, out_size as int)
                        && e.text() == "invalid output buffer bounds: offset="@ + a + " size="@ + b
                        + " out_size="@ + c,
            MediaError::NegativeBounds { info } => exists|a: Seq<char>|
                #[trigger] reads_as(a, info.offset as int) && exists|b: Seq<char>, c: Seq<char>|
                    #[trigger] reads_as(b, info.size as int) && #[trigger] reads_as(
                        c,
                        info.flags as int,
                    ) && e.text() == "invalid output buffer bounds: BufferInfo { offset: "@ + a
                        + ", size: "@ + b + ", flags: "@ + c + " }"@,
        },
{
    match e {
        MediaError::Status { operation, status } => {
            lemma_tells(operation@ + " failed with media status "@, status as int);
        },
        MediaError::ReadSampleData { code } => {
            lemma_tells("AMediaExtractor_readSampleData returned "@, code as int);
        },
        MediaError::DequeueInput { code } => {
            lemma_tells("AMediaCodec_dequeueInputBuffer returned "@, code as int);
        },
        MediaError::NullInputBuffer { index } => {
            lemma_tells("AMediaCodec_getInputBuffer returned null for index "@, index as int);
        },
        MediaError::DequeueOutput { code } => {
            lemma_tells("AMediaCodec_dequeueOutputBuffer returned "@, code as int);
        },
        MediaError::NullOutputBuffer { index } => {
            lemma_tells("AMediaCodec_getOutputBuffer returned null for index "@, index as int);
        },
        MediaError::RangeOverflow { offset, size, out_size } => {
            lemma_reads_as(offset as int);
            lemma_reads_as(size as int);
            lemma_reads_as(out_size as int);
            assert(reads_as(decimal(offset as nat), offset as int));
            assert(reads_as(decimal(size as nat), size as int));
            assert(reads_as(decimal(out_size as nat), out_size as int));
        },
        MediaError::OutOfRange { offset, size, out_size } => {
            lemma_reads_as(offset as int);
            lemma_reads_as(size as int);
            lemma_reads_as(out_size as int);
            assert(reads_as(decimal(offset as nat), offset as int));
            assert(reads_as(decimal(size as nat), size as int));
            assert(reads_as(decimal(out_size as nat), out_size as int));
        },
        MediaError::NegativeBounds { info } => {
            lemma_reads_as(info.offset as int);
            lemma_reads_as(info.size as int);
            lemma_reads_as(info.flags as int);
            assert(reads_as(decimal_int(info.offset as int), info.offset as int));
            assert(reads_as(decimal_int(info.size as int), info.size as int));
            assert(reads_as(decimal(info.flags as nat), info.flags as int));
        },
        _ => {},
    }
}

/// A change of format is worded with what was found first and what was expected second.
pub proof fn lemma_format_change_message(c: FormatChange)
    ensures
        exists|a: Seq<char>, b: Seq<char>, x: Seq<char>, y: Seq<char>|
            #![trigger reads_as(a, c.sample_rate as int), reads_as(b, c.channel_count as int), reads_as(x, c.expected_sample_rate as int), reads_as(y, c.expected_channel_count as int)]
            reads_as(a, c.sample_rate as int) && reads_as(b, c.channel_count as int) && reads_as(
                x,
                c.expected_sample_rate as int,
            ) && reads_as(y, c.expected_channel_count as int) && c.text() == a + " Hz / "@ + b
                + " channels, expected "@ + x + " Hz / "@ + y + " channels"@,
{
    lemma_reads_as(c.sample_rate as int);
    lemma_reads_as(c.channel_count as int);
    lemma_reads_as(c.expected_sample_rate as int);
    lemma_reads_as(c.expected_channel_count as int);
    assert(reads_as(decimal(c.sample_rate as nat), c.sample_rate as int));
    assert(reads_as(decimal(c.channel_count as nat), c.channel_count as int));
    assert(reads_as(decimal(c.expected_sample_rate as nat), c.expected_sample_rate as int));
    assert(reads_as(decimal(c.expected_channel_count as nat), c.expected_channel_count as int));
}

/// What a failure of the decoder names can be read from its message, and what failed below it is
/// worded as it was there.
pub proof fn lemma_decode_messages(e: DecodeError)
    ensures
        match e {
            DecodeError::Duplicate(why) => e.text() == "dup failed while cloning source fd: "@ + why@,
            DecodeError::Stat(why) => e.text() == "failed to stat source fd: "@ + why@,
            DecodeError::EmptySource => e.text() == "audio source file is empty"@,
            DecodeError::NoAudioTrack => e.text() == "audio source contains no audio track"@,
            DecodeError::Missing(p) => e.text() == "audio track is missing "@ + match p {
                Parameter::SampleRate => "sample rate"@,
                Parameter::ChannelCount => "channel count"@,
                Parameter::OutputSampleRate => "output sample rate"@,
                Parameter::OutputChannelCount => "output channel count"@,
            },
            DecodeError::Invalid { parameter, value } => tells(
                e.text(),
                "audio track has invalid "@ + match parameter {
                    Parameter::SampleRate => "sample rate"@,
                    Parameter::ChannelCount => "channel count"@,
                    Parameter::OutputSampleRate => "output sample rate"@,
                    Parameter::OutputChannelCount => "output channel count"@,
                } + ": "@,
                value as int,
            ),
            DecodeError::UnsupportedEncoding(encoding) => tells(
                e.text(),
                "unsupported decoder PCM encoding "@,
                encoding as int,
            ),
            DecodeError::PartialSample(encoding) => e.text() == match encoding {
                WideEncoding::Pcm16 => "PCM 16-bit buffer length is not divisible by 2"@,
                WideEncoding::Pcm24 => "PCM 24-bit buffer length is not divisible by 3"@,
                WideEncoding::Pcm32 => "PCM 32-bit buffer length is not divisible by 4"@,
                WideEncoding::Float => "PCM float buffer length is not divisible by 4"@,
            },
            DecodeError::RawFormatChanged(c) => e.text()
                == "raw extractor output format changed to "@ + c.text(),
            DecodeError::FormatChanged(c) => e.text() == "decoder output format changed to "@
                + c.text(),
            DecodeError::NoSamples => e.text() == "decoded source produced no audio samples"@,
            DecodeError::Encrypted => e.text() == "audio source contains encrypted samples"@,
            DecodeError::SampleTooLarge { size, capacity } => tells_both(
                e.text(),
                "extractor sample size "@,
                size as int,
                " exceeds codec input buffer "@,
                capacity as int,
            ),
            DecodeError::ShortRead { read, expected } => tells_both(
                e.text(),
                "extractor read "@,
                read as int,
                " bytes but expected "@,
                expected as int,
            ),
            DecodeError::Pipe(why) => e.text() == "pipe2 failed: "@ + why@,
            DecodeError::PipeWrite(why) => e.text() == "pipe write failed: "@ + why@,
            DecodeError::Spawn(why) => e.text() == "failed to spawn decoder thread: "@ + why@,
            DecodeError::Media(below) => e.text() == below.text(),
        },
{
    match e {
        DecodeError::Invalid { parameter, value } => {
            lemma_tells("audio track has invalid "@ + parameter.text() + ": "@, value as int);
        },
        DecodeError::UnsupportedEncoding(encoding) => {
            lemma_tells("unsupported decoder PCM encoding "@, encoding as int);
        },
        DecodeError::SampleTooLarge { size, capacity } => {
            lemma_reads_as(size as int);
            lemma_reads_as(capacity as int);
            assert(reads_as(decimal(size as nat), size as int));
            assert(reads_as(decimal(capacity as nat), capacity as int));
        },
        DecodeError::ShortRead { read, expected } => {
            lemma_reads_as(read as int);
            lemma_reads_as(expected as int);
            assert(reads_as(decimal(read as nat), read as int));
            assert(reads_as(decimal(expected as nat), expected as int));
        },
        _ => {},
    }
}

} // verus!
