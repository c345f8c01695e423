//! Streams of decoded samples, as they are handed to callers.
use vstd::prelude::*;

verus! {

/// The readable end of a pipe of decoded samples, and the format of the samples.
#[derive(Clone, Copy, Debug, PartialEq, Eq, Structural)]
pub struct DecodedStream {
    pub fd: i32,
    pub sample_rate: u32,
    pub channel_count: u32,
}

impl DecodedStream {
    /// Whether there is a descriptor and a format.
    pub open spec fn is_sound(self) -> bool {
        self.fd >= 0 && self.sample_rate > 0 && self.channel_count > 0
    }
}

/// What a caller that asked for a stream gets back: the result and the two outputs.
#[derive(Clone, Copy, Debug, PartialEq, Eq, Structural)]
pub struct StartReport {
    pub result: i32,
    pub out_sample_rate: u32,
    pub out_channel_count: u32,
}

/// The report of a start: the stream, or else a negative result and no format.
pub open spec fn report(stream: Option<DecodedStream>) -> StartReport {
    match stream {
        Some(stream) => StartReport {
            result: stream.fd,
            out_sample_rate: stream.sample_rate,
            out_channel_count: stream.channel_count,
        },
        None => StartReport { result: -1i32, out_sample_rate: 0, out_channel_count: 0 },
    }
}

/// Computes [`report`].
pub fn report_stream(stream: Option<DecodedStream>) -> (r: StartReport)
    ensures
        r == report(stream),
{
    match stream {
        Some(stream) => StartReport {
            result: stream.fd,
            out_sample_rate: stream.sample_rate,
            out_channel_count: stream.channel_count,
        },
        None => StartReport { result: -1, out_sample_rate: 0, out_channel_count: 0 },
    }
}

/// A caller can tell from the result alone whether it got a stream.
pub proof fn lemma_report_tells(stream: Option<DecodedStream>)
    requires
        stream matches Some(s) ==> s.is_sound(),
    ensures
        report(stream).result >= 0 <==> stream is Some,
        stream is None ==> report(stream).out_sample_rate == 0 && report(stream).out_channel_count
            == 0,
{
}

/// What a call answers: its result and what it writes into the caller's two outputs, the sample
/// rate and the channel count, if it writes them at all.
#[derive(Clone, Copy, Debug, PartialEq, Eq)]
pub struct CallAnswer {
    pub result: i32,
    pub outputs: Option<(u32, u32)>,
}

/// The answer to a call: its outputs are left alone if it is refused, and are those of the
/// report otherwise, whether a stream was started or not.
pub open spec fn answer(accepted: bool, stream: Option<DecodedStream>) -> CallAnswer {
    if accepted {
        CallAnswer {
            result: report(stream).result,
            outputs: Some((report(stream).out_sample_rate, report(stream).out_channel_count)),
        }
    } else {
        CallAnswer { result: report(None).result, outputs: None }
    }
}

/// The answer to a call that is refused: the result of a failed start, and no output is written.
pub fn refuse_call() -> (r: CallAnswer)
    ensures
        r == answer(false, None),
        r.result == report(None).result,
        r.outputs is None,
{
    CallAnswer { result: report_stream(None).result, outputs: None }
}

/// The answer to a call that was accepted, with what became of it.
pub fn answer_call(stream: Option<DecodedStream>) -> (r: CallAnswer)
    ensures
        r == answer(true, stream),
{
    let report = report_stream(stream);
    CallAnswer {
        result: report.result,
        outputs: Some((report.out_sample_rate, report.out_channel_count)),
    }
}

/// A refused call and a failed start have the same result, and differ in what they do to the
/// outputs: the one leaves them alone, the other sets them to zero.
pub proof fn lemma_refused_and_failed(stream: Option<DecodedStream>)
    ensures
        answer(false, stream).result == answer(true, None).result == -1,
        answer(false, stream).outputs is None,
        answer(true, None).outputs == Some((0u32, 0u32)),
{
}

/// What a caller is told is the stream: its descriptor as the result, and its sample rate and
/// channel count in the outputs of their names.
pub proof fn lemma_caller_is_told_the_stream(stream: DecodedStream)
    ensures
        report(Some(stream)).result == stream.fd,
        report(Some(stream)).out_sample_rate == stream.sample_rate,
        report(Some(stream)).out_channel_count == stream.channel_count,
        answer(true, Some(stream)).result == stream.fd,
        answer(true, Some(stream)).outputs matches Some((rate, count)) && rate == stream.sample_rate
            && count == stream.channel_count,
        report(None).result == -1,
        report(None).out_sample_rate == 0,
        report(None).out_channel_count == 0,
{
}

} // verus!
