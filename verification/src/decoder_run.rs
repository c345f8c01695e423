//! What whole runs of the loop around a codec write and release.
use vstd::prelude::*;
use crate::bytes::{bytes_of, ByteOrder};
use crate::decoder::{
    left, lemma_writes_keep_the_bytes, taken, DecoderThreadExit, OutputAudioFormat, PipeWrite,
};
use crate::decoder_loop::{
    answers_loop, answers_output, follows_output, follows_samples, output_begin, DecoderLoop,
    LoopCall, LoopReply, OutputCall, OutputNext, OutputReply,
};
use crate::error::{BufferInfo, DecodeError};
use crate::media_ndk::OutputBufferResult;
use crate::pcm::{encoded_size, is_normalized, lemma_samples_determined, normalized};

verus! {

/// A call that dealing with an output buffer made, the format that was known, and the reply.
pub struct OutputStep {
    pub known: Option<OutputAudioFormat>,
    pub call: OutputCall,
    pub reply: OutputReply,
}

/// An output buffer as the loop comes upon it.
pub struct OutputStart {
    pub order: ByteOrder,
    pub expected_sample_rate: u32,
    pub expected_channel_count: u32,
    pub index: usize,
    pub info: BufferInfo,
    /// The format that is known by then.
    pub known: Option<OutputAudioFormat>,
}

/// Whether steps follow each other from the start of an output buffer on, and lead to a known
/// format and what follows.
pub open spec fn is_output_run(
    start: OutputStart,
    steps: Seq<OutputStep>,
    known: Option<OutputAudioFormat>,
    next: OutputNext,
) -> bool
    decreases steps.len(),
{
    if steps.len() == 0 {
        known == start.known && next == output_begin(start.index, start.info, start.known)
    } else {
        let last = steps.last();
        &&& answers_output(last.call, last.reply)
        &&& follows_output(
            start.order,
            last.call,
            last.reply,
            last.known,
            start.expected_sample_rate,
            start.expected_channel_count,
            known,
            next,
        )
        &&& is_output_run(start, steps.drop_last(), last.known, OutputNext::Call(last.call))
    }
}

/// The bytes that the pipe takes with a reply.
pub open spec fn output_taken_with(call: OutputCall, reply: OutputReply) -> Seq<u8> {
    match (call, reply) {
        (OutputCall::Write { writer }, OutputReply::Write(PipeWrite::Written(n))) => taken(
            writer.remaining(),
            seq![n],
        ),
        _ => Seq::empty(),
    }
}

/// The bytes that are to be written because of a reply: those of the samples of the buffer, if
/// it consists of samples.
pub open spec fn output_due_with(order: ByteOrder, call: OutputCall, reply: OutputReply) -> Seq<u8> {
    match (call, reply) {
        (OutputCall::Bytes { format, .. }, OutputReply::Bytes(Ok(bytes))) => {
            let size = encoded_size(format.pcm_encoding);
            if size > 0 && bytes@.len() % size == 0 {
                bytes_of(
                    order,
                    choose|samples: Seq<u32>|
                        is_normalized(order, format.pcm_encoding, bytes@, samples),
                )
            } else {
                Seq::empty()
            }
        },
        _ => Seq::empty(),
    }
}

/// All that the pipe took of an output buffer.
pub open spec fn output_taken(steps: Seq<OutputStep>) -> Seq<u8>
    decreases steps.len(),
{
    if steps.len() == 0 {
        Seq::empty()
    } else {
        output_taken(steps.drop_last()) + output_taken_with(steps.last().call, steps.last().reply)
    }
}

/// All that was to be written of an output buffer.
pub open spec fn output_due(order: ByteOrder, steps: Seq<OutputStep>) -> Seq<u8>
    decreases steps.len(),
{
    if steps.len() == 0 {
        Seq::empty()
    } else {
        output_due(order, steps.drop_last()) + output_due_with(
            order,
            steps.last().call,
            steps.last().reply,
        )
    }
}

/// The bytes that a call still has to write.
pub open spec fn pending_bytes(call: OutputCall) -> Seq<u8> {
    match call {
        OutputCall::Write { writer } => writer.remaining(),
        _ => Seq::empty(),
    }
}

/// The bytes of an output buffer that are not written when it has come to this: those of the
/// write that is to be made, or of the write that failed for good.
pub open spec fn unwritten(steps: Seq<OutputStep>, next: OutputNext) -> Seq<u8> {
    match next {
        OutputNext::Call(call) => pending_bytes(call),
        OutputNext::Done(Ok(_)) => Seq::empty(),
        OutputNext::Done(Err(_)) => if steps.len() == 0 {
            Seq::empty()
        } else {
            pending_bytes(steps.last().call)
        },
    }
}

/// With each step, what the pipe takes and what is not written afterwards are what was to be
/// written before and what came in addition.
proof fn lemma_output_step(
    start: OutputStart,
    steps: Seq<OutputStep>,
    known: Option<OutputAudioFormat>,
    next: OutputNext,
)
    requires
        steps.len() > 0,
        is_output_run(start, steps, known, next),
    ensures
        ({
            let last = steps.last();
            output_taken_with(last.call, last.reply) + unwritten(steps, next) == pending_bytes(last.call)
                + output_due_with(start.order, last.call, last.reply)
        }),
{
    let last = steps.last();
    let nothing = Seq::<u8>::empty();
    let order = start.order;
    match (last.call, last.reply) {
        (OutputCall::Bytes { format, .. }, OutputReply::Bytes(Ok(bytes))) => {
            let encoding = format.pcm_encoding;
            let samples = choose|samples: Result<Vec<u32>, DecodeError>|
                #[trigger] normalized(order, bytes@, encoding, samples) && follows_samples(
                    order,
                    samples,
                    next,
                );
            if samples is Ok {
                let found = samples->Ok_0@;
                let chosen = choose|v: Seq<u32>| is_normalized(order, encoding, bytes@, v);
                assert(is_normalized(order, encoding, bytes@, found));
                lemma_samples_determined(order, encoding, bytes@, found, chosen);
                if found.len() == 0 {
                    assert(bytes_of(order, found) =~= nothing);
                }
                assert(unwritten(steps, next) == bytes_of(order, chosen));
            } else {
                assert(unwritten(steps, next) =~= nothing);
                assert(nothing + nothing =~= nothing);
            }
        },
        (OutputCall::Write { writer }, OutputReply::Write(event)) => {
            reveal_with_fuel(left, 2);
            if let PipeWrite::Written(n) = event {
                lemma_writes_keep_the_bytes(writer.remaining(), seq![n]);
                assert(left(writer.remaining(), seq![n]) =~= unwritten(steps, next));
                assert(writer.remaining() + nothing =~= writer.remaining());
            } else {
                assert(nothing + unwritten(steps, next) =~= writer.remaining() + nothing);
            }
        },
        _ => {
            assert(nothing + unwritten(steps, next) =~= nothing + nothing);
        },
    }
}

/// What the pipe took of an output buffer and what is not written are the bytes of its samples,
/// in their order.
pub proof fn lemma_output_run_keeps_the_bytes(
    start: OutputStart,
    steps: Seq<OutputStep>,
    known: Option<OutputAudioFormat>,
    next: OutputNext,
)
    requires
        is_output_run(start, steps, known, next),
    ensures
        output_taken(steps) + unwritten(steps, next) == output_due(start.order, steps),
    decreases steps.len(),
{
    if steps.len() == 0 {
        assert(output_taken(steps) + unwritten(steps, next) =~= output_due(start.order, steps));
    } else {
        let last = steps.last();
        let earlier = steps.drop_last();
        lemma_output_run_keeps_the_bytes(start, earlier, last.known, OutputNext::Call(last.call));
        lemma_output_step(start, steps, known, next);
        let due = output_due_with(start.order, last.call, last.reply);
        assert(output_taken(steps) + unwritten(steps, next) =~= output_taken(earlier) + (
        output_taken_with(last.call, last.reply) + unwritten(steps, next)));
        assert(output_taken(earlier) + (pending_bytes(last.call) + due) =~= (output_taken(earlier)
            + pending_bytes(last.call)) + due);
    }
}

/// A call that the loop around a codec made, the state it was made in and its reply. Where the
/// call was to deal with an output buffer, `output` is how that went.
pub struct LoopStep {
    pub state: DecoderLoop,
    pub call: LoopCall,
    pub reply: LoopReply,
    pub output: Seq<OutputStep>,
}

/// An output buffer as the loop comes upon it in a state.
pub open spec fn output_start(
    order: ByteOrder,
    state: DecoderLoop,
    index: usize,
    info: BufferInfo,
) -> OutputStart {
    OutputStart {
        order,
        expected_sample_rate: state.expected_sample_rate,
        expected_channel_count: state.expected_channel_count,
        index,
        info,
        known: state.output_format,
    }
}

/// Whether a step is one that the loop can make.
pub open spec fn is_loop_step(order: ByteOrder, step: LoopStep) -> bool {
    &&& answers_loop(step.call, step.reply)
    &&& match (step.call, step.reply) {
        (
            LoopCall::HandleBuffer { index, info },
            LoopReply::Handled { outcome, output_format },
        ) => is_output_run(
            output_start(order, step.state, index, info),
            step.output,
            output_format,
            OutputNext::Done(outcome),
        ),
        _ => step.output.len() == 0,
    }
}

/// Whether steps follow each other from the first call of a loop on, and lead to a state and a
/// call.
pub open spec fn is_loop_run(order: ByteOrder, steps: Seq<LoopStep>, state: DecoderLoop, call: LoopCall) -> bool
    decreases steps.len(),
{
    if steps.len() == 0 {
        call is QueueInput
    } else {
        let last = steps.last();
        &&& is_loop_step(order, last)
        &&& last.state.next(last.call, last.reply) == (
            state,
            Ok::<_, DecoderThreadExit>(call),
        )
        &&& is_loop_run(order, steps.drop_last(), last.state, last.call)
    }
}

/// All that the pipe took in a run.
pub open spec fn run_taken(steps: Seq<LoopStep>) -> Seq<u8>
    decreases steps.len(),
{
    if steps.len() == 0 {
        Seq::empty()
    } else {
        run_taken(steps.drop_last()) + output_taken(steps.last().output)
    }
}

/// All that was to be written in a run: the bytes of the samples of every output buffer, one
/// buffer after the other.
pub open spec fn run_due(order: ByteOrder, steps: Seq<LoopStep>) -> Seq<u8>
    decreases steps.len(),
{
    if steps.len() == 0 {
        Seq::empty()
    } else {
        run_due(order, steps.drop_last()) + output_due(order, steps.last().output)
    }
}

/// The bytes that are not written when a run has come to this: those of the output buffer that
/// was dealt with last, if that failed.
pub open spec fn run_unwritten(steps: Seq<LoopStep>) -> Seq<u8> {
    if steps.len() == 0 {
        Seq::empty()
    } else {
        match steps.last().reply {
            LoopReply::Handled { outcome, .. } => unwritten(
                steps.last().output,
                OutputNext::Done(outcome),
            ),
            _ => Seq::empty(),
        }
    }
}

/// A run of the loop around a codec writes the samples of every output buffer, in their order,
/// each once. Only where dealing with a buffer failed, some of its samples may be missing, and
/// then the loop ends as soon as the buffer is given back.
pub proof fn lemma_codec_run_writes_every_sample(
    order: ByteOrder,
    steps: Seq<LoopStep>,
    state: DecoderLoop,
    call: LoopCall,
)
    requires
        is_loop_run(order, steps, state, call),
    ensures
        run_taken(steps) + run_unwritten(steps) == run_due(order, steps),
        !(call matches LoopCall::ReleaseBuffer { outcome: Err(_), .. }) ==> run_unwritten(steps)
            == Seq::<u8>::empty(),
    decreases steps.len(),
{
    let nothing = Seq::<u8>::empty();
    if steps.len() == 0 {
        assert(nothing + nothing =~= nothing);
    } else {
        let last = steps.last();
        let earlier = steps.drop_last();
        lemma_codec_run_writes_every_sample(order, earlier, last.state, last.call);
        assert(run_taken(earlier) + nothing =~= run_taken(earlier));
        assert(run_unwritten(earlier) == nothing);
        match (last.call, last.reply) {
            (
                LoopCall::HandleBuffer { index, info },
                LoopReply::Handled { outcome, output_format },
            ) => {
                lemma_output_run_keeps_the_bytes(
                    output_start(order, last.state, index, info),
                    last.output,
                    output_format,
                    OutputNext::Done(outcome),
                );
                assert(run_taken(steps) + run_unwritten(steps) =~= run_taken(earlier) + (
                output_taken(last.output) + unwritten(last.output, OutputNext::Done(outcome))));
            },
            _ => {
                assert(run_taken(steps) + nothing =~= run_taken(earlier));
                assert(run_due(order, steps) =~= run_due(order, earlier));
            },
        }
    }
}

/// The same holds in the midst of an output buffer: what the pipe took by then, followed by
/// what is still to be written of the buffer, are the bytes of the samples of every buffer, this
/// one included.
pub proof fn lemma_codec_run_writes_on(
    order: ByteOrder,
    steps: Seq<LoopStep>,
    state: DecoderLoop,
    index: usize,
    info: BufferInfo,
    output: Seq<OutputStep>,
    known: Option<OutputAudioFormat>,
    next: OutputNext,
)
    requires
        is_loop_run(order, steps, state, LoopCall::HandleBuffer { index, info }),
        is_output_run(output_start(order, state, index, info), output, known, next),
    ensures
        run_taken(steps) + output_taken(output) + unwritten(output, next) == run_due(order, steps)
            + output_due(order, output),
{
    lemma_codec_run_writes_every_sample(
        order,
        steps,
        state,
        LoopCall::HandleBuffer { index, info },
    );
    lemma_output_run_keeps_the_bytes(
        output_start(order, state, index, info),
        output,
        known,
        next,
    );
    assert(run_taken(steps) + Seq::<u8>::empty() =~= run_taken(steps));
    assert(run_taken(steps) + output_taken(output) + unwritten(output, next) =~= run_taken(steps) + (
    output_taken(output) + unwritten(output, next)));
}

/// The output buffers that the codec gave out in a run, in their order.
pub open spec fn buffers_given(steps: Seq<LoopStep>) -> Seq<usize>
    decreases steps.len(),
{
    if steps.len() == 0 {
        Seq::empty()
    } else {
        let earlier = buffers_given(steps.drop_last());
        match steps.last().reply {
            LoopReply::Output(Ok(OutputBufferResult::Buffer { index, .. })) => earlier.push(index),
            _ => earlier,
        }
    }
}

/// The output buffers that were given back in a run, in their order.
pub open spec fn buffers_released(steps: Seq<LoopStep>) -> Seq<usize>
    decreases steps.len(),
{
    if steps.len() == 0 {
        Seq::empty()
    } else {
        let earlier = buffers_released(steps.drop_last());
        match steps.last().call {
            LoopCall::ReleaseBuffer { index, .. } => earlier.push(index),
            _ => earlier,
        }
    }
}

/// The output buffer that a call is about, if it is about one.
pub open spec fn buffer_at_hand(call: LoopCall) -> Seq<usize> {
    match call {
        LoopCall::HandleBuffer { index, .. } => seq![index],
        LoopCall::ReleaseBuffer { index, .. } => seq![index],
        _ => Seq::empty(),
    }
}

/// Every output buffer that the codec gave out is given back once, in the same order and before
/// the next is asked for; only the one at hand is still to be given back.
pub proof fn lemma_every_buffer_is_released(
    order: ByteOrder,
    steps: Seq<LoopStep>,
    state: DecoderLoop,
    call: LoopCall,
)
    requires
        is_loop_run(order, steps, state, call),
    ensures
        buffers_given(steps) == buffers_released(steps) + buffer_at_hand(call),
    decreases steps.len(),
{
    if steps.len() == 0 {
        assert(buffers_given(steps) =~= buffers_released(steps) + buffer_at_hand(call));
    } else {
        let last = steps.last();
        lemma_every_buffer_is_released(order, steps.drop_last(), last.state, last.call);
        assert(buffers_given(steps) =~= buffers_released(steps) + buffer_at_hand(call));
    }
}

} // verus!
