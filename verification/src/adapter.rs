//! The audio source that stands in for the microphone.
//!
//! A source takes decoded samples from a pipe, as raw bytes, and hands them out at the
//! rate and with the channels that a capture client asks for. Reading the pipe is left to
//! the caller: [`SpoofedAudioSource::read_f32`] does what the samples at hand allow and
//! then either is done or asks for more, which the caller gets from the pipe and hands to
//! [`SpoofedAudioSource::read_more_from_pipe`].
use vstd::prelude::*;
use vstd::arithmetic::div_mod::*;
use vstd::arithmetic::mul::*;
use vstd::arithmetic::power2::*;
use crate::bytes::{
    lemma_words_concat, loose_bytes, read_word, words_of, ByteOrder,
};
use crate::phase::{
    advance, lemma_exact_ratio_steps, lemma_ratio_at_most, lemma_ratio_near,
    lemma_ratio_of_multiple, lemma_source_frame_monotone, lemma_steps_add,
    lemma_walk_keeps_pace, lemma_whole_ratio_steps, position_after, rate_ratio, ratio, source_frame,
    FRAME_UNITS,
};

verus! {

/// The number of samples that one read of the pipe asks for.
pub const PIPE_READ_CHUNK_SAMPLES: usize = 4096;

/// The number of bytes that one read of the pipe asks for.
pub const PIPE_READ_CHUNK_BYTES: usize = 16384;

/// A source of samples for one capture client.
pub struct SpoofedAudioSource {
    has_pipe: bool,
    order: ByteOrder,
    source_sample_rate: u32,
    source_channels: u32,
    read_buf: Vec<u32>,
    read_buf_pos: usize,
    frac_position: u128,
    partial_sample: Vec<u8>,
    pipe_eof: bool,
}

/// What a source is, apart from how it stores its samples.
pub struct SourceView {
    /// Whether there is a pipe at all; without one the source is silent.
    pub has_pipe: bool,
    /// The byte order of the samples in the pipe.
    pub order: ByteOrder,
    pub sample_rate: u32,
    pub channels: u32,
    /// The samples that were read from the pipe and not handed out yet.
    pub queue: Seq<u32>,
    /// The bytes of a sample that has not fully arrived.
    pub partial: Seq<u8>,
    /// The resampling position, in units of `2^-84` source frames.
    pub position: nat,
    /// Whether the pipe has ended.
    pub eof: bool,
}

/// The outcome of one attempt to read the pipe.
pub enum PipeRead {
    /// Bytes that were read; none at the end of the stream.
    Bytes(Vec<u8>),
    /// The read failed.
    Failed {
        /// The call was interrupted and can be made again.
        interrupted: bool,
    },
}

/// What became of an attempt to read the pipe.
#[derive(Clone, Copy, Debug, PartialEq, Eq, Structural)]
pub enum PipeProgress {
    /// Bytes have arrived.
    More,
    /// The read should be made again.
    Retry,
    /// Nothing will arrive any more.
    Ended,
}

/// Whether a read is complete.
#[derive(Clone, Copy, Debug, PartialEq, Eq, Structural)]
pub enum ReadStep {
    /// The output is complete.
    Done,
    /// More samples are needed from the pipe.
    NeedPipe,
}

/// What the pipe holds becomes part of the source.
pub open spec fn fed(s: SourceView, bytes: Seq<u8>) -> SourceView {
    SourceView {
        queue: s.queue + words_of(s.order, s.partial + bytes),
        partial: loose_bytes(s.partial + bytes),
        ..s
    }
}

/// The source after an attempt to read the pipe.
pub open spec fn after_pipe_read(s: SourceView, event: PipeRead) -> (SourceView, PipeProgress) {
    let ended = SourceView { eof: true, ..s };
    if s.eof || !s.has_pipe {
        (ended, PipeProgress::Ended)
    } else {
        match event {
            PipeRead::Failed { interrupted } => if interrupted {
                (s, PipeProgress::Retry)
            } else {
                (ended, PipeProgress::Ended)
            },
            PipeRead::Bytes(bytes) => if bytes@.len() == 0 {
                (ended, PipeProgress::Ended)
            } else {
                (fed(s, bytes@), PipeProgress::More)
            },
        }
    }
}

/// Feeding two runs of bytes one after the other is feeding them together: where the pipe
/// splits the stream makes no difference.
pub proof fn lemma_feeding_in_parts(s: SourceView, a: Seq<u8>, b: Seq<u8>)
    ensures
        fed(fed(s, a), b) == fed(s, a + b),
{
    let p = s.partial + a;
    lemma_words_concat(s.order, p, b);
    assert(s.partial + (a + b) =~= p + b);
    assert(fed(fed(s, a), b).queue =~= fed(s, a + b).queue);
}

/// What a read of `frames` frames is to do, given where the source stands.
pub struct ReadPlan {
    /// The resampling position at the start.
    pub start: nat,
    /// The quotient of the sample rates, in phase units.
    pub ratio: nat,
    /// The channels of the source.
    pub channels: nat,
    /// The channels of the output.
    pub target_channels: nat,
    /// The frames to put out.
    pub frames: nat,
}

impl ReadPlan {
    /// The source frame that output frame `f` shows.
    pub open spec fn index(self, f: nat) -> nat {
        source_frame(self.start, self.ratio, f)
    }

    /// Whether a stream of `len` samples reaches as far as output frame `f`.
    pub open spec fn shows(self, len: nat, f: nat) -> bool {
        (self.index(f) + 1) * self.channels <= len
    }

    /// How many of the first `n` output frames a stream of `len` samples reaches.
    pub open spec fn shown_below(self, len: nat, n: nat) -> nat
        decreases n,
    {
        if n == 0 {
            0
        } else {
            let before = self.shown_below(len, (n - 1) as nat);
            if before == n - 1 && self.shows(len, (n - 1) as nat) {
                n
            } else {
                before
            }
        }
    }

    /// How many output frames a stream of `len` samples reaches.
    pub open spec fn shown(self, len: nat) -> nat {
        self.shown_below(len, self.frames)
    }

    /// How many samples of a stream of `len` samples are used up.
    pub open spec fn consumed(self, len: nat) -> nat {
        let wanted = self.index(self.shown(len));
        let there = len / self.channels;
        (if wanted < there {
            wanted
        } else {
            there
        }) * self.channels
    }

    /// Whether a stream of `len` samples is all that the read needs.
    pub open spec fn satisfied(self, len: nat) -> bool {
        self.shown(len) == self.frames && self.index(self.frames) * self.channels <= len
    }

    /// The output: each frame shows its source frame, the last source channel standing in for
    /// further ones, and is silent where the stream does not reach.
    pub open spec fn output(self, stream: Seq<u32>) -> Seq<u32> {
        Seq::new(
            self.frames * self.target_channels,
            |i: int|
                if self.shows(stream.len(), (i / self.target_channels as int) as nat) {
                    self.source_sample(stream, i)
                } else {
                    0
                },
        )
    }

    /// The source sample that place `i` of the output shows.
    pub open spec fn source_sample(self, stream: Seq<u32>, i: int) -> u32 {
        let f = (i / self.target_channels as int) as nat;
        let c = i % self.target_channels as int;
        stream[self.index(f) * self.channels + (if c < self.channels {
            c
        } else {
            self.channels - 1
        })]
    }

    /// A stream that reaches a frame reaches the earlier ones.
    pub proof fn lemma_shows_earlier(self, len: nat, a: nat, b: nat)
        requires
            a <= b,
            self.shows(len, b),
        ensures
            self.shows(len, a),
    {
        lemma_source_frame_monotone(self.start, self.ratio, a, b);
        lemma_mul_inequality(
            (self.index(a) + 1) as int,
            (self.index(b) + 1) as int,
            self.channels as int,
        );
    }

    /// The frames that are reached are the first ones.
    pub proof fn lemma_shown(self, len: nat, m: nat)
        requires
            m <= self.frames,
            forall|f: nat| f < m ==> self.shows(len, f),
            m < self.frames ==> !self.shows(len, m),
        ensures
            self.shown(len) == m,
    {
        self.lemma_shown_below(len, m, m);
        self.lemma_shown_below(len, m, self.frames);
    }

    /// Where all of the first `n` frames are reached, each of them is.
    proof fn lemma_all_shown(self, len: nat, n: nat, f: nat)
        requires
            self.shown_below(len, n) == n,
            f < n,
        ensures
            self.shows(len, f),
        decreases n,
    {
        let before = self.shown_below(len, (n - 1) as nat);
        self.lemma_shown_at_most(len, (n - 1) as nat);
        if f < n - 1 {
            self.lemma_all_shown(len, (n - 1) as nat, f);
        }
    }

    proof fn lemma_shown_at_most(self, len: nat, n: nat)
        ensures
            self.shown_below(len, n) <= n,
        decreases n,
    {
        if n > 0 {
            self.lemma_shown_at_most(len, (n - 1) as nat);
        }
    }

    proof fn lemma_shown_below(self, len: nat, m: nat, n: nat)
        requires
            n <= self.frames,
            m <= self.frames,
            forall|f: nat| f < m ==> self.shows(len, f),
            m < self.frames ==> !self.shows(len, m),
        ensures
            self.shown_below(len, n) == if n < m {
                n
            } else {
                m
            },
        decreases n,
    {
        if n > 0 {
            self.lemma_shown_below(len, m, (n - 1) as nat);
        }
    }
}

impl View for SpoofedAudioSource {
    type V = SourceView;

    closed spec fn view(&self) -> SourceView {
        SourceView {
            has_pipe: self.has_pipe,
            order: self.order,
            sample_rate: self.source_sample_rate,
            channels: self.source_channels,
            queue: self.read_buf@.skip(self.read_buf_pos as int),
            partial: self.partial_sample@,
            position: self.frac_position as nat,
            eof: self.pipe_eof,
        }
    }
}

impl SpoofedAudioSource {
    /// What holds of every source.
    pub closed spec fn wf(&self) -> bool {
        &&& self.read_buf_pos <= self.read_buf@.len()
        &&& self.partial_sample@.len() < 4
        &&& self.frac_position <= FRAME_UNITS
    }

    /// A source that takes its samples from a pipe.
    pub fn from_pipe(order: ByteOrder, source_sample_rate: u32, source_channels: u32) -> (r: Self)
        ensures
            r.wf(),
            r@ == (SourceView {
                has_pipe: true,
                order,
                sample_rate: source_sample_rate,
                channels: source_channels,
                queue: Seq::empty(),
                partial: Seq::empty(),
                position: 0,
                eof: false,
            }),
    {
        let r = SpoofedAudioSource {
            has_pipe: true,
            order,
            source_sample_rate,
            source_channels,
            read_buf: Vec::new(),
            read_buf_pos: 0,
            frac_position: 0,
            partial_sample: Vec::new(),
            pipe_eof: false,
        };
        assert(r@.queue =~= Seq::<u32>::empty());
        r
    }

    /// A source that is always silent.
    pub fn silence() -> (r: Self)
        ensures
            r.wf(),
            r@ == (SourceView {
                has_pipe: false,
                order: ByteOrder::Little,
                sample_rate: 0,
                channels: 0,
                queue: Seq::empty(),
                partial: Seq::empty(),
                position: 0,
                eof: true,
            }),
    {
        let r = SpoofedAudioSource {
            has_pipe: false,
            order: ByteOrder::Little,
            source_sample_rate: 0,
            source_channels: 0,
            read_buf: Vec::new(),
            read_buf_pos: 0,
            frac_position: 0,
            partial_sample: Vec::new(),
            pipe_eof: true,
        };
        assert(r@.queue =~= Seq::<u32>::empty());
        r
    }

    /// The number of samples at hand.
    pub fn available_samples(&self) -> (r: usize)
        requires
            self.wf(),
        ensures
            r == self@.queue.len(),
    {
        self.read_buf.len() - self.read_buf_pos
    }

    /// The number of whole frames at hand.
    pub fn available_complete_frames(&self) -> (r: usize)
        requires
            self.wf(),
        ensures
            r == if self@.channels == 0 {
                0
            } else {
                self@.queue.len() / self@.channels as nat
            },
    {
        if self.source_channels == 0 {
            0
        } else {
            self.available_samples() / self.source_channels as usize
        }
    }

    fn push_sample(&mut self, sample: u32)
        requires
            old(self).wf(),
        ensures
            final(self).wf(),
            final(self)@ == (SourceView { queue: old(self)@.queue.push(sample), ..old(self)@ }),
    {
        self.read_buf.push(sample);
        assert(self@.queue =~= old(self)@.queue.push(sample));
    }

    /// Drops the storage of samples that were handed out; the source stays what it is.
    fn compact_read_buffer(&mut self)
        requires
            old(self).wf(),
        ensures
            final(self).wf(),
            final(self)@ == old(self)@,
            final(self).read_buf_pos == 0,
            final(self).read_buf@ == old(self).read_buf@.skip(old(self).read_buf_pos as int),
    {
        if self.read_buf_pos == 0 {
            assert(self.read_buf@ =~= self.read_buf@.skip(0));
            return;
        }
        let start: usize = self.read_buf_pos;
        let remaining: usize = self.read_buf.len() - start;
        let ghost all = self.read_buf@;
        let mut i: usize = 0;
        while i < remaining
            invariant
                i <= remaining,
                0 < start,
                start + remaining == all.len() <= usize::MAX,
                self.read_buf@.len() == all.len(),
                forall|k: int| 0 <= k < i ==> #[trigger] self.read_buf@[k] == all[k + start],
                forall|k: int| i <= k < all.len() ==> #[trigger] self.read_buf@[k] == all[k],
                self.has_pipe == old(self).has_pipe,
                self.order == old(self).order,
                self.source_sample_rate == old(self).source_sample_rate,
                self.source_channels == old(self).source_channels,
                self.frac_position == old(self).frac_position,
                self.partial_sample == old(self).partial_sample,
                self.pipe_eof == old(self).pipe_eof,
            decreases remaining - i,
        {
            let sample: u32 = self.read_buf[start + i];
            self.read_buf[i] = sample;
            i = i + 1;
        }
        self.read_buf.truncate(remaining);
        self.read_buf_pos = 0;
        assert(self@.queue =~= old(self)@.queue);
    }

    /// Takes in bytes of the pipe: whole samples join the queue, the bytes of an unfinished one
    /// wait for the rest.
    pub fn append_pipe_bytes(&mut self, bytes: &[u8])
        requires
            old(self).wf(),
        ensures
            final(self).wf(),
            final(self)@ == fed(old(self)@, bytes@),
    {
        let ghost before = self@;
        let mut i: usize = 0;
        assert(before.partial + bytes@.take(0) =~= before.partial);
        assert(words_of(before.order, before.partial) =~= Seq::<u32>::empty());
        assert(loose_bytes(before.partial) =~= before.partial);
        assert(fed(before, bytes@.take(0)).queue =~= before.queue);
        while i < bytes.len()
            invariant
                i <= bytes.len(),
                self.wf(),
                self@ == fed(before, bytes@.take(i as int)),
            decreases bytes.len() - i,
        {
            let ghost s = self@;
            let ghost one = seq![bytes@[i as int]];
            self.partial_sample.push(bytes[i]);
            if self.partial_sample.len() == 4 {
                let sample: u32 = read_word(
                    self.order,
                    self.partial_sample[0],
                    self.partial_sample[1],
                    self.partial_sample[2],
                    self.partial_sample[3],
                );
                let ghost four = self.partial_sample@;
                self.partial_sample.clear();
                self.push_sample(sample);
                proof {
                    assert(four =~= s.partial + one);
                    assert(four.subrange(0, 4) =~= seq![four[0], four[1], four[2], four[3]]);
                    assert(words_of(s.order, four) =~= seq![sample]);
                    assert(loose_bytes(four) =~= Seq::<u8>::empty());
                    assert(self@.queue =~= fed(s, one).queue);
                    assert(self@ == fed(s, one));
                }
            } else {
                proof {
                    assert(self@.partial =~= s.partial + one);
                    assert(words_of(s.order, s.partial + one) =~= Seq::<u32>::empty());
                    assert(loose_bytes(s.partial + one) =~= s.partial + one);
                    assert(self@.queue =~= fed(s, one).queue);
                    assert(self@ == fed(s, one));
                }
            }
            proof {
                lemma_feeding_in_parts(before, bytes@.take(i as int), one);
                assert(bytes@.take(i as int) + one =~= bytes@.take(i + 1));
            }
            i = i + 1;
        }
        assert(bytes@.take(i as int) =~= bytes@);
    }

    /// Takes in the outcome of an attempt to read the pipe.
    pub fn read_more_from_pipe(&mut self, event: PipeRead) -> (r: PipeProgress)
        requires
            old(self).wf(),
        ensures
            final(self).wf(),
            (final(self)@, r) == after_pipe_read(old(self)@, event),
    {
        if self.pipe_eof {
            return PipeProgress::Ended;
        }
        if !self.has_pipe {
            self.pipe_eof = true;
            return PipeProgress::Ended;
        }
        self.compact_read_buffer();
        match event {
            PipeRead::Failed { interrupted } => {
                if interrupted {
                    PipeProgress::Retry
                } else {
                    self.pipe_eof = true;
                    PipeProgress::Ended
                }
            },
            PipeRead::Bytes(bytes) => {
                if bytes.len() == 0 {
                    self.pipe_eof = true;
                    PipeProgress::Ended
                } else {
                    self.append_pipe_bytes(bytes.as_slice());
                    PipeProgress::More
                }
            },
        }
    }

    /// Drops up to `frame_count` frames of those at hand; the number that is still to be dropped.
    pub fn discard_source_frames(&mut self, frame_count: usize) -> (r: usize)
        requires
            old(self).wf(),
            old(self)@.channels > 0,
        ensures
            final(self).wf(),
            ({
                let s = old(self)@;
                let there = s.queue.len() / s.channels as nat;
                let dropped = if frame_count < there {
                    frame_count as nat
                } else {
                    there
                };
                &&& r == frame_count - dropped
                &&& dropped * s.channels <= s.queue.len()
                &&& final(self)@ == (SourceView {
                    queue: s.queue.skip((dropped * s.channels) as int),
                    ..s
                })
            }),
    {
        let channels: usize = self.source_channels as usize;
        let available: usize = self.available_complete_frames();
        let discard_now: usize = if frame_count < available {
            frame_count
        } else {
            available
        };
        let stored: usize = self.read_buf.len();
        proof {
            let len = self@.queue.len() as int;
            assert(len + self.read_buf_pos == stored);
            lemma_fundamental_div_mod(len, channels as int);
            lemma_mul_is_commutative(channels as int, available as int);
            lemma_mul_inequality(discard_now as int, available as int, channels as int);
        }
        let ghost before = self@;
        let step: usize = discard_now * channels;
        self.read_buf_pos = self.read_buf_pos + step;
        assert(self@.queue =~= before.queue.skip(step as int));
        if self.read_buf_pos == self.read_buf.len() {
            self.read_buf.clear();
            self.read_buf_pos = 0;
            assert(self@.queue =~= before.queue.skip(step as int));
        } else if self.read_buf_pos >= PIPE_READ_CHUNK_SAMPLES {
            self.compact_read_buffer();
        }
        frame_count - discard_now
    }
}

/// A read in progress.
pub struct ReadJob {
    output: Vec<u32>,
    frames: usize,
    target_channels: usize,
    source_channels: usize,
    ratio: u128,
    /// Whether the source has anything to show.
    active: bool,
    /// The frames shown so far.
    frame: usize,
    /// The source frames still to be dropped before the next one is shown.
    pending: usize,
    start: Ghost<nat>,
    past: Ghost<Seq<u32>>,
}

impl ReadJob {
    pub closed spec fn plan(self) -> ReadPlan {
        ReadPlan {
            start: self.start@,
            ratio: self.ratio as nat,
            channels: self.source_channels as nat,
            target_channels: self.target_channels as nat,
            frames: self.frames as nat,
        }
    }

    /// Whether the source has anything to show; the output is silent otherwise.
    pub closed spec fn is_active(self) -> bool {
        self.active
    }

    /// The samples that this read has used up.
    pub closed spec fn past(self) -> Seq<u32> {
        self.past@
    }

    pub closed spec fn output_samples(self) -> Seq<u32> {
        self.output@
    }

    pub closed spec fn frame_count(self) -> nat {
        self.frames as nat
    }

    pub closed spec fn channel_count(self) -> nat {
        self.target_channels as nat
    }

    /// What a read and the source that it goes on with have in common.
    pub closed spec fn fits(self, s: SourceView) -> bool {
        let p = self.plan();
        let stream = self.past@ + s.queue;
        &&& self.frames * self.target_channels <= self.output@.len()
        &&& self.active ==> {
            &&& s.has_pipe
            &&& s.channels == self.source_channels
            &&& self.source_channels > 0
            &&& 0 < self.target_channels <= u16::MAX
            &&& self.ratio <= 0xffff_ffff * FRAME_UNITS
            &&& self.frame <= self.frames
            &&& s.position == position_after(p.start, p.ratio, self.frame as nat)
            &&& self.past@.len() + self.pending * self.source_channels == p.index(self.frame as nat)
                * p.channels
            &&& forall|f: nat| f < self.frame ==> p.shows(stream.len(), f)
            &&& forall|i: int|
                0 <= i < self.frames * self.target_channels ==> #[trigger] self.output@[i] == if i
                    / (self.target_channels as int) < self.frame {
                    p.source_sample(stream, i)
                } else {
                    0
                }
        }
    }

    /// The frames that the read puts out.
    pub fn frames(&self) -> (r: usize)
        ensures
            r == self.frame_count(),
    {
        self.frames
    }

    /// Gives the output up.
    pub fn into_output(self) -> (r: Vec<u32>)
        ensures
            r@ == self.output_samples(),
    {
        self.output
    }
}

/// A read goes on with its source after more samples have arrived or the pipe has ended.
pub proof fn lemma_read_goes_on(job: ReadJob, s: SourceView, t: SourceView)
    requires
        job.fits(s),
        s.queue.is_prefix_of(t.queue),
        t.has_pipe == s.has_pipe,
        t.channels == s.channels,
        t.position == s.position,
    ensures
        job.fits(t),
{
    if job.active {
        let p = job.plan();
        let a = job.past@ + s.queue;
        let b = job.past@ + t.queue;
        assert forall|f: nat| f < job.frame implies p.shows(b.len(), f) by {
            assert(p.shows(a.len(), f));
        }
        assert forall|i: int| 0 <= i < job.frames * job.target_channels implies #[trigger] job.output@[i]
            == if i / (job.target_channels as int) < job.frame {
            p.source_sample(b, i)
        } else {
            0
        } by {
            let f = i / (job.target_channels as int);
            if f < job.frame {
                lemma_div_pos_is_pos(i, job.target_channels as int);
                assert(p.shows(a.len(), f as nat));
                lemma_sample_in_stream(p, a.len(), i);
                assert(p.source_sample(a, i) == p.source_sample(b, i));
            }
        }
    }
}

/// The sample that a reached frame shows lies in the stream.
proof fn lemma_sample_in_stream(p: ReadPlan, len: nat, i: int)
    requires
        p.channels > 0,
        p.target_channels > 0,
        0 <= i,
        p.shows(len, (i / p.target_channels as int) as nat),
    ensures
        ({
            let f = (i / p.target_channels as int) as nat;
            let c = i % p.target_channels as int;
            0 <= p.index(f) * p.channels + (if c < p.channels {
                c
            } else {
                p.channels - 1
            }) < len
        }),
{
    let f = (i / p.target_channels as int) as nat;
    assert((p.index(f) + 1) * p.channels == p.index(f) * p.channels + p.channels) by (nonlinear_arith);
    lemma_mod_bound(i, p.target_channels as int);
    assert(p.index(f) * p.channels >= 0) by (nonlinear_arith)
        requires
            p.index(f) >= 0,
            p.channels >= 0,
    ;
}

impl SpoofedAudioSource {
    /// Starts a read: the frames of `output` are silenced, and what the source has for them is
    /// determined. A channel count or sample rate of zero leaves nothing to show.
    pub fn begin_read(&self, output: Vec<u32>, target_sample_rate: u32, target_channels: u16) -> (r: ReadJob)
        requires
            self.wf(),
        ensures
            is_begun(self@, output@, target_sample_rate, target_channels, r),
            r.fits(self@),
            r.channel_count() == target_channels,
            r.frame_count() == if target_channels == 0 {
                0
            } else {
                output@.len() / target_channels as nat
            },
            r.is_active() == (r.frame_count() > 0 && self@.has_pipe && self@.sample_rate > 0
                && self@.channels > 0 && target_sample_rate > 0),
            r.is_active() ==> r.past() == Seq::<u32>::empty() && r.plan() == (ReadPlan {
                start: self@.position,
                ratio: ratio(self@.sample_rate, target_sample_rate),
                channels: self@.channels as nat,
                target_channels: target_channels as nat,
                frames: r.frame_count(),
            }),
            r.frame_count() * target_channels <= output@.len(),
            r.output_samples() == Seq::new(r.frame_count() * target_channels as nat, |i: int| 0u32)
                + output@.skip((r.frame_count() * target_channels) as int),
    {
        let mut output = output;
        let ghost given = output@;
        let channels: usize = target_channels as usize;
        let frames: usize = if channels == 0 {
            0
        } else {
            output.len() / channels
        };
        proof {
            if channels > 0 {
                lemma_fundamental_div_mod(given.len() as int, channels as int);
                lemma_mul_is_commutative(channels as int, frames as int);
            }
        }
        let filled: usize = frames * channels;
        let mut i: usize = 0;
        while i < filled
            invariant
                i <= filled <= given.len(),
                output@.len() == given.len(),
                forall|k: int| 0 <= k < i ==> #[trigger] output@[k] == 0,
                forall|k: int| i <= k < given.len() ==> #[trigger] output@[k] == given[k],
            decreases filled - i,
        {
            output[i] = 0;
            i = i + 1;
        }
        let active = frames > 0 && self.has_pipe && self.source_sample_rate > 0
            && self.source_channels > 0 && target_sample_rate > 0;
        let ratio: u128 = if active {
            rate_ratio(self.source_sample_rate, target_sample_rate)
        } else {
            0
        };
        let r = ReadJob {
            output,
            frames,
            target_channels: channels,
            source_channels: self.source_channels as usize,
            ratio,
            active,
            frame: 0,
            pending: 0,
            start: Ghost(self@.position),
            past: Ghost(Seq::empty()),
        };
        proof {
            assert(r.output_samples() =~= Seq::new(frames as nat * channels as nat, |i: int| 0u32)
                + given.skip(filled as int));
            if active {
                assert(ratio <= 0xffff_ffff * FRAME_UNITS) by (nonlinear_arith)
                    requires
                        ratio <= self.source_sample_rate * FRAME_UNITS,
                        self.source_sample_rate <= 0xffff_ffff,
                        FRAME_UNITS >= 0,
                ;
                assert forall|i: int| 0 <= i < frames * channels implies #[trigger] r.output@[i] == if i
                    / (channels as int) < r.frame {
                    r.plan().source_sample(r.past@ + self@.queue, i)
                } else {
                    0
                } by {
                    lemma_div_pos_is_pos(i, channels as int);
                }
                assert(r.plan().index(0) * r.plan().channels == 0);
                assert(0 * r.source_channels == 0);
            }
        }
        r
    }
}

impl SpoofedAudioSource {
    /// Puts the first frame at hand into its place in the output.
    fn show_frame(&self, job: &mut ReadJob)
        requires
            self.wf(),
            old(job).fits(self@),
            old(job).active,
            old(job).frame < old(job).frames,
            old(job).pending == 0,
            self@.queue.len() >= self@.channels,
        ensures
            final(job).plan() == old(job).plan(),
            final(job).past == old(job).past,
            final(job).frame == old(job).frame,
            final(job).pending == old(job).pending,
            final(job).active == old(job).active,
            final(job).output@.len() == old(job).output@.len(),
            forall|i: int|
                0 <= i < old(job).output@.len() ==> #[trigger] final(job).output@[i] == if i
                    / (old(job).target_channels as int) == old(job).frame && i < old(job).frames
                    * old(job).target_channels {
                    old(job).plan().source_sample(old(job).past@ + self@.queue, i)
                } else {
                    old(job).output@[i]
                },
    {
        let channels: usize = job.target_channels;
        let last: usize = job.source_channels - 1;
        let base: usize = self.read_buf_pos;
        let room: usize = job.output.len();
        let stored: usize = self.read_buf.len();
        let ghost p = job.plan();
        let ghost stream = job.past@ + self@.queue;
        let ghost before = *job;
        proof {
            assert(before.frame * channels + channels <= before.frames * channels) by (nonlinear_arith)
                requires
                    before.frame + 1 <= before.frames,
            ;
        }
        let start: usize = job.frame * channels;
        let mut c: usize = 0;
        while c < channels
            invariant
                c <= channels,
                self.wf(),
                channels == before.target_channels > 0,
                last == before.source_channels - 1,
                base == self.read_buf_pos,
                self@.queue.len() > last,
                start == before.frame * channels,
                start + channels <= before.frames * channels <= before.output@.len() == room,
                base + last < stored == self.read_buf@.len(),
                p == before.plan(),
                stream == before.past@ + self@.queue,
                before.past@.len() == p.index(before.frame as nat) * p.channels,
                job.plan() == p,
                job.past == before.past,
                job.frame == before.frame,
                job.pending == before.pending,
                job.active == before.active,
                job.output@.len() == before.output@.len(),
                forall|i: int|
                    0 <= i < before.output@.len() ==> #[trigger] job.output@[i] == if start <= i < start + c {
                        p.source_sample(stream, i)
                    } else {
                        before.output@[i]
                    },
            decreases channels - c,
        {
            let source_channel: usize = if c < last {
                c
            } else {
                last
            };
            let sample: u32 = self.read_buf[base + source_channel];
            job.output[start + c] = sample;
            proof {
                let i = (start + c) as int;
                lemma_fundamental_div_mod_converse(i, channels as int, before.frame as int, c as int);
                assert(stream[before.past@.len() + source_channel] == sample);
                assert(p.source_sample(stream, i) == sample);
            }
            c = c + 1;
        }
        proof {
            assert forall|i: int| 0 <= i < before.output@.len() implies #[trigger] job.output@[i] == if i
                / (channels as int) == before.frame && i < before.frames * channels {
                p.source_sample(stream, i)
            } else {
                before.output@[i]
            } by {
                lemma_fundamental_div_mod(i, channels as int);
                lemma_mod_bound(i, channels as int);
                let q = i / (channels as int);
                if q == before.frame {
                    assert(channels * q == start) by (nonlinear_arith)
                        requires
                            q == before.frame,
                            start == before.frame * channels,
                    ;
                } else if start <= i < start + channels {
                    lemma_fundamental_div_mod_converse(i, channels as int, before.frame as int, i - start);
                }
            }
        }
    }

    /// Drops the source frames that the read has passed, as far as they are at hand.
    fn drop_passed(&mut self, job: &mut ReadJob)
        requires
            old(self).wf(),
            old(job).fits(old(self)@),
            old(job).active,
        ensures
            final(self).wf(),
            final(job).fits(final(self)@),
            final(job).active,
            final(job).plan() == old(job).plan(),
            final(job).output == old(job).output,
            final(job).frame == old(job).frame,
            final(job).pending > 0 ==> final(self)@.queue.len() < final(self)@.channels,
            final(job).past@ + final(self)@.queue == old(job).past@ + old(self)@.queue,
            final(self)@ == (SourceView { queue: final(self)@.queue, ..old(self)@ }),
    {
        let ghost before = *job;
        let ghost s = self@;
        let left: usize = self.discard_source_frames(job.pending);
        let ghost dropped = ((before.pending - left) * job.source_channels) as int;
        proof {
            job.past@ = before.past@ + s.queue.take(dropped);
        }
        job.pending = left;
        proof {
            assert(job.past@ + self@.queue =~= before.past@ + s.queue);
            assert((before.pending - left) * before.source_channels + left * before.source_channels
                == before.pending * before.source_channels) by (nonlinear_arith);
            let n = s.queue.len() as int;
            let ch = s.channels as int;
            lemma_fundamental_div_mod(n, ch);
            lemma_mod_bound(n, ch);
            lemma_mul_is_commutative(ch, n / ch);
        }
    }

    /// Shows the first frame at hand and moves on.
    fn show_next(&mut self, job: &mut ReadJob)
        requires
            old(self).wf(),
            old(job).fits(old(self)@),
            old(job).active,
            old(job).frame < old(job).frames,
            old(job).pending == 0,
            old(self)@.queue.len() >= old(self)@.channels,
        ensures
            final(self).wf(),
            final(job).fits(final(self)@),
            final(job).active,
            final(job).plan() == old(job).plan(),
            final(job).past == old(job).past,
            final(job).frame == old(job).frame + 1,
            final(job).output@.skip((old(job).frames * old(job).target_channels) as int)
                == old(job).output@.skip((old(job).frames * old(job).target_channels) as int),
            final(self)@ == (SourceView { position: final(self)@.position, ..old(self)@ }),
    {
        let ghost before = *job;
        let ghost stream = job.past@ + self@.queue;
        let ghost p = job.plan();
        self.show_frame(job);
        let (passed_frames, position) = advance(self.frac_position, job.ratio);
        self.frac_position = position;
        job.pending = passed_frames;
        job.frame = job.frame + 1;
        proof {
            let f = before.frame as nat;
            let tc = before.target_channels as int;
            assert((p.index(f) + 1) * p.channels == p.index(f) * p.channels + p.channels) by (nonlinear_arith);
            assert(p.shows(stream.len(), f));
            assert((p.index(f) + job.pending) * p.channels == p.index(f) * p.channels + job.pending
                * p.channels) by (nonlinear_arith);
            assert(before.pending * before.source_channels == 0);
            assert(p.index((f + 1) as nat) == p.index(f) + job.pending);
            assert forall|g: nat| g < job.frame implies p.shows(stream.len(), g) by {
                if g < f {
                    assert(g < before.frame);
                }
            }
            assert forall|i: int| 0 <= i < before.frames * before.target_channels implies #[trigger] job.output@[i]
                == if i / tc < job.frame {
                p.source_sample(stream, i)
            } else {
                0
            } by {
                assert(job.output@[i] == if i / tc == f {
                    p.source_sample(stream, i)
                } else {
                    before.output@[i]
                });
            }
            let n = (before.frames * before.target_channels) as int;
            assert(job.output@.skip(n) =~= before.output@.skip(n)) by {
                assert forall|i: int| n <= i < job.output@.len() implies #[trigger] job.output@[i]
                    == before.output@[i] by {}
            }
        }
    }

    /// What a read has done once it can go no further.
    proof fn lemma_read_result(&self, job: ReadJob)
        requires
            self.wf(),
            job.fits(self@),
            job.active,
            job.pending > 0 ==> self@.queue.len() < self@.channels,
            job.pending == 0 ==> job.frame == job.frames || self@.queue.len() < self@.channels,
        ensures
            ({
                let p = job.plan();
                let stream = job.past@ + self@.queue;
                let n = (job.frames * job.target_channels) as int;
                &&& p.shown(stream.len()) == job.frame
                &&& p.consumed(stream.len()) == job.past@.len()
                &&& p.satisfied(stream.len()) <==> job.pending == 0 && job.frame == job.frames
                &&& job.output@ == p.output(stream) + job.output@.skip(n)
            }),
    {
        let p = job.plan();
        let stream = job.past@ + self@.queue;
        let len = stream.len();
        let ch = p.channels as int;
        let m = job.frame as nat;
        let k = (p.index(m) - job.pending) as int;
        let rest = self@.queue.len() as int;
        assert(job.past@.len() == k * ch) by (nonlinear_arith)
            requires
                job.past@.len() + job.pending * ch == p.index(m) * ch,
                k == p.index(m) - job.pending,
        ;
        assert(k >= 0) by (nonlinear_arith)
            requires
                k * ch >= 0,
                ch > 0,
        ;
        assert((p.index(m) + 1) * ch == p.index(m) * ch + ch) by (nonlinear_arith);
        if rest < ch {
            lemma_fundamental_div_mod_converse(len as int, ch, k, rest);
            assert(len as int / ch == k);
            if job.pending > 0 {
                assert(p.index(m) * ch >= k * ch + ch) by (nonlinear_arith)
                    requires
                        p.index(m) >= k + 1,
                        ch > 0,
                ;
            }
            assert(!p.shows(len, m));
        } else {
            assert(job.pending == 0);
            lemma_fundamental_div_mod(len as int, ch);
            lemma_mod_bound(len as int, ch);
            assert(len as int / ch >= k) by (nonlinear_arith)
                requires
                    len == ch * (len as int / ch) + len as int % ch,
                    0 <= len as int % ch < ch,
                    len >= k * ch,
                    ch > 0,
            ;
        }
        p.lemma_shown(len, m);
        let n = (job.frames * job.target_channels) as int;
        assert forall|i: int| 0 <= i < n implies job.output@[i] == p.output(stream)[i] by {
            let tc = job.target_channels as int;
            let f = i / tc;
            lemma_fundamental_div_mod(i, tc);
            lemma_mod_bound(i, tc);
            lemma_div_pos_is_pos(i, tc);
            assert(f < job.frames) by (nonlinear_arith)
                requires
                    i == tc * f + i % tc,
                    i % tc >= 0,
                    i < job.frames * tc,
                    tc > 0,
            ;
            if f >= m {
                if p.shows(len, f as nat) {
                    p.lemma_shows_earlier(len, m, f as nat);
                }
            }
        }
        assert(job.output@ =~= p.output(stream) + job.output@.skip(n));
    }

    /// Goes on with a read as far as the samples at hand allow.
    ///
    /// The stream of a read is what the source held when it began and what arrived since. The
    /// output is what the plan makes of that stream, however the pipe has cut it up; the source
    /// keeps the samples from the first one on that the read has not used up. The read is done
    /// when it needs no more samples or none will come.
    pub fn read_f32(&mut self, job: &mut ReadJob) -> (r: ReadStep)
        requires
            old(self).wf(),
            old(job).fits(old(self)@),
        ensures
            final(self).wf(),
            final(job).fits(final(self)@),
            is_read_step(old(self)@, *old(job), final(self)@, *final(job), r),
            final(job).plan() == old(job).plan(),
            final(job).is_active() == old(job).is_active(),
            final(job).frame_count() == old(job).frame_count(),
            final(job).channel_count() == old(job).channel_count(),
            !old(job).is_active() ==> *final(job) == *old(job) && final(self)@ == old(self)@
                && r is Done,
            old(job).is_active() ==> {
                let p = old(job).plan();
                let stream = old(job).past() + old(self)@.queue;
                &&& final(job).past() == stream.take(p.consumed(stream.len()) as int)
                &&& final(self)@ == (SourceView {
                    queue: stream.skip(p.consumed(stream.len()) as int),
                    position: position_after(p.start, p.ratio, p.shown(stream.len())),
                    ..old(self)@
                })
                &&& final(job).output_samples() == p.output(stream) + old(job).output_samples().skip(
                    (p.frames * p.target_channels) as int,
                )
                &&& r is Done <==> p.satisfied(stream.len()) || old(self)@.eof
            },
    {
        if !job.active {
            return ReadStep::Done;
        }
        let ghost p = job.plan();
        let ghost stream = job.past@ + self@.queue;
        let ghost n = (p.frames * p.target_channels) as int;
        let ghost tail = job.output@.skip(n);
        let ghost source = self@;
        self.drop_passed(job);
        while job.pending == 0 && job.frame < job.frames && self.available_complete_frames() > 0
            invariant
                self.wf(),
                job.fits(self@),
                job.active,
                job.plan() == p,
                n == p.frames * p.target_channels,
                job.past@ + self@.queue == stream,
                job.output@.skip(n) == tail,
                self@ == (SourceView { queue: self@.queue, position: self@.position, ..source }),
                job.pending > 0 ==> self@.queue.len() < self@.channels,
            decreases job.frames - job.frame,
        {
            proof {
                lemma_some_frame(self@.queue.len() as int, self@.channels as int);
            }
            self.show_next(job);
            self.drop_passed(job);
        }
        proof {
            lemma_some_frame(self@.queue.len() as int, self@.channels as int);
            self.lemma_read_result(*job);
            assert(job.past@ =~= stream.take(job.past@.len() as int));
            assert(self@.queue =~= stream.skip(job.past@.len() as int));
        }
        if (job.pending == 0 && job.frame == job.frames) || self.pipe_eof {
            ReadStep::Done
        } else {
            ReadStep::NeedPipe
        }
    }
}

/// There is a whole frame exactly where there are as many samples as channels.
proof fn lemma_some_frame(samples: int, channels: int)
    requires
        samples >= 0,
        channels > 0,
    ensures
        samples / channels > 0 <==> samples >= channels,
{
    lemma_fundamental_div_mod(samples, channels);
    lemma_mod_bound(samples, channels);
    if samples < channels {
        lemma_basic_div(samples, channels);
    } else {
        assert(samples / channels > 0) by (nonlinear_arith)
            requires
                samples == channels * (samples / channels) + samples % channels,
                0 <= samples % channels < channels,
                samples >= channels,
                channels > 0,
        ;
    }
}

/// However often a read has to wait for the pipe, its stream is what the source held at first
/// and what arrived since: going on with a read and then feeding the source appends the new
/// samples to the stream.
pub proof fn lemma_stream_grows(past: Seq<u32>, s: SourceView, p: ReadPlan, bytes: Seq<u8>)
    requires
        p.channels > 0,
    ensures
        ({
            let stream = past + s.queue;
            let used = p.consumed(stream.len()) as int;
            let t = SourceView { queue: stream.skip(used), ..s };
            stream.take(used) + fed(t, bytes).queue == stream + words_of(s.order, s.partial + bytes)
        }),
{
    let stream = past + s.queue;
    lemma_consumed_at_most(p, stream.len());
    let used = p.consumed(stream.len()) as int;
    let t = SourceView { queue: stream.skip(used), ..s };
    assert(stream.take(used) + fed(t, bytes).queue =~= stream + words_of(s.order, s.partial + bytes));
}

/// A source whose rate is `k` times the target rate, read from a whole position, shows every
/// `k`-th frame.
pub proof fn lemma_whole_ratio_read(p: ReadPlan, source_rate: u32, target_rate: u32, k: nat, f: nat)
    requires
        target_rate > 0,
        k > 0,
        source_rate == k * target_rate,
        p.start == 0,
        p.ratio == ratio(source_rate, target_rate),
    ensures
        p.index(f) == k * f,
{
    lemma_ratio_of_multiple(source_rate, target_rate, k);
    assert(k <= source_rate) by (nonlinear_arith)
        requires
            source_rate == k * target_rate,
            target_rate >= 1,
    ;
    lemma_whole_ratio_steps(k, f);
}

/// A source whose rate is `m / 2^a` times the target rate, read from a whole position, shows
/// source frame `k * m / 2^a`, cut off, in output frame `k`. So a source at half the target rate
/// shows every frame twice.
pub proof fn lemma_exact_ratio_read(
    p: ReadPlan,
    source_rate: u32,
    target_rate: u32,
    m: nat,
    a: nat,
    k: nat,
)
    requires
        source_rate > 0,
        target_rate > 0,
        source_rate * pow2(a) == m * target_rate,
        p.start == 0,
        p.ratio == ratio(source_rate, target_rate),
    ensures
        p.index(k) == (k * m) / pow2(a),
{
    lemma_exact_ratio_steps(source_rate, target_rate, m, a, k);
}

/// Where rates and channels agree, a read from a whole position hands out the stream as it is,
/// frame for frame, and silence after its last whole frame.
pub proof fn lemma_equal_formats_read(p: ReadPlan, rate: u32, stream: Seq<u32>, i: int)
    requires
        rate > 0,
        p.start == 0,
        p.ratio == ratio(rate, rate),
        p.channels == p.target_channels > 0,
        0 <= i < p.frames * p.target_channels,
    ensures
        p.output(stream)[i] == if (i / p.channels as int + 1) * p.channels <= stream.len() {
            stream[i]
        } else {
            0
        },
{
    let ch = p.channels as int;
    let f = (i / ch) as nat;
    lemma_div_pos_is_pos(i, ch);
    lemma_whole_ratio_read(p, rate, rate, 1, f);
    lemma_fundamental_div_mod(i, ch);
    lemma_mod_bound(i, ch);
    lemma_mul_is_commutative(ch, f as int);
}

/// Two streams that agree as far as a read reaches give the same output: nothing after the
/// samples that are shown matters.
pub proof fn lemma_output_ignores_what_follows(p: ReadPlan, stream: Seq<u32>, more: Seq<u32>)
    requires
        p.channels > 0,
        p.target_channels > 0,
        p.satisfied(stream.len()),
    ensures
        p.output(stream + more) == p.output(stream),
{
    let longer = stream + more;
    assert forall|i: int| 0 <= i < p.frames * p.target_channels implies p.output(longer)[i] == p.output(
        stream,
    )[i] by {
        let tc = p.target_channels as int;
        let f = (i / tc) as nat;
        lemma_div_pos_is_pos(i, tc);
        lemma_fundamental_div_mod(i, tc);
        lemma_mod_bound(i, tc);
        assert(f < p.frames) by (nonlinear_arith)
            requires
                i == tc * f + i % tc,
                i % tc >= 0,
                i < p.frames * tc,
                tc > 0,
        ;
        p.lemma_all_shown(stream.len(), p.frames, f);
        lemma_sample_in_stream(p, stream.len(), i);
    }
    assert(p.output(longer) =~= p.output(stream));
}

impl ReadPlan {
    /// The plan of the first `n` frames.
    pub open spec fn first(self, n: nat) -> ReadPlan {
        ReadPlan { frames: n, ..self }
    }

    /// The plan of the remaining frames, after the first `n` were read from a stream of `len`
    /// samples.
    pub open spec fn rest(self, len: nat, n: nat) -> ReadPlan {
        ReadPlan {
            start: position_after(self.start, self.ratio, self.first(n).shown(len)),
            frames: (self.frames - n) as nat,
            ..self
        }
    }

    /// The frames that are reached are those below [`ReadPlan::shown`].
    proof fn lemma_shown_is_reached(self, len: nat)
        ensures
            self.shown(len) <= self.frames,
            forall|f: nat| f < self.shown(len) ==> self.shows(len, f),
            self.shown(len) < self.frames ==> !self.shows(len, self.shown(len)),
    {
        self.lemma_below_is_reached(len, self.frames);
    }

    proof fn lemma_below_is_reached(self, len: nat, n: nat)
        ensures
            self.shown_below(len, n) <= n,
            forall|f: nat| f < self.shown_below(len, n) ==> self.shows(len, f),
            self.shown_below(len, n) < n ==> !self.shows(len, self.shown_below(len, n)),
        decreases n,
    {
        if n > 0 {
            self.lemma_below_is_reached(len, (n - 1) as nat);
        }
    }

    /// What a stream keeps after the first `n` frames were read from it reaches the same frames:
    /// frame `f` of the rest is frame `n + f` of the whole.
    proof fn lemma_rest_shows(self, len: nat, n: nat, f: nat)
        requires
            self.channels > 0,
            n <= self.frames,
        ensures
            self.first(n).consumed(len) <= len,
            self.rest(len, n).shows((len - self.first(n).consumed(len)) as nat, f) == self.shows(
                len,
                n + f,
            ),
            self.shows(len, n + f) ==> self.index(n + f) * self.channels == self.first(n).consumed(
                len,
            ) + self.rest(len, n).index(f) * self.channels,
    {
        let head = self.first(n);
        let tail = self.rest(len, n);
        let ch = self.channels as int;
        let m = head.shown(len);
        head.lemma_shown_is_reached(len);
        let there = len as int / ch;
        lemma_fundamental_div_mod(len as int, ch);
        lemma_mod_bound(len as int, ch);
        lemma_mul_is_commutative(ch, there);
        let wanted = self.index(m) as int;
        let used = (if wanted < there { wanted } else { there });
        assert(head.index(m) == self.index(m));
        assert(head.consumed(len) == used * ch);
        lemma_mul_inequality(used, there, ch);
        lemma_steps_add(self.start, self.ratio, m, f);
        let left = (len - head.consumed(len)) as int;
        if m == n && wanted <= there {
            assert(self.index(n + f) == self.index(n) + tail.index(f));
            assert((self.index(n + f) + 1) * ch == wanted * ch + (tail.index(f) + 1) * ch) by (nonlinear_arith)
                requires
                    self.index(n + f) == wanted + tail.index(f),
            ;
            assert(self.index(n + f) * ch == wanted * ch + tail.index(f) * ch) by (nonlinear_arith)
                requires
                    self.index(n + f) == wanted + tail.index(f),
            ;
        } else {
            assert(wanted >= there) by {
                if m < n {
                    assert(!head.shows(len, m));
                    if wanted < there {
                        lemma_mul_inequality(wanted + 1, there, ch);
                    }
                }
            }
            assert(left < ch);
            assert((tail.index(f) + 1) * ch >= ch) by (nonlinear_arith)
                requires
                    tail.index(f) >= 0,
                    ch > 0,
            ;
            lemma_source_frame_monotone(self.start, self.ratio, m, n + f);
            lemma_mul_inequality(there + 1, (self.index(n + f) + 1) as int, ch);
            assert((there + 1) * ch == there * ch + ch) by (nonlinear_arith);
        }
    }
}

/// Reading in two parts is reading at once: two reads, one after the other, give the output of
/// one read of both lengths, whether the stream suffices for it or not. They use up the same
/// samples and leave the same position.
pub proof fn lemma_reading_in_parts(p: ReadPlan, stream: Seq<u32>, n: nat)
    requires
        p.channels > 0,
        p.target_channels > 0,
        n <= p.frames,
    ensures
        ({
            let len = stream.len();
            let used = p.first(n).consumed(len);
            let tail = p.rest(len, n);
            let kept = stream.skip(used as int);
            &&& used <= len
            &&& p.first(n).output(stream) + tail.output(kept) == p.output(stream)
            &&& used + tail.consumed(kept.len()) == p.consumed(len)
            &&& position_after(tail.start, tail.ratio, tail.shown(kept.len())) == position_after(
                p.start,
                p.ratio,
                p.shown(len),
            )
        }),
{
    let len = stream.len();
    let head = p.first(n);
    let tail = p.rest(len, n);
    let used = head.consumed(len);
    p.lemma_rest_shows(len, n, 0);
    let kept = stream.skip(used as int);
    let left = kept.len();
    lemma_parts_output(p, stream, n);
    head.lemma_shown_is_reached(len);
    tail.lemma_shown_is_reached(left);
    let m = head.shown(len);
    let b = tail.shown(left);
    if m < n {
        assert(!p.shows(len, m)) by {
            assert(!head.shows(len, m));
        }
        if b > 0 {
            p.lemma_rest_shows(len, n, 0);
            p.lemma_shows_earlier(len, m, n);
        }
        assert forall|f: nat| f < m implies p.shows(len, f) by {
            assert(head.shows(len, f));
        }
        p.lemma_shown(len, m);
        lemma_steps_add(p.start, p.ratio, m, 0);
    } else {
        assert forall|f: nat| f < n + b implies p.shows(len, f) by {
            if f < n {
                assert(head.shows(len, f));
            } else {
                p.lemma_rest_shows(len, n, (f - n) as nat);
            }
        }
        if n + b < p.frames {
            p.lemma_rest_shows(len, n, b);
        }
        p.lemma_shown(len, n + b);
        lemma_steps_add(p.start, p.ratio, n, b);
    }
    lemma_parts_consumed(p, len, n);
}

/// Two reads use up what one read of both lengths uses up.
proof fn lemma_parts_consumed(p: ReadPlan, len: nat, n: nat)
    requires
        p.channels > 0,
        n <= p.frames,
        p.first(n).consumed(len) <= len,
        ({
            let left = (len - p.first(n).consumed(len)) as nat;
            let m = p.first(n).shown(len);
            let b = p.rest(len, n).shown(left);
            p.shown(len) == m + b && (m < n ==> b == 0)
        }),
    ensures
        p.first(n).consumed(len) + p.rest(len, n).consumed(
            (len - p.first(n).consumed(len)) as nat,
        ) == p.consumed(len),
{
    let head = p.first(n);
    let tail = p.rest(len, n);
    let ch = p.channels as int;
    let used = head.consumed(len) as int;
    let left = len - used;
    let m = head.shown(len);
    let b = tail.shown(left as nat);
    head.lemma_shown_is_reached(len);
    lemma_steps_add(p.start, p.ratio, m, b);
    let there = len as int / ch;
    lemma_fundamental_div_mod(len as int, ch);
    lemma_mod_bound(len as int, ch);
    lemma_mul_is_commutative(ch, there);
    let wanted = p.index(m) as int;
    let u = (if wanted < there { wanted } else { there });
    assert(head.index(m) == p.index(m));
    assert(used == u * ch);
    assert(left == (there - u) * ch + len as int % ch) by (nonlinear_arith)
        requires
            left == len - u * ch,
            len == there * ch + len as int % ch,
    ;
    lemma_fundamental_div_mod_converse(left, ch, there - u, len as int % ch);
    let more = tail.index(b) as int;
    assert(p.index(m + b) == wanted + more);
    let v = (if more < there - u { more } else { there - u });
    let w = (if wanted + more < there { wanted + more } else { there });
    assert(u + v == w);
    assert(u * ch + v * ch == w * ch) by (nonlinear_arith)
        requires
            u + v == w,
    ;
}

/// Two reads put out what one read of both lengths puts out.
proof fn lemma_parts_output(p: ReadPlan, stream: Seq<u32>, n: nat)
    requires
        p.channels > 0,
        p.target_channels > 0,
        n <= p.frames,
        p.first(n).consumed(stream.len()) <= stream.len(),
    ensures
        p.first(n).output(stream) + p.rest(stream.len(), n).output(
            stream.skip(p.first(n).consumed(stream.len()) as int),
        ) == p.output(stream),
{
    let len = stream.len();
    let head = p.first(n);
    let tail = p.rest(len, n);
    let used = head.consumed(len) as int;
    let kept = stream.skip(used);
    let tc = p.target_channels as int;
    let cut = (n * p.target_channels) as int;
    let both = head.output(stream) + tail.output(kept);
    assert(n * p.target_channels + tail.frames * p.target_channels == p.frames * p.target_channels)
        by (nonlinear_arith)
        requires
            n + tail.frames == p.frames,
    ;
    assert forall|i: int| 0 <= i < p.frames * p.target_channels implies both[i] == p.output(stream)[i] by {
        if i < cut {
            assert(head.output(stream)[i] == p.output(stream)[i]);
        } else {
            let j = i - cut;
            let f = j / tc;
            lemma_fundamental_div_mod(j, tc);
            lemma_mod_bound(j, tc);
            lemma_div_pos_is_pos(j, tc);
            assert(i == (n + f) * tc + j % tc) by (nonlinear_arith)
                requires
                    i == n * tc + j,
                    j == tc * f + j % tc,
            ;
            lemma_fundamental_div_mod_converse(i, tc, n + f, j % tc);
            p.lemma_rest_shows(len, n, f as nat);
            if p.shows(len, (n + f) as nat) {
                lemma_sample_in_stream(tail, kept.len(), j);
                assert(tail.source_sample(kept, j) == p.source_sample(stream, i));
            }
            assert(tail.output(kept)[j] == p.output(stream)[i]);
        }
    }
    assert(both =~= p.output(stream));
}

/// A read that has all that it needs is not changed by what follows: it reaches the same frames
/// and uses up the same samples of any longer stream.
pub proof fn lemma_satisfied_stays(p: ReadPlan, len: nat, longer: nat)
    requires
        p.channels > 0,
        p.satisfied(len),
        len <= longer,
    ensures
        p.satisfied(longer),
        p.shown(longer) == p.shown(len) == p.frames,
        p.consumed(longer) == p.consumed(len) == p.index(p.frames) * p.channels,
{
    let ch = p.channels as int;
    assert forall|f: nat| f < p.frames implies p.shows(longer, f) by {
        p.lemma_all_shown(len, p.frames, f);
    }
    p.lemma_shown(longer, p.frames);
    lemma_needed_frames(p.index(p.frames) as int, len as int, ch);
    lemma_needed_frames(p.index(p.frames) as int, longer as int, ch);
}

/// Where there are as many samples as whole frames take, there are as many whole frames.
proof fn lemma_needed_frames(frames: int, samples: int, channels: int)
    requires
        frames >= 0,
        channels > 0,
        frames * channels <= samples,
    ensures
        frames <= samples / channels,
{
    lemma_div_is_ordered(frames * channels, samples, channels);
    lemma_div_by_multiple(frames, channels);
}

/// Bytes that arrive in pieces, as one run.
pub open spec fn in_one(pieces: Seq<Seq<u8>>) -> Seq<u8>
    decreases pieces.len(),
{
    if pieces.len() == 0 {
        Seq::empty()
    } else {
        pieces[0] + in_one(pieces.drop_first())
    }
}

/// Everything that a source can still hand out: the samples that it holds and those that the
/// pipe brings.
pub open spec fn everything(s: SourceView, pieces: Seq<Seq<u8>>) -> Seq<u32> {
    fed(s, in_one(pieces)).queue
}

/// How a read ends.
pub struct ReadEnd {
    /// The frames that it puts out.
    pub output: Seq<u32>,
    /// The source afterwards.
    pub source: SourceView,
    /// What is still in the pipe.
    pub unread: Seq<Seq<u8>>,
}

/// A read from beginning to end. The pipe brings its bytes in the given pieces and ends after
/// the last; the read takes them one at a time, for as long as it needs more.
pub open spec fn read_over(p: ReadPlan, past: Seq<u32>, s: SourceView, pieces: Seq<Seq<u8>>) -> ReadEnd
    decreases pieces.len(),
{
    let stream = past + s.queue;
    let used = p.consumed(stream.len()) as int;
    let after = SourceView {
        queue: stream.skip(used),
        position: position_after(p.start, p.ratio, p.shown(stream.len())),
        ..s
    };
    if p.satisfied(stream.len()) {
        ReadEnd { output: p.output(stream), source: after, unread: pieces }
    } else if pieces.len() == 0 {
        ReadEnd {
            output: p.output(stream),
            source: SourceView { eof: true, ..after },
            unread: pieces,
        }
    } else {
        read_over(p, stream.take(used), fed(after, pieces[0]), pieces.drop_first())
    }
}

/// However the pipe cuts its bytes into pieces, a read puts out what its plan makes of everything
/// that the source can hand out, leaves exactly what follows the samples that the plan uses up,
/// and leaves the position of the plan.
pub proof fn lemma_whole_read(p: ReadPlan, s: SourceView, pieces: Seq<Seq<u8>>)
    requires
        p.channels > 0,
        p.target_channels > 0,
        s.partial.len() < 4,
    ensures
        ({
            let total = everything(s, pieces);
            let end = read_over(p, Seq::empty(), s, pieces);
            &&& end.output == p.output(total)
            &&& p.consumed(total.len()) <= total.len()
            &&& everything(end.source, end.unread) == total.skip(p.consumed(total.len()) as int)
            &&& end.source.position == position_after(p.start, p.ratio, p.shown(total.len()))
        }),
{
    lemma_read_over(p, Seq::empty(), s, pieces);
    assert(Seq::<u32>::empty() + everything(s, pieces) =~= everything(s, pieces));
}

/// The same of a read that has used up some samples already.
proof fn lemma_read_over(p: ReadPlan, past: Seq<u32>, s: SourceView, pieces: Seq<Seq<u8>>)
    requires
        p.channels > 0,
        p.target_channels > 0,
        s.partial.len() < 4,
    ensures
        ({
            let total = past + everything(s, pieces);
            let end = read_over(p, past, s, pieces);
            &&& end.output == p.output(total)
            &&& p.consumed(total.len()) <= total.len()
            &&& everything(end.source, end.unread) == total.skip(p.consumed(total.len()) as int)
            &&& end.source.position == position_after(p.start, p.ratio, p.shown(total.len()))
        }),
    decreases pieces.len(),
{
    let stream = past + s.queue;
    let used = p.consumed(stream.len()) as int;
    let after = SourceView {
        queue: stream.skip(used),
        position: position_after(p.start, p.ratio, p.shown(stream.len())),
        ..s
    };
    let total = past + everything(s, pieces);
    let more = words_of(s.order, s.partial + in_one(pieces));
    assert(total =~= stream + more);
    lemma_consumed_at_most(p, stream.len());
    if p.satisfied(stream.len()) {
        lemma_output_ignores_what_follows(p, stream, more);
        lemma_satisfied_stays(p, stream.len(), total.len());
        assert(everything(after, pieces) =~= total.skip(used));
    } else if pieces.len() == 0 {
        assert(more =~= Seq::<u32>::empty());
        assert(total =~= stream);
        assert(everything(SourceView { eof: true, ..after }, pieces) =~= total.skip(used));
    } else {
        let first = pieces[0];
        let rest = pieces.drop_first();
        let next = fed(after, first);
        assert(next.partial.len() < 4);
        lemma_read_over(p, stream.take(used), next, rest);
        lemma_feeding_in_parts(after, first, in_one(rest));
        assert(everything(next, rest) == fed(after, first + in_one(rest)).queue);
        assert(stream.take(used) + everything(next, rest) =~= total);
    }
}

/// A read uses up no more samples than there are.
proof fn lemma_consumed_at_most(p: ReadPlan, len: nat)
    requires
        p.channels > 0,
    ensures
        p.consumed(len) <= len,
{
    let ch = p.channels as int;
    let there = len as int / ch;
    lemma_fundamental_div_mod(len as int, ch);
    lemma_mod_bound(len as int, ch);
    lemma_mul_is_commutative(ch, there);
    let wanted = p.index(p.shown(len)) as int;
    lemma_mul_inequality(if wanted < there { wanted } else { there }, there, ch);
}

/// What a read puts out, frame by frame and channel by channel. A frame that the stream reaches
/// shows its source frame: the source's channels in their order, as many as are asked for, and
/// the last one again for each that the source does not have. Any other frame is silent.
pub proof fn lemma_channels_are_mapped(p: ReadPlan, stream: Seq<u32>, f: nat, c: nat)
    requires
        p.channels > 0,
        f < p.frames,
        c < p.target_channels,
    ensures
        p.output(stream).len() == p.frames * p.target_channels,
        0 <= f * p.target_channels + c < p.output(stream).len(),
        (p.index(f) + 1) * p.channels <= stream.len() && c < p.channels ==> p.output(
            stream,
        )[(f * p.target_channels + c) as int] == stream[(p.index(f) * p.channels + c) as int],
        (p.index(f) + 1) * p.channels <= stream.len() && c >= p.channels ==> p.output(
            stream,
        )[(f * p.target_channels + c) as int] == stream[(p.index(f) * p.channels + p.channels - 1) as int],
        (p.index(f) + 1) * p.channels > stream.len() ==> p.output(
            stream,
        )[(f * p.target_channels + c) as int] == 0,
{
    lemma_place(p.frames, p.target_channels, f, c);
}

/// The place of a channel of a frame in the output.
proof fn lemma_place(frames: nat, channels: nat, f: nat, c: nat)
    requires
        f < frames,
        c < channels,
    ensures
        0 <= f * channels + c < frames * channels,
        (f * channels + c) as int / channels as int == f,
        (f * channels + c) as int % channels as int == c,
{
    let i = (f * channels + c) as int;
    lemma_fundamental_div_mod_converse(i, channels as int, f as int, c as int);
    assert(i < frames * channels) by (nonlinear_arith)
        requires
            i == f * channels + c,
            c < channels,
            f + 1 <= frames,
    ;
    assert(f * channels >= 0) by (nonlinear_arith);
}

/// Two clients that ask for different numbers of channels hear the same in the channels that
/// both have.
pub proof fn lemma_channel_count_does_not_matter(
    p: ReadPlan,
    other: nat,
    stream: Seq<u32>,
    f: nat,
    c: nat,
)
    requires
        p.channels > 0,
        f < p.frames,
        c < p.target_channels,
        c < other,
    ensures
        p.output(stream)[(f * p.target_channels + c) as int] == (ReadPlan {
            target_channels: other,
            ..p
        }).output(stream)[(f * other + c) as int],
{
    let q = ReadPlan { target_channels: other, ..p };
    lemma_channels_are_mapped(p, stream, f, c);
    lemma_channels_are_mapped(q, stream, f, c);
}

/// The frames that a stream reaches are the first ones, and they are those whose source frame it
/// holds in full.
pub proof fn lemma_reached_frames(p: ReadPlan, len: nat, f: nat)
    requires
        f < p.frames,
    ensures
        f < p.shown(len) <==> (p.index(f) + 1) * p.channels <= len,
        p.shown(len) <= p.frames,
{
    p.lemma_shown_is_reached(len);
    assert(f < p.shown(len) ==> p.shows(len, f));
    if f >= p.shown(len) && p.shows(len, f) {
        p.lemma_shows_earlier(len, p.shown(len), f);
    }
}

/// A read uses up whole frames. One that gets all that it needs uses up just the frames that lie
/// before the one that comes next; any other leaves less than a frame.
pub proof fn lemma_used_up(p: ReadPlan, len: nat)
    requires
        p.channels > 0,
    ensures
        p.consumed(len) <= len,
        p.consumed(len) % p.channels == 0,
        ({
            let enough = p.index(p.frames) * p.channels <= len && forall|f: nat|
                f < p.frames ==> (#[trigger] p.index(f) + 1) * p.channels <= len;
            &&& p.satisfied(len) <==> enough
            &&& enough ==> p.consumed(len) == p.index(p.frames) * p.channels
            &&& !enough ==> len - p.consumed(len) < p.channels
        }),
{
    let ch = p.channels as int;
    lemma_consumed_at_most(p, len);
    p.lemma_shown_is_reached(len);
    let m = p.shown(len);
    let there = len as int / ch;
    lemma_fundamental_div_mod(len as int, ch);
    lemma_mod_bound(len as int, ch);
    lemma_mul_is_commutative(ch, there);
    let wanted = p.index(m) as int;
    let used = (if wanted < there { wanted } else { there });
    lemma_mod_multiples_basic(used, ch);
    let enough = p.index(p.frames) * p.channels <= len && forall|f: nat|
        f < p.frames ==> (#[trigger] p.index(f) + 1) * p.channels <= len;
    if p.satisfied(len) {
        lemma_satisfied_stays(p, len, len);
        assert forall|f: nat| f < p.frames implies (#[trigger] p.index(f) + 1) * p.channels <= len by {
            assert(p.shows(len, f));
        }
    } else {
        if enough {
            assert(m == p.frames) by {
                if m < p.frames {
                    assert((p.index(m) + 1) * p.channels <= len);
                }
            }
        }
        assert(wanted >= there) by {
            if wanted < there {
                lemma_mul_inequality(wanted + 1, there, ch);
                if m == p.frames {
                    lemma_mul_inequality(wanted, there, ch);
                }
            }
        }
    }
}

/// The source frame that output frame `k` shows lies where the two sample rates put it: up to a
/// part in `2^53` of the way, `k` output frames are as long as the source frames before it and
/// what lies between two of them.
pub proof fn lemma_read_keeps_pace(p: ReadPlan, source_rate: u32, target_rate: u32, k: nat)
    requires
        source_rate > 0,
        target_rate > 0,
        p.start <= pow2(84),
        p.ratio == ratio(source_rate, target_rate),
    ensures
        ({
            let frame = pow2(84) as int;
            let between = position_after(p.start, p.ratio, k) as int;
            let off = (p.index(k) * frame + between - p.start) * target_rate - k * source_rate
                * frame;
            let way = k * ((frame + p.ratio) * target_rate + source_rate * frame);
            &&& 0 <= between <= frame
            &&& -way <= off * pow2(53) <= way
        }),
{
    let frame = pow2(84) as int;
    let s = source_rate as int;
    let t = target_rate as int;
    let r = p.ratio as int;
    let big = pow2(53) as int;
    lemma_ratio_near(source_rate, target_rate);
    lemma_ratio_at_most(source_rate, target_rate);
    lemma_walk_keeps_pace(p.start, p.ratio, k);
    let between = position_after(p.start, p.ratio, k) as int;
    let gone = p.index(k) * frame + between - p.start;
    let a = gone - k * r;
    let b = r * t - s * frame;
    let off = gone * t - k * s * frame;
    assert(off == a * t + k * b) by (nonlinear_arith)
        requires
            a == gone - k * r,
            b == r * t - s * frame,
            off == gone * t - k * s * frame,
    ;
    assert(off * big == (a * big) * t + k * (b * big)) by (nonlinear_arith)
        requires
            off == a * t + k * b,
    ;
    let wa = k * (frame + r);
    assert(-(wa * t) <= (a * big) * t <= wa * t) by (nonlinear_arith)
        requires
            -wa <= a * big <= wa,
            t > 0,
    ;
    assert(-(k * (s * frame)) <= k * (b * big) <= k * (s * frame)) by (nonlinear_arith)
        requires
            -(s * frame) <= b * big <= s * frame,
            k >= 0,
    ;
    let way = k * ((frame + r) * t + s * frame);
    assert(way == wa * t + k * (s * frame)) by (nonlinear_arith)
        requires
            way == k * ((frame + r) * t + s * frame),
            wa == k * (frame + r),
    ;
}

/// Bytes that arrive join those of an unfinished sample. Each four of them are a sample, and up
/// to three wait for the rest.
pub proof fn lemma_arriving_bytes(s: SourceView, bytes: Seq<u8>)
    ensures
        ({
            let all = s.partial + bytes;
            let t = fed(s, bytes);
            &&& t == (SourceView { queue: t.queue, partial: t.partial, ..s })
            &&& t.queue.len() == s.queue.len() + all.len() / 4
            &&& t.queue.take(s.queue.len() as int) == s.queue
            &&& t.partial == all.skip(all.len() - all.len() % 4)
            &&& forall|i: int|
                0 <= i < all.len() / 4 ==> {
                    let w = #[trigger] t.queue[s.queue.len() + i];
                    &&& s.order == ByteOrder::Little ==> w == all[4 * i] + 0x100 * all[4 * i + 1]
                        + 0x1_0000 * all[4 * i + 2] + 0x100_0000 * all[4 * i + 3]
                    &&& s.order == ByteOrder::Big ==> w == all[4 * i + 3] + 0x100 * all[4 * i + 2]
                        + 0x1_0000 * all[4 * i + 1] + 0x100_0000 * all[4 * i]
                }
        }),
{
    let all = s.partial + bytes;
    let t = fed(s, bytes);
    assert(t.queue.take(s.queue.len() as int) =~= s.queue);
    assert(t.partial =~= all.skip(all.len() - all.len() % 4));
    assert forall|i: int| 0 <= i < all.len() / 4 implies {
        let w = #[trigger] t.queue[s.queue.len() + i];
        &&& s.order == ByteOrder::Little ==> w == all[4 * i] + 0x100 * all[4 * i + 1] + 0x1_0000
            * all[4 * i + 2] + 0x100_0000 * all[4 * i + 3]
        &&& s.order == ByteOrder::Big ==> w == all[4 * i + 3] + 0x100 * all[4 * i + 2] + 0x1_0000
            * all[4 * i + 1] + 0x100_0000 * all[4 * i]
    } by {
        let chunk = all.subrange(4 * i, 4 * i + 4);
        assert(chunk[0] == all[4 * i] && chunk[1] == all[4 * i + 1]);
        assert(chunk[2] == all[4 * i + 2] && chunk[3] == all[4 * i + 3]);
        assert(t.queue[s.queue.len() + i] == words_of(s.order, all)[i]);
    }
}

/// What an attempt to read the pipe does. Bytes are taken in; an interruption changes nothing
/// and the read is made again; the end of the stream or a failure ends the pipe for good, and
/// after that nothing is taken in any more.
pub proof fn lemma_pipe_reads(s: SourceView, event: PipeRead)
    ensures
        ({
            let (t, progress) = after_pipe_read(s, event);
            let open = s.has_pipe && !s.eof;
            &&& open && (event matches PipeRead::Bytes(bytes) && bytes@.len() > 0) ==> t == fed(
                s,
                event->Bytes_0@,
            ) && progress == PipeProgress::More
            &&& open && event == (PipeRead::Failed { interrupted: true }) ==> t == s && progress
                == PipeProgress::Retry
            &&& !open || (event matches PipeRead::Bytes(bytes) && bytes@.len() == 0) || event == (
            PipeRead::Failed { interrupted: false }) ==> t == (SourceView { eof: true, ..s })
                && progress == PipeProgress::Ended
        }),
{
}

/// What a read that begins has to be, given the source, the buffer and the wish.
pub open spec fn is_begun(
    s: SourceView,
    given: Seq<u32>,
    target_sample_rate: u32,
    target_channels: u16,
    r: ReadJob,
) -> bool {
    &&& r.fits(s)
    &&& r.channel_count() == target_channels
    &&& r.frame_count() == if target_channels == 0 {
        0
    } else {
        given.len() / target_channels as nat
    }
    &&& r.is_active() == (r.frame_count() > 0 && s.has_pipe && s.sample_rate > 0 && s.channels > 0
        && target_sample_rate > 0)
    &&& r.is_active() ==> r.past() == Seq::<u32>::empty() && r.plan() == (ReadPlan {
        start: s.position,
        ratio: ratio(s.sample_rate, target_sample_rate),
        channels: s.channels as nat,
        target_channels: target_channels as nat,
        frames: r.frame_count(),
    })
    &&& r.output_samples() == Seq::new(r.frame_count() * target_channels as nat, |i: int| 0u32)
        + given.skip((r.frame_count() * target_channels) as int)
}

/// A read is for as many whole frames as the buffer holds, and silences them; the rest of the
/// buffer stays. It shows something just where there is a frame, a pipe, and a rate and channels
/// on both sides; then it goes on from where the source stands, and one output frame takes it as
/// many source frames further as the source's rate is a multiple of the client's.
pub proof fn lemma_read_begins(
    s: SourceView,
    given: Seq<u32>,
    target_sample_rate: u32,
    target_channels: u16,
    r: ReadJob,
)
    requires
        is_begun(s, given, target_sample_rate, target_channels, r),
    ensures
        target_channels > 0 ==> r.frame_count() * target_channels <= given.len() < r.frame_count()
            * target_channels + target_channels,
        target_channels == 0 ==> r.frame_count() == 0,
        r.channel_count() == target_channels,
        r.is_active() <==> 0 < target_channels <= given.len() && s.has_pipe && s.sample_rate > 0
            && s.channels > 0 && target_sample_rate > 0,
        r.output_samples().len() == given.len(),
        forall|i: int|
            0 <= i < given.len() ==> #[trigger] r.output_samples()[i] == if i < r.frame_count()
                * target_channels {
                0
            } else {
                given[i]
            },
        r.is_active() ==> {
            let p = r.plan();
            &&& r.past().len() == 0
            &&& p.start == s.position
            &&& p.channels == s.channels
            &&& p.target_channels == target_channels
            &&& p.frames == r.frame_count()
            &&& -(s.sample_rate * pow2(84)) <= (p.ratio * target_sample_rate - s.sample_rate * pow2(
                84,
            )) * pow2(53) <= s.sample_rate * pow2(84)
        },
{
    let ch = target_channels as int;
    let n = r.frame_count() as int;
    if ch > 0 {
        lemma_fundamental_div_mod(given.len() as int, ch);
        lemma_mod_bound(given.len() as int, ch);
        lemma_mul_is_commutative(ch, n);
        lemma_some_frame(given.len() as int, ch);
    } else {
        assert(n * ch == 0) by (nonlinear_arith)
            requires
                ch == 0,
        ;
    }
    assert(0 <= n * ch) by (nonlinear_arith)
        requires
            n >= 0,
            ch >= 0,
    ;
    if r.is_active() {
        lemma_ratio_near(s.sample_rate, target_sample_rate);
    }
}

/// What going on with a read has to do, given the source and the read before.
pub open spec fn is_read_step(
    s: SourceView,
    job: ReadJob,
    t: SourceView,
    after: ReadJob,
    r: ReadStep,
) -> bool {
    if job.is_active() {
        let p = job.plan();
        let stream = job.past() + s.queue;
        &&& after.plan() == p
        &&& after.is_active()
        &&& after.past() == stream.take(p.consumed(stream.len()) as int)
        &&& t == (SourceView {
            queue: stream.skip(p.consumed(stream.len()) as int),
            position: position_after(p.start, p.ratio, p.shown(stream.len())),
            ..s
        })
        &&& after.output_samples() == p.output(stream) + job.output_samples().skip(
            (p.frames * p.target_channels) as int,
        )
        &&& r is Done <==> p.satisfied(stream.len()) || s.eof
    } else {
        after == job && t == s && r is Done
    }
}

/// Going on with a read neither loses nor repeats a sample: what is used up and what is left are
/// what was there before. Each frame that is there in full is shown, channel by channel; the
/// read waits for the pipe just as long as frames are missing and the pipe has not ended.
pub proof fn lemma_read_goes_forward(
    s: SourceView,
    job: ReadJob,
    t: SourceView,
    after: ReadJob,
    r: ReadStep,
    f: nat,
    c: nat,
)
    requires
        is_read_step(s, job, t, after, r),
        job.fits(s),
        job.is_active(),
        f < job.plan().frames,
        c < job.plan().target_channels,
    ensures
        ({
            let p = job.plan();
            let stream = job.past() + s.queue;
            let at = (f * p.target_channels + c) as int;
            let last = if c < p.channels {
                c as int
            } else {
                p.channels - 1
            };
            let enough = p.index(p.frames) * p.channels <= stream.len() && forall|g: nat|
                g < p.frames ==> (#[trigger] p.index(g) + 1) * p.channels <= stream.len();
            &&& after.past() + t.queue == stream
            &&& after.past().len() % p.channels == 0
            &&& t.has_pipe == s.has_pipe && t.order == s.order && t.partial == s.partial && t.eof
                == s.eof
            &&& t.sample_rate == s.sample_rate && t.channels == s.channels
            &&& 0 <= at < after.output_samples().len()
            &&& (p.index(f) + 1) * p.channels <= stream.len() ==> after.output_samples()[at]
                == stream[p.index(f) * p.channels + last]
            &&& (p.index(f) + 1) * p.channels > stream.len() ==> after.output_samples()[at] == 0
            &&& r == ReadStep::NeedPipe <==> !s.eof && !enough
        }),
{
    let p = job.plan();
    let stream = job.past() + s.queue;
    lemma_channels_are_mapped(p, stream, f, c);
    lemma_used_up(p, stream.len());
    assert(after.past() + t.queue =~= stream);
}

} // verus!
