//! The input multiplexer's policy machine: N readable byte sources presented
//! as one stream of frame-sized byte sequences.
//!
//! The actual blocking reads live at the process edge; this type owns every
//! decision: which input the next read goes to, what an end-of-stream means
//! under the chosen policy, and, in concurrent mode, which published frame a
//! pipeline tick samples.

use vstd::prelude::*;

verus! {

/// How the inputs are consumed: one at a time in listed order, or all
/// concurrently with a per-tick sample (the frame interval in milliseconds
/// paces the ticks).
#[derive(Clone, Copy, PartialEq, Eq, Structural, Debug)]
pub enum Consume {
    Single,
    All { interval_ms: u64 },
}

/// What an input's end-of-stream means: keep polling it (it may be a pipe
/// being re-filled), or close it for good.
#[derive(Clone, Copy, PartialEq, Eq, Structural, Debug)]
pub enum WhenEOF {
    Retry,
    Close,
}

/// What one read attempt on the current input produced.
pub enum ReadEvent {
    /// Some bytes arrived before the stream ended or the frame was full.
    Bytes(Vec<u8>),
    /// The input reported end-of-stream at a frame boundary.
    Eof,
}

/// The multiplexer's reaction to one read attempt.
pub enum ReadStep {
    /// A full frame: hand it to the pipeline.
    Deliver(Vec<u8>),
    /// Retry policy: poll the same input again.
    Again,
    /// Close policy: that input is closed, move on to the next one.
    Advance,
    /// Every input is closed: the stream is exhausted.
    Exhausted,
    /// The input ended mid-frame: an I/O error, not silent zero-padding.
    ShortRead,
}

/// The multiplexer over `num_inputs` sources delivering frames of
/// `frame_size` bytes. `cursor` is the current input in Single mode (equal
/// to `num_inputs` once all inputs are closed); `slots` hold the latest
/// published frame per input in All mode.
pub struct Multiplexer {
    pub num_inputs: usize,
    pub frame_size: usize,
    pub consume: Consume,
    pub when_eof: WhenEOF,
    pub cursor: usize,
    pub slots: Vec<Option<Vec<u8>>>,
}

impl Multiplexer {
    /// Internal invariant: the cursor never passes the input count and there
    /// is one publish slot per input; every published frame is frame-sized.
    pub open spec fn wf(self) -> bool {
        &&& 1 <= self.num_inputs
        &&& 1 <= self.frame_size
        &&& self.cursor <= self.num_inputs
        &&& self.slots@.len() == self.num_inputs
        &&& forall|k: int| 0 <= k < self.slots@.len() && #[trigger] self.slots@[k] is Some
            ==> self.slots@[k]->0@.len() == self.frame_size
    }

    /// All inputs have been closed.
    pub open spec fn exhausted(self) -> bool {
        self.cursor == self.num_inputs
    }

    /// Which input the next read goes to; `None` once every input is closed,
    /// so that no further read is ever attempted.
    pub open spec fn current_input_spec(self) -> Option<usize> {
        if self.cursor < self.num_inputs {
            Some(self.cursor)
        } else {
            None
        }
    }

    /// What one read attempt does to the state, and what the caller is told:
    /// a full frame is delivered as-is; a short frame is an I/O error; an
    /// end-of-stream is retried under `Retry`, and under `Close` closes the
    /// current input, exhausting the stream once no input is left.
    pub open spec fn step_spec(m: Multiplexer, ev: ReadEvent) -> (Multiplexer, ReadStep) {
        match ev {
            ReadEvent::Bytes(f) => if f@.len() == m.frame_size {
                (m, ReadStep::Deliver(f))
            } else {
                (m, ReadStep::ShortRead)
            },
            ReadEvent::Eof => match m.when_eof {
                WhenEOF::Retry => (m, ReadStep::Again),
                WhenEOF::Close => {
                    let next = Multiplexer { cursor: (m.cursor + 1) as usize, ..m };
                    if next.cursor == m.num_inputs {
                        (next, ReadStep::Exhausted)
                    } else {
                        (next, ReadStep::Advance)
                    }
                },
            },
        }
    }

    /// Build a multiplexer over `num_inputs` sources; the cursor starts at
    /// the first input and no frame has been published yet.
    pub fn new(num_inputs: usize, frame_size: usize, consume: Consume, when_eof: WhenEOF) -> (m:
        Multiplexer)
        requires
            1 <= num_inputs,
            1 <= frame_size,
        ensures
            m.wf(),
            m.num_inputs == num_inputs,
            m.frame_size == frame_size,
            m.consume == consume,
            m.when_eof == when_eof,
            m.cursor == 0,
            forall|k: int| 0 <= k < num_inputs ==> #[trigger] m.slots@[k] is None,
    {
        let mut slots: Vec<Option<Vec<u8>>> = Vec::new();
        let mut k: usize = 0;
        while k < num_inputs
            invariant
                k <= num_inputs,
                slots@.len() == k,
                forall|m0: int| 0 <= m0 < k ==> #[trigger] slots@[m0] is None,
            decreases num_inputs - k,
        {
            slots.push(None);
            k = k + 1;
        }
        Multiplexer { num_inputs, frame_size, consume, when_eof, cursor: 0, slots }
    }

    /// The input the next read should go to, or `None` once the stream is
    /// exhausted and no further read may be attempted.
    pub fn current_input(&self) -> (r: Option<usize>)
        ensures
            r == self.current_input_spec(),
    {
        if self.cursor < self.num_inputs {
            Some(self.cursor)
        } else {
            None
        }
    }

    /// Feed the outcome of one read attempt on the current input and learn
    /// what to do next; the state changes exactly as `step_spec` says.
    pub fn on_event(&mut self, ev: ReadEvent) -> (step: ReadStep)
        requires
            old(self).wf(),
            old(self).consume is Single,
            !old(self).exhausted(),
        ensures
            final(self).wf(),
            (*final(self), step) == Multiplexer::step_spec(*old(self), ev),
    {
        match ev {
            ReadEvent::Bytes(f) => if f.len() == self.frame_size {
                ReadStep::Deliver(f)
            } else {
                ReadStep::ShortRead
            },
            ReadEvent::Eof => match self.when_eof {
                WhenEOF::Retry => ReadStep::Again,
                WhenEOF::Close => {
                    self.cursor = self.cursor + 1;
                    if self.cursor == self.num_inputs {
                        ReadStep::Exhausted
                    } else {
                        ReadStep::Advance
                    }
                },
            },
        }
    }

    /// All mode: the reader thread of input `input` publishes a freshly
    /// decoded frame into its own slot, overwriting whatever was there —
    /// deliberate frame-dropping, never queueing.
    pub fn publish(&mut self, input: usize, frame: Vec<u8>)
        requires
            old(self).wf(),
            old(self).consume is All,
            input < old(self).num_inputs,
            frame@.len() == old(self).frame_size,
        ensures
            final(self).wf(),
            final(self).slots@ == old(self).slots@.update(input as int, Some(frame)),
            final(self).num_inputs == old(self).num_inputs,
            final(self).frame_size == old(self).frame_size,
            final(self).consume == old(self).consume,
            final(self).when_eof == old(self).when_eof,
            final(self).cursor == old(self).cursor,
    {
        self.slots.set(input, Some(frame));
    }

    /// All mode: one pipeline tick takes the currently published frame of
    /// the first input that has one; a slot with no frame yet yields no
    /// data. Publishing is overwrite-on-write, so the sample always reflects
    /// the latest publish of that input.
    pub fn sample(&self) -> (r: Option<Vec<u8>>)
        requires
            self.wf(),
            self.consume is All,
        ensures
            match r {
                Some(f) => exists|k: int|
                    0 <= k < self.slots@.len() && #[trigger] self.slots@[k] is Some
                        && f@ == self.slots@[k]->0@
                        && (forall|m0: int| 0 <= m0 < k ==> #[trigger] self.slots@[m0] is None),
                None => forall|k: int| 0 <= k < self.slots@.len()
                    ==> #[trigger] self.slots@[k] is None,
            },
    {
        let mut k: usize = 0;
        while k < self.num_inputs
            invariant
                self.wf(),
                k <= self.num_inputs,
                forall|m0: int| 0 <= m0 < k ==> #[trigger] self.slots@[m0] is None,
            decreases self.num_inputs - k,
        {
            match &self.slots[k] {
                Some(f) => {
                    let out = f.clone();
                    assert(out@ == self.slots@[k as int]->0@);
                    return Some(out);
                },
                None => {},
            }
            k = k + 1;
        }
        None
    }
}

/// Once the stream is exhausted, no further read is attempted: the
/// multiplexer names no input to read from.
pub proof fn lemma_exhausted_no_more_reads(m: Multiplexer)
    requires
        m.wf(),
        m.exhausted(),
    ensures
        m.current_input_spec() is None,
{
}

/// The state after `n` end-of-stream reports in a row.
pub open spec fn after_eofs(m: Multiplexer, n: nat) -> Multiplexer
    decreases n,
{
    if n == 0 {
        m
    } else {
        after_eofs(Multiplexer::step_spec(m, ReadEvent::Eof).0, (n - 1) as nat)
    }
}

/// Close policy: once every remaining input has reported end-of-stream, the
/// stream is exhausted and no further read is attempted — the multiplexer
/// names no input to read from any more.
pub proof fn lemma_close_all_eofs_exhaust(m: Multiplexer)
    requires
        m.wf(),
        m.when_eof is Close,
    ensures
        after_eofs(m, (m.num_inputs - m.cursor) as nat).exhausted(),
        after_eofs(m, (m.num_inputs - m.cursor) as nat).current_input_spec() is None,
    decreases m.num_inputs - m.cursor,
{
    if m.cursor < m.num_inputs {
        let next = Multiplexer::step_spec(m, ReadEvent::Eof).0;
        lemma_close_all_eofs_exhaust(next);
    }
}

/// Close policy: an end-of-stream on the last open input exhausts the
/// stream — the read fails with exhaustion and no input remains to read.
pub proof fn lemma_close_eof_exhausts(m: Multiplexer, ev: ReadEvent)
    requires
        m.wf(),
        m.when_eof is Close,
        m.cursor + 1 == m.num_inputs,
        ev is Eof,
    ensures
        Multiplexer::step_spec(m, ev).1 is Exhausted,
        Multiplexer::step_spec(m, ev).0.current_input_spec() is None,
{
}

/// Retry policy: an end-of-stream leaves the state untouched and asks the
/// caller to poll the same input again, so a source that later produces more
/// bytes is read successfully — the multiplexer never gives an input up.
pub proof fn lemma_retry_reads_after_eof(m: Multiplexer, f: Vec<u8>)
    requires
        m.wf(),
        m.when_eof is Retry,
        !m.exhausted(),
        f@.len() == m.frame_size,
    ensures
        Multiplexer::step_spec(m, ReadEvent::Eof) == (m, ReadStep::Again),
        Multiplexer::step_spec(m, ReadEvent::Bytes(f))
            == (m, ReadStep::Deliver(f)),
{
}

/// All mode: two consecutive publishes from one input leave only the second
/// frame in that input's slot — overwrite-on-write, not queueing.
pub proof fn lemma_latest_publish_wins(
    slots: Seq<Option<Vec<u8>>>,
    input: int,
    f1: Vec<u8>,
    f2: Vec<u8>,
)
    requires
        0 <= input < slots.len(),
    ensures
        slots.update(input, Some(f1)).update(input, Some(f2))
            == slots.update(input, Some(f2)),
{
    assert(slots.update(input, Some(f1)).update(input, Some(f2))
        =~= slots.update(input, Some(f2)));
}

}
