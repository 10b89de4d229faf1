//! The playback side of a session: pre-roll, silence substitution on
//! underrun, and the batches handed to the sink.
//!
//! The engine decides; the caller moves the data. For each slot of a batch
//! the caller asks `next_slot`, and on `Slot::Take` receives one sample from
//! the stream queue and hands it to `take`. When the batch is full it calls
//! `end_batch`, then writes to the sink each batch that `next_write` gives
//! until it gives none.

use vstd::prelude::*;

verus! {

/// Samples per write to the sink: four stereo frames.
pub const BATCH: usize = 8;

/// Interleaved channels per frame.
pub const CHANNELS: usize = 2;

/// Frames per write to the sink.
pub const BATCH_FRAMES: usize = 4;

/// How the next slot of a batch is filled.
#[derive(Clone, Copy, Debug, PartialEq, Eq, Structural)]
pub enum Slot {
    /// A synthetic zero, already placed.
    Fill,
    /// The next sample of the stream queue, to hand to `take`.
    Take,
}

/// What to do with the sink once the stream queue is closed and empty.
#[derive(Clone, Copy, Debug, PartialEq, Eq, Structural)]
pub enum Finish {
    /// Playback started: let the sink play out what it holds.
    Drain,
    /// Playback never started: stop at once.
    Abandon,
}

pub struct EngineView {
    /// Frames the sink buffers before it plays.
    pub threshold: nat,
    /// Whether pre-roll is complete.
    pub started: bool,
    /// Frames collected during pre-roll.
    pub written: nat,
    /// Whether the next slot completes a pair of synthetic zeros.
    pub filled: bool,
    /// Every slot value so far, in order.
    pub emitted: Seq<i32>,
    /// The samples taken from the stream queue, in order.
    pub taken: Seq<i32>,
    /// The slot of each taken sample.
    pub real_at: Seq<int>,
    /// Everything handed to the sink, in order.
    pub sent: Seq<i32>,
    /// Whole batches closed but not yet handed to the sink.
    pub pending: Seq<i32>,
    /// The slots of the batch in progress.
    pub batch: Seq<i32>,
}

/// The playback engine's state for one session.
pub struct Engine {
    threshold: usize,
    started: bool,
    written: usize,
    filled: bool,
    batch: Vec<i32>,
    held: Vec<i32>,
    cursor: usize,
    emitted: Ghost<Seq<i32>>,
    taken: Ghost<Seq<i32>>,
    real_at: Ghost<Seq<int>>,
    sent: Ghost<Seq<i32>>,
}

impl View for Engine {
    type V = EngineView;

    closed spec fn view(&self) -> EngineView {
        EngineView {
            threshold: self.threshold as nat,
            started: self.started,
            written: self.written as nat,
            filled: self.filled,
            emitted: self.emitted@,
            taken: self.taken@,
            real_at: self.real_at@,
            sent: self.sent@,
            pending: self.held@.subrange(self.cursor as int, self.held@.len() as int),
            batch: self.batch@,
        }
    }
}

/// Each taken sample sits in its own slot, in the order taken, on the
/// channel of its place in the queue.
pub open spec fn placed(v: EngineView) -> bool {
    &&& v.real_at.len() == v.taken.len()
    &&& forall|k: int|
        0 <= k < v.taken.len() ==> {
            &&& 0 <= #[trigger] v.real_at[k] < v.emitted.len()
            &&& v.emitted[v.real_at[k]] == v.taken[k]
            &&& v.real_at[k] % 2 == k % 2
        }
    &&& forall|k: int, l: int|
        0 <= k < l < v.taken.len() ==> #[trigger] v.real_at[k] < #[trigger] v.real_at[l]
}

/// Every slot that holds no taken sample holds a zero.
pub open spec fn zero_elsewhere(v: EngineView) -> bool {
    forall|p: int|
        0 <= p < v.emitted.len() && #[trigger] v.emitted[p] != 0 ==> exists|k: int|
            0 <= k < v.taken.len() && #[trigger] v.real_at[k] == p
}

/// `n` zero samples.
pub open spec fn silence(n: nat) -> Seq<i32> {
    Seq::new(n, |i: int| 0i32)
}

impl Engine {
    pub closed spec fn wf(&self) -> bool {
        let v = self@;
        &&& self.batch@.len() <= BATCH
        &&& self.threshold <= usize::MAX / 8
        &&& self.cursor <= self.held@.len()
        &&& self.cursor % BATCH == 0
        &&& self.held@.len() % (BATCH as nat) == 0
        &&& placed(v)
        &&& zero_elsewhere(v)
        &&& v.emitted.len() >= v.taken.len()
        &&& self.filled ==> self.started
        &&& self.filled <==> (v.emitted.len() - v.taken.len()) % 2 == 1
        &&& v.emitted == v.sent + v.pending + v.batch
        &&& !self.started ==> {
            &&& v.emitted == v.taken
            &&& v.sent.len() == 0
            &&& v.pending.len() == 2 * self.written
            &&& (self.written < self.threshold || self.written == 0)
        }
        &&& self.started ==> v.taken.len() >= 2 * self.threshold
    }

    /// A fresh engine for a sink that buffers `threshold` frames before it
    /// plays; `threshold` is bounded so that pre-roll fits in memory.
    pub fn new(threshold: usize) -> (r: Engine)
        requires
            threshold <= usize::MAX / 8,
        ensures
            r.wf(),
            r@.threshold == threshold,
            !r@.started,
            r@.written == 0,
            !r@.filled,
            r@.emitted.len() == 0,
            r@.taken.len() == 0,
            r@.sent.len() == 0,
            r@.pending.len() == 0,
            r@.batch.len() == 0,
    {
        let r = Engine {
            threshold,
            started: false,
            written: 0,
            filled: false,
            batch: Vec::new(),
            held: Vec::new(),
            cursor: 0,
            emitted: Ghost(Seq::empty()),
            taken: Ghost(Seq::empty()),
            real_at: Ghost(Seq::empty()),
            sent: Ghost(Seq::empty()),
        };
        assert(r@.sent + r@.pending + r@.batch =~= Seq::<i32>::empty());
        r
    }

    /// Whether the batch in progress is full.
    pub fn batch_full(&self) -> (r: bool)
        requires
            self.wf(),
        ensures
            r == (self@.batch.len() == BATCH),
    {
        self.batch.len() == BATCH
    }

    /// Whether the batch in progress has no slot yet.
    pub fn batch_empty(&self) -> (r: bool)
        ensures
            r == (self@.batch.len() == 0),
    {
        self.batch.len() == 0
    }

    /// Whether pre-roll is complete.
    pub fn started(&self) -> (r: bool)
        ensures
            r == self@.started,
    {
        self.started
    }

    /// Decides the next slot. Once playback has started, the slot gets a
    /// synthetic zero when the queue is empty or when the previous zero
    /// still needs its pair; otherwise it takes the next sample of the
    /// queue, waiting for one during pre-roll.
    pub fn next_slot(&mut self, queue_empty: bool) -> (r: Slot)
        requires
            old(self).wf(),
            old(self)@.batch.len() < BATCH,
        ensures
            final(self).wf(),
            r == Slot::Fill <==> (old(self)@.started && (queue_empty || old(self)@.filled)),
            r == Slot::Fill ==> final(self)@ == (EngineView {
                filled: !old(self)@.filled,
                emitted: old(self)@.emitted.push(0),
                batch: old(self)@.batch.push(0),
                ..old(self)@
            }),
            r == Slot::Take ==> final(self)@ == old(self)@ && !final(self)@.filled,
    {
        if self.started && (queue_empty || self.filled) {
            let ghost v0 = self@;
            self.batch.push(0);
            self.filled = !self.filled;
            self.emitted = Ghost(self.emitted@.push(0));
            proof {
                let v = self@;
                assert(v.pending == v0.pending);
                assert forall|k: int| 0 <= k < v.taken.len() implies {
                    &&& 0 <= #[trigger] v.real_at[k] < v.emitted.len()
                    &&& v.emitted[v.real_at[k]] == v.taken[k]
                    &&& v.real_at[k] % 2 == k % 2
                } by {
                    assert(v.real_at[k] < v0.emitted.len());
                }
                assert forall|p: int|
                    0 <= p < v.emitted.len() && #[trigger] v.emitted[p] != 0 implies exists|
                        k: int,
                    | 0 <= k < v.taken.len() && #[trigger] v.real_at[k] == p by {
                    assert(p < v0.emitted.len());
                    assert(v0.emitted[p] != 0);
                    let k = choose|k: int| 0 <= k < v0.taken.len() && #[trigger] v0.real_at[k] == p;
                    assert(v.real_at[k] == p);
                }
                assert(v.emitted =~= v.sent + v.pending + v.batch);
            }
            Slot::Fill
        } else {
            Slot::Take
        }
    }

    /// Places a sample taken from the stream queue in the next slot.
    pub fn take(&mut self, sample: i32)
        requires
            old(self).wf(),
            old(self)@.batch.len() < BATCH,
            !old(self)@.filled,
        ensures
            final(self).wf(),
            final(self)@ == (EngineView {
                emitted: old(self)@.emitted.push(sample),
                taken: old(self)@.taken.push(sample),
                real_at: old(self)@.real_at.push(old(self)@.emitted.len() as int),
                batch: old(self)@.batch.push(sample),
                ..old(self)@
            }),
    {
        let ghost v0 = self@;
        self.batch.push(sample);
        self.emitted = Ghost(self.emitted@.push(sample));
        self.taken = Ghost(self.taken@.push(sample));
        self.real_at = Ghost(self.real_at@.push(v0.emitted.len() as int));
        proof {
            let v = self@;
            assert(v.pending == v0.pending);
            assert forall|k: int| 0 <= k < v.taken.len() implies {
                &&& 0 <= #[trigger] v.real_at[k] < v.emitted.len()
                &&& v.emitted[v.real_at[k]] == v.taken[k]
                &&& v.real_at[k] % 2 == k % 2
            } by {
                if k < v0.taken.len() {
                    assert(v.real_at[k] == v0.real_at[k]);
                }
            }
            assert forall|k: int, l: int|
                0 <= k < l < v.taken.len() implies #[trigger] v.real_at[k]
                < #[trigger] v.real_at[l] by {
                assert(v0.real_at[k] < v0.emitted.len());
                if l < v0.taken.len() {
                    assert(v0.real_at[k] < v0.real_at[l]);
                }
            }
            assert forall|p: int|
                0 <= p < v.emitted.len() && #[trigger] v.emitted[p] != 0 implies exists|k: int|
                0 <= k < v.taken.len() && #[trigger] v.real_at[k] == p by {
                if p == v0.emitted.len() {
                    assert(v.real_at[v0.taken.len() as int] == p);
                } else {
                    assert(v0.emitted[p] != 0);
                    let k = choose|k: int| 0 <= k < v0.taken.len() && #[trigger] v0.real_at[k] == p;
                    assert(v.real_at[k] == p);
                }
            }
            assert(v.emitted =~= v.sent + v.pending + v.batch);
            if !self.started {
                assert(v.emitted =~= v.taken);
            }
        }
    }

    /// Fills the rest of the batch in progress with synthetic zeros, as
    /// slots with an empty queue would be filled; for the end of the stream.
    pub fn pad_batch(&mut self)
        requires
            old(self).wf(),
            old(self)@.started,
        ensures
            final(self).wf(),
            final(self)@.batch.len() == BATCH,
            final(self)@.batch == old(self)@.batch + silence((BATCH - old(self)@.batch.len()) as nat),
            final(self)@.emitted == old(self)@.emitted + silence(
                (BATCH - old(self)@.batch.len()) as nat,
            ),
            final(self)@.taken == old(self)@.taken,
            final(self)@.real_at == old(self)@.real_at,
            final(self)@.sent == old(self)@.sent,
            final(self)@.pending == old(self)@.pending,
            final(self)@.started,
            final(self)@.threshold == old(self)@.threshold,
    {
        let ghost v0 = self@;
        while !self.batch_full()
            invariant
                self.wf(),
                self@.started,
                v0.batch.len() <= self@.batch.len() <= BATCH,
                self@.batch == v0.batch + silence((self@.batch.len() - v0.batch.len()) as nat),
                self@.emitted == v0.emitted + silence((self@.batch.len() - v0.batch.len()) as nat),
                self@.taken == v0.taken,
                self@.real_at == v0.real_at,
                self@.sent == v0.sent,
                self@.pending == v0.pending,
                self@.threshold == v0.threshold,
            decreases BATCH - self@.batch.len(),
        {
            let ghost n = (self@.batch.len() - v0.batch.len()) as nat;
            let slot = self.next_slot(true);
            assert(slot == Slot::Fill);
            assert(silence(n).push(0) =~= silence(n + 1));
            assert((v0.batch + silence(n)).push(0) =~= v0.batch + silence(n + 1));
            assert((v0.emitted + silence(n)).push(0) =~= v0.emitted + silence(n + 1));
        }
    }

    /// Closes a full batch: it joins the batches that wait for the sink.
    /// During pre-roll the batch is counted; the one that brings the count
    /// to the threshold starts playback.
    pub fn end_batch(&mut self)
        requires
            old(self).wf(),
            old(self)@.batch.len() == BATCH,
        ensures
            final(self).wf(),
            final(self)@.batch.len() == 0,
            final(self)@.pending == old(self)@.pending + old(self)@.batch,
            final(self)@.sent == old(self)@.sent,
            final(self)@.emitted == old(self)@.emitted,
            final(self)@.taken == old(self)@.taken,
            final(self)@.real_at == old(self)@.real_at,
            final(self)@.filled == old(self)@.filled,
            final(self)@.threshold == old(self)@.threshold,
            old(self)@.started ==> final(self)@.started && final(self)@.written
                == old(self)@.written,
            !old(self)@.started ==> final(self)@.written == old(self)@.written + BATCH_FRAMES
                && final(self)@.started == (final(self)@.written >= old(self)@.threshold),
    {
        let ghost v0 = self@;
        let mut full: Vec<i32> = Vec::new();
        std::mem::swap(&mut full, &mut self.batch);
        self.held.append(&mut full);
        proof {
            assert(self@.pending =~= v0.pending + v0.batch);
            assert(self@.emitted =~= self@.sent + self@.pending + self@.batch);
        }
        if !self.started {
            self.written = self.written + BATCH_FRAMES;
            if self.written >= self.threshold {
                self.started = true;
            }
        }
    }

    /// Hands out the next batch that waits for the sink, once playback has
    /// started: always `BATCH` samples, in the order of their slots.
    pub fn next_write(&mut self) -> (r: Option<Vec<i32>>)
        requires
            old(self).wf(),
        ensures
            final(self).wf(),
            r is Some <==> old(self)@.started && old(self)@.pending.len() > 0,
            r matches Some(w) ==> {
                &&& w@.len() == BATCH
                &&& w@ == old(self)@.pending.subrange(0, BATCH as int)
                &&& final(self)@ == (EngineView {
                    sent: old(self)@.sent + w@,
                    pending: old(self)@.pending.subrange(BATCH as int, old(self)@.pending.len() as int),
                    ..old(self)@
                })
            },
            r is None ==> final(self)@ == old(self)@,
    {
        if !self.started || self.cursor == self.held.len() {
            return None;
        }
        let ghost v0 = self@;
        let mut w: Vec<i32> = Vec::new();
        let mut i: usize = 0;
        while i < BATCH
            invariant
                self.wf(),
                self@ == v0,
                self.cursor + BATCH <= self.held@.len(),
                i <= BATCH,
                w@ =~= self.held@.subrange(self.cursor as int, self.cursor + i),
            decreases BATCH - i,
        {
            w.push(self.held[self.cursor + i]);
            i = i + 1;
        }
        self.cursor = self.cursor + BATCH;
        self.sent = Ghost(self.sent@ + w@);
        if self.cursor == self.held.len() {
            self.held.clear();
            self.cursor = 0;
        }
        proof {
            let v = self@;
            assert(w@ =~= v0.pending.subrange(0, BATCH as int));
            assert(v.pending =~= v0.pending.subrange(BATCH as int, v0.pending.len() as int));
            assert(v.emitted =~= v.sent + v.pending + v.batch);
        }
        Some(w)
    }

    /// What to do with the sink once the stream queue is closed and empty.
    pub fn finish(&self) -> (r: Finish)
        ensures
            r == Finish::Drain <==> self@.started,
    {
        if self.started {
            Finish::Drain
        } else {
            Finish::Abandon
        }
    }
}

/// Nothing reaches the sink before the stream queue has given at least
/// `threshold` frames (two samples each): until then the engine holds back
/// exactly the samples taken, with no synthetic zero among them.
pub proof fn lemma_preroll(e: Engine)
    requires
        e.wf(),
    ensures
        e@.sent.len() > 0 ==> e@.taken.len() >= CHANNELS * e@.threshold,
        !e@.started ==> e@.sent.len() == 0 && e@.emitted == e@.taken,
{
}

/// Synthetic zeros never swap the channels: the `k`-th sample taken from the
/// queue sits in a slot of the same parity as `k`, after every earlier one,
/// and every other slot is a zero; so each run of zeros between two real
/// samples has even length, and a run in progress is odd exactly while its
/// pair is still owed.
pub proof fn lemma_channel_parity(e: Engine)
    requires
        e.wf(),
    ensures
        placed(e@),
        zero_elsewhere(e@),
        forall|k: int|
            0 <= k && k + 1 < e@.taken.len() ==> (e@.real_at[k + 1] - #[trigger] e@.real_at[k]
                - 1) % 2 == 0,
        e@.filled <==> (e@.emitted.len() - e@.taken.len()) % 2 == 1,
{
    assert forall|k: int|
        0 <= k && k + 1 < e@.taken.len() implies (e@.real_at[k + 1] - #[trigger] e@.real_at[k]
        - 1) % 2 == 0 by {
        assert(e@.real_at[k] % 2 == k % 2);
        assert(e@.real_at[k + 1] % 2 == (k + 1) % 2);
    }
}

/// The sink receives the slots in order: what was sent is a prefix of what
/// was emitted, followed by the batches that wait for the sink and the batch
/// in progress; so once both are empty, every sample taken has been sent.
pub proof fn lemma_sent_in_order(e: Engine)
    requires
        e.wf(),
    ensures
        e@.sent.len() <= e@.emitted.len(),
        e@.sent == e@.emitted.subrange(0, e@.sent.len() as int),
        e@.emitted == e@.sent + e@.pending + e@.batch,
        e@.pending.len() == 0 && e@.batch.len() == 0 ==> e@.sent == e@.emitted,
{
    assert(e@.sent =~= e@.emitted.subrange(0, e@.sent.len() as int));
    if e@.pending.len() == 0 && e@.batch.len() == 0 {
        assert(e@.emitted =~= e@.sent);
    }
}

} // verus!
