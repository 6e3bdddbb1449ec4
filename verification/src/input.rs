//! Per-player inputs: the fixed-width input bitmask that travels in network
//! packets, and the per-player input queue that maps frame numbers to the
//! best-known input value, telling confirmed inputs from predicted ones.

use vstd::prelude::*;

verus! {

/// Bit flag: the up action is held.
pub const INPUT_UP: u8 = 1 << 1;
/// Bit flag: the down action is held.
pub const INPUT_DOWN: u8 = 1 << 2;
/// Bit flag: the left action is held.
pub const INPUT_LEFT: u8 = 1 << 3;
/// Bit flag: the right action is held.
pub const INPUT_RIGHT: u8 = 1 << 4;
/// Bit flag: the jump action is held.
pub const INPUT_JUMP: u8 = 1 << 5;

/// A single player's input for a single frame: a plain bitmask, one bit per
/// discrete action, small enough to embed directly in network packets.
#[derive(Clone, Copy, PartialEq, Eq, Structural, Debug)]
pub struct BoxInput {
    pub inp: u8,
}

/// The bitmask built from one flag per action, mirroring how the sampler
/// folds the flags together.
pub open spec fn input_bits(up: bool, down: bool, left: bool, right: bool, jump: bool) -> u8 {
    let a = if up { 0u8 | INPUT_UP } else { 0u8 };
    let b = if down { a | INPUT_DOWN } else { a };
    let c = if left { b | INPUT_LEFT } else { b };
    let d = if right { c | INPUT_RIGHT } else { c };
    if jump { d | INPUT_JUMP } else { d }
}

/// Folds one boolean per discrete action into the input bitmask. This is the
/// pure half of input sampling; reading the actual input device stays outside
/// the library.
pub fn input_from_flags(up: bool, down: bool, left: bool, right: bool, jump: bool) -> (r: BoxInput)
    ensures
        r.inp == input_bits(up, down, left, right, jump),
{
    let mut v: u8 = 0;
    if up {
        v = v | INPUT_UP;
    }
    if down {
        v = v | INPUT_DOWN;
    }
    if left {
        v = v | INPUT_LEFT;
    }
    if right {
        v = v | INPUT_RIGHT;
    }
    if jump {
        v = v | INPUT_JUMP;
    }
    BoxInput { inp: v }
}

/// Relies on rand::random: draws an arbitrary input bitmask. Nothing can be
/// promised of a random value, so this has no contract; whatever comes back
/// is a valid input.
#[verifier::external_body]
pub fn input_random() -> BoxInput {
    BoxInput { inp: rand::random() }
}

/// One slot of an input queue: an input value together with whether it is
/// confirmed (authored locally or received from the owning peer) or predicted
/// (a locally synthesized guess that may later be overwritten).
#[derive(Clone, Copy, PartialEq, Eq, Structural, Debug)]
pub struct InputEntry {
    pub input: BoxInput,
    pub confirmed: bool,
}

/// Mathematical content of an [`InputQueue`]: a contiguous run of entries
/// starting at frame `first`, plus the fallback used to predict frames that
/// have no entry yet.
#[verifier::ext_equal]
pub struct QueueModel {
    /// Frame number of `entries[0]`.
    pub first: int,
    /// One entry per frame, for frames `first .. first + entries.len()`.
    pub entries: Seq<InputEntry>,
    /// The input predicted for frames beyond the stored entries: the most
    /// recently confirmed input, or the seeded default before any
    /// confirmation exists.
    pub fallback: BoxInput,
    /// Frame of the confirmation that set `fallback`.
    pub fallback_frame: int,
    /// Whether any input was ever confirmed for this player.
    pub has_confirmed: bool,
}

impl QueueModel {
    /// One past the last stored frame.
    pub open spec fn end(self) -> int {
        self.first + self.entries.len()
    }

    pub open spec fn in_range(self, frame: int) -> bool {
        self.first <= frame < self.end()
    }

    pub open spec fn entry_at(self, frame: int) -> InputEntry
        recommends
            self.in_range(frame),
    {
        self.entries[frame - self.first]
    }

    /// The best-known input for a frame: the stored entry when one exists,
    /// else the fallback (predict-repeat forecasting).
    pub open spec fn lookup(self, frame: int) -> BoxInput {
        if self.in_range(frame) {
            self.entry_at(frame).input
        } else {
            self.fallback
        }
    }

    /// Count of leading confirmed entries: every frame in
    /// `first .. confirmed_until()` holds a confirmed input.
    pub open spec fn leading_confirmed(self) -> int
        decreases self.entries.len(),
    {
        if self.entries.len() == 0 {
            0
        } else if !self.entries[0].confirmed {
            0
        } else {
            1 + QueueModel { first: self.first + 1, entries: self.entries.skip(1), ..self }
                .leading_confirmed()
        }
    }

    /// One past the last frame of the leading run of confirmed entries;
    /// everything below it is known correct.
    pub open spec fn confirmed_until(self) -> int {
        self.first + self.leading_confirmed()
    }

    pub open spec fn wf(self) -> bool {
        &&& 0 <= self.first
        &&& self.end() <= u32::MAX as int
        &&& 0 <= self.fallback_frame <= u32::MAX as int
    }

    /// How the fallback evolves when frame `frame` is confirmed with `value`:
    /// the newest confirmation wins.
    pub open spec fn bump_fallback(self, frame: int, value: BoxInput) -> QueueModel {
        if !self.has_confirmed || frame >= self.fallback_frame {
            QueueModel { fallback: value, fallback_frame: frame, has_confirmed: true, ..self }
        } else {
            self
        }
    }

    /// The queue after `record(frame, value, confirmed)`: the entry for
    /// `frame` is inserted or overwritten; a gap between the stored run and
    /// `frame` is filled with predicted repeats of the fallback.
    pub open spec fn recorded(self, frame: int, value: BoxInput, confirmed: bool) -> QueueModel
        recommends
            self.first <= frame,
    {
        let e = InputEntry { input: value, confirmed };
        let base = if frame < self.end() {
            QueueModel { entries: self.entries.update(frame - self.first, e), ..self }
        } else {
            let gap = Seq::new(
                (frame - self.end()) as nat,
                |i: int| InputEntry { input: self.fallback, confirmed: false },
            );
            QueueModel { entries: self.entries + gap + seq![e], ..self }
        };
        if confirmed {
            base.bump_fallback(frame, value)
        } else {
            base
        }
    }

    /// Whether confirming `frame` with `value` contradicts a prior
    /// prediction: the divergence signal that triggers a rollback.
    pub open spec fn confirm_diverges(self, frame: int, value: BoxInput) -> bool {
        &&& self.in_range(frame)
        &&& !self.entry_at(frame).confirmed
        &&& self.entry_at(frame).input != value
    }

    /// The queue after `confirm(frame, value)`: a predicted entry is upgraded
    /// in place; an already-confirmed or already-pruned frame is left alone.
    pub open spec fn confirmed(self, frame: int, value: BoxInput) -> QueueModel {
        if frame < self.first {
            self
        } else if self.in_range(frame) && self.entry_at(frame).confirmed {
            self
        } else {
            self.recorded(frame, value, true)
        }
    }

    /// The queue after entries for frames below `cutoff` are pruned.
    pub open spec fn pruned(self, cutoff: int) -> QueueModel {
        if cutoff <= self.first {
            self
        } else if cutoff >= self.end() {
            QueueModel { first: self.end(), entries: Seq::empty(), ..self }
        } else {
            QueueModel { first: cutoff, entries: self.entries.skip(cutoff - self.first), ..self }
        }
    }
}

/// Everything below the leading run of confirmed entries is confirmed, and
/// the run is maximal.
pub proof fn lemma_leading_confirmed_props(q: QueueModel)
    ensures
        0 <= q.leading_confirmed() <= q.entries.len(),
        forall|j: int| 0 <= j < q.leading_confirmed() ==> q.entries[j].confirmed,
        q.leading_confirmed() < q.entries.len() ==> !q.entries[q.leading_confirmed()].confirmed,
    decreases q.entries.len(),
{
    if q.entries.len() == 0 {
    } else if !q.entries[0].confirmed {
    } else {
        let q2 = QueueModel { first: q.first + 1, entries: q.entries.skip(1), ..q };
        lemma_leading_confirmed_props(q2);
        assert forall|j: int| 0 <= j < q.leading_confirmed() implies q.entries[j].confirmed by {
            if j > 0 {
                assert(q2.entries[j - 1].confirmed);
            }
        }
    }
}

/// Recording at one frame keeps the queue's start, extends it at most to one
/// past that frame, and leaves every other stored entry as it was.
pub proof fn lemma_recorded_shape(q: QueueModel, frame: int, v: BoxInput, confirmed: bool)
    requires
        q.wf(),
        q.first <= frame < u32::MAX,
    ensures
        q.recorded(frame, v, confirmed).wf(),
        q.recorded(frame, v, confirmed).first == q.first,
        q.recorded(frame, v, confirmed).end() >= q.end(),
        q.recorded(frame, v, confirmed).end() >= frame + 1,
        q.recorded(frame, v, confirmed).end() <= if frame + 1 > q.end() {
            frame + 1
        } else {
            q.end()
        },
        forall|f: int|
            q.in_range(f) && f != frame ==> q.recorded(frame, v, confirmed).in_range(f)
                && q.recorded(frame, v, confirmed).entry_at(f) == q.entry_at(f),
        q.recorded(frame, v, confirmed).in_range(frame),
        q.recorded(frame, v, confirmed).entry_at(frame) == (InputEntry { input: v, confirmed }),
{
}

/// Pruning drops a prefix: the end stays put, and every entry from the new
/// start on is untouched.
pub proof fn lemma_pruned_shape(q: QueueModel, cutoff: int)
    requires
        q.wf(),
        cutoff <= u32::MAX,
    ensures
        q.pruned(cutoff).wf(),
        q.pruned(cutoff).end() == q.end(),
        q.pruned(cutoff).first == (if cutoff <= q.first {
            q.first
        } else if cutoff >= q.end() {
            q.end()
        } else {
            cutoff
        }),
        q.pruned(cutoff).fallback == q.fallback,
        forall|f: int|
            q.pruned(cutoff).first <= f < q.end() ==> q.pruned(cutoff).in_range(f)
                && q.pruned(cutoff).entry_at(f) == q.entry_at(f),
{
}

/// A run of `i` confirmed entries that is ended by the queue's end or by an
/// unconfirmed entry is exactly the leading confirmed run.
pub proof fn lemma_leading_confirmed_exact(q: QueueModel, i: int)
    requires
        0 <= i <= q.entries.len(),
        forall|j: int| 0 <= j < i ==> q.entries[j].confirmed,
        i == q.entries.len() || !q.entries[i].confirmed,
    ensures
        q.leading_confirmed() == i,
    decreases i,
{
    if i == 0 {
    } else {
        let q2 = QueueModel { first: q.first + 1, entries: q.entries.skip(1), ..q };
        assert(q.entries[0].confirmed);
        assert forall|j: int| 0 <= j < i - 1 implies q2.entries[j].confirmed by {
            assert(q.entries[j + 1].confirmed);
        }
        assert(i - 1 == q2.entries.len() || !q2.entries[i - 1].confirmed);
        lemma_leading_confirmed_exact(q2, i - 1);
    }
}

/// Ordered per-player buffer mapping frame number to input value,
/// distinguishing confirmed inputs from predicted ones. Entries form one
/// contiguous run of frames; frames past the run are forecast by repeating
/// the most recently confirmed value (or the seeded default).
pub struct InputQueue {
    first_frame: u32,
    entries: Vec<InputEntry>,
    fallback: BoxInput,
    fallback_frame: u32,
    has_confirmed: bool,
}

impl View for InputQueue {
    type V = QueueModel;

    closed spec fn view(&self) -> QueueModel {
        QueueModel {
            first: self.first_frame as int,
            entries: self.entries@,
            fallback: self.fallback,
            fallback_frame: self.fallback_frame as int,
            has_confirmed: self.has_confirmed,
        }
    }
}

impl InputQueue {
    /// A fresh queue, seeded with the configured default input so that a
    /// query before any input exists still has a defined answer.
    pub fn new(default_input: BoxInput) -> (q: InputQueue)
        ensures
            q@.first == 0,
            q@.entries == Seq::<InputEntry>::empty(),
            q@.fallback == default_input,
            q@.has_confirmed == false,
            q@.fallback_frame == 0,
            q@.wf(),
    {
        InputQueue {
            first_frame: 0,
            entries: Vec::new(),
            fallback: default_input,
            fallback_frame: 0,
            has_confirmed: false,
        }
    }

    /// The best-known input for `frame`: confirmed or predicted entry when
    /// one is stored, else the predict-repeat fallback.
    pub fn get(&self, frame: u32) -> (r: BoxInput)
        requires
            self@.wf(),
        ensures
            r == self@.lookup(frame as int),
    {
        if frame >= self.first_frame {
            let idx = (frame - self.first_frame) as usize;
            if idx < self.entries.len() {
                return self.entries[idx].input;
            }
        }
        self.fallback
    }

    /// The first frame still stored; older entries were pruned.
    pub fn frame_floor(&self) -> (f: u32)
        ensures
            f as int == self@.first,
    {
        self.first_frame
    }

    /// Whether any entry (confirmed or predicted) is stored for `frame`.
    pub fn has_entry(&self, frame: u32) -> (r: bool)
        requires
            self@.wf(),
        ensures
            r == self@.in_range(frame as int),
    {
        if frame < self.first_frame {
            return false;
        }
        let idx = (frame - self.first_frame) as usize;
        idx < self.entries.len()
    }

    /// Whether a confirmed entry is stored for `frame`.
    pub fn has_confirmed_entry(&self, frame: u32) -> (r: bool)
        requires
            self@.wf(),
        ensures
            r == (self@.in_range(frame as int) && self@.entry_at(frame as int).confirmed),
    {
        if frame < self.first_frame {
            return false;
        }
        let idx = (frame - self.first_frame) as usize;
        idx < self.entries.len() && self.entries[idx].confirmed
    }

    /// Inserts or overwrites the entry for `frame`. A confirmed entry is
    /// immutable once created, so overwriting one is ruled out. Recording
    /// past the stored run fills the gap with predicted repeats of the
    /// fallback, so the run stays contiguous.
    pub fn record(&mut self, frame: u32, value: BoxInput, confirmed: bool)
        requires
            old(self)@.wf(),
            old(self)@.first <= frame as int,
            frame < u32::MAX,
            old(self)@.in_range(frame as int) ==> !old(self)@.entry_at(frame as int).confirmed,
        ensures
            final(self)@ == old(self)@.recorded(frame as int, value, confirmed),
            final(self)@.wf(),
    {
        let ghost q0 = self@;
        let idx = (frame - self.first_frame) as usize;
        let e = InputEntry { input: value, confirmed };
        if idx < self.entries.len() {
            self.entries.set(idx, e);
            assert(self@.entries =~= q0.entries.update(frame - q0.first, e));
        } else {
            let fill = self.fallback;
            while self.entries.len() < idx
                invariant
                    q0.entries.len() <= self.entries@.len() <= idx,
                    idx == frame - q0.first,
                    frame < u32::MAX,
                    self.first_frame as int == q0.first,
                    self.fallback == q0.fallback,
                    fill == q0.fallback,
                    self.fallback_frame as int == q0.fallback_frame,
                    self.has_confirmed == q0.has_confirmed,
                    self.entries@.subrange(0, q0.entries.len() as int) == q0.entries,
                    forall|j: int|
                        q0.entries.len() <= j < self.entries@.len() ==> self.entries@[j]
                            == (InputEntry { input: q0.fallback, confirmed: false }),
                decreases idx - self.entries@.len(),
            {
                self.entries.push(InputEntry { input: fill, confirmed: false });
                assert(self@.entries.subrange(0, q0.entries.len() as int) =~= q0.entries);
            }
            self.entries.push(e);
            proof {
                let gap = Seq::new(
                    (frame - q0.end()) as nat,
                    |i: int| InputEntry { input: q0.fallback, confirmed: false },
                );
                assert(self@.entries =~= q0.entries + gap + seq![e]);
            }
        }
        if confirmed {
            if !self.has_confirmed || frame >= self.fallback_frame {
                self.fallback = value;
                self.fallback_frame = frame;
                self.has_confirmed = true;
            }
        }
    }

    /// Upgrades the predicted entry for `frame` to a confirmed one and
    /// reports whether the confirmed value differs from what had been
    /// predicted: the divergence signal that triggers a rollback. Frames
    /// already confirmed, or already pruned, are left alone (redundant
    /// retransmissions are absorbed silently).
    pub fn confirm(&mut self, frame: u32, value: BoxInput) -> (diverged: bool)
        requires
            old(self)@.wf(),
            frame < u32::MAX,
        ensures
            final(self)@ == old(self)@.confirmed(frame as int, value),
            diverged == old(self)@.confirm_diverges(frame as int, value),
            final(self)@.wf(),
    {
        if frame < self.first_frame {
            return false;
        }
        let idx = (frame - self.first_frame) as usize;
        if idx < self.entries.len() {
            let prior = self.entries[idx];
            if prior.confirmed {
                return false;
            }
            let diverged = prior.input != value;
            self.record(frame, value, true);
            diverged
        } else {
            self.record(frame, value, true);
            false
        }
    }

    /// Drops the entries for frames below `cutoff`; the fallback (and with it
    /// predict-repeat forecasting) is unaffected.
    pub fn prune(&mut self, cutoff: u32)
        requires
            old(self)@.wf(),
        ensures
            final(self)@ == old(self)@.pruned(cutoff as int),
            final(self)@.wf(),
    {
        let ghost q0 = self@;
        if cutoff <= self.first_frame {
            return;
        }
        let k = (cutoff - self.first_frame) as usize;
        let len = self.entries.len();
        if k >= len {
            self.first_frame = self.first_frame + len as u32;
            self.entries = Vec::new();
            assert(self@.entries =~= Seq::<InputEntry>::empty());
        } else {
            let mut rest: Vec<InputEntry> = Vec::new();
            let mut i = k;
            while i < len
                invariant
                    k <= i <= len,
                    len == self.entries@.len(),
                    self@ == q0,
                    rest@ == self.entries@.subrange(k as int, i as int),
                decreases len - i,
            {
                let e = self.entries[i];
                rest.push(e);
                assert(rest@ =~= self.entries@.subrange(k as int, i + 1));
                i = i + 1;
            }
            self.entries = rest;
            self.first_frame = cutoff;
            assert(self@.entries =~= q0.entries.skip(cutoff - q0.first));
        }
    }

    /// One past the last frame of the leading run of confirmed entries:
    /// every frame below it carries an input known to be correct.
    pub fn confirmed_frontier(&self) -> (c: u32)
        requires
            self@.wf(),
        ensures
            c as int == self@.confirmed_until(),
    {
        let len = self.entries.len();
        let mut i: usize = 0;
        while i < len && self.entries[i].confirmed
            invariant
                0 <= i <= len,
                len == self.entries@.len(),
                self@.wf(),
                forall|j: int| 0 <= j < i ==> self.entries@[j].confirmed,
            decreases len - i,
        {
            i = i + 1;
        }
        proof {
            lemma_leading_confirmed_exact(self@, i as int);
        }
        self.first_frame + i as u32
    }
}

} // verus!
