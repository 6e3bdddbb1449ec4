//! Per-peer protocol state and the installation of received input runs.
//!
//! Each remote peer starts in a handshake (randomized tokens, retried until
//! answered), then runs the continuous exchange of input packets. Received
//! inputs are installed into the owning player's queue frame by frame; the
//! earliest installed frame whose confirmed value contradicts a prior
//! prediction is the divergence that triggers a rollback.

use vstd::prelude::*;

use crate::input::BoxInput;
use crate::input::QueueModel;

verus! {

/// Handshake progress with one peer.
#[derive(Clone, Copy, PartialEq, Eq, Structural, Debug)]
pub enum PeerMode {
    /// Initial: handshake tokens are being exchanged and retried.
    Synchronizing,
    /// Normal operation: input packets flow in both directions.
    Running,
}

/// Connection bookkeeping for one remote peer (owning one remote player).
#[derive(Clone, Copy, PartialEq, Eq, Structural, Debug)]
pub struct PeerConnection {
    /// Opaque endpoint identifier the transport routes by.
    pub peer: u32,
    /// Handle of the remote player this peer owns.
    pub player: u32,
    pub mode: PeerMode,
    /// Timestamp of the last datagram received from this peer.
    pub last_recv: u64,
    /// One past the highest contiguous frame of ours the peer acknowledged.
    pub acked_until: u32,
    /// The randomized token our handshake request carries.
    pub token: u32,
}

/// Relies on rand::random: draws an arbitrary handshake token. Nothing can
/// be promised of a random value; the protocol works for every token.
#[verifier::external_body]
pub fn fresh_handshake_token() -> u32 {
    rand::random()
}

/// The queue after installing a received run of confirmed inputs for frames
/// `start, start + 1, ...`, one byte per frame.
pub open spec fn confirm_run(q: QueueModel, start: int, vals: Seq<u8>) -> QueueModel
    decreases vals.len(),
{
    if vals.len() == 0 {
        q
    } else {
        confirm_run(q.confirmed(start, BoxInput { inp: vals[0] }), start + 1, vals.drop_first())
    }
}

/// The earliest frame of the run where the confirmed value contradicts a
/// prior prediction, if any: the frame a rollback must restart from.
pub open spec fn earliest_divergence(q: QueueModel, start: int, vals: Seq<u8>) -> Option<int>
    decreases vals.len(),
{
    if vals.len() == 0 {
        None
    } else if q.confirm_diverges(start, BoxInput { inp: vals[0] }) {
        Some(start)
    } else {
        earliest_divergence(
            q.confirmed(start, BoxInput { inp: vals[0] }),
            start + 1,
            vals.drop_first(),
        )
    }
}

/// One confirmation keeps the queue's start, never shrinks it, and preserves
/// well-formedness when the frame is representable.
pub proof fn lemma_confirmed_shape(q: QueueModel, frame: int, v: BoxInput)
    requires
        q.wf(),
        0 <= frame < u32::MAX,
    ensures
        q.confirmed(frame, v).wf(),
        q.confirmed(frame, v).first == q.first,
        q.confirmed(frame, v).end() >= q.end(),
        q.confirmed(frame, v).end() <= if frame + 1 > q.end() {
            frame + 1
        } else {
            q.end()
        },
{
}

/// Installing a run keeps the queue's start and well-formedness, and extends
/// its end at most to one past the run.
pub proof fn lemma_confirm_run_shape(q: QueueModel, start: int, vals: Seq<u8>)
    requires
        q.wf(),
        0 <= start,
        start + vals.len() <= u32::MAX,
    ensures
        confirm_run(q, start, vals).wf(),
        confirm_run(q, start, vals).first == q.first,
        confirm_run(q, start, vals).end() >= q.end(),
        confirm_run(q, start, vals).end() <= if start + vals.len() > q.end() {
            start + vals.len()
        } else {
            q.end()
        },
    decreases vals.len(),
{
    if vals.len() > 0 {
        let v = BoxInput { inp: vals[0] };
        lemma_confirmed_shape(q, start, v);
        lemma_confirm_run_shape(q.confirmed(start, v), start + 1, vals.drop_first());
    }
}

/// Installing one more byte extends the fold by one confirmation.
pub proof fn lemma_confirm_run_snoc(q: QueueModel, start: int, vals: Seq<u8>, b: u8)
    ensures
        confirm_run(q, start, vals.push(b)) == confirm_run(q, start, vals).confirmed(
            start + vals.len(),
            BoxInput { inp: b },
        ),
    decreases vals.len(),
{
    let s = vals.push(b);
    if vals.len() == 0 {
        assert(s[0] == b);
        assert(s.drop_first() =~= Seq::<u8>::empty());
        let q1 = q.confirmed(start, BoxInput { inp: b });
        assert(confirm_run(q1, start + 1, s.drop_first()) == q1);
        assert(confirm_run(q, start, s) == confirm_run(q1, start + 1, s.drop_first()));
    } else {
        assert(s[0] == vals[0]);
        assert(s.drop_first() =~= vals.drop_first().push(b));
        lemma_confirm_run_snoc(q.confirmed(start, BoxInput { inp: vals[0] }), start + 1,
            vals.drop_first(), b);
    }
}

/// The earliest divergence of a run extended by one byte: an earlier one
/// stands; otherwise the new byte decides.
pub proof fn lemma_earliest_divergence_snoc(q: QueueModel, start: int, vals: Seq<u8>, b: u8)
    ensures
        earliest_divergence(q, start, vals.push(b)) == (match earliest_divergence(q, start, vals) {
            Some(d) => Some(d),
            None => if confirm_run(q, start, vals).confirm_diverges(
                start + vals.len(),
                BoxInput { inp: b },
            ) {
                Some(start + vals.len())
            } else {
                None
            },
        }),
    decreases vals.len(),
{
    let s = vals.push(b);
    if vals.len() == 0 {
        assert(s[0] == b);
        assert(s.drop_first() =~= Seq::<u8>::empty());
        assert(confirm_run(q, start, Seq::<u8>::empty()) == q);
        assert(earliest_divergence(q, start, Seq::<u8>::empty()) is None);
        if q.confirm_diverges(start, BoxInput { inp: b }) {
            assert(earliest_divergence(q, start, s) == Some(start));
        } else {
            let q1 = q.confirmed(start, BoxInput { inp: b });
            assert(earliest_divergence(q1, start + 1, s.drop_first()) is None);
            assert(earliest_divergence(q, start, s) == earliest_divergence(
                q1,
                start + 1,
                s.drop_first(),
            ));
        }
    } else {
        assert(s[0] == vals[0]);
        assert(s.drop_first() =~= vals.drop_first().push(b));
        lemma_earliest_divergence_snoc(q.confirmed(start, BoxInput { inp: vals[0] }), start + 1,
            vals.drop_first(), b);
    }
}

/// A confirmation at one frame leaves every other stored entry as it was.
pub proof fn lemma_confirmed_other_entries(q: QueueModel, frame: int, v: BoxInput, f: int)
    requires
        q.wf(),
        0 <= frame < u32::MAX,
        q.in_range(f),
        f != frame,
    ensures
        q.confirmed(frame, v).in_range(f),
        q.confirmed(frame, v).entry_at(f) == q.entry_at(f),
{
    lemma_confirmed_shape(q, frame, v);
}

/// Installing a run never touches entries below its start.
pub proof fn lemma_confirm_run_below(q: QueueModel, start: int, vals: Seq<u8>, f: int)
    requires
        q.wf(),
        0 <= start,
        start + vals.len() <= u32::MAX,
        q.in_range(f),
        f < start,
    ensures
        confirm_run(q, start, vals).in_range(f),
        confirm_run(q, start, vals).entry_at(f) == q.entry_at(f),
    decreases vals.len(),
{
    if vals.len() > 0 {
        let v = BoxInput { inp: vals[0] };
        lemma_confirmed_shape(q, start, v);
        lemma_confirmed_other_entries(q, start, v, f);
        lemma_confirm_run_below(q.confirmed(start, v), start + 1, vals.drop_first(), f);
    }
}

/// Below the earliest divergence (or everywhere, if the run diverges
/// nowhere), installing a run keeps every stored input value: only flags are
/// upgraded, so the simulated history below the divergence stays valid.
pub proof fn lemma_confirm_run_values(q: QueueModel, start: int, vals: Seq<u8>, f: int)
    requires
        q.wf(),
        0 <= start,
        start + vals.len() <= u32::MAX,
        q.in_range(f),
        match earliest_divergence(q, start, vals) {
            Some(d) => f < d,
            None => true,
        },
    ensures
        confirm_run(q, start, vals).in_range(f),
        confirm_run(q, start, vals).entry_at(f).input == q.entry_at(f).input,
    decreases vals.len(),
{
    if vals.len() > 0 {
        let v = BoxInput { inp: vals[0] };
        lemma_confirmed_shape(q, start, v);
        let q1 = q.confirmed(start, v);
        if f < start {
            lemma_confirm_run_below(q, start, vals, f);
        } else if f == start {
            assert(!q.confirm_diverges(start, v));
            assert(q1.in_range(f) && q1.entry_at(f).input == q.entry_at(f).input);
            lemma_confirm_run_below(q1, start + 1, vals.drop_first(), f);
        } else {
            lemma_confirmed_other_entries(q, start, v, f);
            lemma_confirm_run_values(q1, start + 1, vals.drop_first(), f);
        }
    }
}

/// A reported divergence lies within the installed run.
pub proof fn lemma_earliest_divergence_bounds(q: QueueModel, start: int, vals: Seq<u8>)
    ensures
        match earliest_divergence(q, start, vals) {
            Some(d) => start <= d < start + vals.len(),
            None => true,
        },
    decreases vals.len(),
{
    if vals.len() > 0 && !q.confirm_diverges(start, BoxInput { inp: vals[0] }) {
        lemma_earliest_divergence_bounds(
            q.confirmed(start, BoxInput { inp: vals[0] }),
            start + 1,
            vals.drop_first(),
        );
    }
}

} // verus!
