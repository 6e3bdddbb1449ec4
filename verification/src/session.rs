//! The session and its simulation driver: the one owner of the frame clock,
//! the per-player input queues, the snapshot store and the simulation state.
//!
//! Once per tick the driver applies any pending rollback (restore the
//! snapshot at the divergent frame, replay forward with the corrected
//! inputs), stalls when the prediction window is exhausted, and otherwise
//! gathers one best-known input per player, advances the state by one tick
//! and snapshots the result. A ghost history of the inputs actually used per
//! frame ties the live state to `run_from(initial, history)` at all times,
//! which is what makes rollback equivalence a theorem rather than a hope.

use vstd::prelude::*;

use crate::codec::deserialize;
use crate::codec::encode_state;
use crate::codec::serialize;
use crate::input::BoxInput;
use crate::input::InputEntry;
use crate::input::InputQueue;
use crate::input::QueueModel;
use crate::sim::initial_state;
use crate::sim::initial_view;
use crate::sim::run_from;
use crate::sim::tick;
use crate::sim::SimState;
use crate::sim::StateView;
use crate::sim::MAX_PLAYERS;
use crate::snapshot::SnapshotStore;
use crate::snapshot::StoreModel;
use crate::sync::confirm_run;
use crate::sync::earliest_divergence;
use crate::sync::fresh_handshake_token;
use crate::sync::PeerConnection;
use crate::sync::PeerMode;
use crate::wire::encode_packet;
use crate::wire::MAX_INPUT_SPAN;
use crate::wire::Packet;
use crate::wire::PacketModel;

verus! {

/// Largest prediction window a session accepts.
pub const MAX_PREDICTION_WINDOW: u32 = 1024;

/// Largest input delay a session accepts.
pub const MAX_INPUT_DELAY: u32 = 1024;

/// Frames past this cannot be simulated: the session must end first (frame
/// numbers must stay clear of the top of the 32-bit range).
pub const FRAME_LIMIT: u32 = 0xffff0000;

/// Everything a session is configured with.
#[derive(Clone, Copy, PartialEq, Eq, Structural, Debug)]
pub struct SessionConfig {
    pub num_players: u32,
    /// Frames a local input is held back before taking effect.
    pub input_delay: u32,
    /// Most frames the simulation may run ahead of full confirmation.
    pub max_prediction_window: u32,
    /// Simulation ticks per second.
    pub tick_rate: u32,
    /// Peer silence longer than this (in the caller's clock units) is fatal.
    pub disconnect_timeout: u64,
    /// The input assumed for a player before anything is known.
    pub default_input: BoxInput,
}

/// Who controls a player: this process, or a remote peer endpoint.
#[derive(Clone, Copy, PartialEq, Eq, Structural, Debug)]
pub enum PlayerRole {
    Local,
    Remote { peer: u32 },
}

/// Which kind of session runs: a networked peer-to-peer session, or a local
/// deterministic-test session with every player local.
#[derive(Clone, Copy, PartialEq, Eq, Structural, Debug)]
pub enum SessionKind {
    PeerToPeer,
    LocalTest,
}

/// Protocol state of the whole session.
#[derive(Clone, Copy, PartialEq, Eq, Structural, Debug)]
pub enum SessionStatus {
    /// Peers are still shaking hands.
    Synchronizing,
    /// Normal operation.
    Running,
    /// Terminal: a peer timed out or the session was shut down.
    Disconnected,
}

/// Everything that can go wrong at the session surface.
#[derive(Clone, Copy, PartialEq, Eq, Structural, Debug)]
pub enum SessionError {
    InvalidPlayerCount,
    ZeroTickRate,
    WindowTooLarge,
    DelayTooLarge,
    AlreadyStarted,
    NotStarted,
    UnknownPlayer { handle: u32 },
    PlayerAlreadyAdded { handle: u32 },
    DuplicatePeer { peer: u32 },
    RemotePlayerInLocalTest,
    MissingPlayer { handle: u32 },
    NotSynchronized,
    Disconnected,
    NotLocalPlayer { handle: u32 },
    InputAlreadyGiven { frame: u32 },
    FrameLimitReached,
    SnapshotMissing { frame: u32 },
    InputsPruned { frame: u32 },
}

/// What one driver iteration did.
#[derive(Clone, Copy, PartialEq, Eq, Structural, Debug)]
pub enum TickOutcome {
    /// The clock advanced one frame.
    Advanced,
    /// A divergence was repaired first: the state was restored to the given
    /// frame and re-simulated, then the clock advanced one frame.
    AdvancedAfterRollback { rollback_frame: u32 },
    /// The prediction window is exhausted; the clock did not move.
    Stalled,
}

/// One datagram to hand to the transport.
pub struct OutgoingDatagram {
    pub peer: u32,
    pub data: Vec<u8>,
}

/// The last frame up to which every player's inputs are confirmed: the least
/// confirmed-until over all queues.
pub open spec fn frontier_of(qs: Seq<QueueModel>) -> int
    decreases qs.len(),
{
    if qs.len() == 0 {
        0
    } else if qs.len() == 1 {
        qs[0].confirmed_until()
    } else {
        let rest = frontier_of(qs.drop_first());
        if qs[0].confirmed_until() <= rest {
            qs[0].confirmed_until()
        } else {
            rest
        }
    }
}

/// Extending the queue set by one takes the minimum with its frontier.
proof fn lemma_frontier_snoc(qs: Seq<QueueModel>, q: QueueModel)
    requires
        qs.len() >= 1,
    ensures
        frontier_of(qs.push(q)) == if frontier_of(qs) <= q.confirmed_until() {
            frontier_of(qs)
        } else {
            q.confirmed_until()
        },
    decreases qs.len(),
{
    let s = qs.push(q);
    assert(s[0] == qs[0]);
    if qs.len() == 1 {
        assert(s.drop_first() =~= seq![q]);
        assert(frontier_of(s.drop_first()) == q.confirmed_until());
    } else {
        assert(s.drop_first() =~= qs.drop_first().push(q));
        lemma_frontier_snoc(qs.drop_first(), q);
    }
}

/// A fresh queue as the constructor makes it.
pub open spec fn fresh_queue_model(default_input: BoxInput) -> QueueModel {
    QueueModel {
        first: 0,
        entries: Seq::empty(),
        fallback: default_input,
        fallback_frame: 0,
        has_confirmed: false,
    }
}

/// A local queue after seeding: the first `delay` frames are confirmed to be
/// the default input, because an input sampled at frame `f` takes effect at
/// `f + delay` and nothing was sampled before frame 0.
pub open spec fn seeded_queue_model(default_input: BoxInput, delay: int) -> QueueModel {
    QueueModel {
        first: 0,
        entries: Seq::new(delay as nat, |i: int| InputEntry { input: default_input, confirmed: true }),
        fallback: default_input,
        fallback_frame: if delay > 0 {
            delay - 1
        } else {
            0
        },
        has_confirmed: delay > 0,
    }
}

/// Why a configuration is rejected, if it is: the first failing rule.
pub open spec fn config_error(config: SessionConfig) -> Option<SessionError> {
    if config.num_players == 0 || config.num_players > MAX_PLAYERS {
        Some(SessionError::InvalidPlayerCount)
    } else if config.tick_rate == 0 {
        Some(SessionError::ZeroTickRate)
    } else if config.max_prediction_window > MAX_PREDICTION_WINDOW {
        Some(SessionError::WindowTooLarge)
    } else if config.input_delay > MAX_INPUT_DELAY {
        Some(SessionError::DelayTooLarge)
    } else {
        None
    }
}

/// A rollback-netcode session: the frame clock, the per-player input queues,
/// the snapshot store, the peer connections and exactly one simulation state.
pub struct Session {
    config: SessionConfig,
    kind: SessionKind,
    status: SessionStatus,
    started: bool,
    roles: Vec<Option<PlayerRole>>,
    queues: Vec<InputQueue>,
    store: SnapshotStore,
    state: SimState,
    peers: Vec<PeerConnection>,
    pending_rollback: Option<u32>,
    outbox: Vec<OutgoingDatagram>,
    init_view_g: Ghost<StateView>,
    history_g: Ghost<Seq<Seq<BoxInput>>>,
}

impl Session {
    pub closed spec fn cfg(self) -> SessionConfig {
        self.config
    }

    pub closed spec fn kind_of(self) -> SessionKind {
        self.kind
    }

    pub closed spec fn status_of(self) -> SessionStatus {
        self.status
    }

    pub closed spec fn is_started(self) -> bool {
        self.started
    }

    pub closed spec fn roles_of(self) -> Seq<Option<PlayerRole>> {
        self.roles@
    }

    pub closed spec fn queue_models(self) -> Seq<QueueModel> {
        Seq::new(self.queues@.len(), |p: int| self.queues@[p]@)
    }

    pub closed spec fn store_model(self) -> StoreModel {
        self.store@
    }

    pub closed spec fn state_view(self) -> StateView {
        self.state@
    }

    pub closed spec fn pending(self) -> Option<u32> {
        self.pending_rollback
    }

    pub closed spec fn peers_of(self) -> Seq<PeerConnection> {
        self.peers@
    }

    /// The inputs actually fed to each simulated frame, oldest first; ghost.
    pub closed spec fn history(self) -> Seq<Seq<BoxInput>> {
        self.history_g@
    }

    /// The state the session started from; ghost.
    pub closed spec fn init_of(self) -> StateView {
        self.init_view_g@
    }

    pub closed spec fn outbox_model(self) -> Seq<(u32, Seq<u8>)> {
        Seq::new(self.outbox@.len(), |i: int| (self.outbox@[i].peer, self.outbox@[i].data@))
    }

    pub open spec fn frame(self) -> int {
        self.state_view().frame_count.frame as int
    }

    pub open spec fn num_players(self) -> int {
        self.cfg().num_players as int
    }

    pub open spec fn window(self) -> int {
        self.cfg().max_prediction_window as int
    }

    pub open spec fn delay(self) -> int {
        self.cfg().input_delay as int
    }

    /// The best-known input set for one frame, read off the queues.
    pub open spec fn inputs_at(self, f: int) -> Seq<BoxInput> {
        Seq::new(self.num_players() as nat, |p: int| self.queue_models()[p].lookup(f))
    }

    pub open spec fn frontier(self) -> int {
        frontier_of(self.queue_models())
    }

    /// Backpressure: the clock must not advance while the frame is a full
    /// prediction window past the last fully-confirmed frame.
    pub open spec fn window_exhausted(self) -> bool {
        self.frame() >= self.frontier() + self.window()
    }

    /// One past the last frame whose simulated inputs are still valid: the
    /// pending divergence if one is at a simulated frame, else the clock.
    pub open spec fn pending_eff(self) -> int {
        match self.pending() {
            Some(fr) => if (fr as int) < self.frame() {
                fr as int
            } else {
                self.frame()
            },
            None => self.frame(),
        }
    }

    pub open spec fn wf_config(self) -> bool {
        &&& 1 <= self.cfg().num_players <= MAX_PLAYERS
        &&& self.cfg().tick_rate >= 1
        &&& self.cfg().max_prediction_window <= MAX_PREDICTION_WINDOW
        &&& self.cfg().input_delay <= MAX_INPUT_DELAY
    }

    /// Bookkeeping the public model does not expose: the snapshot store holds
    /// encodings of prefixes of the run, and peers map to remote roles.
    pub closed spec fn internal_inv(self) -> bool {
        &&& self.store@.wf()
        &&& self.store@.capacity == self.config.max_prediction_window as int + 2
        &&& forall|i: int|
            0 <= i < self.store@.snaps.len() ==> (#[trigger] self.store@.snaps[i]).0 as int
                <= self.frame()
        &&& forall|i: int|
            0 <= i < self.store@.snaps.len() ==> (#[trigger] self.store@.snaps[i]).1
                == encode_state(
                run_from(self.init_view_g@, self.history_g@.take(self.store@.snaps[i].0 as int)),
            )
        &&& forall|k: int|
            0 <= k < self.peers@.len() ==> (#[trigger] self.peers@[k]).player
                < self.config.num_players
        &&& forall|k: int|
            0 <= k < self.peers@.len() ==> self.roles@[(#[trigger] self.peers@[k]).player as int]
                == Some(PlayerRole::Remote { peer: self.peers@[k].peer })
        &&& (forall|k1: int, k2: int|
            0 <= k1 < k2 < self.peers@.len() ==> (#[trigger] self.peers@[k1]).peer != (
            #[trigger] self.peers@[k2]).peer)
        &&& (self.status == SessionStatus::Running ==> self.started)
        &&& (!self.started ==> self.status != SessionStatus::Running && self.frame() == 0
            && self.pending_rollback is None && self.store@.snaps.len() == 0 && forall|p: int|
            0 <= p < self.queues@.len() ==> (#[trigger] self.queues@[p])@ == fresh_queue_model(
                self.config.default_input,
            ))
    }

    /// The session invariant: the live state is exactly the run of the tick
    /// function over the recorded input history, the queues agree with that
    /// history below any pending divergence, and nothing is pruned past a
    /// pending rollback target.
    pub open spec fn inv(self) -> bool {
        &&& self.internal_inv()
        &&& self.wf_config()
        &&& self.roles_of().len() == self.num_players()
        &&& self.queue_models().len() == self.num_players()
        &&& (forall|p: int| 0 <= p < self.num_players() ==> (#[trigger] self.queue_models()[p]).wf())
        &&& (forall|p: int|
            0 <= p < self.num_players() ==> (#[trigger] self.queue_models()[p]).end()
                >= self.frame())
        &&& (forall|p: int|
            0 <= p < self.num_players() ==> (#[trigger] self.queue_models()[p]).first
                <= self.frame())
        &&& self.history().len() == self.frame()
        &&& (forall|f: int|
            0 <= f < self.history().len() ==> (#[trigger] self.history()[f]).len()
                == self.num_players())
        &&& self.init_of() == initial_view(self.num_players())
        &&& self.state_view() == run_from(self.init_of(), self.history())
        &&& self.state_view().wf()
        &&& self.state_view().players.len() == self.num_players()
        &&& (forall|p: int, f: int|
            0 <= p < self.num_players() && self.queue_models()[p].first <= f < self.pending_eff()
                ==> (#[trigger] self.queue_models()[p].entry_at(f)).input == self.history()[f][p]
                && self.queue_models()[p].in_range(f))
    }

    /// Builds an unstarted session from a configuration, rejecting invalid
    /// configurations immediately.
    pub fn new(config: SessionConfig, kind: SessionKind) -> (r: Result<Session, SessionError>)
        ensures
            r matches Err(e) ==> Some(e) == config_error(config),
            r is Ok <==> config_error(config) is None,
            r matches Ok(s) ==> {
                &&& s.inv()
                &&& s.cfg() == config
                &&& s.kind_of() == kind
                &&& !s.is_started()
                &&& s.status_of() == SessionStatus::Synchronizing
                &&& s.frame() == 0
                &&& s.history() == Seq::<Seq<BoxInput>>::empty()
                &&& s.peers_of() == Seq::<PeerConnection>::empty()
                &&& s.pending() is None
                &&& (forall|h: int| 0 <= h < s.num_players() ==> s.roles_of()[h] is None)
                &&& (forall|p: int|
                    0 <= p < s.num_players() ==> (#[trigger] s.queue_models()[p])
                        == fresh_queue_model(config.default_input))
                &&& s.outbox_model() == Seq::<(u32, Seq<u8>)>::empty()
            },
    {
        if config.num_players == 0 || config.num_players > MAX_PLAYERS {
            return Err(SessionError::InvalidPlayerCount);
        }
        if config.tick_rate == 0 {
            return Err(SessionError::ZeroTickRate);
        }
        if config.max_prediction_window > MAX_PREDICTION_WINDOW {
            return Err(SessionError::WindowTooLarge);
        }
        if config.input_delay > MAX_INPUT_DELAY {
            return Err(SessionError::DelayTooLarge);
        }
        let n = config.num_players as usize;
        let mut roles: Vec<Option<PlayerRole>> = Vec::new();
        let mut queues: Vec<InputQueue> = Vec::new();
        let mut i: usize = 0;
        while i < n
            invariant
                0 <= i <= n,
                roles@.len() == i,
                queues@.len() == i,
                forall|h: int| 0 <= h < i ==> roles@[h] is None,
                forall|p: int|
                    0 <= p < i ==> (#[trigger] queues@[p])@ == fresh_queue_model(
                        config.default_input,
                    ),
            decreases n - i,
        {
            roles.push(None);
            queues.push(InputQueue::new(config.default_input));
            i = i + 1;
        }
        let state = initial_state(config.num_players);
        let s = Session {
            config,
            kind,
            status: SessionStatus::Synchronizing,
            started: false,
            roles,
            queues,
            store: SnapshotStore::new(config.max_prediction_window as usize + 2),
            state,
            peers: Vec::new(),
            pending_rollback: None,
            outbox: Vec::new(),
            init_view_g: Ghost(state@),
            history_g: Ghost(Seq::empty()),
        };
        proof {
            assert(s.history() =~= Seq::<Seq<BoxInput>>::empty());
            assert(s.peers_of() =~= Seq::<PeerConnection>::empty());
            assert(s.outbox_model() =~= Seq::<(u32, Seq<u8>)>::empty());
            assert(run_from(s.init_of(), s.history()) == s.init_of());
        }
        Ok(s)
    }

    /// Why adding this player is rejected, if it is.
    pub open spec fn add_player_error(self, role: PlayerRole, handle: u32) -> Option<SessionError> {
        if self.is_started() {
            Some(SessionError::AlreadyStarted)
        } else if handle as int >= self.num_players() {
            Some(SessionError::UnknownPlayer { handle })
        } else if self.roles_of()[handle as int] is Some {
            Some(SessionError::PlayerAlreadyAdded { handle })
        } else if (role matches PlayerRole::Remote { .. }) && self.kind_of()
            == SessionKind::LocalTest {
            Some(SessionError::RemotePlayerInLocalTest)
        } else if role matches PlayerRole::Remote { peer } && (exists|k: int|
            0 <= k < self.peers_of().len() && (#[trigger] self.peers_of()[k]).peer == peer) {
            Some(
                SessionError::DuplicatePeer {
                    peer: (match role {
                        PlayerRole::Remote { peer } => peer,
                        _ => 0,
                    }),
                },
            )
        } else {
            None
        }
    }

    /// Assigns one player handle to a role, before the session starts. A
    /// remote player opens a peer connection, starting in its handshake.
    pub fn add_player(&mut self, role: PlayerRole, handle: u32) -> (r: Result<(), SessionError>)
        requires
            old(self).inv(),
        ensures
            final(self).inv(),
            r matches Err(e) ==> Some(e) == old(self).add_player_error(role, handle) && *final(self)
                == *old(self),
            r is Ok <==> old(self).add_player_error(role, handle) is None,
            r is Ok ==> {
                &&& final(self).roles_of() == old(self).roles_of().update(
                    handle as int,
                    Some(role),
                )
                &&& final(self).cfg() == old(self).cfg()
                &&& final(self).kind_of() == old(self).kind_of()
                &&& final(self).status_of() == old(self).status_of()
                &&& !final(self).is_started()
                &&& final(self).frame() == old(self).frame()
                &&& final(self).history() == old(self).history()
                &&& final(self).queue_models() == old(self).queue_models()
                &&& final(self).outbox_model() == old(self).outbox_model()
                &&& (role == PlayerRole::Local ==> final(self).peers_of() == old(
                    self,
                ).peers_of())
                &&& (role matches PlayerRole::Remote { peer } ==> {
                    &&& final(self).peers_of().len() == old(self).peers_of().len() + 1
                    &&& final(self).peers_of().drop_last() == old(self).peers_of()
                    &&& final(self).peers_of().last().peer == peer
                    &&& final(self).peers_of().last().player == handle
                    &&& final(self).peers_of().last().mode == PeerMode::Synchronizing
                })
            },
    {
        if self.started {
            return Err(SessionError::AlreadyStarted);
        }
        if handle >= self.config.num_players {
            return Err(SessionError::UnknownPlayer { handle });
        }
        let h = handle as usize;
        if self.roles[h].is_some() {
            return Err(SessionError::PlayerAlreadyAdded { handle });
        }
        match role {
            PlayerRole::Local => {
                self.roles.set(h, Some(role));
                proof {
                    assert(final(self).queue_models() =~= old(self).queue_models());
                }
                Ok(())
            },
            PlayerRole::Remote { peer } => {
                if matches!(self.kind, SessionKind::LocalTest) {
                    return Err(SessionError::RemotePlayerInLocalTest);
                }
                let mut k: usize = 0;
                let np = self.peers.len();
                while k < np
                    invariant
                        0 <= k <= np,
                        *self == *old(self),
                        old(self).inv(),
                        !old(self).is_started(),
                        (handle as int) < old(self).num_players(),
                        old(self).roles_of()[handle as int] is None,
                        old(self).kind_of() != SessionKind::LocalTest,
                        role == (PlayerRole::Remote { peer }),
                        np == self.peers@.len(),
                        forall|j: int| 0 <= j < k ==> (#[trigger] self.peers@[j]).peer != peer,
                    decreases np - k,
                {
                    if self.peers[k].peer == peer {
                        return Err(SessionError::DuplicatePeer { peer });
                    }
                    k = k + 1;
                }
                let token = fresh_handshake_token();
                self.roles.set(h, Some(role));
                self.peers.push(
                    PeerConnection {
                        peer,
                        player: handle,
                        mode: PeerMode::Synchronizing,
                        last_recv: 0,
                        acked_until: 0,
                        token,
                    },
                );
                proof {
                    assert(final(self).queue_models() =~= old(self).queue_models());
                    assert(final(self).peers_of().drop_last() =~= old(self).peers_of());
                }
                Ok(())
            },
        }
    }

    /// The current frame number: how many ticks have been simulated.
    pub fn current_frame(&self) -> (f: u32)
        ensures
            f as int == self.frame(),
    {
        self.state.frame_count.frame
    }

    /// Read-only access to the most-advanced simulation state, for rendering.
    pub fn current_state(&self) -> (s: &SimState)
        ensures
            s@ == self.state_view(),
    {
        &self.state
    }

    /// The session's protocol status.
    pub fn current_status(&self) -> (st: SessionStatus)
        ensures
            st == self.status_of(),
    {
        self.status
    }

    /// Starts the session: local queues are seeded with the configured
    /// default for the first `input_delay` frames (an input sampled at frame
    /// `f` only takes effect at `f + input_delay`, so those frames are known),
    /// the initial state is snapshotted at frame 0, and the protocol begins —
    /// running at once when every player is local, else synchronizing.
    pub fn start(&mut self, now: u64) -> (r: Result<(), SessionError>)
        requires
            old(self).inv(),
        ensures
            final(self).inv(),
            r matches Err(e) ==> *final(self) == *old(self) && match e {
                SessionError::AlreadyStarted => old(self).is_started(),
                SessionError::MissingPlayer { handle } => {
                    &&& !old(self).is_started()
                    &&& 0 <= (handle as int) < old(self).num_players()
                    &&& old(self).roles_of()[handle as int] is None
                },
                _ => false,
            },
            r is Ok <==> (!old(self).is_started() && forall|h: int|
                0 <= h < old(self).num_players() ==> (#[trigger] old(self).roles_of()[h]) is Some),
            r is Ok ==> {
                &&& final(self).is_started()
                &&& final(self).cfg() == old(self).cfg()
                &&& final(self).kind_of() == old(self).kind_of()
                &&& final(self).roles_of() == old(self).roles_of()
                &&& final(self).status_of() == (if old(self).peers_of().len() == 0 {
                    SessionStatus::Running
                } else {
                    SessionStatus::Synchronizing
                })
                &&& final(self).frame() == 0
                &&& final(self).history() == old(self).history()
                &&& final(self).pending() is None
                &&& (forall|p: int|
                    0 <= p < old(self).num_players() ==> final(self).queue_models()[p] == (
                    if old(self).roles_of()[p] == Some(PlayerRole::Local) {
                        seeded_queue_model(old(self).cfg().default_input, old(self).delay())
                    } else {
                        #[trigger] old(self).queue_models()[p]
                    }))
                &&& final(self).store_model().contains_frame(0)
                &&& final(self).outbox_model() == old(self).outbox_model()
                &&& final(self).peers_of().len() == old(self).peers_of().len()
                &&& (forall|k: int|
                    0 <= k < old(self).peers_of().len() ==> final(self).peers_of()[k] == (
                    PeerConnection { last_recv: now, ..(#[trigger] old(self).peers_of()[k]) }))
            },
    {
        if self.started {
            return Err(SessionError::AlreadyStarted);
        }
        let n = self.config.num_players as usize;
        let mut h: usize = 0;
        while h < n
            invariant
                0 <= h <= n,
                *self == *old(self),
                old(self).inv(),
                !old(self).is_started(),
                n == old(self).num_players(),
                forall|j: int| 0 <= j < h ==> (#[trigger] self.roles@[j]) is Some,
            decreases n - h,
        {
            if self.roles[h].is_none() {
                return Err(SessionError::MissingPlayer { handle: h as u32 });
            }
            h = h + 1;
        }
        let delay = self.config.input_delay;
        let default_input = self.config.default_input;
        let ghost seeded = seeded_queue_model(default_input, delay as int);
        let mut p: usize = 0;
        while p < n
            invariant
                0 <= p <= n,
                old(self).inv(),
                !old(self).is_started(),
                n == old(self).num_players(),
                delay == old(self).cfg().input_delay,
                default_input == old(self).cfg().default_input,
                seeded == seeded_queue_model(default_input, delay as int),
                self.config == old(self).config,
                self.kind == old(self).kind,
                self.status == old(self).status,
                self.started == old(self).started,
                self.roles == old(self).roles,
                self.store == old(self).store,
                self.state == old(self).state,
                self.peers == old(self).peers,
                self.pending_rollback == old(self).pending_rollback,
                self.outbox == old(self).outbox,
                self.init_view_g == old(self).init_view_g,
                self.history_g == old(self).history_g,
                self.queues@.len() == n,
                forall|j: int|
                    0 <= j < p ==> (#[trigger] self.queues@[j])@ == (if old(self).roles_of()[j]
                        == Some(PlayerRole::Local) {
                        seeded
                    } else {
                        old(self).queue_models()[j]
                    }),
                forall|j: int|
                    p <= j < n ==> (#[trigger] self.queues@[j])@ == old(self).queue_models()[j],
            decreases n - p,
        {
            let is_local = matches!(self.roles[p], Some(PlayerRole::Local));
            let ghost frozen = *self;
            if is_local {
                proof {
                    assert(old(self).queue_models()[p as int] == fresh_queue_model(default_input));
                    assert(fresh_queue_model(default_input) =~= seeded_queue_model(
                        default_input,
                        0,
                    ));
                }
                let mut d: u32 = 0;
                while d < delay
                    invariant
                        0 <= d <= delay,
                        delay <= MAX_INPUT_DELAY,
                        0 <= p < self.queues@.len(),
                        default_input == frozen.config.default_input,
                        delay == frozen.config.input_delay,
                        self.config == frozen.config,
                        self.kind == frozen.kind,
                        self.status == frozen.status,
                        self.started == frozen.started,
                        self.roles == frozen.roles,
                        self.store == frozen.store,
                        self.state == frozen.state,
                        self.peers == frozen.peers,
                        self.pending_rollback == frozen.pending_rollback,
                        self.outbox == frozen.outbox,
                        self.init_view_g == frozen.init_view_g,
                        self.history_g == frozen.history_g,
                        self.queues@.len() == frozen.queues@.len(),
                        self.queues@[p as int]@ == seeded_queue_model(default_input, d as int),
                        forall|j: int|
                            0 <= j < self.queues@.len() && j != p ==> #[trigger] self.queues@[j]
                                == frozen.queues@[j],
                    decreases delay - d,
                {
                    proof {
                        lemma_seed_step(default_input, d as int);
                    }
                    self.queues[p].record(d, default_input, true);
                    d = d + 1;
                }
                proof {
                    assert(self.queues@[p as int]@ == seeded);
                }
            }
            p = p + 1;
        }
        let np = self.peers.len();
        let mut k: usize = 0;
        while k < np
            invariant
                0 <= k <= np,
                old(self).inv(),
                !old(self).is_started(),
                n == old(self).num_players(),
                delay == old(self).cfg().input_delay,
                default_input == old(self).cfg().default_input,
                seeded == seeded_queue_model(default_input, delay as int),
                self.config == old(self).config,
                self.kind == old(self).kind,
                self.status == old(self).status,
                self.started == old(self).started,
                self.roles == old(self).roles,
                self.store == old(self).store,
                self.state == old(self).state,
                self.pending_rollback == old(self).pending_rollback,
                self.outbox == old(self).outbox,
                self.init_view_g == old(self).init_view_g,
                self.history_g == old(self).history_g,
                self.queues@.len() == n,
                forall|j: int|
                    0 <= j < n ==> (#[trigger] self.queues@[j])@ == (if old(self).roles_of()[j]
                        == Some(PlayerRole::Local) {
                        seeded
                    } else {
                        old(self).queue_models()[j]
                    }),
                np == self.peers@.len(),
                np == old(self).peers_of().len(),
                forall|j: int|
                    0 <= j < k ==> (#[trigger] self.peers@[j]) == (PeerConnection {
                        last_recv: now,
                        ..old(self).peers_of()[j]
                    }),
                forall|j: int| k <= j < np ==> (#[trigger] self.peers@[j]) == old(self).peers_of()[j],
            decreases np - k,
        {
            let pc = self.peers[k];
            self.peers.set(k, PeerConnection { last_recv: now, ..pc });
            k = k + 1;
        }
        let data = serialize(&self.state);
        proof {
            assert(old(self).history().len() == 0);
            assert(self.history_g@ =~= Seq::<Seq<BoxInput>>::empty());
            assert(self.history_g@.take(0) =~= self.history_g@);
            assert(run_from(self.init_view_g@, self.history_g@) == self.init_view_g@);
        }
        self.store.save(0, data);
        self.started = true;
        self.status = if self.peers.len() == 0 {
            SessionStatus::Running
        } else {
            SessionStatus::Synchronizing
        };
        proof {
            assert(self.store@.snaps.len() == 1);
            assert(self.store@.snaps[0].0 == 0);
            assert(self.store@.contains_frame(0));
            assert forall|pp: int| 0 <= pp < self.queues@.len() implies (
            #[trigger] self.queue_models()[pp]).wf() by {
                assert(self.queue_models()[pp] == self.queues@[pp]@);
            }
        }
        Ok(())
    }

    /// The queue of one player, as stored; internal.
    pub closed spec fn queues_at(self, p: int) -> InputQueue {
        self.queues@[p]
    }

    /// Why a local input is rejected, if it is.
    pub open spec fn local_input_error(self, handle: u32) -> Option<SessionError> {
        if !self.is_started() {
            Some(SessionError::NotStarted)
        } else if self.status_of() == SessionStatus::Disconnected {
            Some(SessionError::Disconnected)
        } else if self.status_of() == SessionStatus::Synchronizing {
            Some(SessionError::NotSynchronized)
        } else if handle as int >= self.num_players() {
            Some(SessionError::UnknownPlayer { handle })
        } else if self.roles_of()[handle as int] != Some(PlayerRole::Local) {
            Some(SessionError::NotLocalPlayer { handle })
        } else if self.frame() >= FRAME_LIMIT {
            Some(SessionError::FrameLimitReached)
        } else if self.queue_models()[handle as int].in_range(self.frame() + self.delay())
            && self.queue_models()[handle as int].entry_at(self.frame() + self.delay()).confirmed {
            Some(SessionError::InputAlreadyGiven { frame: (self.frame() + self.delay()) as u32 })
        } else {
            None
        }
    }

    /// Records this tick's local input for one local player. Input delay
    /// applies: an input sampled at frame `f` is scheduled, already confirmed
    /// (the player authored it), for frame `f + input_delay`. Giving the same
    /// player two inputs in one frame is rejected.
    pub fn add_local_input(&mut self, handle: u32, input: BoxInput) -> (r: Result<
        (),
        SessionError,
    >)
        requires
            old(self).inv(),
        ensures
            final(self).inv(),
            r matches Err(e) ==> Some(e) == old(self).local_input_error(handle) && *final(self)
                == *old(self),
            r is Ok <==> old(self).local_input_error(handle) is None,
            r is Ok ==> {
                &&& final(self).queue_models() == old(self).queue_models().update(
                    handle as int,
                    old(self).queue_models()[handle as int].recorded(
                        old(self).frame() + old(self).delay(),
                        input,
                        true,
                    ),
                )
                &&& final(self).frame() == old(self).frame()
                &&& final(self).history() == old(self).history()
                &&& final(self).state_view() == old(self).state_view()
                &&& final(self).status_of() == old(self).status_of()
                &&& final(self).pending() == old(self).pending()
                &&& final(self).peers_of() == old(self).peers_of()
                &&& final(self).cfg() == old(self).cfg()
                &&& final(self).kind_of() == old(self).kind_of()
                &&& final(self).roles_of() == old(self).roles_of()
                &&& final(self).store_model() == old(self).store_model()
                &&& final(self).outbox_model() == old(self).outbox_model()
                &&& final(self).is_started()
            },
    {
        if !self.started {
            return Err(SessionError::NotStarted);
        }
        match self.status {
            SessionStatus::Disconnected => {
                return Err(SessionError::Disconnected);
            },
            SessionStatus::Synchronizing => {
                return Err(SessionError::NotSynchronized);
            },
            SessionStatus::Running => {},
        }
        if handle >= self.config.num_players {
            return Err(SessionError::UnknownPlayer { handle });
        }
        let h = handle as usize;
        let is_local = matches!(self.roles[h], Some(PlayerRole::Local));
        if !is_local {
            return Err(SessionError::NotLocalPlayer { handle });
        }
        let frame = self.state.frame_count.frame;
        if frame >= FRAME_LIMIT {
            return Err(SessionError::FrameLimitReached);
        }
        let target = frame + self.config.input_delay;
        let ghost q0 = self.queues@[h as int]@;
        proof {
            assert(q0 == old(self).queue_models()[h as int]);
            assert(q0.first <= frame as int);
        }
        if self.queues[h].has_confirmed_entry(target) {
            return Err(SessionError::InputAlreadyGiven { frame: target });
        }
        self.queues[h].record(target, input, true);
        proof {
            crate::input::lemma_recorded_shape(q0, target as int, input, true);
            assert(final(self).queue_models() =~= old(self).queue_models().update(
                h as int,
                q0.recorded(target as int, input, true),
            ));
            let se = *self;
            assert forall|p: int, f: int|
                0 <= p < se.num_players() && se.queue_models()[p].first <= f < se.pending_eff()
                    implies (#[trigger] se.queue_models()[p].entry_at(f)).input
                == se.history()[f][p] && se.queue_models()[p].in_range(f) by {
                if p == h as int {
                    assert(f < frame as int + 1);
                    assert(f != target as int);
                    assert(old(self).queue_models()[p].entry_at(f).input == old(
                        self,
                    ).history()[f][p]);
                }
            }
        }
        Ok(())
    }

    /// Why this driver iteration refuses to run, if it does: the terminal and
    /// not-yet-running conditions, a peer timed out as of `now`, the frame
    /// limit, or a rollback target whose snapshot is no longer retained.
    pub open spec fn advance_error(self, now: u64) -> Option<SessionError> {
        if !self.is_started() {
            Some(SessionError::NotStarted)
        } else if self.status_of() == SessionStatus::Disconnected {
            Some(SessionError::Disconnected)
        } else if self.status_of() == SessionStatus::Synchronizing {
            Some(SessionError::NotSynchronized)
        } else if exists|k: int|
            0 <= k < self.peers_of().len() && now > (#[trigger] self.peers_of()[k]).last_recv
                + self.cfg().disconnect_timeout {
            Some(SessionError::Disconnected)
        } else if self.frame() >= FRAME_LIMIT {
            Some(SessionError::FrameLimitReached)
        } else {
            match self.pending() {
                Some(rb) => if (rb as int) >= self.frame() {
                    None
                } else if !self.store_model().contains_frame(rb as int) {
                    Some(SessionError::SnapshotMissing { frame: rb })
                } else if exists|p: int|
                    0 <= p < self.num_players() && (rb as int) < (
                    #[trigger] self.queue_models()[p]).first {
                    Some(SessionError::InputsPruned { frame: rb })
                } else {
                    None
                },
                None => None,
            }
        }
    }

    /// The input history after the pending rollback (if one is at a simulated
    /// frame) is repaired: the stale predicted tail is replaced by what the
    /// queues now hold for those frames.
    pub open spec fn rolled_history(self) -> Seq<Seq<BoxInput>> {
        match self.pending() {
            Some(rb) => if (rb as int) < self.frame() {
                self.history().take(rb as int) + Seq::new(
                    (self.frame() - rb) as nat,
                    |k: int| self.inputs_at(rb + k),
                )
            } else {
                self.history()
            },
            None => self.history(),
        }
    }

    /// Where queue entries are pruned to after an advance: nothing confirmed
    /// by every player and older than the prediction window is kept.
    pub open spec fn prune_cutoff(self) -> int {
        let by_window = self.frame() + 1 - self.window();
        let floor0 = if by_window >= 0 {
            by_window
        } else {
            0
        };
        if self.frontier() <= floor0 {
            self.frontier()
        } else {
            floor0
        }
    }

    /// The least confirmed-until over all queues, computed.
    fn compute_frontier(&self) -> (c: u32)
        requires
            self.inv(),
        ensures
            c as int == self.frontier(),
    {
        let n = self.queues.len();
        proof {
            assert forall|p: int| 0 <= p < self.queues@.len() implies (
            #[trigger] self.queues@[p])@.wf() by {
                assert(self.queue_models()[p] == self.queues@[p]@);
            }
        }
        let mut c = self.queues[0].confirmed_frontier();
        proof {
            assert(self.queue_models().take(1) =~= seq![self.queue_models()[0]]);
            assert(frontier_of(self.queue_models().take(1)) == c as int);
        }
        let mut p: usize = 1;
        while p < n
            invariant
                1 <= p <= n,
                self.inv(),
                n == self.queues@.len(),
                c as int == frontier_of(self.queue_models().take(p as int)),
            decreases n - p,
        {
            proof {
                assert(self.queue_models()[p as int] == self.queues@[p as int]@);
            }
            let cp = self.queues[p].confirmed_frontier();
            proof {
                lemma_frontier_snoc(
                    self.queue_models().take(p as int),
                    self.queue_models()[p as int],
                );
                assert(self.queue_models().take(p as int).push(self.queue_models()[p as int])
                    =~= self.queue_models().take(p + 1));
            }
            if cp < c {
                c = cp;
            }
            p = p + 1;
        }
        proof {
            assert(self.queue_models().take(n as int) =~= self.queue_models());
        }
        c
    }

    /// Restores the snapshot at the pending divergence and re-simulates up to
    /// the current frame with the now-corrected inputs; the repaired history
    /// replaces the stale predicted one. A rollback target older than the
    /// retained snapshots is a fatal provisioning violation: the session
    /// aborts rather than continue from a silently wrong state.
    fn apply_rollback(&mut self, rb: u32) -> (r: Result<(), SessionError>)
        requires
            old(self).inv(),
            old(self).is_started(),
            old(self).status_of() == SessionStatus::Running,
            old(self).pending() == Some(rb),
            (rb as int) < old(self).frame(),
            old(self).frame() < FRAME_LIMIT,
        ensures
            final(self).inv(),
            final(self).cfg() == old(self).cfg(),
            final(self).kind_of() == old(self).kind_of(),
            final(self).roles_of() == old(self).roles_of(),
            final(self).peers_of() == old(self).peers_of(),
            final(self).init_of() == old(self).init_of(),
            final(self).queue_models() == old(self).queue_models(),
            final(self).frame() == old(self).frame(),
            final(self).outbox_model() == old(self).outbox_model(),
            final(self).is_started(),
            r is Ok <==> (old(self).store_model().contains_frame(rb as int) && forall|p: int|
                0 <= p < old(self).num_players() ==> (rb as int) >= (
                #[trigger] old(self).queue_models()[p]).first),
            r matches Err(e) ==> {
                &&& (e == (SessionError::SnapshotMissing { frame: rb }) <==> !old(
                    self,
                ).store_model().contains_frame(rb as int))
                &&& (e == (SessionError::SnapshotMissing { frame: rb }) || e == (
                SessionError::InputsPruned { frame: rb }))
                &&& final(self).status_of() == SessionStatus::Disconnected
                &&& final(self).history() == old(self).history()
                &&& final(self).state_view() == old(self).state_view()
                &&& final(self).pending() == old(self).pending()
            },
            r is Ok ==> {
                &&& final(self).history() == old(self).rolled_history()
                &&& final(self).pending() is None
                &&& final(self).status_of() == old(self).status_of()
            },
    {
        let frame = self.state.frame_count.frame;
        proof {
            assert((frame as int) < u32::MAX);
        }
        let ghost h0 = self.history_g@;
        let ghost init = self.init_view_g@;
        let ghost n = self.num_players();
        let restored: SimState;
        match self.store.get(rb) {
            None => {
                self.status = SessionStatus::Disconnected;
                return Err(SessionError::SnapshotMissing { frame: rb });
            },
            Some(data) => {
                let nq = self.queues.len();
                let mut pq: usize = 0;
                while pq < nq
                    invariant
                        0 <= pq <= nq,
                        *self == *old(self),
                        old(self).inv(),
                        nq == self.queues@.len(),
                        old(self).store_model().contains_frame(rb as int),
                        forall|j: int|
                            0 <= j < pq ==> (rb as int) >= (
                            #[trigger] old(self).queue_models()[j]).first,
                    decreases nq - pq,
                {
                    proof {
                        assert(old(self).queue_models()[pq as int] == self.queues@[pq as int]@);
                    }
                    if self.queues[pq].frame_floor() > rb {
                        self.status = SessionStatus::Disconnected;
                        return Err(SessionError::InputsPruned { frame: rb });
                    }
                    pq = pq + 1;
                }
                let ghost target = run_from(init, h0.take(rb as int));
                proof {
                    crate::sim::lemma_initial_view_wf(n);
                    assert forall|f: int| 0 <= f < h0.take(rb as int).len() implies (
                    #[trigger] h0.take(rb as int)[f]).len() == n by {
                        assert(h0[f].len() == n);
                    }
                    crate::sim::lemma_run_from_wf(init, h0.take(rb as int));
                    assert(data@ == encode_state(target));
                }
                match deserialize(data) {
                    Some(s) => {
                        restored = s;
                        proof {
                            assert(s@ == target);
                        }
                    },
                    None => {
                        proof {
                            assert(false);
                        }
                        return Err(SessionError::SnapshotMissing { frame: rb });
                    },
                }
            },
        }
        self.state = restored;
        self.store.discard_after(rb);
        self.history_g = Ghost(h0.take(rb as int));
        self.pending_rollback = None;
        proof {
            assert(self.state@.frame_count.frame == rb) by {
                lemma_frame_of_run(init, h0.take(rb as int));
            }
            assert forall|i: int| 0 <= i < self.store@.snaps.len() implies (
            #[trigger] self.store@.snaps[i]).1 == encode_state(
                run_from(init, self.history_g@.take(self.store@.snaps[i].0 as int)),
            ) by {
                let fr = self.store@.snaps[i].0 as int;
                assert(self.store@.snaps[i] == old(self).store_model().snaps[i]);
                assert(fr <= rb as int);
                assert(h0.take(rb as int).take(fr) =~= h0.take(fr));
            }
        }
        let mut f = rb;
        while f < frame
            invariant
                rb <= f <= frame,
                (frame as int) < u32::MAX,
                n == old(self).num_players(),
                init == old(self).init_of(),
                h0 == old(self).history(),
                h0.len() == frame,
                old(self).inv(),
                self.config == old(self).cfg(),
                self.kind == old(self).kind_of(),
                self.status == old(self).status_of(),
                self.started,
                self.roles@ == old(self).roles_of(),
                self.peers@ == old(self).peers_of(),
                self.outbox@.len() == old(self).outbox_model().len(),
                self.outbox == old(self).outbox_frozen(),
                self.pending_rollback is None,
                self.init_view_g@ == init,
                self.queue_models() == old(self).queue_models(),
                self.queues@.len() == n,
                self.history_g@.len() == f,
                self.history_g@ == h0.take(rb as int) + Seq::new(
                    (f - rb) as nat,
                    |k: int| old(self).inputs_at(rb + k),
                ),
                forall|ff: int|
                    0 <= ff < self.history_g@.len() ==> (#[trigger] self.history_g@[ff]).len()
                        == n,
                self.state@ == run_from(init, self.history_g@),
                self.state@.wf(),
                self.state@.players.len() == n,
                self.state@.frame_count.frame == f,
                self.store@.wf(),
                self.store@.capacity == old(self).window() + 2,
                forall|i: int|
                    0 <= i < self.store@.snaps.len() ==> (#[trigger] self.store@.snaps[i]).0 as int
                        <= f,
                forall|i: int|
                    0 <= i < self.store@.snaps.len() ==> (#[trigger] self.store@.snaps[i]).1
                        == encode_state(
                        run_from(init, self.history_g@.take(self.store@.snaps[i].0 as int)),
                    ),
            decreases frame - f,
        {
            proof {
                assert forall|p: int| 0 <= p < self.queues@.len() implies (
                #[trigger] self.queues@[p])@.wf() by {
                    assert(self.queue_models()[p] == self.queues@[p]@);
                    assert(old(self).queue_models()[p].wf());
                }
            }
            let inputs = gather_inputs(&self.queues, f);
            proof {
                assert forall|p: int| 0 <= p < self.queues@.len() implies inputs@[p] == old(
                    self,
                ).queue_models()[p].lookup(f as int) by {
                    assert(self.queue_models()[p] == self.queues@[p]@);
                }
                assert(inputs@ =~= old(self).inputs_at(f as int));
            }
            let next = tick(&self.state, &inputs);
            let data = serialize(&next);
            let ghost hprev = self.history_g@;
            self.state = next;
            self.history_g = Ghost(hprev.push(inputs@));
            proof {
                crate::sim::lemma_run_from_snoc(init, hprev, inputs@);
                assert(self.history_g@ =~= h0.take(rb as int) + Seq::new(
                    (f + 1 - rb) as nat,
                    |k: int| old(self).inputs_at(rb + k),
                ));
                assert forall|i: int| 0 <= i < self.store@.snaps.len() implies (
                #[trigger] self.store@.snaps[i]).1 == encode_state(
                    run_from(init, self.history_g@.take(self.store@.snaps[i].0 as int)),
                ) by {
                    let fr = self.store@.snaps[i].0 as int;
                    assert(self.history_g@.take(fr) =~= hprev.take(fr));
                }
            }
            self.store.save(f + 1, data);
            proof {
                assert(self.history_g@.take(f + 1) =~= self.history_g@);
            }
            f = f + 1;
        }
        proof {
            assert(self.history_g@ == old(self).rolled_history());
            let se = *self;
            assert forall|p: int, ff: int|
                0 <= p < se.num_players() && se.queue_models()[p].first <= ff < se.pending_eff()
                    implies (#[trigger] se.queue_models()[p].entry_at(ff)).input
                == se.history()[ff][p] && se.queue_models()[p].in_range(ff) by {
                let q = se.queue_models()[p];
                assert(q == old(self).queue_models()[p]);
                if ff < rb as int {
                    assert(ff < old(self).pending_eff());
                    assert(se.history()[ff] == h0.take(rb as int)[ff]);
                } else {
                    assert(q.end() >= frame);
                    assert(q.in_range(ff));
                    assert(se.history()[ff] == old(self).inputs_at(ff));
                    assert(old(self).inputs_at(ff)[p] == q.lookup(ff));
                }
            }
        }
        Ok(())
    }

    /// The stored outbox, for framing; internal.
    pub closed spec fn outbox_frozen(self) -> Vec<OutgoingDatagram> {
        self.outbox
    }

    /// One driver iteration. In order: terminal and not-yet-running states
    /// are errors; peer silence past the disconnect timeout is fatal and
    /// terminal; a pending divergence is repaired by rollback and replay;
    /// then — backpressure — the clock stalls exactly when the current frame
    /// has run a full prediction window past the last fully-confirmed frame,
    /// and otherwise one best-known input per player is gathered (recording
    /// the predictions it relies on), the tick function advances the state,
    /// the result is snapshotted, and entries older than both the confirmed
    /// frontier and the window are pruned.
    #[verifier::rlimit(100)]
    pub fn advance_one_tick(&mut self, now: u64) -> (r: Result<TickOutcome, SessionError>)
        requires
            old(self).inv(),
        ensures
            final(self).inv(),
            final(self).cfg() == old(self).cfg(),
            final(self).kind_of() == old(self).kind_of(),
            final(self).roles_of() == old(self).roles_of(),
            final(self).peers_of() == old(self).peers_of(),
            final(self).init_of() == old(self).init_of(),
            r matches Err(e) ==> Some(e) == old(self).advance_error(now),
            r is Ok <==> old(self).advance_error(now) is None,
            final(self).outbox_model() == old(self).outbox_model(),
            r matches Err(e) ==> {
                &&& final(self).frame() == old(self).frame()
                &&& final(self).history() == old(self).history()
                &&& final(self).state_view() == old(self).state_view()
                &&& final(self).queue_models() == old(self).queue_models()
                &&& final(self).pending() == old(self).pending()
                &&& ((e == SessionError::Disconnected && old(self).status_of()
                    == SessionStatus::Running) ==> final(self).status_of()
                    == SessionStatus::Disconnected)
                &&& ((e matches SessionError::SnapshotMissing { .. }) ==> final(self).status_of()
                    == SessionStatus::Disconnected)
                &&& ((e matches SessionError::InputsPruned { .. }) ==> final(self).status_of()
                    == SessionStatus::Disconnected)
            },
            (r == Ok::<TickOutcome, SessionError>(TickOutcome::Stalled)) <==> (old(self).advance_error(now) is None && old(
                self,
            ).window_exhausted()),
            r == Ok::<TickOutcome, SessionError>(TickOutcome::Stalled) ==> {
                &&& final(self).frame() == old(self).frame()
                &&& final(self).history() == old(self).rolled_history()
                &&& final(self).queue_models() == old(self).queue_models()
                &&& final(self).pending() is None
                &&& final(self).status_of() == old(self).status_of()
            },
            (r is Ok && r != Ok::<TickOutcome, SessionError>(TickOutcome::Stalled)) ==> {
                &&& final(self).frame() == old(self).frame() + 1
                &&& final(self).history() == old(self).rolled_history().push(
                    old(self).inputs_at(old(self).frame()),
                )
                &&& final(self).state_view() == run_from(old(self).init_of(), final(self).history())
                &&& final(self).pending() is None
                &&& final(self).status_of() == old(self).status_of()
                &&& (forall|p: int|
                    0 <= p < old(self).num_players() ==> final(self).queue_models()[p]
                        == predicted_at(#[trigger] old(self).queue_models()[p], old(self).frame())
                        .pruned(old(self).prune_cutoff()))
                &&& (match old(self).pending() {
                    Some(rb) => r == (if (rb as int) < old(self).frame() {
                        Ok::<TickOutcome, SessionError>(TickOutcome::AdvancedAfterRollback { rollback_frame: rb })
                    } else {
                        Ok::<TickOutcome, SessionError>(TickOutcome::Advanced)
                    }),
                    None => r == Ok::<TickOutcome, SessionError>(TickOutcome::Advanced),
                })
            },
    {
        if !self.started {
            return Err(SessionError::NotStarted);
        }
        match self.status {
            SessionStatus::Disconnected => {
                return Err(SessionError::Disconnected);
            },
            SessionStatus::Synchronizing => {
                return Err(SessionError::NotSynchronized);
            },
            SessionStatus::Running => {},
        }
        let np = self.peers.len();
        let timeout = self.config.disconnect_timeout;
        let mut k: usize = 0;
        while k < np
            invariant
                0 <= k <= np,
                *self == *old(self),
                old(self).inv(),
                old(self).is_started(),
                old(self).status_of() == SessionStatus::Running,
                np == self.peers@.len(),
                timeout == old(self).cfg().disconnect_timeout,
                forall|j: int|
                    0 <= j < k ==> !(now > (#[trigger] self.peers@[j]).last_recv + timeout),
            decreases np - k,
        {
            let pc = self.peers[k];
            if now > pc.last_recv && now - pc.last_recv > timeout {
                self.status = SessionStatus::Disconnected;
                return Err(SessionError::Disconnected);
            }
            proof {
                assert(!(now > self.peers@[k as int].last_recv + timeout));
            }
            k = k + 1;
        }
        if self.state.frame_count.frame >= FRAME_LIMIT {
            return Err(SessionError::FrameLimitReached);
        }
        let mut rolled: Option<u32> = None;
        match self.pending_rollback {
            Some(rb) => {
                if rb < self.state.frame_count.frame {
                    match self.apply_rollback(rb) {
                        Ok(()) => {
                            rolled = Some(rb);
                        },
                        Err(e) => {
                            return Err(e);
                        },
                    }
                } else {
                    self.pending_rollback = None;
                }
            },
            None => {},
        }
        let ghost mid = *self;
        proof {
            assert(mid.inv());
            assert(mid.history() == old(self).rolled_history());
            assert(mid.queue_models() == old(self).queue_models());
            assert(mid.frame() == old(self).frame());
        }
        let frame = self.state.frame_count.frame;
        let frontier = self.compute_frontier();
        if frame as u64 >= frontier as u64 + self.config.max_prediction_window as u64 {
            proof {
                assert(old(self).window_exhausted());
            }
            return Ok(TickOutcome::Stalled);
        }
        proof {
            assert(!old(self).window_exhausted());
        }
        let n = self.config.num_players as usize;
        let mut p: usize = 0;
        while p < n
            invariant
                0 <= p <= n,
                mid.inv(),
                mid.pending() is None,
                n == mid.num_players(),
                frame as int == mid.frame(),
                (frame as int) < FRAME_LIMIT,
                self.config == mid.cfg(),
                self.kind == mid.kind_of(),
                self.status == mid.status_of(),
                self.started,
                self.roles@ == mid.roles_of(),
                self.store == mid.store_frozen(),
                self.state == mid.state_frozen(),
                self.peers@ == mid.peers_of(),
                self.pending_rollback is None,
                self.outbox == mid.outbox_frozen(),
                self.init_view_g@ == mid.init_of(),
                self.history_g@ == mid.history(),
                self.queues@.len() == n,
                forall|j: int|
                    0 <= j < p ==> (#[trigger] self.queues@[j])@ == predicted_at(
                        mid.queue_models()[j],
                        frame as int,
                    ),
                forall|j: int|
                    p <= j < n ==> (#[trigger] self.queues@[j])@ == mid.queue_models()[j],
            decreases n - p,
        {
            proof {
                assert(mid.queue_models()[p as int].wf());
                assert(mid.queue_models()[p as int].first <= frame as int);
            }
            if !self.queues[p].has_entry(frame) {
                let v = self.queues[p].get(frame);
                self.queues[p].record(frame, v, false);
            }
            p = p + 1;
        }
        proof {
            assert forall|j: int| 0 <= j < self.queues@.len() implies (
            #[trigger] self.queues@[j])@.wf() by {
                crate::input::lemma_recorded_shape(
                    mid.queue_models()[j],
                    frame as int,
                    mid.queue_models()[j].fallback,
                    false,
                );
            }
        }
        let inputs = gather_inputs(&self.queues, frame);
        proof {
            assert forall|j: int| 0 <= j < n as int implies inputs@[j] == mid.queue_models()[j]
                .lookup(frame as int) by {
                let q = mid.queue_models()[j];
                crate::input::lemma_recorded_shape(q, frame as int, q.fallback, false);
                assert(self.queues@[j]@ == predicted_at(q, frame as int));
                if !q.in_range(frame as int) {
                    assert(self.queues@[j]@.entry_at(frame as int).input == q.fallback);
                }
            }
            assert(inputs@ =~= mid.inputs_at(frame as int));
            assert(mid.inputs_at(frame as int) =~= old(self).inputs_at(old(self).frame()));
        }
        let next = tick(&self.state, &inputs);
        let data = serialize(&next);
        let ghost hmid = self.history_g@;
        self.state = next;
        self.history_g = Ghost(hmid.push(inputs@));
        proof {
            crate::sim::lemma_run_from_snoc(mid.init_of(), hmid, inputs@);
            assert forall|i: int| 0 <= i < self.store@.snaps.len() implies (
            #[trigger] self.store@.snaps[i]).1 == encode_state(
                run_from(mid.init_of(), self.history_g@.take(self.store@.snaps[i].0 as int)),
            ) by {
                let fr = self.store@.snaps[i].0 as int;
                assert(self.history_g@.take(fr) =~= hmid.take(fr));
            }
        }
        self.store.save(frame + 1, data);
        proof {
            assert(self.history_g@.take(frame + 1) =~= self.history_g@);
        }
        let by_w = if frame + 1 >= self.config.max_prediction_window {
            frame + 1 - self.config.max_prediction_window
        } else {
            0
        };
        let cut = if frontier <= by_w {
            frontier
        } else {
            by_w
        };
        proof {
            assert(cut as int == old(self).prune_cutoff());
        }
        let ghost qs_mid = Seq::new(
            n as nat,
            |j: int| predicted_at(mid.queue_models()[j], frame as int),
        );
        let mut p2: usize = 0;
        while p2 < n
            invariant
                0 <= p2 <= n,
                mid.inv(),
                n == mid.num_players(),
                frame as int == mid.frame(),
                (frame as int) < FRAME_LIMIT,
                cut <= frame + 1,
                self.config == mid.cfg(),
                self.kind == mid.kind_of(),
                self.status == mid.status_of(),
                self.started,
                self.roles@ == mid.roles_of(),
                self.peers@ == mid.peers_of(),
                self.pending_rollback is None,
                self.outbox == mid.outbox_frozen(),
                self.init_view_g@ == mid.init_of(),
                self.history_g@ == mid.history().push(old(self).inputs_at(old(self).frame())),
                self.state@ == run_from(mid.init_of(), self.history_g@),
                self.state@.wf(),
                self.state@.players.len() == n,
                self.state@.frame_count.frame == frame + 1,
                self.store@.wf(),
                self.store@.capacity == mid.window() + 2,
                forall|i: int|
                    0 <= i < self.store@.snaps.len() ==> (#[trigger] self.store@.snaps[i]).0 as int
                        <= frame + 1,
                forall|i: int|
                    0 <= i < self.store@.snaps.len() ==> (#[trigger] self.store@.snaps[i]).1
                        == encode_state(
                        run_from(
                            mid.init_of(),
                            self.history_g@.take(self.store@.snaps[i].0 as int),
                        ),
                    ),
                qs_mid == Seq::new(
                    n as nat,
                    |j: int| predicted_at(mid.queue_models()[j], frame as int),
                ),
                self.queues@.len() == n,
                forall|j: int|
                    0 <= j < p2 ==> (#[trigger] self.queues@[j])@ == qs_mid[j].pruned(cut as int),
                forall|j: int| p2 <= j < n ==> (#[trigger] self.queues@[j])@ == qs_mid[j],
            decreases n - p2,
        {
            proof {
                let q = mid.queue_models()[p2 as int];
                crate::input::lemma_recorded_shape(q, frame as int, q.fallback, false);
                assert(self.queues@[p2 as int]@ == qs_mid[p2 as int]);
                assert(self.queues@[p2 as int]@.wf());
            }
            self.queues[p2].prune(cut);
            p2 = p2 + 1;
        }
        proof {
            let se = *self;
            assert forall|j: int| 0 <= j < n as int implies (#[trigger] se.queue_models()[j]).wf()
                && se.queue_models()[j].end() >= frame + 1 && se.queue_models()[j].first <= frame
                + 1 by {
                let q = mid.queue_models()[j];
                crate::input::lemma_recorded_shape(q, frame as int, q.fallback, false);
                crate::input::lemma_pruned_shape(qs_mid[j], cut as int);
                assert(se.queue_models()[j] == qs_mid[j].pruned(cut as int));
            }
            assert forall|pp: int, ff: int|
                0 <= pp < se.num_players() && se.queue_models()[pp].first <= ff
                    < se.pending_eff() implies (
            #[trigger] se.queue_models()[pp].entry_at(ff)).input == se.history()[ff][pp]
                && se.queue_models()[pp].in_range(ff) by {
                let q = mid.queue_models()[pp];
                let qp = qs_mid[pp];
                crate::input::lemma_recorded_shape(q, frame as int, q.fallback, false);
                crate::input::lemma_pruned_shape(qp, cut as int);
                assert(se.queue_models()[pp] == qp.pruned(cut as int));
                assert(se.pending_eff() == frame + 1);
                assert(qp.pruned(cut as int).entry_at(ff) == qp.entry_at(ff));
                if ff < frame as int {
                    assert(q.in_range(ff));
                    assert(qp.entry_at(ff) == q.entry_at(ff));
                    assert(q.entry_at(ff).input == mid.history()[ff][pp]);
                    assert(se.history()[ff] == mid.history()[ff]);
                } else {
                    assert(ff == frame as int);
                    assert(qp.in_range(ff));
                    assert(qp.entry_at(ff).input == q.lookup(ff));
                    assert(se.history()[ff] == old(self).inputs_at(old(self).frame()));
                    assert(old(self).inputs_at(old(self).frame())[pp] == q.lookup(ff));
                }
            }
        }
        match rolled {
            Some(rb) => Ok(TickOutcome::AdvancedAfterRollback { rollback_frame: rb }),
            None => Ok(TickOutcome::Advanced),
        }
    }

    /// Applies one received protocol packet: answers handshake requests,
    /// completes the handshake on a matching reply, and installs input runs
    /// via `confirm`, raising a rollback request at the earliest frame whose
    /// confirmed input contradicts what was predicted. A datagram from an
    /// unknown endpoint, or inputs for a player the peer does not own, are
    /// absorbed silently. The simulation state itself never moves here:
    /// network receive only enqueues input records.
    #[verifier::rlimit(100)]
    pub fn handle_packet(&mut self, from_peer: u32, packet: &Packet, now: u64) -> (r: Result<
        (),
        SessionError,
    >)
        requires
            old(self).inv(),
            packet@.wf(),
        ensures
            final(self).inv(),
            r is Err <==> !old(self).is_started(),
            r matches Err(e) ==> e == SessionError::NotStarted && *final(self) == *old(self),
            r is Ok ==> packet_transition(*old(self), *final(self), from_peer, packet@, now),
    {
        if !self.started {
            return Err(SessionError::NotStarted);
        }
        let np = self.peers.len();
        let mut k: usize = 0;
        let mut idx: usize = np;
        while k < np
            invariant
                0 <= k <= np,
                *self == *old(self),
                old(self).inv(),
                old(self).is_started(),
                np == self.peers@.len(),
                idx == np || (0 <= idx < k && self.peers@[idx as int].peer == from_peer),
                idx == np ==> forall|j: int|
                    0 <= j < k ==> (#[trigger] self.peers@[j]).peer != from_peer,
            decreases np - k,
        {
            if idx == np && self.peers[k].peer == from_peer {
                idx = k;
            }
            k = k + 1;
        }
        if idx == np {
            proof {
                assert(!old(self).has_peer(from_peer));
            }
            return Ok(());
        }
        proof {
            assert(old(self).has_peer(from_peer));
            let ki = old(self).peer_index(from_peer);
            assert(0 <= ki < np && old(self).peers_of()[ki].peer == from_peer);
            if ki != idx as int {
                assert(old(self).peers_of()[ki].peer != old(self).peers_of()[idx as int].peer);
            }
            assert(old(self).peer_index(from_peer) == idx as int);
        }
        let pc = self.peers[idx];
        self.peers.set(idx, PeerConnection { last_recv: now, ..pc });
        match packet {
            Packet::SyncRequest { token } => {
                let reply = Packet::SyncReply { token: *token };
                let data = crate::wire::encode(&reply);
                self.outbox.push(OutgoingDatagram { peer: from_peer, data });
                proof {
                    assert(final(self).outbox_model() =~= old(self).outbox_model().push(
                        (from_peer, encode_packet(PacketModel::SyncReply { token: *token })),
                    ));
                }
                Ok(())
            },
            Packet::SyncReply { token } => {
                if matches!(pc.mode, PeerMode::Synchronizing) && *token == pc.token {
                    self.peers.set(
                        idx,
                        PeerConnection { mode: PeerMode::Running, last_recv: now, ..pc },
                    );
                }
                let mut all = true;
                let mut j: usize = 0;
                let ghost snap = *self;
                while j < np
                    invariant
                        0 <= j <= np,
                        *self == snap,
                        np == self.peers@.len(),
                        all <==> forall|i: int|
                            0 <= i < j ==> (#[trigger] self.peers@[i]).mode == PeerMode::Running,
                    decreases np - j,
                {
                    if !matches!(self.peers[j].mode, PeerMode::Running) {
                        proof {
                            assert(self.peers@[j as int].mode != PeerMode::Running);
                        }
                        all = false;
                    }
                    j = j + 1;
                }
                if all && matches!(self.status, SessionStatus::Synchronizing) {
                    self.status = SessionStatus::Running;
                }
                proof {
                    assert(all <==> all_peers_running(final(self).peers_of()));
                }
                Ok(())
            },
            Packet::Input { player, start_frame, ack_frame, inputs } => {
                if *player != pc.player || *player >= self.config.num_players {
                    return Ok(());
                }
                let cur = self.peers[idx];
                let new_ack = if *ack_frame > cur.acked_until {
                    *ack_frame
                } else {
                    cur.acked_until
                };
                self.peers.set(idx, PeerConnection { acked_until: new_ack, ..cur });
                let pl = *player as usize;
                let start = *start_frame;
                let m = inputs.len();
                let ghost q0 = self.queues@[pl as int]@;
                let ghost mid = *self;
                proof {
                    assert(q0 == old(self).queue_models()[pl as int]);
                    assert(q0.wf());
                }
                let mut div_frame: Option<u32> = None;
                let mut i: usize = 0;
                while i < m
                    invariant
                        0 <= i <= m,
                        m == inputs@.len(),
                        1 <= m <= MAX_INPUT_SPAN,
                        start + m <= u32::MAX,
                        q0.wf(),
                        q0 == mid.queue_models()[pl as int],
                        0 <= pl < mid.queue_models().len(),
                        self.config == mid.cfg(),
                        self.kind == mid.kind_of(),
                        self.status == mid.status_of(),
                        self.started,
                        self.roles@ == mid.roles_of(),
                        self.store == mid.store_frozen(),
                        self.state == mid.state_frozen(),
                        self.peers@ == mid.peers_of(),
                        self.pending_rollback == mid.pending(),
                        self.outbox == mid.outbox_frozen(),
                        self.init_view_g == mid.init_frozen(),
                        self.history_g@ == mid.history(),
                        self.queues@.len() == mid.queue_models().len(),
                        forall|jj: int|
                            0 <= jj < self.queues@.len() && jj != pl ==> (
                            #[trigger] self.queues@[jj])@ == mid.queue_models()[jj],
                        self.queues@[pl as int]@ == confirm_run(
                            q0,
                            start as int,
                            inputs@.take(i as int),
                        ),
                        div_frame == (match earliest_divergence(
                            q0,
                            start as int,
                            inputs@.take(i as int),
                        ) {
                            Some(d) => Some(d as u32),
                            None => None::<u32>,
                        }),
                    decreases m - i,
                {
                    proof {
                        crate::sync::lemma_confirm_run_shape(
                            q0,
                            start as int,
                            inputs@.take(i as int),
                        );
                    }
                    let diverged = self.queues[pl].confirm(
                        start + i as u32,
                        BoxInput { inp: inputs[i] },
                    );
                    if diverged && div_frame.is_none() {
                        div_frame = Some(start + i as u32);
                    }
                    proof {
                        crate::sync::lemma_confirm_run_snoc(
                            q0,
                            start as int,
                            inputs@.take(i as int),
                            inputs@[i as int],
                        );
                        crate::sync::lemma_earliest_divergence_snoc(
                            q0,
                            start as int,
                            inputs@.take(i as int),
                            inputs@[i as int],
                        );
                        assert(inputs@.take(i as int).push(inputs@[i as int]) =~= inputs@.take(
                            i + 1,
                        ));
                    }
                    i = i + 1;
                }
                proof {
                    assert(inputs@.take(m as int) =~= inputs@);
                }
                match (self.pending_rollback, div_frame) {
                    (Some(x), Some(y)) => {
                        if y < x {
                            self.pending_rollback = Some(y);
                        }
                    },
                    (None, Some(y)) => {
                        self.pending_rollback = Some(y);
                    },
                    _ => {},
                }
                proof {
                    let se = *self;
                    let run = confirm_run(q0, start as int, inputs@);
                    let dv = earliest_divergence(q0, start as int, inputs@);
                    crate::sync::lemma_confirm_run_shape(q0, start as int, inputs@);
                    crate::sync::lemma_earliest_divergence_bounds(q0, start as int, inputs@);
                    assert(se.queue_models() =~= old(self).queue_models().update(
                        pl as int,
                        run,
                    ));
                    assert(se.pending() == merged_pending(old(self).pending(), dv));
                    assert forall|pp: int, ff: int|
                        0 <= pp < se.num_players() && se.queue_models()[pp].first <= ff
                            < se.pending_eff() implies (
                    #[trigger] se.queue_models()[pp].entry_at(ff)).input == se.history()[ff][pp]
                        && se.queue_models()[pp].in_range(ff) by {
                        if pp == pl as int {
                            assert(ff < old(self).pending_eff());
                            assert(q0.in_range(ff));
                            crate::sync::lemma_confirm_run_values(q0, start as int, inputs@, ff);
                        } else {
                            assert(se.queue_models()[pp] == old(self).queue_models()[pp]);
                            assert(ff < old(self).pending_eff());
                        }
                    }
                }
                Ok(())
            },
        }
    }

    /// The stored initial-view ghost, for framing; internal.
    pub closed spec fn init_frozen(self) -> Ghost<StateView> {
        self.init_view_g
    }

    /// Parses one received datagram and applies it. A datagram that is not a
    /// well-formed packet encoding — corrupt, truncated, or foreign — is
    /// absorbed silently, as transient network noise must be.
    pub fn handle_message(&mut self, from_peer: u32, bytes: &Vec<u8>, now: u64) -> (r: Result<
        (),
        SessionError,
    >)
        requires
            old(self).inv(),
        ensures
            final(self).inv(),
            r is Err <==> !old(self).is_started(),
            r matches Err(e) ==> e == SessionError::NotStarted && *final(self) == *old(self),
            r is Ok ==> forall|m: PacketModel|
                m.wf() && bytes@ == #[trigger] encode_packet(m) ==> packet_transition(
                    *old(self),
                    *final(self),
                    from_peer,
                    m,
                    now,
                ),
            (r is Ok && (forall|m: PacketModel| m.wf() ==> bytes@ != #[trigger] encode_packet(m)))
                ==> *final(self) == *old(self),
    {
        if !self.started {
            return Err(SessionError::NotStarted);
        }
        match crate::wire::decode(bytes) {
            Some(packet) => {
                let r = self.handle_packet(from_peer, &packet, now);
                proof {
                    assert(r is Ok);
                }
                r
            },
            None => Ok(()),
        }
    }

    /// The stored snapshot store, for framing; internal.
    pub closed spec fn store_frozen(self) -> SnapshotStore {
        self.store
    }

    /// The stored simulation state, for framing; internal.
    pub closed spec fn state_frozen(self) -> SimState {
        self.state
    }

    /// Drains queued replies and builds this round's outbound datagrams: a
    /// handshake request per peer still synchronizing, and per running peer
    /// one input packet per local player carrying a sliding window of that
    /// player's most recent confirmed inputs, with an acknowledgment of the
    /// frames fully received from that peer. Both directions are owed: every
    /// emitted input value is a confirmed entry of a local queue (predictions
    /// are never transmitted), and while the session runs, every queued
    /// reply, every due handshake request, and every due input span is
    /// emitted.
    #[verifier::rlimit(100)]
    pub fn poll_outbound(&mut self) -> (r: Vec<OutgoingDatagram>)
        requires
            old(self).inv(),
        ensures
            final(self).inv(),
            final(self).cfg() == old(self).cfg(),
            final(self).kind_of() == old(self).kind_of(),
            final(self).roles_of() == old(self).roles_of(),
            final(self).init_of() == old(self).init_of(),
            final(self).frame() == old(self).frame(),
            final(self).history() == old(self).history(),
            final(self).state_view() == old(self).state_view(),
            final(self).queue_models() == old(self).queue_models(),
            final(self).pending() == old(self).pending(),
            final(self).peers_of() == old(self).peers_of(),
            final(self).status_of() == old(self).status_of(),
            final(self).is_started() == old(self).is_started(),
            final(self).outbox_model() == Seq::<(u32, Seq<u8>)>::empty(),
            old(self).status_of() == SessionStatus::Disconnected ==> r@.len() == old(
                self,
            ).outbox_model().len(),
            forall|i: int|
                0 <= i < r@.len() ==> outbound_ok(
                    *old(self),
                    (#[trigger] r@[i]).peer,
                    r@[i].data@,
                ),
            (old(self).is_started() && old(self).status_of() != SessionStatus::Disconnected)
                ==> {
                &&& (forall|j: int|
                    0 <= j < old(self).outbox_model().len() ==> contains_datagram(
                        r@,
                        (#[trigger] old(self).outbox_model()[j]).0,
                        old(self).outbox_model()[j].1,
                    ))
                &&& (forall|k: int|
                    0 <= k < old(self).peers_of().len() && (#[trigger] old(
                        self,
                    ).peers_of()[k]).mode == PeerMode::Synchronizing ==> contains_datagram(
                        r@,
                        old(self).peers_of()[k].peer,
                        encode_packet(
                            PacketModel::SyncRequest { token: old(self).peers_of()[k].token },
                        ),
                    ))
                &&& (forall|k: int, pl: int|
                    #[trigger] owes_input_span(*old(self), k, pl) ==> has_input_span(
                        *old(self),
                        r@,
                        k,
                        pl,
                    ))
            },
    {
        let mut out: Vec<OutgoingDatagram> = Vec::new();
        core::mem::swap(&mut self.outbox, &mut out);
        proof {
            assert(self.outbox_model() =~= Seq::<(u32, Seq<u8>)>::empty());
        }
        proof {
            assert forall|i: int| 0 <= i < out@.len() implies outbound_ok(
                *old(self),
                (#[trigger] out@[i]).peer,
                out@[i].data@,
            ) by {
                assert(old(self).outbox_model()[i] == (out@[i].peer, out@[i].data@));
            }
            assert forall|j: int| 0 <= j < old(self).outbox_model().len() implies
                contains_datagram(
                out@,
                (#[trigger] old(self).outbox_model()[j]).0,
                old(self).outbox_model()[j].1,
            ) by {
                assert((out@[j]).peer == old(self).outbox_model()[j].0);
                assert(out@[j].data@ == old(self).outbox_model()[j].1);
            }
        }
        if !self.started || matches!(self.status, SessionStatus::Disconnected) {
            return out;
        }
        let ghost base = *self;
        let np = self.peers.len();
        let mut k: usize = 0;
        while k < np
            invariant
                0 <= k <= np,
                *self == base,
                base.inv(),
                base.cfg() == old(self).cfg(),
                base.peers_of() == old(self).peers_of(),
                base.roles_of() == old(self).roles_of(),
                base.queue_models() == old(self).queue_models(),
                base.num_players() == old(self).num_players(),
                base.is_started(),
                np == self.peers@.len(),
                forall|i: int|
                    0 <= i < out@.len() ==> outbound_ok(
                        *old(self),
                        (#[trigger] out@[i]).peer,
                        out@[i].data@,
                    ),
                forall|j: int|
                    0 <= j < old(self).outbox_model().len() ==> contains_datagram(
                        out@,
                        (#[trigger] old(self).outbox_model()[j]).0,
                        old(self).outbox_model()[j].1,
                    ),
                forall|k2: int|
                    0 <= k2 < k && (#[trigger] old(self).peers_of()[k2]).mode
                        == PeerMode::Synchronizing ==> contains_datagram(
                        out@,
                        old(self).peers_of()[k2].peer,
                        encode_packet(
                            PacketModel::SyncRequest { token: old(self).peers_of()[k2].token },
                        ),
                    ),
                forall|k2: int, pl2: int|
                    #[trigger] owes_input_span(*old(self), k2, pl2) && k2 < k
                        ==> has_input_span(*old(self), out@, k2, pl2),
            decreases np - k,
        {
            let pc = self.peers[k];
            proof {
                assert(old(self).peers_of()[k as int] == pc);
            }
            match pc.mode {
                PeerMode::Synchronizing => {
                    let req = Packet::SyncRequest { token: pc.token };
                    let data = crate::wire::encode(&req);
                    let ghost d = data@;
                    let ghost prev = out@;
                    out.push(OutgoingDatagram { peer: pc.peer, data });
                    proof {
                        let pushed = out@.last();
                        assert(out@ == prev.push(pushed));
                        assert(outbound_ok(*old(self), pc.peer, d));
                        assert(out@[prev.len() as int].peer == pc.peer && out@[prev.len() as
                            int].data@ == d);
                        assert(contains_datagram(out@, pc.peer, d));
                        assert forall|j: int| 0 <= j < old(self).outbox_model().len() implies
                            contains_datagram(
                            out@,
                            (#[trigger] old(self).outbox_model()[j]).0,
                            old(self).outbox_model()[j].1,
                        ) by {
                            lemma_contains_datagram_push(
                                prev,
                                pushed,
                                old(self).outbox_model()[j].0,
                                old(self).outbox_model()[j].1,
                            );
                        }
                        assert forall|k2: int|
                            0 <= k2 < k + 1 && (#[trigger] old(self).peers_of()[k2]).mode
                                == PeerMode::Synchronizing implies contains_datagram(
                            out@,
                            old(self).peers_of()[k2].peer,
                            encode_packet(
                                PacketModel::SyncRequest {
                                    token: old(self).peers_of()[k2].token,
                                },
                            ),
                        ) by {
                            if k2 < k as int {
                                lemma_contains_datagram_push(
                                    prev,
                                    pushed,
                                    old(self).peers_of()[k2].peer,
                                    encode_packet(
                                        PacketModel::SyncRequest {
                                            token: old(self).peers_of()[k2].token,
                                        },
                                    ),
                                );
                            }
                        }
                        assert forall|k2: int, pl2: int|
                            #[trigger] owes_input_span(*old(self), k2, pl2) && k2 < k + 1 implies
                            has_input_span(*old(self), out@, k2, pl2) by {
                            if k2 == k as int {
                                assert(old(self).peers_of()[k2].mode == PeerMode::Synchronizing);
                            } else {
                                lemma_has_input_span_push(*old(self), prev, pushed, k2, pl2);
                            }
                        }
                    }
                },
                PeerMode::Running => {
                    let n = self.config.num_players as usize;
                    let mut pl: usize = 0;
                    while pl < n
                        invariant
                            0 <= pl <= n,
                            *self == base,
                            base.inv(),
                            base.cfg() == old(self).cfg(),
                            base.peers_of() == old(self).peers_of(),
                            base.roles_of() == old(self).roles_of(),
                            base.queue_models() == old(self).queue_models(),
                            base.num_players() == old(self).num_players(),
                            base.is_started(),
                            n == base.num_players(),
                            np == self.peers@.len(),
                            np == old(self).peers_of().len(),
                            0 <= k < np,
                            pc == old(self).peers_of()[k as int],
                            pc.mode == PeerMode::Running,
                            pc.player < base.cfg().num_players,
                            forall|i: int|
                                0 <= i < out@.len() ==> outbound_ok(
                                    *old(self),
                                    (#[trigger] out@[i]).peer,
                                    out@[i].data@,
                                ),
                            forall|j: int|
                                0 <= j < old(self).outbox_model().len() ==> contains_datagram(
                                    out@,
                                    (#[trigger] old(self).outbox_model()[j]).0,
                                    old(self).outbox_model()[j].1,
                                ),
                            forall|k2: int|
                                0 <= k2 < k && (#[trigger] old(self).peers_of()[k2]).mode
                                    == PeerMode::Synchronizing ==> contains_datagram(
                                    out@,
                                    old(self).peers_of()[k2].peer,
                                    encode_packet(
                                        PacketModel::SyncRequest {
                                            token: old(self).peers_of()[k2].token,
                                        },
                                    ),
                                ),
                            forall|k2: int, pl2: int|
                                #[trigger] owes_input_span(*old(self), k2, pl2) && k2 < k
                                    ==> has_input_span(*old(self), out@, k2, pl2),
                            forall|pl2: int|
                                #[trigger] owes_input_span(*old(self), k as int, pl2) && pl2 < pl
                                    ==> has_input_span(*old(self), out@, k as int, pl2),
                        decreases n - pl,
                    {
                        let is_local = matches!(self.roles[pl], Some(PlayerRole::Local));
                        if is_local {
                            proof {
                                assert(base.queue_models()[pl as int] == self.queues@[pl as int]@);
                            }
                            let cu = self.queues[pl].confirmed_frontier();
                            let fl = self.queues[pl].frame_floor();
                            let lo = if cu >= MAX_INPUT_SPAN && cu - MAX_INPUT_SPAN > fl {
                                cu - MAX_INPUT_SPAN
                            } else {
                                fl
                            };
                            proof {
                                crate::input::lemma_leading_confirmed_props(
                                    base.queue_models()[pl as int],
                                );
                            }
                            if lo < cu {
                                let mut vals: Vec<u8> = Vec::new();
                                let mut f = lo;
                                while f < cu
                                    invariant
                                        lo <= f <= cu,
                                        *self == base,
                                        0 <= pl < self.queues@.len(),
                                        base.queue_models()[pl as int] == self.queues@[pl as
                                            int]@,
                                        base.queue_models()[pl as int].wf(),
                                        base.queue_models()[pl as int].first <= lo as int,
                                        cu as int == base.queue_models()[pl as int]
                                            .confirmed_until(),
                                        cu as int <= base.queue_models()[pl as int].end(),
                                        forall|j: int|
                                            base.queue_models()[pl as int].first <= j < cu as int
                                                ==> (#[trigger] base.queue_models()[pl as
                                                int].entry_at(j)).confirmed,
                                        vals@.len() == f - lo,
                                        forall|q: int|
                                            0 <= q < f - lo ==> #[trigger] vals@[q]
                                                == base.queue_models()[pl as int].entry_at(
                                                lo + q,
                                            ).input.inp,
                                    decreases cu - f,
                                {
                                    let v = self.queues[pl].get(f);
                                    vals.push(v.inp);
                                    f = f + 1;
                                }
                                proof {
                                    assert(pc.player < base.cfg().num_players);
                                    assert(base.queue_models()[pc.player as int]
                                        == self.queues@[pc.player as int]@);
                                    assert(base.queue_models()[pc.player as int].wf());
                                }
                                let ack = self.queues[pc.player as usize].confirmed_frontier();
                                let packet = Packet::Input {
                                    player: pl as u32,
                                    start_frame: lo,
                                    ack_frame: ack,
                                    inputs: vals,
                                };
                                let data = crate::wire::encode(&packet);
                                let ghost d = data@;
                                let ghost vseq = packet->inputs@;
                                let ghost prev = out@;
                                out.push(OutgoingDatagram { peer: pc.peer, data });
                                proof {
                                    let pushed = out@.last();
                                    assert(out@ == prev.push(pushed));
                                    assert(vseq =~= Seq::new(
                                        (cu - lo) as nat,
                                        |q: int| base.queue_models()[pl as int].entry_at(
                                            lo + q,
                                        ).input.inp,
                                    ));
                                    assert(input_span_ok(
                                        *old(self),
                                        pc.peer,
                                        d,
                                        k as int,
                                        pl as int,
                                        lo as int,
                                        (cu - lo) as int,
                                    ));
                                    assert(outbound_ok(*old(self), pc.peer, d));
                                    assert(out@[prev.len() as int].peer == pc.peer
                                        && out@[prev.len() as int].data@ == d);
                                    assert(has_input_span(*old(self), out@, k as int, pl as int));
                                    assert forall|j: int|
                                        0 <= j < old(self).outbox_model().len() implies
                                        contains_datagram(
                                        out@,
                                        (#[trigger] old(self).outbox_model()[j]).0,
                                        old(self).outbox_model()[j].1,
                                    ) by {
                                        lemma_contains_datagram_push(
                                            prev,
                                            pushed,
                                            old(self).outbox_model()[j].0,
                                            old(self).outbox_model()[j].1,
                                        );
                                    }
                                    assert forall|k2: int|
                                        0 <= k2 < k && (#[trigger] old(self).peers_of()[k2]).mode
                                            == PeerMode::Synchronizing implies contains_datagram(
                                        out@,
                                        old(self).peers_of()[k2].peer,
                                        encode_packet(
                                            PacketModel::SyncRequest {
                                                token: old(self).peers_of()[k2].token,
                                            },
                                        ),
                                    ) by {
                                        lemma_contains_datagram_push(
                                            prev,
                                            pushed,
                                            old(self).peers_of()[k2].peer,
                                            encode_packet(
                                                PacketModel::SyncRequest {
                                                    token: old(self).peers_of()[k2].token,
                                                },
                                            ),
                                        );
                                    }
                                    assert forall|k2: int, pl2: int|
                                        #[trigger] owes_input_span(*old(self), k2, pl2) && k2 < k
                                            implies has_input_span(*old(self), out@, k2, pl2) by {
                                        lemma_has_input_span_push(
                                            *old(self),
                                            prev,
                                            pushed,
                                            k2,
                                            pl2,
                                        );
                                    }
                                    assert forall|pl2: int|
                                        #[trigger] owes_input_span(*old(self), k as int, pl2)
                                            && pl2 < pl + 1 implies has_input_span(
                                        *old(self),
                                        out@,
                                        k as int,
                                        pl2,
                                    ) by {
                                        if pl2 < pl as int {
                                            lemma_has_input_span_push(
                                                *old(self),
                                                prev,
                                                pushed,
                                                k as int,
                                                pl2,
                                            );
                                        }
                                    }
                                }
                            } else {
                                proof {
                                    assert(base.queue_models()[pl as int].first == cu as int);
                                    assert(!owes_input_span(*old(self), k as int, pl as int));
                                }
                            }
                        } else {
                            proof {
                                assert(old(self).roles_of()[pl as int] != Some(
                                    PlayerRole::Local,
                                ));
                                assert(!owes_input_span(*old(self), k as int, pl as int));
                            }
                        }
                        pl = pl + 1;
                    }
                    proof {
                        assert forall|k2: int, pl2: int|
                            #[trigger] owes_input_span(*old(self), k2, pl2) && k2 < k + 1 implies
                            has_input_span(*old(self), out@, k2, pl2) by {
                            if k2 == k as int {
                                assert(0 <= pl2 < n as int);
                            }
                        }
                    }
                },
            }
            k = k + 1;
        }
        proof {
            assert forall|k2: int, pl2: int| #[trigger] owes_input_span(*old(self), k2, pl2)
                implies has_input_span(*old(self), out@, k2, pl2) by {
                assert(k2 < np as int);
            }
        }
        out
    }

    /// Shuts the session down: outbound transmission stops, queued datagrams
    /// and all retained snapshots are released, and the session is terminal.
    pub fn shutdown(&mut self)
        requires
            old(self).inv(),
        ensures
            final(self).inv(),
            final(self).status_of() == SessionStatus::Disconnected,
            final(self).outbox_model() == Seq::<(u32, Seq<u8>)>::empty(),
            final(self).store_model().snaps == Seq::<(u32, Seq<u8>)>::empty(),
            final(self).frame() == old(self).frame(),
            final(self).history() == old(self).history(),
            final(self).state_view() == old(self).state_view(),
            final(self).cfg() == old(self).cfg(),
    {
        self.status = SessionStatus::Disconnected;
        self.outbox = Vec::new();
        self.store.clear();
        proof {
            assert(self.outbox_model() =~= Seq::<(u32, Seq<u8>)>::empty());
        }
    }
}

/// One datagram poll may emit as an input packet: frames `s .. s + len` of a
/// local player's queue, all confirmed, ending exactly at its confirmed
/// frontier, addressed to a running peer, acknowledging the frames fully
/// received from that peer's player.
pub open spec fn input_span_ok(
    pre: Session,
    peer: u32,
    data: Seq<u8>,
    k: int,
    pl: int,
    s: int,
    len: int,
) -> bool {
    &&& 0 <= k < pre.peers_of().len()
    &&& pre.peers_of()[k].peer == peer
    &&& pre.peers_of()[k].mode == PeerMode::Running
    &&& 0 <= pl < pre.num_players()
    &&& pre.roles_of()[pl] == Some(PlayerRole::Local)
    &&& 0 <= s
    &&& 1 <= len <= MAX_INPUT_SPAN
    &&& s + len == pre.queue_models()[pl].confirmed_until()
    &&& (forall|q: int|
        0 <= q < len ==> (#[trigger] pre.queue_models()[pl].entry_at(s + q)).confirmed)
    &&& data == encode_packet(
        PacketModel::Input {
            player: pl as u32,
            start_frame: s as u32,
            ack_frame: pre.queue_models()[pre.peers_of()[k].player as int].confirmed_until() as u32,
            inputs: Seq::new(
                len as nat,
                |q: int| pre.queue_models()[pl].entry_at(s + q).input.inp,
            ),
        },
    )
}

/// What poll may hand to the transport: a previously queued reply, a
/// handshake request for a peer still synchronizing, or an input packet of
/// confirmed local inputs.
pub open spec fn outbound_ok(pre: Session, peer: u32, data: Seq<u8>) -> bool {
    ||| exists|j: int|
        0 <= j < pre.outbox_model().len() && (#[trigger] pre.outbox_model()[j]) == (peer, data)
    ||| exists|k: int|
        0 <= k < pre.peers_of().len() && (#[trigger] pre.peers_of()[k]).peer == peer
            && pre.peers_of()[k].mode == PeerMode::Synchronizing && data == encode_packet(
            PacketModel::SyncRequest { token: pre.peers_of()[k].token },
        )
    ||| exists|k: int, pl: int, s: int, len: int| #[trigger] input_span_ok(pre, peer, data, k, pl, s, len)
}

/// The emitted datagrams hold one addressed to `peer` with exactly these bytes.
pub open spec fn contains_datagram(r: Seq<OutgoingDatagram>, peer: u32, data: Seq<u8>) -> bool {
    exists|i: int| 0 <= i < r.len() && (#[trigger] r[i]).peer == peer && r[i].data@ == data
}

/// The emitted datagrams hold an input packet for peer slot `k` carrying
/// player `pl`'s confirmed span.
pub open spec fn has_input_span(pre: Session, r: Seq<OutgoingDatagram>, k: int, pl: int) -> bool {
    exists|i: int, s: int, len: int|
        0 <= i < r.len() && #[trigger] input_span_ok(pre, r[i].peer, r[i].data@, k, pl, s, len)
}

/// Poll owes an input packet for peer slot `k` and player `pl`: the peer has
/// finished its handshake and the local player has confirmed inputs to send.
pub open spec fn owes_input_span(pre: Session, k: int, pl: int) -> bool {
    &&& 0 <= k < pre.peers_of().len()
    &&& pre.peers_of()[k].mode == PeerMode::Running
    &&& 0 <= pl < pre.num_players()
    &&& pre.roles_of()[pl] == Some(PlayerRole::Local)
    &&& pre.queue_models()[pl].first < pre.queue_models()[pl].confirmed_until()
}

/// Appending a datagram keeps every datagram already contained.
proof fn lemma_contains_datagram_push(
    r: Seq<OutgoingDatagram>,
    d: OutgoingDatagram,
    peer: u32,
    data: Seq<u8>,
)
    requires
        contains_datagram(r, peer, data),
    ensures
        contains_datagram(r.push(d), peer, data),
{
    let i = choose|i: int|
        0 <= i < r.len() && (#[trigger] r[i]).peer == peer && r[i].data@ == data;
    assert(r.push(d)[i] == r[i]);
}

/// Appending a datagram keeps every input span already contained.
proof fn lemma_has_input_span_push(
    pre: Session,
    r: Seq<OutgoingDatagram>,
    d: OutgoingDatagram,
    k: int,
    pl: int,
)
    requires
        has_input_span(pre, r, k, pl),
    ensures
        has_input_span(pre, r.push(d), k, pl),
{
    let (i, s, len) = choose|i: int, s: int, len: int|
        0 <= i < r.len() && #[trigger] input_span_ok(pre, r[i].peer, r[i].data@, k, pl, s, len);
    assert(r.push(d)[i] == r[i]);
    assert(input_span_ok(pre, r.push(d)[i].peer, r.push(d)[i].data@, k, pl, s, len));
}

/// The queue once the prediction used at frame `f` is recorded: unchanged
/// when an entry already exists, else extended with a predicted repeat of the
/// fallback.
pub open spec fn predicted_at(q: QueueModel, f: int) -> QueueModel {
    if q.in_range(f) {
        q
    } else {
        q.recorded(f, q.fallback, false)
    }
}

/// The pending rollback once a new divergence is reported: the earliest of
/// the two wins, so a rollback never restarts later than any known error.
pub open spec fn merged_pending(p: Option<u32>, d: Option<int>) -> Option<u32> {
    match (p, d) {
        (None, None) => None,
        (Some(x), None) => Some(x),
        (None, Some(y)) => Some(y as u32),
        (Some(x), Some(y)) => if y < x as int {
            Some(y as u32)
        } else {
            Some(x)
        },
    }
}

/// Every peer finished its handshake.
pub open spec fn all_peers_running(peers: Seq<PeerConnection>) -> bool {
    forall|k: int| 0 <= k < peers.len() ==> (#[trigger] peers[k]).mode == PeerMode::Running
}

impl Session {
    pub open spec fn has_peer(self, peer: u32) -> bool {
        exists|k: int| 0 <= k < self.peers_of().len() && (#[trigger] self.peers_of()[k]).peer == peer
    }

    pub open spec fn peer_index(self, peer: u32) -> int {
        choose|k: int| 0 <= k < self.peers_of().len() && (#[trigger] self.peers_of()[k]).peer == peer
    }
}

/// How one received, well-formed packet moves the session: the simulation
/// itself never moves; a handshake request is answered; a handshake reply may
/// finish synchronizing; an input packet from the peer that owns the player
/// is installed frame by frame, and the earliest contradicted prediction
/// becomes (or lowers) the pending rollback.
pub open spec fn packet_transition(
    pre: Session,
    post: Session,
    peer: u32,
    m: PacketModel,
    now: u64,
) -> bool {
    &&& post.cfg() == pre.cfg()
    &&& post.kind_of() == pre.kind_of()
    &&& post.roles_of() == pre.roles_of()
    &&& post.init_of() == pre.init_of()
    &&& post.frame() == pre.frame()
    &&& post.history() == pre.history()
    &&& post.state_view() == pre.state_view()
    &&& post.is_started() == pre.is_started()
    &&& if !pre.has_peer(peer) {
        post == pre
    } else {
        let k = pre.peer_index(peer);
        &&& post.peers_of().len() == pre.peers_of().len()
        &&& (forall|j: int|
            0 <= j < pre.peers_of().len() && j != k ==> #[trigger] post.peers_of()[j]
                == pre.peers_of()[j])
        &&& post.peers_of()[k].peer == pre.peers_of()[k].peer
        &&& post.peers_of()[k].player == pre.peers_of()[k].player
        &&& post.peers_of()[k].token == pre.peers_of()[k].token
        &&& post.peers_of()[k].last_recv == now
        &&& match m {
            PacketModel::SyncRequest { token } => {
                &&& post.outbox_model() == pre.outbox_model().push(
                    (peer, encode_packet(PacketModel::SyncReply { token })),
                )
                &&& post.queue_models() == pre.queue_models()
                &&& post.pending() == pre.pending()
                &&& post.status_of() == pre.status_of()
                &&& post.peers_of()[k].mode == pre.peers_of()[k].mode
                &&& post.peers_of()[k].acked_until == pre.peers_of()[k].acked_until
            },
            PacketModel::SyncReply { token } => {
                &&& post.outbox_model() == pre.outbox_model()
                &&& post.queue_models() == pre.queue_models()
                &&& post.pending() == pre.pending()
                &&& post.peers_of()[k].acked_until == pre.peers_of()[k].acked_until
                &&& post.peers_of()[k].mode == (if pre.peers_of()[k].mode
                    == PeerMode::Synchronizing && token == pre.peers_of()[k].token {
                    PeerMode::Running
                } else {
                    pre.peers_of()[k].mode
                })
                &&& post.status_of() == (if pre.status_of() == SessionStatus::Synchronizing
                    && all_peers_running(post.peers_of()) {
                    SessionStatus::Running
                } else {
                    pre.status_of()
                })
            },
            PacketModel::Input { player, start_frame, ack_frame, inputs } => {
                &&& post.outbox_model() == pre.outbox_model()
                &&& post.status_of() == pre.status_of()
                &&& post.peers_of()[k].mode == pre.peers_of()[k].mode
                &&& if player == pre.peers_of()[k].player && (player as int) < pre.num_players() {
                    &&& post.queue_models() == pre.queue_models().update(
                        player as int,
                        confirm_run(
                            pre.queue_models()[player as int],
                            start_frame as int,
                            inputs,
                        ),
                    )
                    &&& post.pending() == merged_pending(
                        pre.pending(),
                        earliest_divergence(
                            pre.queue_models()[player as int],
                            start_frame as int,
                            inputs,
                        ),
                    )
                    &&& post.peers_of()[k].acked_until == (if ack_frame
                        > pre.peers_of()[k].acked_until {
                        ack_frame
                    } else {
                        pre.peers_of()[k].acked_until
                    })
                } else {
                    &&& post.queue_models() == pre.queue_models()
                    &&& post.pending() == pre.pending()
                    &&& post.peers_of()[k].acked_until == pre.peers_of()[k].acked_until
                }
            },
        }
    }
}

/// Reads one best-known input per player off the queues.
fn gather_inputs(queues: &Vec<InputQueue>, frame: u32) -> (r: Vec<BoxInput>)
    requires
        forall|p: int| 0 <= p < queues@.len() ==> (#[trigger] queues@[p])@.wf(),
    ensures
        r@.len() == queues@.len(),
        forall|p: int|
            0 <= p < queues@.len() ==> r@[p] == (#[trigger] queues@[p])@.lookup(frame as int),
{
    let n = queues.len();
    let mut r: Vec<BoxInput> = Vec::new();
    let mut p: usize = 0;
    while p < n
        invariant
            0 <= p <= n,
            n == queues@.len(),
            r@.len() == p,
            forall|j: int| 0 <= j < queues@.len() ==> (#[trigger] queues@[j])@.wf(),
            forall|j: int|
                0 <= j < p ==> r@[j] == (#[trigger] queues@[j])@.lookup(frame as int),
        decreases n - p,
    {
        r.push(queues[p].get(frame));
        p = p + 1;
    }
    r
}

/// The frame counter of a run equals the frames simulated, starting from the
/// spawn state.
proof fn lemma_frame_of_run(init: StateView, hist: Seq<Seq<BoxInput>>)
    requires
        init.frame_count.frame == 0,
        hist.len() < u32::MAX,
    ensures
        run_from(init, hist).frame_count.frame == hist.len(),
    decreases hist.len(),
{
    if hist.len() > 0 {
        crate::sim::lemma_run_from_snoc(init, hist.drop_last(), hist.last());
        assert(hist.drop_last().push(hist.last()) =~= hist);
        lemma_frame_of_run(init, hist.drop_last());
    }
}

/// Rollback equivalence: fix the confirmed inputs for every frame of a run.
/// A session that never mispredicted simulated `run_from(init, confirmed)`
/// directly. A session that mispredicted some frames, then restored its
/// frame-`f` snapshot (the state `run_from(init, confirmed.take(f))`, since
/// frames below a divergence were already correct) and re-simulated forward
/// with the corrected inputs, reaches exactly the same state — whatever wrong
/// states its discarded predicted path went through, because the replay
/// result depends only on the restored snapshot and the corrected inputs.
pub proof fn lemma_rollback_equivalence(init: StateView, confirmed: Seq<Seq<BoxInput>>, f: int)
    requires
        0 <= f <= confirmed.len(),
    ensures
        run_from(run_from(init, confirmed.take(f)), confirmed.skip(f)) == run_from(
            init,
            confirmed,
        ),
{
    crate::sim::lemma_run_from_split(init, confirmed, f);
}

/// Idempotent replay: two rollback replays in a row — two divergences
/// reported in quick succession, restarting at frames `f1` and then `f2` —
/// end in the same final state as a single correct replay, for they all end
/// in `run_from(init, inputs)`.
pub proof fn lemma_replay_idempotent(
    init: StateView,
    inputs: Seq<Seq<BoxInput>>,
    f1: int,
    f2: int,
)
    requires
        0 <= f1 <= inputs.len(),
        0 <= f2 <= inputs.len(),
    ensures
        run_from(run_from(init, inputs.take(f1)), inputs.skip(f1)) == run_from(
            run_from(init, inputs.take(f2)),
            inputs.skip(f2),
        ),
{
    crate::sim::lemma_run_from_split(init, inputs, f1);
    crate::sim::lemma_run_from_split(init, inputs, f2);
}

/// Recording the default at the next seeded frame extends the seeded run.
proof fn lemma_seed_step(default_input: BoxInput, d: int)
    requires
        0 <= d < u32::MAX,
    ensures
        seeded_queue_model(default_input, d).recorded(d, default_input, true)
            == seeded_queue_model(default_input, d + 1),
        seeded_queue_model(default_input, d).wf(),
        seeded_queue_model(default_input, d).end() == d,
{
    let q = seeded_queue_model(default_input, d);
    let r = q.recorded(d, default_input, true);
    let e = InputEntry { input: default_input, confirmed: true };
    assert(r.entries =~= seeded_queue_model(default_input, d + 1).entries);
    assert(r =~= seeded_queue_model(default_input, d + 1));
}

} // verus!
