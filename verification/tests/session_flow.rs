use frogrs::codec::serialize;
use frogrs::input::BoxInput;
use frogrs::input::INPUT_LEFT;
use frogrs::session::OutgoingDatagram;
use frogrs::session::PlayerRole;
use frogrs::session::Session;
use frogrs::session::SessionConfig;
use frogrs::session::SessionError;
use frogrs::session::SessionKind;
use frogrs::session::SessionStatus;
use frogrs::session::TickOutcome;

fn config(num_players: u32, input_delay: u32, max_prediction_window: u32) -> SessionConfig {
    SessionConfig {
        num_players,
        input_delay,
        max_prediction_window,
        tick_rate: 60,
        disconnect_timeout: 5000,
        default_input: BoxInput { inp: 0 },
    }
}

fn none() -> BoxInput {
    BoxInput { inp: 0 }
}

/// Two peer sessions wired back to back: endpoint 1 runs player 0 locally,
/// endpoint 2 runs player 1 locally. Handshakes are pumped until both run.
fn p2p_pair() -> (Session, Session) {
    let mut a = Session::new(config(2, 2, 8), SessionKind::PeerToPeer).unwrap();
    a.add_player(PlayerRole::Local, 0).unwrap();
    a.add_player(PlayerRole::Remote { peer: 2 }, 1).unwrap();
    a.start(0).unwrap();
    let mut b = Session::new(config(2, 2, 8), SessionKind::PeerToPeer).unwrap();
    b.add_player(PlayerRole::Remote { peer: 1 }, 0).unwrap();
    b.add_player(PlayerRole::Local, 1).unwrap();
    b.start(0).unwrap();
    for _ in 0..4 {
        let out = a.poll_outbound();
        for d in &out {
            b.handle_message(1, &d.data, 0).unwrap();
        }
        let out = b.poll_outbound();
        for d in &out {
            a.handle_message(2, &d.data, 0).unwrap();
        }
    }
    assert_eq!(a.current_status(), SessionStatus::Running);
    assert_eq!(b.current_status(), SessionStatus::Running);
    (a, b)
}

#[test]
fn config_errors_are_exact() {
    assert_eq!(
        Session::new(config(0, 2, 8), SessionKind::PeerToPeer).err(),
        Some(SessionError::InvalidPlayerCount)
    );
    assert_eq!(
        Session::new(config(100000, 2, 8), SessionKind::PeerToPeer).err(),
        Some(SessionError::InvalidPlayerCount)
    );
    let mut c = config(2, 2, 8);
    c.tick_rate = 0;
    assert_eq!(
        Session::new(c, SessionKind::PeerToPeer).err(),
        Some(SessionError::ZeroTickRate)
    );
    let mut c = config(2, 2, 8);
    c.max_prediction_window = 4096;
    assert_eq!(
        Session::new(c, SessionKind::PeerToPeer).err(),
        Some(SessionError::WindowTooLarge)
    );
    let mut c = config(2, 2, 8);
    c.input_delay = 4096;
    assert_eq!(
        Session::new(c, SessionKind::PeerToPeer).err(),
        Some(SessionError::DelayTooLarge)
    );
}

#[test]
fn lifecycle_errors_are_exact() {
    let mut s = Session::new(config(2, 2, 8), SessionKind::PeerToPeer).unwrap();
    assert_eq!(s.advance_one_tick(0).err(), Some(SessionError::NotStarted));
    assert_eq!(
        s.add_player(PlayerRole::Local, 5).err(),
        Some(SessionError::UnknownPlayer { handle: 5 })
    );
    s.add_player(PlayerRole::Local, 0).unwrap();
    assert_eq!(
        s.add_player(PlayerRole::Local, 0).err(),
        Some(SessionError::PlayerAlreadyAdded { handle: 0 })
    );
    assert_eq!(s.start(0).err(), Some(SessionError::MissingPlayer { handle: 1 }));
    s.add_player(PlayerRole::Remote { peer: 7 }, 1).unwrap();
    s.start(0).unwrap();
    assert_eq!(s.start(0).err(), Some(SessionError::AlreadyStarted));
    // Still shaking hands: the driver refuses to run.
    assert_eq!(s.advance_one_tick(0).err(), Some(SessionError::NotSynchronized));
    assert_eq!(
        s.add_local_input(0, none()).err(),
        Some(SessionError::NotSynchronized)
    );
}

#[test]
fn duplicate_peer_is_rejected() {
    let mut s = Session::new(config(3, 2, 8), SessionKind::PeerToPeer).unwrap();
    s.add_player(PlayerRole::Remote { peer: 7 }, 0).unwrap();
    assert_eq!(
        s.add_player(PlayerRole::Remote { peer: 7 }, 1).err(),
        Some(SessionError::DuplicatePeer { peer: 7 })
    );
}

#[test]
fn local_test_sessions_take_no_remote_players() {
    let mut s = Session::new(config(2, 0, 8), SessionKind::LocalTest).unwrap();
    assert_eq!(
        s.add_player(PlayerRole::Remote { peer: 1 }, 0).err(),
        Some(SessionError::RemotePlayerInLocalTest)
    );
}

#[test]
fn local_test_session_advances_exactly() {
    let mut s = Session::new(config(2, 0, 8), SessionKind::LocalTest).unwrap();
    s.add_player(PlayerRole::Local, 0).unwrap();
    s.add_player(PlayerRole::Local, 1).unwrap();
    s.start(0).unwrap();
    // With every player local, the session runs at once.
    assert_eq!(s.current_status(), SessionStatus::Running);
    s.add_local_input(0, BoxInput { inp: INPUT_LEFT }).unwrap();
    s.add_local_input(1, none()).unwrap();
    assert_eq!(
        s.add_local_input(0, none()).err(),
        Some(SessionError::InputAlreadyGiven { frame: 0 })
    );
    assert_eq!(
        s.add_local_input(1, none()).err(),
        Some(SessionError::InputAlreadyGiven { frame: 0 })
    );
    assert_eq!(
        s.add_local_input(5, none()).err(),
        Some(SessionError::UnknownPlayer { handle: 5 })
    );
    assert_eq!(s.advance_one_tick(0).unwrap(), TickOutcome::Advanced);
    assert_eq!(s.current_frame(), 1);
    let st = s.current_state();
    assert_eq!(st.players[0].position.x, -1);
    assert_eq!(st.players[0].velocity.x, -1);
    assert_eq!(st.players[1].position.x, 5);
    assert_eq!(st.players[1].velocity.x, 0);
}

#[test]
fn not_local_player_is_rejected() {
    let (mut a, _b) = p2p_pair();
    assert_eq!(
        a.add_local_input(1, none()).err(),
        Some(SessionError::NotLocalPlayer { handle: 1 })
    );
}

#[test]
fn backpressure_stalls_and_resumes() {
    let (mut a, mut b) = p2p_pair();
    // No confirmations arrive: player 1's inputs are confirmed only for the
    // two seeded delay frames, so the frontier sits at 2 and the clock may
    // run to 2 + 8 before it must stall.
    for it in 0..10 {
        a.add_local_input(0, none()).unwrap();
        assert_eq!(a.advance_one_tick(0).unwrap(), TickOutcome::Advanced, "iteration {}", it);
    }
    assert_eq!(a.current_frame(), 10);
    // The window is exhausted: the clock must not move.
    assert_eq!(a.advance_one_tick(0).unwrap(), TickOutcome::Stalled);
    assert_eq!(a.current_frame(), 10);
    assert_eq!(a.advance_one_tick(0).unwrap(), TickOutcome::Stalled);
    assert_eq!(a.current_frame(), 10);
    // Confirmations catch up: the other peer simulates a few frames and
    // transmits its confirmed inputs.
    for _ in 0..5 {
        b.add_local_input(1, none()).unwrap();
        b.advance_one_tick(0).unwrap();
    }
    let out = b.poll_outbound();
    for d in &out {
        a.handle_message(2, &d.data, 0).unwrap();
    }
    // The driver resumes immediately.
    assert_eq!(a.advance_one_tick(0).unwrap(), TickOutcome::Advanced);
    assert_eq!(a.current_frame(), 11);
}

#[test]
fn peer_silence_past_timeout_is_terminal() {
    let (mut a, _b) = p2p_pair();
    a.add_local_input(0, none()).unwrap();
    assert_eq!(a.advance_one_tick(10).unwrap(), TickOutcome::Advanced);
    // Five seconds of silence at the configured timeout: fatal, terminal.
    assert_eq!(a.advance_one_tick(6000).err(), Some(SessionError::Disconnected));
    assert_eq!(a.current_status(), SessionStatus::Disconnected);
    assert_eq!(a.advance_one_tick(6000).err(), Some(SessionError::Disconnected));
    assert_eq!(a.add_local_input(0, none()).err(), Some(SessionError::Disconnected));
}

#[test]
fn two_peers_predict_roll_back_and_converge() {
    let (mut a, mut b) = p2p_pair();
    // Datagrams take four iterations to arrive, so peer 2 simulates past the
    // frame of the late input on a wrong prediction and must roll back.
    let latency: usize = 4;
    let mut ab: Vec<Vec<OutgoingDatagram>> = Vec::new();
    let mut ba: Vec<Vec<OutgoingDatagram>> = Vec::new();
    let mut b_first_rollback: Option<u32> = None;
    for it in 0..21 {
        let now = it as u64 * 16;
        if it >= latency {
            for d in &ab[it - latency] {
                b.handle_message(1, &d.data, now).unwrap();
            }
            for d in &ba[it - latency] {
                a.handle_message(2, &d.data, now).unwrap();
            }
        }
        // Player 0 presses left at frame 10 (taking effect at frame 12 after
        // the two-frame input delay); everyone else stays idle.
        let a_input = if it == 10 {
            BoxInput { inp: INPUT_LEFT }
        } else {
            none()
        };
        a.add_local_input(0, a_input).unwrap();
        b.add_local_input(1, none()).unwrap();
        let ra = a.advance_one_tick(now).unwrap();
        let rb = b.advance_one_tick(now).unwrap();
        assert_ne!(ra, TickOutcome::Stalled);
        assert_ne!(rb, TickOutcome::Stalled);
        if let TickOutcome::AdvancedAfterRollback { rollback_frame } = rb {
            if b_first_rollback.is_none() {
                b_first_rollback = Some(rollback_frame);
            }
        }
        ab.push(a.poll_outbound());
        ba.push(b.poll_outbound());
    }
    // The wrong prediction at frame 12 was repaired by a rollback. (A later
    // one may follow: predict-repeat forecasts the press onward until the
    // release is confirmed, which is the expected cost of the trade-off.)
    assert_eq!(b_first_rollback, Some(12));
    assert_eq!(a.current_frame(), 21);
    assert_eq!(b.current_frame(), 21);
    // The press left a lasting leftward drift on player 0.
    assert!(a.current_state().players[0].position.x < 0);
    // Both peers hold byte-identical states: rollback equivalence observed.
    assert_eq!(serialize(a.current_state()), serialize(b.current_state()));
}

#[test]
fn shutdown_is_terminal_and_releases_snapshots() {
    let (mut a, _b) = p2p_pair();
    a.shutdown();
    assert_eq!(a.current_status(), SessionStatus::Disconnected);
    assert_eq!(a.advance_one_tick(0).err(), Some(SessionError::Disconnected));
    assert!(a.poll_outbound().is_empty());
}

#[test]
fn corrupt_and_foreign_datagrams_are_absorbed() {
    let (mut a, _b) = p2p_pair();
    // Corrupt bytes, an empty datagram, and a datagram from an endpoint the
    // session never heard of: all silently absorbed, nothing changes.
    let before = serialize(a.current_state());
    a.handle_message(2, &vec![0xff, 0x01, 0x02], 0).unwrap();
    a.handle_message(2, &vec![], 0).unwrap();
    a.handle_message(99, &frogrs::wire::encode(&frogrs::wire::Packet::SyncReply { token: 1 }), 0)
        .unwrap();
    assert_eq!(serialize(a.current_state()), before);
    assert_eq!(a.current_status(), SessionStatus::Running);
    // The session still advances normally afterwards.
    a.add_local_input(0, none()).unwrap();
    assert_eq!(a.advance_one_tick(0).unwrap(), TickOutcome::Advanced);
}

#[test]
fn replay_twice_matches_single_replay() {
    // Two divergences in quick succession: the first rollback replays frames
    // forward, the second rolls back again; the end state must match the
    // straight run over the same confirmed inputs (idempotent replay).
    let (mut a, mut b) = p2p_pair();
    // Let peer 2 run ahead on predictions.
    for it in 0..6 {
        let inp = if it % 2 == 0 { BoxInput { inp: INPUT_LEFT } } else { none() };
        a.add_local_input(0, inp).unwrap();
        b.add_local_input(1, none()).unwrap();
        a.advance_one_tick(0).unwrap();
        b.advance_one_tick(0).unwrap();
    }
    // Deliver the alternating (hence repeatedly mispredicted) inputs in two
    // separate bursts, forcing two rollbacks in quick succession.
    let burst = a.poll_outbound();
    let mut rollbacks = 0;
    for d in &burst {
        b.handle_message(1, &d.data, 0).unwrap();
        b.add_local_input(1, none()).unwrap();
        if matches!(
            b.advance_one_tick(0).unwrap(),
            TickOutcome::AdvancedAfterRollback { .. }
        ) {
            rollbacks += 1;
        }
        a.add_local_input(0, none()).unwrap();
        a.advance_one_tick(0).unwrap();
    }
    assert!(rollbacks >= 1);
    // Catch the peers up to the same frame with full information.
    while b.current_frame() < a.current_frame() {
        b.add_local_input(1, none()).unwrap();
        b.advance_one_tick(0).unwrap();
    }
    let out = a.poll_outbound();
    for d in &out {
        b.handle_message(1, &d.data, 0).unwrap();
    }
    let out = b.poll_outbound();
    for d in &out {
        a.handle_message(2, &d.data, 0).unwrap();
    }
    a.advance_one_tick(0).unwrap();
    b.advance_one_tick(0).unwrap();
    assert_eq!(a.current_frame(), b.current_frame());
    assert_eq!(serialize(a.current_state()), serialize(b.current_state()));
}

#[test]
fn poll_emits_handshakes_and_input_spans() {
    // A fresh peer-to-peer session owes a handshake request per poll.
    let mut a = Session::new(config(2, 2, 8), SessionKind::PeerToPeer).unwrap();
    a.add_player(PlayerRole::Local, 0).unwrap();
    a.add_player(PlayerRole::Remote { peer: 2 }, 1).unwrap();
    a.start(0).unwrap();
    let out = a.poll_outbound();
    assert_eq!(out.len(), 1);
    assert_eq!(out[0].peer, 2);
    assert_eq!(out[0].data[0], 1); // handshake request tag
    // Once running, every poll carries the local player's confirmed inputs.
    let (mut a, _b) = p2p_pair();
    let out = a.poll_outbound();
    assert_eq!(out.len(), 1);
    assert_eq!(out[0].peer, 2);
    assert_eq!(out[0].data[0], 3); // input packet tag
    // And a queued handshake reply is drained together with the due span.
    a.handle_message(2, &frogrs::wire::encode(&frogrs::wire::Packet::SyncRequest { token: 9 }), 0)
        .unwrap();
    let out = a.poll_outbound();
    assert_eq!(out.len(), 2);
    assert_eq!(out[0].data[0], 2); // the queued reply first
    assert_eq!(out[1].data[0], 3);
}
