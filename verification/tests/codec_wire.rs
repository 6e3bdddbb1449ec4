use frogrs::codec::deserialize;
use frogrs::codec::serialize;
use frogrs::input::input_from_flags;
use frogrs::input::input_random;
use frogrs::input::BoxInput;
use frogrs::input::INPUT_DOWN;
use frogrs::input::INPUT_JUMP;
use frogrs::input::INPUT_LEFT;
use frogrs::input::INPUT_RIGHT;
use frogrs::input::INPUT_UP;
use frogrs::sim::initial_state;
use frogrs::sim::tick;
use frogrs::sim::Ball2D;
use frogrs::sim::FrameCount;
use frogrs::sim::Player2D;
use frogrs::sim::SimState;
use frogrs::sim::SpriteSheetAnimation;
use frogrs::sim::Vector2D;
use frogrs::wire::decode;
use frogrs::wire::encode;
use frogrs::wire::Packet;

fn sample_state() -> SimState {
    SimState {
        frame_count: FrameCount { frame: 7 },
        players: vec![Player2D {
            handle: 0,
            position: Vector2D { x: 1, y: 2 },
            velocity: Vector2D { x: 3, y: -1 },
            anim: SpriteSheetAnimation { dt: 0, speed: 3, index: 4 },
        }],
        ball: Ball2D {
            position: Vector2D { x: 5, y: 3 },
            velocity: Vector2D { x: 0, y: 0 },
            alive: true,
        },
    }
}

#[test]
fn input_flags_exact_bits() {
    assert_eq!(input_from_flags(false, false, false, false, false).inp, 0);
    assert_eq!(input_from_flags(true, false, false, false, false).inp, INPUT_UP);
    assert_eq!(input_from_flags(false, true, false, false, false).inp, INPUT_DOWN);
    assert_eq!(input_from_flags(false, false, true, false, false).inp, INPUT_LEFT);
    assert_eq!(input_from_flags(false, false, false, true, false).inp, INPUT_RIGHT);
    assert_eq!(input_from_flags(false, false, false, false, true).inp, INPUT_JUMP);
    assert_eq!(
        input_from_flags(true, true, true, true, true).inp,
        INPUT_UP | INPUT_DOWN | INPUT_LEFT | INPUT_RIGHT | INPUT_JUMP
    );
}

#[test]
fn input_random_is_some_bitmask() {
    // Nothing is promised of the value; it only has to come back.
    let _ = input_random();
}

#[test]
fn serialize_exact_bytes() {
    let s = sample_state();
    let bytes = serialize(&s);
    let mut expected: Vec<u8> = Vec::new();
    expected.extend_from_slice(&7u32.to_le_bytes()); // frame
    expected.extend_from_slice(&1u32.to_le_bytes()); // player count
    expected.extend_from_slice(&1i32.to_le_bytes()); // x
    expected.extend_from_slice(&2i32.to_le_bytes()); // y
    expected.extend_from_slice(&3i32.to_le_bytes()); // vx
    expected.extend_from_slice(&(-1i32).to_le_bytes()); // vy
    expected.extend_from_slice(&0u32.to_le_bytes()); // anim dt
    expected.extend_from_slice(&3u32.to_le_bytes()); // anim speed
    expected.extend_from_slice(&4u32.to_le_bytes()); // anim index
    expected.extend_from_slice(&5i32.to_le_bytes()); // ball x
    expected.extend_from_slice(&3i32.to_le_bytes()); // ball y
    expected.extend_from_slice(&0i32.to_le_bytes()); // ball vx
    expected.extend_from_slice(&0i32.to_le_bytes()); // ball vy
    expected.extend_from_slice(&1u32.to_le_bytes()); // alive
    assert_eq!(bytes, expected);
}

#[test]
fn snapshot_round_trip_is_exact() {
    let s = sample_state();
    let bytes = serialize(&s);
    let back = deserialize(&bytes).expect("the encoding of a state must parse");
    assert_eq!(back.frame_count.frame, 7);
    assert_eq!(back.players.len(), 1);
    assert_eq!(back.players[0], s.players[0]);
    assert_eq!(back.ball, s.ball);
    // Byte-identical the other way around too.
    assert_eq!(serialize(&back), bytes);
}

#[test]
fn deserialize_rejects_garbage() {
    assert!(deserialize(&vec![]).is_none());
    assert!(deserialize(&vec![1, 2, 3]).is_none());
    let s = sample_state();
    let mut bytes = serialize(&s);
    bytes.pop();
    assert!(deserialize(&bytes).is_none());
    let mut longer = serialize(&s);
    longer.push(0);
    assert!(deserialize(&longer).is_none());
    // An out-of-range coordinate is not the encoding of a well-formed state.
    let mut bad = serialize(&s);
    bad[8] = 0xff;
    bad[9] = 0xff;
    bad[10] = 0xff;
    bad[11] = 0x7f;
    assert!(deserialize(&bad).is_none());
}

#[test]
fn tick_is_deterministic() {
    let s = initial_state(2);
    let inputs = vec![BoxInput { inp: INPUT_LEFT }, BoxInput { inp: 0 }];
    let a = tick(&s, &inputs);
    let b = tick(&s, &inputs);
    assert_eq!(serialize(&a), serialize(&b));
}

#[test]
fn tick_moves_player_left() {
    let s = initial_state(1);
    let inputs = vec![BoxInput { inp: INPUT_LEFT }];
    let next = tick(&s, &inputs);
    assert_eq!(next.frame_count.frame, 1);
    assert_eq!(next.players[0].velocity.x, -1);
    assert_eq!(next.players[0].position.x, -1);
    // Gravity pulls; the spawn height keeps the player airborne this tick.
    assert_eq!(next.players[0].velocity.y, -1);
    assert_eq!(next.players[0].position.y, 9);
    // The animation clock advanced.
    assert_eq!(next.players[0].anim.dt, 1);
}

#[test]
fn ball_falls_and_bounces() {
    let mut s = initial_state(1);
    let inputs = vec![BoxInput { inp: 0 }];
    // Let the ball fall to the floor: it spawns at height 3 with no velocity.
    for _ in 0..3 {
        s = tick(&s, &inputs);
    }
    // After three ticks of gravity it has hit the floor and bounced.
    assert_eq!(s.ball.position.y, 0);
    assert!(s.ball.velocity.y >= 0);
    assert!(s.ball.alive);
}

#[test]
fn packet_round_trip_sync() {
    let req = Packet::SyncRequest { token: 0xdeadbeef };
    let bytes = encode(&req);
    assert_eq!(bytes.len(), 5);
    assert_eq!(bytes[0], 1);
    match decode(&bytes) {
        Some(Packet::SyncRequest { token }) => assert_eq!(token, 0xdeadbeef),
        _ => panic!("expected a handshake request"),
    }
    let rep = Packet::SyncReply { token: 42 };
    match decode(&encode(&rep)) {
        Some(Packet::SyncReply { token }) => assert_eq!(token, 42),
        _ => panic!("expected a handshake reply"),
    }
}

#[test]
fn packet_round_trip_input_exact_bytes() {
    let p = Packet::Input { player: 1, start_frame: 10, ack_frame: 3, inputs: vec![8, 0] };
    let bytes = encode(&p);
    let mut expected: Vec<u8> = vec![3];
    expected.extend_from_slice(&1u32.to_le_bytes());
    expected.extend_from_slice(&10u32.to_le_bytes());
    expected.extend_from_slice(&3u32.to_le_bytes());
    expected.extend_from_slice(&2u32.to_le_bytes());
    expected.extend_from_slice(&[8, 0]);
    assert_eq!(bytes, expected);
    match decode(&bytes) {
        Some(Packet::Input { player, start_frame, ack_frame, inputs }) => {
            assert_eq!(player, 1);
            assert_eq!(start_frame, 10);
            assert_eq!(ack_frame, 3);
            assert_eq!(inputs, vec![8, 0]);
        },
        _ => panic!("expected an input packet"),
    }
}

#[test]
fn packet_decode_rejects_noise() {
    assert!(decode(&vec![]).is_none());
    assert!(decode(&vec![9, 9, 9, 9, 9]).is_none());
    assert!(decode(&vec![1, 2, 3]).is_none());
    // An input packet whose length word disagrees with the payload.
    let p = Packet::Input { player: 0, start_frame: 0, ack_frame: 0, inputs: vec![1] };
    let mut bytes = encode(&p);
    bytes.push(7);
    assert!(decode(&bytes).is_none());
}

#[test]
fn vector_mutators_are_exact() {
    let mut v = frogrs::sim::Vector2D::new(1, 2);
    v.set(3, 4);
    assert_eq!(v, frogrs::sim::Vector2D { x: 3, y: 4 });
    v.set_x(-1);
    v.set_y(7);
    assert_eq!(v, frogrs::sim::Vector2D { x: -1, y: 7 });
    v.set_all(2);
    v.add(1, -1);
    assert_eq!(v, frogrs::sim::Vector2D { x: 3, y: 1 });
    v.add_x(10);
    v.add_y(20);
    v.add_all(-1);
    assert_eq!(v, frogrs::sim::Vector2D { x: 12, y: 20 });
}

#[test]
fn tick_applies_jump_impulse() {
    let s = initial_state(1);
    let inputs = vec![BoxInput { inp: INPUT_JUMP }];
    let next = tick(&s, &inputs);
    // The jump impulse of 6 minus one tick of gravity leaves 5 upward.
    assert_eq!(next.players[0].velocity.y, 5);
    assert_eq!(next.players[0].position.y, 15);
    assert_eq!(next.players[0].velocity.x, 0);
}
