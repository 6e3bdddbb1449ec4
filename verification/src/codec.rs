//! The snapshot codec: a fixed little-endian layout for the whole simulation
//! state, with an exact round trip. Serialization is a pure function of the
//! state value, and deserialization succeeds exactly on the encodings of
//! well-formed states, returning the state that was encoded.
//!
//! Layout: frame word, player-count word, one 28-byte record per player
//! (position, velocity, animation clock), one 20-byte ball record. Player
//! handles are not stored: a well-formed state numbers players by position.

use vstd::prelude::*;

use crate::bytes::i32_from_le;
use crate::bytes::i32_le_bytes;
use crate::bytes::lemma_u32_inverse;
use crate::bytes::lemma_word_at;
use crate::bytes::push_i32;
use crate::bytes::push_u32;
use crate::bytes::read_i32;
use crate::bytes::read_u32;
use crate::bytes::u32_from_le;
use crate::bytes::u32_le_bytes;
use crate::sim::player_wf;
use crate::sim::Ball2D;
use crate::sim::FrameCount;
use crate::sim::Player2D;
use crate::sim::SimState;
use crate::sim::SpriteSheetAnimation;
use crate::sim::StateView;
use crate::sim::Vector2D;
use crate::sim::ANIM_FRAME_COUNT;
use crate::sim::COORD_LIMIT;

verus! {

/// Bytes of the fixed-size header: frame counter and player count.
pub const HEADER_BYTES: usize = 8;

/// Bytes of one player record.
pub const PLAYER_BYTES: usize = 28;

/// Bytes of the ball record.
pub const BALL_BYTES: usize = 20;

/// The 28-byte record of one player.
pub open spec fn encode_player(p: Player2D) -> Seq<u8> {
    i32_le_bytes(p.position.x) + i32_le_bytes(p.position.y) + i32_le_bytes(p.velocity.x)
        + i32_le_bytes(p.velocity.y) + u32_le_bytes(p.anim.dt as u32) + u32_le_bytes(
        p.anim.speed as u32,
    ) + u32_le_bytes(p.anim.index)
}

/// The player records, in handle order.
pub open spec fn encode_players(ps: Seq<Player2D>) -> Seq<u8>
    decreases ps.len(),
{
    if ps.len() == 0 {
        Seq::empty()
    } else {
        encode_player(ps.first()) + encode_players(ps.drop_first())
    }
}

/// The 20-byte record of the ball.
pub open spec fn encode_ball(b: Ball2D) -> Seq<u8> {
    i32_le_bytes(b.position.x) + i32_le_bytes(b.position.y) + i32_le_bytes(b.velocity.x)
        + i32_le_bytes(b.velocity.y) + u32_le_bytes(
        if b.alive {
            1u32
        } else {
            0u32
        },
    )
}

/// The full snapshot encoding of a state.
pub open spec fn encode_state(s: StateView) -> Seq<u8> {
    u32_le_bytes(s.frame_count.frame) + u32_le_bytes(s.players.len() as u32) + encode_players(
        s.players,
    ) + encode_ball(s.ball)
}

pub proof fn lemma_encode_players_len(ps: Seq<Player2D>)
    ensures
        encode_players(ps).len() == PLAYER_BYTES * ps.len(),
    decreases ps.len(),
{
    if ps.len() > 0 {
        lemma_encode_players_len(ps.drop_first());
    }
}

/// Appending one player appends one record.
pub proof fn lemma_encode_players_snoc(ps: Seq<Player2D>, p: Player2D)
    ensures
        encode_players(ps.push(p)) == encode_players(ps) + encode_player(p),
    decreases ps.len(),
{
    let s = ps.push(p);
    if ps.len() == 0 {
        assert(s.drop_first() =~= Seq::<Player2D>::empty());
        assert(s.first() == p);
        assert(encode_players(Seq::<Player2D>::empty()) == Seq::<u8>::empty());
        assert(encode_players(s) == encode_player(p) + encode_players(Seq::<Player2D>::empty()));
        assert(encode_players(s) =~= encode_players(ps) + encode_player(p));
    } else {
        assert(s.first() == ps.first());
        assert(s.drop_first() =~= ps.drop_first().push(p));
        lemma_encode_players_snoc(ps.drop_first(), p);
        assert(encode_players(s) =~= encode_players(ps) + encode_player(p));
    }
}

/// Each record sits at its handle's offset.
pub proof fn lemma_encode_players_index(ps: Seq<Player2D>, i: int)
    requires
        0 <= i < ps.len(),
    ensures
        encode_players(ps).len() == PLAYER_BYTES * ps.len(),
        encode_players(ps).subrange(PLAYER_BYTES * i, PLAYER_BYTES * i + PLAYER_BYTES)
            == encode_player(ps[i]),
    decreases i,
{
    lemma_encode_players_len(ps);
    lemma_encode_players_len(ps.drop_first());
    if i == 0 {
        assert(encode_players(ps).subrange(0, PLAYER_BYTES as int) =~= encode_player(ps[0]));
    } else {
        lemma_encode_players_index(ps.drop_first(), i - 1);
        assert(encode_players(ps).subrange(PLAYER_BYTES * i, PLAYER_BYTES * i + PLAYER_BYTES)
            =~= encode_players(ps.drop_first()).subrange(
            PLAYER_BYTES * (i - 1),
            PLAYER_BYTES * (i - 1) + PLAYER_BYTES,
        ));
    }
}

/// Where each piece of the encoding sits in the whole.
pub proof fn lemma_encode_state_structure(v: StateView)
    ensures
        encode_state(v).len() == HEADER_BYTES + PLAYER_BYTES * v.players.len() + BALL_BYTES,
        encode_state(v).subrange(0, 4) == u32_le_bytes(v.frame_count.frame),
        encode_state(v).subrange(4, 8) == u32_le_bytes(v.players.len() as u32),
        forall|i: int|
            0 <= i < v.players.len() ==> encode_state(v).subrange(
                HEADER_BYTES + PLAYER_BYTES * i,
                HEADER_BYTES + PLAYER_BYTES * i + PLAYER_BYTES,
            ) == encode_player(v.players[i]),
        encode_state(v).subrange(
            HEADER_BYTES + PLAYER_BYTES * v.players.len(),
            HEADER_BYTES + PLAYER_BYTES * v.players.len() + BALL_BYTES,
        ) == encode_ball(v.ball),
{
    let whole = encode_state(v);
    lemma_encode_players_len(v.players);
    assert(whole.subrange(0, 4) =~= u32_le_bytes(v.frame_count.frame));
    assert(whole.subrange(4, 8) =~= u32_le_bytes(v.players.len() as u32));
    assert forall|i: int| 0 <= i < v.players.len() implies whole.subrange(
        HEADER_BYTES + PLAYER_BYTES * i,
        HEADER_BYTES + PLAYER_BYTES * i + PLAYER_BYTES,
    ) == encode_player(v.players[i]) by {
        lemma_encode_players_index(v.players, i);
        assert(whole.subrange(
            HEADER_BYTES + PLAYER_BYTES * i,
            HEADER_BYTES + PLAYER_BYTES * i + PLAYER_BYTES,
        ) =~= encode_players(v.players).subrange(
            PLAYER_BYTES * i,
            PLAYER_BYTES * i + PLAYER_BYTES,
        ));
    }
    assert(whole.subrange(
        HEADER_BYTES + PLAYER_BYTES * v.players.len(),
        HEADER_BYTES + PLAYER_BYTES * v.players.len() + BALL_BYTES,
    ) =~= encode_ball(v.ball));
}

/// The words spelled by a buffer region holding one player record.
pub proof fn lemma_player_fields_at(buf: Seq<u8>, base: int, p: Player2D)
    requires
        0 <= base,
        base + PLAYER_BYTES <= buf.len(),
        buf.subrange(base, base + PLAYER_BYTES) == encode_player(p),
    ensures
        i32_from_le(buf[base], buf[base + 1], buf[base + 2], buf[base + 3]) == p.position.x,
        i32_from_le(buf[base + 4], buf[base + 5], buf[base + 6], buf[base + 7]) == p.position.y,
        i32_from_le(buf[base + 8], buf[base + 9], buf[base + 10], buf[base + 11]) == p.velocity.x,
        i32_from_le(buf[base + 12], buf[base + 13], buf[base + 14], buf[base + 15])
            == p.velocity.y,
        u32_from_le(buf[base + 16], buf[base + 17], buf[base + 18], buf[base + 19])
            == p.anim.dt as u32,
        u32_from_le(buf[base + 20], buf[base + 21], buf[base + 22], buf[base + 23])
            == p.anim.speed as u32,
        u32_from_le(buf[base + 24], buf[base + 25], buf[base + 26], buf[base + 27])
            == p.anim.index,
{
    let rec = encode_player(p);
    let hi = base + PLAYER_BYTES as int;
    assert(rec.subrange(0, 4) =~= i32_le_bytes(p.position.x));
    assert(rec.subrange(4, 8) =~= i32_le_bytes(p.position.y));
    assert(rec.subrange(8, 12) =~= i32_le_bytes(p.velocity.x));
    assert(rec.subrange(12, 16) =~= i32_le_bytes(p.velocity.y));
    assert(rec.subrange(16, 20) =~= u32_le_bytes(p.anim.dt as u32));
    assert(rec.subrange(20, 24) =~= u32_le_bytes(p.anim.speed as u32));
    assert(rec.subrange(24, 28) =~= u32_le_bytes(p.anim.index));
    buf.lemma_slice_of_slice(base, hi, 0, 4);
    buf.lemma_slice_of_slice(base, hi, 4, 8);
    buf.lemma_slice_of_slice(base, hi, 8, 12);
    buf.lemma_slice_of_slice(base, hi, 12, 16);
    buf.lemma_slice_of_slice(base, hi, 16, 20);
    buf.lemma_slice_of_slice(base, hi, 20, 24);
    buf.lemma_slice_of_slice(base, hi, 24, 28);
    crate::bytes::lemma_signed_word_at(buf, base, p.position.x);
    crate::bytes::lemma_signed_word_at(buf, base + 4, p.position.y);
    crate::bytes::lemma_signed_word_at(buf, base + 8, p.velocity.x);
    crate::bytes::lemma_signed_word_at(buf, base + 12, p.velocity.y);
    lemma_word_at(buf, base + 16, p.anim.dt as u32);
    lemma_word_at(buf, base + 20, p.anim.speed as u32);
    lemma_word_at(buf, base + 24, p.anim.index);
}

/// The words spelled by a buffer region holding the ball record.
pub proof fn lemma_ball_fields_at(buf: Seq<u8>, base: int, b: Ball2D)
    requires
        0 <= base,
        base + BALL_BYTES <= buf.len(),
        buf.subrange(base, base + BALL_BYTES) == encode_ball(b),
    ensures
        i32_from_le(buf[base], buf[base + 1], buf[base + 2], buf[base + 3]) == b.position.x,
        i32_from_le(buf[base + 4], buf[base + 5], buf[base + 6], buf[base + 7]) == b.position.y,
        i32_from_le(buf[base + 8], buf[base + 9], buf[base + 10], buf[base + 11]) == b.velocity.x,
        i32_from_le(buf[base + 12], buf[base + 13], buf[base + 14], buf[base + 15])
            == b.velocity.y,
        u32_from_le(buf[base + 16], buf[base + 17], buf[base + 18], buf[base + 19]) == (
        if b.alive {
            1u32
        } else {
            0u32
        }),
{
    let rec = encode_ball(b);
    let hi = base + BALL_BYTES as int;
    assert(rec.subrange(0, 4) =~= i32_le_bytes(b.position.x));
    assert(rec.subrange(4, 8) =~= i32_le_bytes(b.position.y));
    assert(rec.subrange(8, 12) =~= i32_le_bytes(b.velocity.x));
    assert(rec.subrange(12, 16) =~= i32_le_bytes(b.velocity.y));
    assert(rec.subrange(16, 20) =~= u32_le_bytes(
        if b.alive {
            1u32
        } else {
            0u32
        },
    ));
    buf.lemma_slice_of_slice(base, hi, 0, 4);
    buf.lemma_slice_of_slice(base, hi, 4, 8);
    buf.lemma_slice_of_slice(base, hi, 8, 12);
    buf.lemma_slice_of_slice(base, hi, 12, 16);
    buf.lemma_slice_of_slice(base, hi, 16, 20);
    crate::bytes::lemma_signed_word_at(buf, base, b.position.x);
    crate::bytes::lemma_signed_word_at(buf, base + 4, b.position.y);
    crate::bytes::lemma_signed_word_at(buf, base + 8, b.velocity.x);
    crate::bytes::lemma_signed_word_at(buf, base + 12, b.velocity.y);
    lemma_word_at(
        buf,
        base + 16,
        if b.alive {
            1u32
        } else {
            0u32
        },
    );
}

/// Two well-formed states with the same encoding are the same state, so a
/// snapshot determines the state it was taken from.
pub proof fn lemma_encode_state_injective(v1: StateView, v2: StateView)
    requires
        v1.wf(),
        v2.wf(),
        encode_state(v1) == encode_state(v2),
    ensures
        v1 == v2,
{
    let buf = encode_state(v1);
    lemma_encode_state_structure(v1);
    lemma_encode_state_structure(v2);
    let n1 = v1.players.len() as int;
    let n2 = v2.players.len() as int;
    assert(HEADER_BYTES + PLAYER_BYTES * n1 + BALL_BYTES == HEADER_BYTES + PLAYER_BYTES * n2
        + BALL_BYTES);
    assert(n1 == n2) by (nonlinear_arith)
        requires
            PLAYER_BYTES * n1 == PLAYER_BYTES * n2,
            n1 >= 0,
            n2 >= 0,
    ;
    lemma_word_at(buf, 0, v1.frame_count.frame);
    lemma_word_at(buf, 0, v2.frame_count.frame);
    assert forall|i: int| 0 <= i < n1 implies v1.players[i] == v2.players[i] by {
        let base = HEADER_BYTES + PLAYER_BYTES * i;
        assert(PLAYER_BYTES * i + PLAYER_BYTES <= PLAYER_BYTES * n1) by (nonlinear_arith)
            requires
                0 <= i < n1,
        ;
        lemma_player_fields_at(buf, base, v1.players[i]);
        lemma_player_fields_at(buf, base, v2.players[i]);
        let p1 = v1.players[i];
        let p2 = v2.players[i];
        assert(player_wf(p1, i) && player_wf(p2, i));
        assert(p1.anim.dt == p2.anim.dt);
        assert(p1.anim.speed == p2.anim.speed);
        assert(p1 =~= p2);
    }
    assert(v1.players =~= v2.players);
    let bbase = HEADER_BYTES + PLAYER_BYTES * n1;
    lemma_ball_fields_at(buf, bbase, v1.ball);
    lemma_ball_fields_at(buf, bbase, v2.ball);
    assert(v1.ball =~= v2.ball);
    assert(v1 =~= v2);
}

/// Serializes the whole simulation state into its snapshot bytes: an exact,
/// deterministic function of the state value.
pub fn serialize(state: &SimState) -> (out: Vec<u8>)
    requires
        state.wf(),
    ensures
        out@ == encode_state(state@),
{
    let n = state.players.len();
    let mut out: Vec<u8> = Vec::new();
    push_u32(&mut out, state.frame_count.frame);
    push_u32(&mut out, n as u32);
    let ghost prefix = u32_le_bytes(state@.frame_count.frame) + u32_le_bytes(
        state@.players.len() as u32,
    );
    assert(out@ =~= prefix + encode_players(state@.players.take(0)));
    let mut i: usize = 0;
    while i < n
        invariant
            state.wf(),
            0 <= i <= n,
            n == state@.players.len(),
            prefix == u32_le_bytes(state@.frame_count.frame) + u32_le_bytes(
                state@.players.len() as u32,
            ),
            out@ == prefix + encode_players(state@.players.take(i as int)),
        decreases n - i,
    {
        let p = state.players[i];
        push_i32(&mut out, p.position.x);
        push_i32(&mut out, p.position.y);
        push_i32(&mut out, p.velocity.x);
        push_i32(&mut out, p.velocity.y);
        push_u32(&mut out, p.anim.dt as u32);
        push_u32(&mut out, p.anim.speed as u32);
        push_u32(&mut out, p.anim.index);
        proof {
            lemma_encode_players_snoc(state@.players.take(i as int), p);
            assert(state@.players.take(i as int).push(p) =~= state@.players.take(i + 1));
            assert(out@ =~= prefix + encode_players(state@.players.take(i + 1)));
        }
        i = i + 1;
    }
    push_i32(&mut out, state.ball.position.x);
    push_i32(&mut out, state.ball.position.y);
    push_i32(&mut out, state.ball.velocity.x);
    push_i32(&mut out, state.ball.velocity.y);
    push_u32(
        &mut out,
        if state.ball.alive {
            1u32
        } else {
            0u32
        },
    );
    proof {
        assert(state@.players.take(n as int) =~= state@.players);
        assert(out@ =~= encode_state(state@));
    }
    out
}

/// A player whose fields were read from a buffer region encodes back to
/// exactly that region.
proof fn lemma_player_record_bytes(buf: Seq<u8>, base: int, p: Player2D)
    requires
        0 <= base,
        base + PLAYER_BYTES <= buf.len(),
        p.position.x == i32_from_le(buf[base], buf[base + 1], buf[base + 2], buf[base + 3]),
        p.position.y == i32_from_le(buf[base + 4], buf[base + 5], buf[base + 6], buf[base + 7]),
        p.velocity.x == i32_from_le(buf[base + 8], buf[base + 9], buf[base + 10], buf[base + 11]),
        p.velocity.y == i32_from_le(
            buf[base + 12],
            buf[base + 13],
            buf[base + 14],
            buf[base + 15],
        ),
        p.anim.dt as u32 == u32_from_le(
            buf[base + 16],
            buf[base + 17],
            buf[base + 18],
            buf[base + 19],
        ),
        p.anim.speed as u32 == u32_from_le(
            buf[base + 20],
            buf[base + 21],
            buf[base + 22],
            buf[base + 23],
        ),
        p.anim.index == u32_from_le(buf[base + 24], buf[base + 25], buf[base + 26], buf[base + 27]),
    ensures
        encode_player(p) == buf.subrange(base, base + PLAYER_BYTES),
{
    crate::bytes::lemma_i32_inverse(buf[base], buf[base + 1], buf[base + 2], buf[base + 3]);
    crate::bytes::lemma_i32_inverse(buf[base + 4], buf[base + 5], buf[base + 6], buf[base + 7]);
    crate::bytes::lemma_i32_inverse(buf[base + 8], buf[base + 9], buf[base + 10], buf[base + 11]);
    crate::bytes::lemma_i32_inverse(buf[base + 12], buf[base + 13], buf[base + 14], buf[base + 15]);
    lemma_u32_inverse(buf[base + 16], buf[base + 17], buf[base + 18], buf[base + 19]);
    lemma_u32_inverse(buf[base + 20], buf[base + 21], buf[base + 22], buf[base + 23]);
    lemma_u32_inverse(buf[base + 24], buf[base + 25], buf[base + 26], buf[base + 27]);
    assert(encode_player(p) =~= buf.subrange(base, base + PLAYER_BYTES));
}

/// A ball whose fields were read from a buffer region encodes back to
/// exactly that region.
proof fn lemma_ball_record_bytes(buf: Seq<u8>, base: int, b: Ball2D)
    requires
        0 <= base,
        base + BALL_BYTES <= buf.len(),
        b.position.x == i32_from_le(buf[base], buf[base + 1], buf[base + 2], buf[base + 3]),
        b.position.y == i32_from_le(buf[base + 4], buf[base + 5], buf[base + 6], buf[base + 7]),
        b.velocity.x == i32_from_le(buf[base + 8], buf[base + 9], buf[base + 10], buf[base + 11]),
        b.velocity.y == i32_from_le(
            buf[base + 12],
            buf[base + 13],
            buf[base + 14],
            buf[base + 15],
        ),
        (if b.alive {
            1u32
        } else {
            0u32
        }) == u32_from_le(buf[base + 16], buf[base + 17], buf[base + 18], buf[base + 19]),
    ensures
        encode_ball(b) == buf.subrange(base, base + BALL_BYTES),
{
    crate::bytes::lemma_i32_inverse(buf[base], buf[base + 1], buf[base + 2], buf[base + 3]);
    crate::bytes::lemma_i32_inverse(buf[base + 4], buf[base + 5], buf[base + 6], buf[base + 7]);
    crate::bytes::lemma_i32_inverse(buf[base + 8], buf[base + 9], buf[base + 10], buf[base + 11]);
    crate::bytes::lemma_i32_inverse(buf[base + 12], buf[base + 13], buf[base + 14], buf[base + 15]);
    lemma_u32_inverse(buf[base + 16], buf[base + 17], buf[base + 18], buf[base + 19]);
    assert(encode_ball(b) =~= buf.subrange(base, base + BALL_BYTES));
}

/// Records that each encode to consecutive buffer regions together encode to
/// the whole region.
proof fn lemma_encode_players_from_records(ps: Seq<Player2D>, buf: Seq<u8>, base: int)
    requires
        0 <= base,
        base + PLAYER_BYTES * ps.len() <= buf.len(),
        forall|j: int|
            0 <= j < ps.len() ==> encode_player(ps[j]) == buf.subrange(
                base + PLAYER_BYTES * j,
                base + PLAYER_BYTES * j + PLAYER_BYTES,
            ),
    ensures
        encode_players(ps) == buf.subrange(base, base + PLAYER_BYTES * ps.len()),
    decreases ps.len(),
{
    lemma_encode_players_len(ps);
    if ps.len() == 0 {
        assert(encode_players(ps) =~= buf.subrange(base, base));
    } else {
        let rest = ps.drop_first();
        assert forall|j: int| 0 <= j < rest.len() implies encode_player(rest[j]) == buf.subrange(
            base + PLAYER_BYTES + PLAYER_BYTES * j,
            base + PLAYER_BYTES + PLAYER_BYTES * j + PLAYER_BYTES,
        ) by {
            assert(rest[j] == ps[j + 1]);
            assert(encode_player(ps[j + 1]) == buf.subrange(
                base + PLAYER_BYTES * (j + 1),
                base + PLAYER_BYTES * (j + 1) + PLAYER_BYTES,
            ));
        }
        lemma_encode_players_from_records(rest, buf, base + PLAYER_BYTES as int);
        assert(encode_player(ps[0]) == buf.subrange(base, base + PLAYER_BYTES));
        assert(encode_players(ps) =~= buf.subrange(base, base + PLAYER_BYTES * ps.len()));
    }
}

/// Deserializes snapshot bytes. Success happens exactly on the encodings of
/// well-formed states — then the state that was encoded comes back — and any
/// other input is rejected.
#[verifier::rlimit(60)]
pub fn deserialize(buf: &Vec<u8>) -> (r: Option<SimState>)
    ensures
        r matches Some(s) ==> s.wf() && encode_state(s@) == buf@,
        forall|v: StateView|
            v.wf() && buf@ == #[trigger] encode_state(v) ==> (r matches Some(s) && s@ == v),
{
    let total = buf.len();
    if total < HEADER_BYTES + BALL_BYTES {
        proof {
            assert forall|v: StateView| v.wf() && buf@ == encode_state(v) implies false by {
                lemma_encode_state_structure(v);
                assert(PLAYER_BYTES * v.players.len() >= 0) by (nonlinear_arith)
                    requires
                        v.players.len() >= 0,
                ;
            }
        }
        return None;
    }
    let frame = read_u32(buf, 0);
    let count = read_u32(buf, 4);
    let expected: u64 = HEADER_BYTES as u64 + PLAYER_BYTES as u64 * count as u64
        + BALL_BYTES as u64;
    if total as u64 != expected {
        proof {
            assert forall|v: StateView| v.wf() && buf@ == encode_state(v) implies false by {
                lemma_encode_state_structure(v);
                lemma_word_at(buf@, 4, v.players.len() as u32);
            }
        }
        return None;
    }
    let count_us = count as usize;
    let ghost n = count_us as int;
    assert(total == HEADER_BYTES + PLAYER_BYTES * n + BALL_BYTES);
    let mut players: Vec<Player2D> = Vec::new();
    let mut off: usize = HEADER_BYTES;
    let mut i: usize = 0;
    while i < count_us
        invariant
            0 <= i <= count_us,
            n == count_us as int,
            count_us <= u32::MAX,
            count == count_us as u32,
            off == HEADER_BYTES + PLAYER_BYTES * i,
            total == buf@.len(),
            total == HEADER_BYTES + PLAYER_BYTES * n + BALL_BYTES,
            players@.len() == i,
            forall|j: int| 0 <= j < i ==> player_wf(#[trigger] players@[j], j),
            forall|j: int|
                0 <= j < i ==> encode_player(#[trigger] players@[j]) == buf@.subrange(
                    HEADER_BYTES + PLAYER_BYTES * j,
                    HEADER_BYTES + PLAYER_BYTES * j + PLAYER_BYTES,
                ),
        decreases count_us - i,
    {
        let x = read_i32(buf, off);
        let y = read_i32(buf, off + 4);
        let vx = read_i32(buf, off + 8);
        let vy = read_i32(buf, off + 12);
        let dtw = read_u32(buf, off + 16);
        let spw = read_u32(buf, off + 20);
        let idxw = read_u32(buf, off + 24);
        if x < -COORD_LIMIT || x > COORD_LIMIT || y < -COORD_LIMIT || y > COORD_LIMIT || vx
            < -COORD_LIMIT || vx > COORD_LIMIT || vy < -COORD_LIMIT || vy > COORD_LIMIT || spw
            >= 255 || dtw > spw + 1 || idxw >= ANIM_FRAME_COUNT {
            proof {
                assert forall|v: StateView| v.wf() && buf@ == encode_state(v) implies false by {
                    lemma_encode_state_structure(v);
                    assert(v.players.len() == n);
                    lemma_player_fields_at(buf@, off as int, v.players[i as int]);
                    assert(player_wf(v.players[i as int], i as int));
                }
            }
            return None;
        }
        let p = Player2D {
            handle: i as u32,
            position: Vector2D { x, y },
            velocity: Vector2D { x: vx, y: vy },
            anim: SpriteSheetAnimation { dt: dtw as u8, speed: spw as u8, index: idxw },
        };
        proof {
            lemma_player_record_bytes(buf@, off as int, p);
            assert(player_wf(p, i as int));
        }
        players.push(p);
        off = off + PLAYER_BYTES;
        i = i + 1;
    }
    let bx = read_i32(buf, off);
    let by = read_i32(buf, off + 4);
    let bvx = read_i32(buf, off + 8);
    let bvy = read_i32(buf, off + 12);
    let alivew = read_u32(buf, off + 16);
    if bx < -COORD_LIMIT || bx > COORD_LIMIT || by < -COORD_LIMIT || by > COORD_LIMIT || bvx
        < -COORD_LIMIT || bvx > COORD_LIMIT || bvy < -COORD_LIMIT || bvy > COORD_LIMIT || alivew
        > 1 {
        proof {
            assert forall|v: StateView| v.wf() && buf@ == encode_state(v) implies false by {
                lemma_encode_state_structure(v);
                assert(v.players.len() == n);
                lemma_ball_fields_at(buf@, off as int, v.ball);
            }
        }
        return None;
    }
    let ball = Ball2D {
        position: Vector2D { x: bx, y: by },
        velocity: Vector2D { x: bvx, y: bvy },
        alive: alivew == 1,
    };
    let state = SimState { frame_count: FrameCount { frame }, players, ball };
    proof {
        lemma_ball_record_bytes(buf@, off as int, state@.ball);
        lemma_encode_players_from_records(state@.players, buf@, HEADER_BYTES as int);
        lemma_u32_inverse(buf@[0], buf@[1], buf@[2], buf@[3]);
        lemma_u32_inverse(buf@[4], buf@[5], buf@[6], buf@[7]);
        assert(u32_le_bytes(frame) =~= buf@.subrange(0, 4));
        assert(state@.players.len() as u32 == count);
        assert(u32_le_bytes(count) =~= buf@.subrange(4, 8));
        assert(encode_state(state@) =~= buf@);
        assert(state@.wf());
        assert forall|v: StateView| v.wf() && buf@ == encode_state(v) implies state@ == v by {
            lemma_encode_state_injective(state@, v);
        }
    }
    Some(state)
}

} // verus!
