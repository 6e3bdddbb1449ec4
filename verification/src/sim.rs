//! The simulation state and the tick function that advances it by one frame.
//!
//! The state is a complete, serializable value: plain integer positions,
//! velocities and animation counters, with no references to anything outside
//! itself. The tick function is a pure function of the state and one input
//! per player, so re-running it on an identical state with identical inputs
//! always yields an identical result — the determinism invariant the whole
//! rollback design rests on.

use vstd::prelude::*;

use crate::input::BoxInput;
use crate::input::INPUT_JUMP;
use crate::input::INPUT_LEFT;
use crate::input::INPUT_RIGHT;

verus! {

/// Simulation ticks per second.
pub const GAME_FPS: u32 = 60;

/// Sideways impulse applied while the left or right action is held.
pub const MOVE_IMPULSE: i32 = 1;

/// Upward impulse applied while the jump action is held. The original game
/// applies a unit impulse against a gravity of 9.81/60 per tick, so a jump
/// outruns gravity for about six ticks; with gravity pinned at one unit per
/// tick here, the impulse is scaled to six to keep that ratio.
pub const JUMP_IMPULSE: i32 = 6;

/// Downward pull applied to every airborne body each tick.
pub const GRAVITY: i32 = 1;

/// Height of the ground plane every body rests on. The original keeps a
/// fixed ground body at depth -10 (its top face at -9) in render units; this
/// model pins the resting height of bodies at the origin instead — a layout
/// choice left open by the design, made explicit here.
pub const FLOOR_Y: i32 = 0;

/// All coordinates and velocities are clamped into `[-COORD_LIMIT, COORD_LIMIT]`.
pub const COORD_LIMIT: i32 = 1000000000;

/// Number of cells in a sprite sheet row; animation indices wrap at it.
pub const ANIM_FRAME_COUNT: u32 = 20;

/// The ball disappears once the frame counter passes this age.
pub const BALL_LIFETIME_FRAMES: u32 = 144 * 1000;

/// Monotonic counter of simulation ticks; part of the rolled-back state.
#[derive(Clone, Copy, PartialEq, Eq, Structural, Debug)]
pub struct FrameCount {
    pub frame: u32,
}

/// A two-dimensional vector with integer components, used for positions and
/// velocities so that every peer computes bit-identical results.
#[derive(Clone, Copy, PartialEq, Eq, Structural, Debug)]
pub struct Vector2D {
    pub x: i32,
    pub y: i32,
}

/// Sprite-sheet playback counters; rolled back with the rest of the state so
/// replay leaves the animation exactly where a straight run would.
#[derive(Clone, Copy, PartialEq, Eq, Structural, Debug)]
pub struct SpriteSheetAnimation {
    pub dt: u8,
    pub speed: u8,
    pub index: u32,
}

/// One player's rollback-relevant state.
#[derive(Clone, Copy, PartialEq, Eq, Structural, Debug)]
pub struct Player2D {
    pub handle: u32,
    pub position: Vector2D,
    pub velocity: Vector2D,
    pub anim: SpriteSheetAnimation,
}

/// The free-rolling ball: bounces on the floor and despawns after a fixed
/// number of frames.
#[derive(Clone, Copy, PartialEq, Eq, Structural, Debug)]
pub struct Ball2D {
    pub position: Vector2D,
    pub velocity: Vector2D,
    pub alive: bool,
}

impl Vector2D {
    pub fn new(x: i32, y: i32) -> (v: Vector2D)
        ensures
            v == (Vector2D { x, y }),
    {
        Vector2D { x, y }
    }

    pub fn set(&mut self, x: i32, y: i32)
        ensures
            *final(self) == (Vector2D { x, y }),
    {
        self.x = x;
        self.y = y;
    }

    pub fn set_x(&mut self, value: i32)
        ensures
            *final(self) == (Vector2D { x: value, y: old(self).y }),
    {
        self.x = value;
    }

    pub fn set_y(&mut self, value: i32)
        ensures
            *final(self) == (Vector2D { x: old(self).x, y: value }),
    {
        self.y = value;
    }

    pub fn set_all(&mut self, value: i32)
        ensures
            *final(self) == (Vector2D { x: value, y: value }),
    {
        self.x = value;
        self.y = value;
    }

    pub fn add(&mut self, x: i32, y: i32)
        requires
            i32::MIN <= old(self).x + x <= i32::MAX,
            i32::MIN <= old(self).y + y <= i32::MAX,
        ensures
            final(self).x == old(self).x + x,
            final(self).y == old(self).y + y,
    {
        self.x = self.x + x;
        self.y = self.y + y;
    }

    pub fn add_x(&mut self, value: i32)
        requires
            i32::MIN <= old(self).x + value <= i32::MAX,
        ensures
            final(self).x == old(self).x + value,
            final(self).y == old(self).y,
    {
        self.x = self.x + value;
    }

    pub fn add_y(&mut self, value: i32)
        requires
            i32::MIN <= old(self).y + value <= i32::MAX,
        ensures
            final(self).x == old(self).x,
            final(self).y == old(self).y + value,
    {
        self.y = self.y + value;
    }

    pub fn add_all(&mut self, value: i32)
        requires
            i32::MIN <= old(self).x + value <= i32::MAX,
            i32::MIN <= old(self).y + value <= i32::MAX,
        ensures
            final(self).x == old(self).x + value,
            final(self).y == old(self).y + value,
    {
        self.x = self.x + value;
        self.y = self.y + value;
    }
}

/// Mathematical content of a [`SimState`].
#[verifier::ext_equal]
pub struct StateView {
    pub frame_count: FrameCount,
    pub players: Seq<Player2D>,
    pub ball: Ball2D,
}

/// The complete mutable simulation state: everything the tick function reads
/// or writes, reconstructable from a snapshot with no external references.
pub struct SimState {
    pub frame_count: FrameCount,
    pub players: Vec<Player2D>,
    pub ball: Ball2D,
}

impl View for SimState {
    type V = StateView;

    open spec fn view(&self) -> StateView {
        StateView { frame_count: self.frame_count, players: self.players@, ball: self.ball }
    }
}

/// `a + b`, clamped into the coordinate range.
pub open spec fn clamp_add(a: i32, b: i32) -> i32 {
    let s = a + b;
    if s < -COORD_LIMIT {
        (-COORD_LIMIT) as i32
    } else if s > COORD_LIMIT {
        COORD_LIMIT
    } else {
        s as i32
    }
}

pub open spec fn coord_ok(v: i32) -> bool {
    -COORD_LIMIT <= v <= COORD_LIMIT
}

pub open spec fn vector_ok(v: Vector2D) -> bool {
    coord_ok(v.x) && coord_ok(v.y)
}

pub open spec fn anim_wf(a: SpriteSheetAnimation) -> bool {
    &&& a.speed < u8::MAX
    &&& a.dt <= a.speed + 1
    &&& a.index < ANIM_FRAME_COUNT
}

pub open spec fn player_wf(p: Player2D, handle: int) -> bool {
    &&& p.handle == handle
    &&& vector_ok(p.position)
    &&& vector_ok(p.velocity)
    &&& anim_wf(p.anim)
}

pub open spec fn ball_wf(b: Ball2D) -> bool {
    vector_ok(b.position) && vector_ok(b.velocity)
}

impl StateView {
    pub open spec fn wf(self) -> bool {
        &&& self.players.len() <= u32::MAX as int
        &&& forall|i: int| 0 <= i < self.players.len() ==> player_wf(self.players[i], i)
        &&& ball_wf(self.ball)
    }
}

impl SimState {
    pub open spec fn wf(self) -> bool {
        self@.wf()
    }
}

/// The velocity change caused by one input bitmask: left and right push
/// sideways, jump pushes up; left wins over right, right over jump.
pub open spec fn apply_input(v: Vector2D, inp: BoxInput) -> Vector2D {
    if inp.inp & INPUT_LEFT != 0 {
        Vector2D { x: clamp_add(v.x, (-MOVE_IMPULSE) as i32), y: v.y }
    } else if inp.inp & INPUT_RIGHT != 0 {
        Vector2D { x: clamp_add(v.x, MOVE_IMPULSE), y: v.y }
    } else if inp.inp & INPUT_JUMP != 0 {
        Vector2D { x: v.x, y: clamp_add(v.y, JUMP_IMPULSE) }
    } else {
        v
    }
}

/// One step of the sprite-sheet clock: once `dt` passes `speed`, the next
/// cell is selected and the clock restarts.
pub open spec fn step_anim(a: SpriteSheetAnimation) -> SpriteSheetAnimation {
    if a.dt > a.speed {
        SpriteSheetAnimation {
            dt: 1,
            speed: a.speed,
            index: ((a.index + 1) % (ANIM_FRAME_COUNT as int)) as u32,
        }
    } else {
        SpriteSheetAnimation { dt: (a.dt + 1) as u8, speed: a.speed, index: a.index }
    }
}

/// One tick of a single player: apply the input impulse, then gravity, then
/// integrate, then rest on the floor, then advance the animation clock.
pub open spec fn step_player(p: Player2D, inp: BoxInput) -> Player2D {
    let v1 = apply_input(p.velocity, inp);
    let v2 = Vector2D { x: v1.x, y: clamp_add(v1.y, (-GRAVITY) as i32) };
    let px = clamp_add(p.position.x, v2.x);
    let py0 = clamp_add(p.position.y, v2.y);
    let grounded = py0 < FLOOR_Y;
    Player2D {
        handle: p.handle,
        position: Vector2D { x: px, y: if grounded { FLOOR_Y } else { py0 } },
        velocity: if grounded {
            Vector2D { x: v2.x, y: 0 }
        } else {
            v2
        },
        anim: step_anim(p.anim),
    }
}

/// One tick of the ball: despawn past its lifetime, else fall, integrate and
/// bounce on the floor with seven-tenths restitution.
pub open spec fn step_ball(b: Ball2D, frame: int) -> Ball2D {
    if !b.alive {
        b
    } else if frame > BALL_LIFETIME_FRAMES {
        Ball2D { position: b.position, velocity: b.velocity, alive: false }
    } else {
        let vy = clamp_add(b.velocity.y, (-GRAVITY) as i32);
        let px = clamp_add(b.position.x, b.velocity.x);
        let py0 = clamp_add(b.position.y, vy);
        if py0 < FLOOR_Y {
            Ball2D {
                position: Vector2D { x: px, y: FLOOR_Y },
                velocity: Vector2D { x: b.velocity.x, y: bounce(vy) },
                alive: true,
            }
        } else {
            Ball2D {
                position: Vector2D { x: px, y: py0 },
                velocity: Vector2D { x: b.velocity.x, y: vy },
                alive: true,
            }
        }
    }
}

/// The velocity left after a floor bounce: reversed and scaled by 7/10
/// (magnitudes divide exactly as non-negative numbers, so every peer agrees).
pub open spec fn bounce(vy: i32) -> i32 {
    if vy <= 0 {
        ((-vy) * 7 / 10) as i32
    } else {
        (-(vy * 7 / 10)) as i32
    }
}

/// One tick of the whole simulation: every player steps under its own input,
/// the ball steps, and the frame counter advances by one.
pub open spec fn step(s: StateView, inputs: Seq<BoxInput>) -> StateView
    recommends
        inputs.len() == s.players.len(),
        s.frame_count.frame < u32::MAX,
{
    StateView {
        frame_count: FrameCount { frame: (s.frame_count.frame + 1) as u32 },
        players: Seq::new(s.players.len(), |i: int| step_player(s.players[i], inputs[i])),
        ball: step_ball(s.ball, s.frame_count.frame as int),
    }
}

/// The state reached by folding the tick function over one input set per
/// frame, starting from `s`.
pub open spec fn run_from(s: StateView, inputs: Seq<Seq<BoxInput>>) -> StateView
    decreases inputs.len(),
{
    if inputs.len() == 0 {
        s
    } else {
        run_from(step(s, inputs.first()), inputs.drop_first())
    }
}

/// Determinism: the tick is a pure function of the state value and the input
/// set, so invoking it twice on equal arguments yields equal results — on
/// every peer's machine, since no step depends on the environment.
pub proof fn lemma_tick_deterministic(
    s1: StateView,
    s2: StateView,
    inputs1: Seq<BoxInput>,
    inputs2: Seq<BoxInput>,
)
    requires
        s1 == s2,
        inputs1 == inputs2,
    ensures
        step(s1, inputs1) == step(s2, inputs2),
{
}

/// Splitting a run: simulating all frames in one go reaches the same state
/// as simulating a prefix, then continuing from the state the prefix reached.
/// This is what makes restoring a snapshot and replaying forward sound.
pub proof fn lemma_run_from_split(s: StateView, inputs: Seq<Seq<BoxInput>>, f: int)
    requires
        0 <= f <= inputs.len(),
    ensures
        run_from(s, inputs) == run_from(run_from(s, inputs.take(f)), inputs.skip(f)),
    decreases f,
{
    if f == 0 {
        assert(inputs.take(0) =~= Seq::<Seq<BoxInput>>::empty());
        assert(inputs.skip(0) =~= inputs);
    } else {
        let s1 = step(s, inputs.first());
        let rest = inputs.drop_first();
        assert(inputs.take(f).first() == inputs.first());
        assert(inputs.take(f).drop_first() =~= rest.take(f - 1));
        assert(inputs.skip(f) =~= rest.skip(f - 1));
        lemma_run_from_split(s1, rest, f - 1);
    }
}

/// Step preserves well-formedness of a player.
proof fn lemma_step_player_wf(p: Player2D, inp: BoxInput, handle: int)
    requires
        player_wf(p, handle),
    ensures
        player_wf(step_player(p, inp), handle),
{
}

/// Step preserves well-formedness of the ball.
proof fn lemma_step_ball_wf(b: Ball2D, frame: int)
    requires
        ball_wf(b),
    ensures
        ball_wf(step_ball(b, frame)),
{
    if b.alive && frame <= BALL_LIFETIME_FRAMES {
        let vy = clamp_add(b.velocity.y, (-GRAVITY) as i32);
        lemma_bounce_bounds(vy);
    }
}

/// A bounce never leaves the coordinate range.
proof fn lemma_bounce_bounds(vy: i32)
    requires
        coord_ok(vy),
    ensures
        coord_ok(bounce(vy)),
{
    if vy <= 0 {
        assert(0 <= (-vy) * 7 / 10 <= COORD_LIMIT) by (nonlinear_arith)
            requires
                -COORD_LIMIT <= vy <= 0,
        ;
    } else {
        assert(0 <= vy * 7 / 10 <= COORD_LIMIT) by (nonlinear_arith)
            requires
                0 < vy <= COORD_LIMIT,
        ;
    }
}

/// Step preserves well-formedness of the whole state.
pub proof fn lemma_step_wf(s: StateView, inputs: Seq<BoxInput>)
    requires
        s.wf(),
        inputs.len() == s.players.len(),
    ensures
        step(s, inputs).wf(),
{
    let next = step(s, inputs);
    assert forall|i: int| 0 <= i < next.players.len() implies player_wf(next.players[i], i) by {
        lemma_step_player_wf(s.players[i], inputs[i], i);
    }
    lemma_step_ball_wf(s.ball, s.frame_count.frame as int);
}

/// A run from a well-formed state stays well-formed when every frame carries
/// one input per player.
pub proof fn lemma_run_from_wf(s: StateView, inputs: Seq<Seq<BoxInput>>)
    requires
        s.wf(),
        forall|f: int| 0 <= f < inputs.len() ==> #[trigger] inputs[f].len() == s.players.len(),
    ensures
        run_from(s, inputs).wf(),
        run_from(s, inputs).players.len() == s.players.len(),
    decreases inputs.len(),
{
    if inputs.len() > 0 {
        lemma_step_wf(s, inputs.first());
        let s1 = step(s, inputs.first());
        assert(s1.players.len() == s.players.len());
        lemma_run_from_wf(s1, inputs.drop_first());
    }
}

/// Exact saturating addition on coordinates.
fn clamp_add_exec(a: i32, b: i32) -> (r: i32)
    ensures
        r == clamp_add(a, b),
{
    let s = a as i64 + b as i64;
    if s < -COORD_LIMIT as i64 {
        -COORD_LIMIT
    } else if s > COORD_LIMIT as i64 {
        COORD_LIMIT
    } else {
        s as i32
    }
}

/// One tick of a single player; mirrors [`step_player`] exactly.
fn tick_player(p: &Player2D, inp: BoxInput) -> (r: Player2D)
    requires
        anim_wf(p.anim),
    ensures
        r == step_player(*p, inp),
{
    let mut v = p.velocity;
    if inp.inp & INPUT_LEFT != 0 {
        v.x = clamp_add_exec(v.x, -MOVE_IMPULSE);
    } else if inp.inp & INPUT_RIGHT != 0 {
        v.x = clamp_add_exec(v.x, MOVE_IMPULSE);
    } else if inp.inp & INPUT_JUMP != 0 {
        v.y = clamp_add_exec(v.y, JUMP_IMPULSE);
    }
    v.y = clamp_add_exec(v.y, -GRAVITY);
    let px = clamp_add_exec(p.position.x, v.x);
    let py0 = clamp_add_exec(p.position.y, v.y);
    let grounded = py0 < FLOOR_Y;
    let py = if grounded {
        FLOOR_Y
    } else {
        py0
    };
    if grounded {
        v.y = 0;
    }
    let anim = if p.anim.dt > p.anim.speed {
        SpriteSheetAnimation {
            dt: 1,
            speed: p.anim.speed,
            index: (p.anim.index + 1) % ANIM_FRAME_COUNT,
        }
    } else {
        SpriteSheetAnimation { dt: p.anim.dt + 1, speed: p.anim.speed, index: p.anim.index }
    };
    Player2D { handle: p.handle, position: Vector2D { x: px, y: py }, velocity: v, anim }
}

/// One tick of the ball; mirrors [`step_ball`] exactly.
fn tick_ball(b: &Ball2D, frame: u32) -> (r: Ball2D)
    requires
        ball_wf(*b),
    ensures
        r == step_ball(*b, frame as int),
{
    if !b.alive {
        return *b;
    }
    if frame > BALL_LIFETIME_FRAMES {
        return Ball2D { position: b.position, velocity: b.velocity, alive: false };
    }
    let vy = clamp_add_exec(b.velocity.y, -GRAVITY);
    let px = clamp_add_exec(b.position.x, b.velocity.x);
    let py0 = clamp_add_exec(b.position.y, vy);
    if py0 < FLOOR_Y {
        let bounced = if vy <= 0 {
            ((-(vy as i64)) * 7 / 10) as i32
        } else {
            (-((vy as i64) * 7 / 10)) as i32
        };
        proof {
            lemma_bounce_bounds(vy);
            if vy <= 0 {
                assert((-(vy as i64)) * 7 / 10 == (-vy) * 7 / 10) by (nonlinear_arith)
                    requires
                        -COORD_LIMIT <= vy <= 0,
                ;
            } else {
                assert((vy as i64) * 7 / 10 == vy * 7 / 10) by (nonlinear_arith)
                    requires
                        0 < vy <= COORD_LIMIT,
                ;
            }
            assert(bounced == bounce(vy));
        }
        Ball2D {
            position: Vector2D { x: px, y: FLOOR_Y },
            velocity: Vector2D { x: b.velocity.x, y: bounced },
            alive: true,
        }
    } else {
        Ball2D {
            position: Vector2D { x: px, y: py0 },
            velocity: Vector2D { x: b.velocity.x, y: vy },
            alive: true,
        }
    }
}

/// Advances the simulation by exactly one frame: a pure, deterministic
/// function of the state value and one input per player.
pub fn tick(state: &SimState, inputs: &Vec<BoxInput>) -> (next: SimState)
    requires
        state.wf(),
        inputs@.len() == state@.players.len(),
        state@.frame_count.frame < u32::MAX,
    ensures
        next@ == step(state@, inputs@),
        next.wf(),
{
    let n = state.players.len();
    let mut players: Vec<Player2D> = Vec::new();
    let mut i: usize = 0;
    while i < n
        invariant
            state.wf(),
            0 <= i <= n,
            n == state@.players.len(),
            inputs@.len() == n,
            players@.len() == i,
            forall|j: int|
                0 <= j < i ==> players@[j] == step_player(state@.players[j], inputs@[j]),
        decreases n - i,
    {
        let p = tick_player(&state.players[i], inputs[i]);
        players.push(p);
        i = i + 1;
    }
    proof {
        assert(players@ =~= Seq::new(
            state@.players.len(),
            |j: int| step_player(state@.players[j], inputs@[j]),
        ));
        lemma_step_wf(state@, inputs@);
    }
    let ball = tick_ball(&state.ball, state.frame_count.frame);
    SimState { frame_count: FrameCount { frame: state.frame_count.frame + 1 }, players, ball }
}

/// Most players one session supports.
pub const MAX_PLAYERS: u32 = 64;

/// Horizontal spacing between player spawn points.
pub const PLAYER_SPACING: i32 = 5;

/// Height players spawn at.
pub const SPAWN_HEIGHT: i32 = 10;

/// Where the ball spawns.
pub const BALL_SPAWN_X: i32 = 5;

/// Where the ball spawns.
pub const BALL_SPAWN_Y: i32 = 3;

/// Sprite-sheet clock period players start with.
pub const DEFAULT_ANIM_SPEED: u8 = 3;

/// The spawn value of one player: spaced out on the floor line, at rest.
pub open spec fn initial_player(i: int) -> Player2D {
    Player2D {
        handle: i as u32,
        position: Vector2D { x: (PLAYER_SPACING * i) as i32, y: SPAWN_HEIGHT },
        velocity: Vector2D { x: 0, y: 0 },
        anim: SpriteSheetAnimation { dt: 0, speed: DEFAULT_ANIM_SPEED, index: 0 },
    }
}

pub open spec fn initial_ball() -> Ball2D {
    Ball2D {
        position: Vector2D { x: BALL_SPAWN_X, y: BALL_SPAWN_Y },
        velocity: Vector2D { x: 0, y: 0 },
        alive: true,
    }
}

/// The simulation state a session starts from, given its player count.
pub open spec fn initial_view(n: int) -> StateView {
    StateView {
        frame_count: FrameCount { frame: 0 },
        players: Seq::new(n as nat, |i: int| initial_player(i)),
        ball: initial_ball(),
    }
}

/// Builds the spawn state; an exact function of the player count.
pub fn initial_state(num_players: u32) -> (s: SimState)
    requires
        1 <= num_players <= MAX_PLAYERS,
    ensures
        s@ == initial_view(num_players as int),
        s.wf(),
{
    let mut players: Vec<Player2D> = Vec::new();
    let mut i: u32 = 0;
    while i < num_players
        invariant
            0 <= i <= num_players,
            num_players <= MAX_PLAYERS,
            players@.len() == i,
            forall|j: int| 0 <= j < i ==> players@[j] == initial_player(j),
        decreases num_players - i,
    {
        players.push(Player2D {
            handle: i,
            position: Vector2D { x: PLAYER_SPACING * i as i32, y: SPAWN_HEIGHT },
            velocity: Vector2D { x: 0, y: 0 },
            anim: SpriteSheetAnimation { dt: 0, speed: DEFAULT_ANIM_SPEED, index: 0 },
        });
        i = i + 1;
    }
    let s = SimState {
        frame_count: FrameCount { frame: 0 },
        players,
        ball: Ball2D {
            position: Vector2D { x: BALL_SPAWN_X, y: BALL_SPAWN_Y },
            velocity: Vector2D { x: 0, y: 0 },
            alive: true,
        },
    };
    proof {
        assert(s@.players =~= initial_view(num_players as int).players);
        assert(forall|j: int|
            0 <= j < num_players ==> player_wf(#[trigger] s@.players[j], j));
    }
    s
}

/// The spawn state is well-formed for any supported player count.
pub proof fn lemma_initial_view_wf(n: int)
    requires
        0 <= n <= MAX_PLAYERS,
    ensures
        initial_view(n).wf(),
        initial_view(n).players.len() == n,
        initial_view(n).frame_count.frame == 0,
{
    let v = initial_view(n);
    assert forall|i: int| 0 <= i < v.players.len() implies player_wf(v.players[i], i) by {
        assert(v.players[i] == initial_player(i));
    }
}

/// Folding one more frame of inputs ticks the run's final state once.
pub proof fn lemma_run_from_snoc(s: StateView, inputs: Seq<Seq<BoxInput>>, x: Seq<BoxInput>)
    ensures
        run_from(s, inputs.push(x)) == step(run_from(s, inputs), x),
    decreases inputs.len(),
{
    let w = inputs.push(x);
    if inputs.len() == 0 {
        assert(w.first() == x);
        assert(w.drop_first() =~= Seq::<Seq<BoxInput>>::empty());
        let s1 = step(s, x);
        assert(run_from(s1, w.drop_first()) == s1);
        assert(run_from(s, w) == run_from(s1, w.drop_first()));
    } else {
        assert(w.first() == inputs.first());
        assert(w.drop_first() =~= inputs.drop_first().push(x));
        lemma_run_from_snoc(step(s, inputs.first()), inputs.drop_first(), x);
    }
}

} // verus!
