use vstd::prelude::*;

use vstd::arithmetic::div_mod::{lemma_add_mod_noop, lemma_add_mod_noop_right, lemma_mod_division_less_than_divisor};

use crate::geometry::{solid_points, triangle_points, Line, Point, Triangle};
use crate::math::{
    lemma_round_away_bounds, lemma_round_away_neg, round_away, round_away128, sat32, sat_add_i32,
};
use crate::trig::{
    cos_deg, cos_lookup, lemma_cos_deg_bounds, lemma_sin_deg_bounds, norm_add_deg, norm_deg,
    sin_deg, sin_lookup, SCALE,
};

verus! {

/// The nesting depth of a command, derived from its indentation.
#[derive(Debug, Clone, Copy, Eq, PartialOrd, Ord, PartialEq, Structural, Hash)]
pub struct Scope(pub usize);

/// One instruction of the script language, tagged with its scope depth.
#[derive(Debug, Clone, Copy, PartialEq, Eq, Structural)]
pub enum Command {
    Move(Scope, i32),
    Turn(Scope, i32),
    Repeat(Scope, i32),
}

impl Command {
    pub open spec fn spec_scope(self) -> Scope {
        match self {
            Command::Move(scope, _) => scope,
            Command::Turn(scope, _) => scope,
            Command::Repeat(scope, _) => scope,
        }
    }

    pub fn scope(&self) -> (r: Scope)
        ensures
            r == self.spec_scope(),
    {
        match self {
            Command::Move(scope, _) => *scope,
            Command::Turn(scope, _) => *scope,
            Command::Repeat(scope, _) => *scope,
        }
    }
}

/// Structural misuse of `Repeat`: it was encountered with no accumulated
/// sibling run at its own scope.
#[derive(Debug, Clone, Copy, PartialEq, Eq, Structural)]
pub struct ExecutionError;

/// The turtle's abstract state: where it is, where it points, and the
/// path of segments it has traced.
pub ghost struct TState {
    pub position: Point,
    pub heading: i32,
    pub path: Seq<Line>,
}

/// Horizontal displacement of a move: the heading's cosine (in
/// millionths) times the distance, rounded to the nearest pixel.
pub open spec fn move_delta_x(heading: int, dist: int) -> int {
    round_away(cos_deg(heading) * dist, SCALE as int)
}

/// Vertical displacement of a move (screen y grows downwards, headings
/// turn clockwise).
pub open spec fn move_delta_y(heading: int, dist: int) -> int {
    round_away(sin_deg(heading) * dist, SCALE as int)
}

/// A move: advance along the heading, saturating at the coordinate
/// limits, and append the traced segment to the path.
pub open spec fn step_move(st: TState, dist: int) -> TState {
    let np = Point {
        x: sat32(st.position.x + move_delta_x(st.heading as int, dist)),
        y: sat32(st.position.y + move_delta_y(st.heading as int, dist)),
    };
    TState {
        position: np,
        heading: st.heading,
        path: st.path.push(Line { a: st.position, b: np }),
    }
}

/// A turn: add the clockwise angle and normalize into [0, 360).
pub open spec fn step_turn(st: TState, deg: int) -> TState {
    TState { position: st.position, heading: norm_deg(st.heading + deg), path: st.path }
}

/// Execute the commands of `rest` in order, carrying the accumulated
/// sibling run: the maximal run of just-executed commands sharing one
/// scope. A `Repeat` found without a run at its own scope is an error;
/// otherwise it re-executes that run, recursively, `n` more times.
pub open spec fn run_block(st: TState, run: Seq<Command>, rest: Seq<Command>) -> Option<
    (TState, Seq<Command>),
>
    decreases run.len() + rest.len(), rest.len(),
{
    if rest.len() == 0 {
        Some((st, run))
    } else {
        let c = rest[0];
        let st1 = match c {
            Command::Move(_, d) => Some(step_move(st, d as int)),
            Command::Turn(_, deg) => Some(step_turn(st, deg as int)),
            Command::Repeat(s, n) => if run.len() > 0 && run[0].spec_scope() == s {
                repeat_block(st, run, n as int)
            } else {
                None
            },
        };
        match st1 {
            None => None,
            Some(st2) => {
                let run2 = if run.len() > 0 && run[0].spec_scope() == c.spec_scope() {
                    run.push(c)
                } else {
                    seq![c]
                };
                run_block(st2, run2, rest.skip(1))
            },
        }
    }
}

/// `n` sequential executions of `block`, each a fresh pass with an empty
/// accumulated run; zero or fewer repetitions leave the state unchanged.
pub open spec fn repeat_block(st: TState, block: Seq<Command>, n: int) -> Option<TState>
    decreases block.len(), block.len() + n + 1,
{
    if n <= 0 {
        Some(st)
    } else {
        match run_block(st, Seq::empty(), block) {
            Some(p) => repeat_block(p.0, block, n - 1),
            None => None,
        }
    }
}

/// Execute a whole command sequence from state `st`.
pub open spec fn run_commands(st: TState, cmds: Seq<Command>) -> Option<TState> {
    match run_block(st, Seq::empty(), cmds) {
        Some(p) => Some(p.0),
        None => None,
    }
}

/// The small indicator triangle drawn at the turtle's position: its tip
/// five pixels ahead, its base corners five pixels to either side.
pub open spec fn indicator_triangle(st: TState) -> Triangle {
    let cv = cos_deg(st.heading as int);
    let sv = sin_deg(st.heading as int);
    Triangle {
        a: Point {
            x: sat32(st.position.x + round_away(5 * cv, SCALE as int)),
            y: sat32(st.position.y + round_away(5 * sv, SCALE as int)),
        },
        b: Point {
            x: sat32(st.position.x + round_away(5 * -sv, SCALE as int)),
            y: sat32(st.position.y + round_away(5 * cv, SCALE as int)),
        },
        c: Point {
            x: sat32(st.position.x + round_away(5 * sv, SCALE as int)),
            y: sat32(st.position.y + round_away(5 * -cv, SCALE as int)),
        },
    }
}

/// All the points a state draws: each path segment solid, then the
/// filled indicator triangle.
pub open spec fn path_points(path: Seq<Line>) -> Seq<Point>
    decreases path.len(),
{
    if path.len() == 0 {
        Seq::empty()
    } else {
        path_points(path.drop_last()) + solid_points(path.last().a, path.last().b)
    }
}

pub open spec fn draw_points(st: TState) -> Seq<Point> {
    path_points(st.path) + triangle_points(indicator_triangle(st))
}

/// The position/heading/path state machine that executes a command
/// sequence.
#[derive(Debug)]
pub struct Turtle {
    pub starting_position: Point,
    pub position: Point,
    pub rotation: i32,
    pub path: Vec<Line>,
}

impl View for Turtle {
    type V = TState;

    open spec fn view(&self) -> TState {
        TState { position: self.position, heading: self.rotation, path: self.path@ }
    }
}

impl Turtle {
    /// The heading is always kept reduced into [0, 360).
    pub open spec fn wf(&self) -> bool {
        0 <= self.rotation < 360
    }

    pub fn new(starting_position: Point) -> (r: Turtle)
        ensures
            r.starting_position == starting_position,
            r@ == (TState {
                position: starting_position,
                heading: 0,
                path: Seq::<Line>::empty(),
            }),
            r.wf(),
    {
        let r = Turtle {
            starting_position,
            position: starting_position,
            rotation: 0,
            path: Vec::new(),
        };
        proof {
            assert(r@.path =~= Seq::<Line>::empty());
        }
        r
    }

    /// Clear the path and restore position and heading to their initial
    /// values; run before every fresh execution of a new sequence.
    pub fn reset(&mut self)
        ensures
            final(self).starting_position == old(self).starting_position,
            final(self)@ == (TState {
                position: old(self).starting_position,
                heading: 0,
                path: Seq::<Line>::empty(),
            }),
            final(self).wf(),
    {
        self.path = Vec::new();
        self.position = self.starting_position;
        self.rotation = 0;
        proof {
            assert(self@.path =~= Seq::<Line>::empty());
        }
    }

    /// Apply a single `Move` or `Turn`. `Repeat` only makes sense within
    /// a sequence, where the engine re-executes the accumulated run.
    pub fn apply_command(&mut self, command: Command)
        requires
            old(self).wf(),
            !(command is Repeat),
        ensures
            final(self).wf(),
            final(self).starting_position == old(self).starting_position,
            final(self)@ == (match command {
                Command::Move(_, d) => step_move(old(self)@, d as int),
                Command::Turn(_, deg) => step_turn(old(self)@, deg as int),
                Command::Repeat(_, _) => old(self)@,
            }),
    {
        match command {
            Command::Move(_, forward_distance) => {
                let start: Point = self.position;
                let h: u32 = self.rotation as u32;
                let cv: i64 = cos_lookup(h);
                let sv: i64 = sin_lookup(h);
                proof {
                    lemma_cos_deg_bounds(h as int);
                    lemma_sin_deg_bounds(h as int);
                    assert(-(0x8000_0000 * 1000000) <= (cv as int) * (forward_distance as int)
                        <= 0x8000_0000 * 1000000) by (nonlinear_arith)
                        requires
                            -1000000 <= cv <= 1000000 && -0x8000_0000 <= forward_distance
                                <= 0x8000_0000;
                    assert(-(0x8000_0000 * 1000000) <= (sv as int) * (forward_distance as int)
                        <= 0x8000_0000 * 1000000) by (nonlinear_arith)
                        requires
                            -1000000 <= sv <= 1000000 && -0x8000_0000 <= forward_distance
                                <= 0x8000_0000;
                    lemma_round_away_bounds(
                        (cv as int) * (forward_distance as int),
                        SCALE as int,
                        -0x8000_0000,
                        0x8000_0000,
                    );
                    lemma_round_away_bounds(
                        (sv as int) * (forward_distance as int),
                        SCALE as int,
                        -0x8000_0000,
                        0x8000_0000,
                    );
                }
                let px: i64 = cv * (forward_distance as i64);
                let py: i64 = sv * (forward_distance as i64);
                let dx: i64 = round_away128(px as i128, 1000000) as i64;
                let dy: i64 = round_away128(py as i128, 1000000) as i64;
                let nx: i32 = sat_add_i32(self.position.x, dx);
                let ny: i32 = sat_add_i32(self.position.y, dy);
                self.position = Point { x: nx, y: ny };
                self.path.push(Line { a: start, b: self.position });
            },
            Command::Turn(_, clockwise_degrees) => {
                self.rotation = norm_add_deg(self.rotation, clockwise_degrees);
            },
            Command::Repeat(..) => {
            },
        }
    }

    /// Execute a command sequence in one sequential pass, tracking the
    /// accumulated sibling run and re-executing it on `Repeat`. On error
    /// (a `Repeat` with no sibling run at its own scope) the pass stops;
    /// the turtle keeps the partially traced state, well-formed, and the
    /// caller treats the previous render as the last good one.
    #[verifier::loop_isolation(false)]
    pub fn apply_commands(&mut self, commands: &[Command]) -> (r: Result<(), ExecutionError>)
        requires
            old(self).wf(),
        ensures
            final(self).wf(),
            final(self).starting_position == old(self).starting_position,
            (r is Ok) == (run_commands(old(self)@, commands@) is Some),
            r is Ok ==> Some(final(self)@) == run_commands(old(self)@, commands@),
        decreases commands@.len(),
    {
        let ghost st0 = self@;
        let ghost sp0 = self.starting_position;
        let mut local_commands: Vec<Command> = Vec::new();
        let mut idx: usize = 0;
        proof {
            assert(commands@.skip(0) =~= commands@);
            assert(local_commands@ =~= Seq::<Command>::empty());
        }
        while idx < commands.len()
            invariant
                old(self).wf(),
                idx <= commands@.len(),
                local_commands@.len() <= idx,
                self.wf(),
                self.starting_position == sp0,
                st0 == old(self)@,
                sp0 == old(self).starting_position,
                run_block(st0, Seq::<Command>::empty(), commands@) == run_block(
                    self@,
                    local_commands@,
                    commands@.skip(idx as int),
                ),
            decreases commands@.len() - idx,
        {
            let command: Command = commands[idx];
            let ghost pre = self@;
            let ghost run_pre = local_commands@;
            let ghost rest_pre = commands@.skip(idx as int);
            proof {
                assert(rest_pre[0] == command);
                assert(rest_pre.skip(1) =~= commands@.skip(idx as int + 1));
            }
            match command {
                Command::Repeat(scope, times) => {
                    let ok: bool = local_commands.len() > 0 && local_commands[0].scope()
                        == scope;
                    if !ok {
                        // a repeat with nothing to repeat at its scope
                        return Err(ExecutionError);
                    }
                    let mut k: i32 = 0;
                    while k < times
                        invariant
                            0 <= k,
                            times >= 0 ==> k <= times,
                            times < 0 ==> k == 0,
                            local_commands@ == run_pre,
                            1 <= run_pre.len(),
                            run_pre.len() < commands@.len(),
                            self.wf(),
                            self.starting_position == sp0,
                            repeat_block(pre, run_pre, times as int) == repeat_block(
                                self@,
                                run_pre,
                                times as int - k as int,
                            ),
                        decreases times - k,
                    {
                        let ghost before = self@;
                        let res: Result<(), ExecutionError> = self.apply_commands(
                            local_commands.as_slice(),
                        );
                        match res {
                            Err(e) => {
                                proof {
                                    assert(run_block(before, Seq::<Command>::empty(), run_pre)
                                        is None);
                                    assert(repeat_block(before, run_pre, times as int - k as int)
                                        is None);
                                }
                                return Err(e);
                            },
                            Ok(_u) => {
                            },
                        }
                        k = k + 1;
                    }
                    proof {
                        assert(repeat_block(pre, run_pre, times as int) == Some(self@));
                    }
                    local_commands.push(command);
                },
                _ => {
                    self.apply_command(command);
                    let same: bool = local_commands.len() > 0 && local_commands[0].scope()
                        == command.scope();
                    if same {
                        local_commands.push(command);
                    } else {
                        let mut fresh: Vec<Command> = Vec::new();
                        fresh.push(command);
                        local_commands = fresh;
                        proof {
                            assert(local_commands@ =~= seq![command]);
                        }
                    }
                },
            }
            idx = idx + 1;
        }
        proof {
            assert(commands@.skip(commands@.len() as int) =~= Seq::<Command>::empty());
        }
        Ok(())
    }

    /// The indicator triangle for rendering the heading; derived from the
    /// current state, not part of the path.
    pub fn turtle_triangle(&self) -> (r: Triangle)
        requires
            self.wf(),
        ensures
            r == indicator_triangle(self@),
    {
        let h: u32 = self.rotation as u32;
        let cv: i64 = cos_lookup(h);
        let sv: i64 = sin_lookup(h);
        proof {
            lemma_cos_deg_bounds(h as int);
            lemma_sin_deg_bounds(h as int);
            lemma_round_away_bounds(5 * (cv as int), SCALE as int, -5, 5);
            lemma_round_away_bounds(5 * (sv as int), SCALE as int, -5, 5);
            lemma_round_away_bounds(5 * -(cv as int), SCALE as int, -5, 5);
            lemma_round_away_bounds(5 * -(sv as int), SCALE as int, -5, 5);
        }
        let tip_x: i64 = round_away128(5 * (cv as i128), 1000000) as i64;
        let tip_y: i64 = round_away128(5 * (sv as i128), 1000000) as i64;
        let left_x: i64 = round_away128(5 * (-(cv as i128)), 1000000) as i64;
        let left_y: i64 = round_away128(5 * (-(sv as i128)), 1000000) as i64;
        Triangle {
            a: Point {
                x: sat_add_i32(self.position.x, tip_x),
                y: sat_add_i32(self.position.y, tip_y),
            },
            b: Point {
                x: sat_add_i32(self.position.x, left_y),
                y: sat_add_i32(self.position.y, tip_x),
            },
            c: Point {
                x: sat_add_i32(self.position.x, tip_y),
                y: sat_add_i32(self.position.y, left_x),
            },
        }
    }

    /// All the points the current state draws: each path segment solid,
    /// then the filled indicator triangle.
    pub fn draw(&self) -> (r: Vec<Point>)
        requires
            self.wf(),
        ensures
            r@ == draw_points(self@),
    {
        let mut points: Vec<Point> = Vec::new();
        let mut i: usize = 0;
        while i < self.path.len()
            invariant
                i <= self.path@.len(),
                points@ == path_points(self.path@.take(i as int)),
            decreases self.path@.len() - i,
        {
            proof {
                assert(self.path@.take(i as int + 1).drop_last() =~= self.path@.take(i as int));
            }
            let seg: &Line = &self.path[i];
            let mut pts: Vec<Point> = seg.solid();
            points.append(&mut pts);
            i = i + 1;
        }
        proof {
            assert(self.path@.take(self.path@.len() as int) =~= self.path@);
        }
        let tri: Triangle = self.turtle_triangle();
        let mut tps: Vec<Point> = tri.solid_color();
        points.append(&mut tps);
        points
    }
}


/// Every command of `b` sits at scope `s`: `b` is a sibling block.
pub open spec fn all_scope(b: Seq<Command>, s: Scope) -> bool {
    forall|k: int| 0 <= k < b.len() ==> b[k].spec_scope() == s
}

/// Law: a move of distance `d` followed by a move of `-d` returns the
/// turtle to its position before the pair, heading unchanged (the path
/// keeps both traced segments). Exact whenever the first move stays
/// within the coordinate limits, so that no saturation happens.
pub proof fn lemma_move_cancels(st: TState, d: i32)
    requires
        i32::MIN <= st.position.x + move_delta_x(st.heading as int, d as int) <= i32::MAX,
        i32::MIN <= st.position.y + move_delta_y(st.heading as int, d as int) <= i32::MAX,
    ensures
        step_move(step_move(st, d as int), -(d as int)).position == st.position,
        step_move(step_move(st, d as int), -(d as int)).heading == st.heading,
{
    let h: int = st.heading as int;
    lemma_round_away_neg(cos_deg(h) * (d as int), SCALE as int);
    lemma_round_away_neg(sin_deg(h) * (d as int), SCALE as int);
    assert(cos_deg(h) * (-(d as int)) == -(cos_deg(h) * (d as int))) by (nonlinear_arith);
    assert(sin_deg(h) * (-(d as int)) == -(sin_deg(h) * (d as int))) by (nonlinear_arith);
}

/// Law: turning by `d1` and then by `d2` yields exactly the state of a
/// single turn by `(d1 + d2) mod 360`.
pub proof fn lemma_turn_adds(st: TState, d1: i32, d2: i32)
    ensures
        step_turn(step_turn(st, d1 as int), d2 as int) == step_turn(st, (d1 + d2) % 360),
{
    let h: int = st.heading as int;
    lemma_mod_division_less_than_divisor(h + d1, 360);
    lemma_mod_division_less_than_divisor(d1 + d2, 360);
    lemma_add_mod_noop(h + d1, d2 as int, 360);
    lemma_add_mod_noop_right(h, d1 + d2, 360);
}

/// The engine is compositional: running `a + b` is running `a`, then
/// running `b` from the state and accumulated sibling run `a` left.
pub proof fn lemma_run_block_append(
    st: TState,
    run: Seq<Command>,
    a: Seq<Command>,
    b: Seq<Command>,
)
    ensures
        run_block(st, run, a + b) == (match run_block(st, run, a) {
            Some(p) => run_block(p.0, p.1, b),
            None => None,
        }),
    decreases a.len(),
{
    if a.len() == 0 {
        assert(a + b =~= b);
    } else {
        let c = a[0];
        assert((a + b)[0] == c);
        assert((a + b).skip(1) =~= a.skip(1) + b);
        let st1 = match c {
            Command::Move(_, d) => Some(step_move(st, d as int)),
            Command::Turn(_, deg) => Some(step_turn(st, deg as int)),
            Command::Repeat(sc, n) => if run.len() > 0 && run[0].spec_scope() == sc {
                repeat_block(st, run, n as int)
            } else {
                None
            },
        };
        match st1 {
            None => {
            },
            Some(st2) => {
                let run2 = if run.len() > 0 && run[0].spec_scope() == c.spec_scope() {
                    run.push(c)
                } else {
                    seq![c]
                };
                lemma_run_block_append(st2, run2, a.skip(1), b);
            },
        }
    }
}

/// Executing a non-empty same-scope block from an empty run accumulates
/// exactly that block as the sibling run.
#[verifier::rlimit(60)]
pub proof fn lemma_block_run(st: TState, b: Seq<Command>, s: Scope)
    requires
        b.len() >= 1,
        all_scope(b, s),
    ensures
        (match run_block(st, Seq::<Command>::empty(), b) {
            Some(p) => p.1 == b,
            None => true,
        }),
    decreases b.len(),
{
    if b.len() == 1 {
        assert(b.skip(1) =~= Seq::<Command>::empty());
        assert(seq![b[0]] =~= b);
        let c = b[0];
        let st1 = match c {
            Command::Move(_, d) => Some(step_move(st, d as int)),
            Command::Turn(_, deg) => Some(step_turn(st, deg as int)),
            // the accumulated run is empty, so a repeat fails here
            Command::Repeat(_, _) => None,
        };
        match st1 {
            Some(st2) => {
                assert(run_block(st2, b, Seq::<Command>::empty()) == Some((st2, b)));
                assert(run_block(st, Seq::<Command>::empty(), b) == Some((st2, b)));
            },
            None => {
                assert(run_block(st, Seq::<Command>::empty(), b) is None);
            },
        }
    } else {
        let b0 = b.drop_last();
        let last = b.last();
        assert(b0 + seq![last] =~= b);
        lemma_run_block_append(st, Seq::<Command>::empty(), b0, seq![last]);
        assert forall|k: int| 0 <= k < b0.len() implies b0[k].spec_scope() == s by {
            assert(b0[k] == b[k]);
        }
        lemma_block_run(st, b0, s);
        match run_block(st, Seq::<Command>::empty(), b0) {
            Some(p) => {
                assert(p.1 == b0);
                assert(seq![last][0] == last);
                assert(seq![last].skip(1) =~= Seq::<Command>::empty());
                assert(b0[0] == b[0]);
                assert(b0[0].spec_scope() == s);
                assert(last.spec_scope() == s);
                assert(b0.push(last) =~= b);
                let st1 = match last {
                    Command::Move(_, d) => Some(step_move(p.0, d as int)),
                    Command::Turn(_, deg) => Some(step_turn(p.0, deg as int)),
                    Command::Repeat(sc, n) => if b0.len() > 0 && b0[0].spec_scope() == sc {
                        repeat_block(p.0, b0, n as int)
                    } else {
                        None
                    },
                };
                match st1 {
                    Some(st2) => {
                        assert(run_block(st2, b, Seq::<Command>::empty()) == Some((st2, b)));
                        assert(run_block(p.0, b0, seq![last]) == Some((st2, b)));
                    },
                    None => {
                        assert(run_block(p.0, b0, seq![last]) is None);
                    },
                }
            },
            None => {
            },
        }
    }
}

/// Law: appending `Repeat(n)` to a sibling block `B` executes `B` as
/// written and then applies `B` exactly `n` further times in sequence
/// (see `repeat_block`): the repeat's own effect is `n` manual
/// applications of the block.
pub proof fn lemma_repeat_is_iteration(st: TState, b: Seq<Command>, s: Scope, n: i32)
    requires
        b.len() >= 1,
        all_scope(b, s),
    ensures
        run_commands(st, b.push(Command::Repeat(s, n))) == (match run_commands(st, b) {
            Some(st1) => repeat_block(st1, b, n as int),
            None => None,
        }),
{
    let r = Command::Repeat(s, n);
    assert(b + seq![r] =~= b.push(r));
    lemma_run_block_append(st, Seq::<Command>::empty(), b, seq![r]);
    lemma_block_run(st, b, s);
    match run_block(st, Seq::<Command>::empty(), b) {
        Some(p) => {
            assert(p.1 == b);
            assert(seq![r][0] == r);
            assert(seq![r].skip(1) =~= Seq::<Command>::empty());
            assert(b[0].spec_scope() == s);
            assert(r.spec_scope() == s);
            match repeat_block(p.0, b, n as int) {
                Some(st2) => {
                    assert(run_block(st2, b.push(r), Seq::<Command>::empty()) == Some(
                        (st2, b.push(r)),
                    ));
                    assert(run_block(p.0, b, seq![r]) == Some((st2, b.push(r))));
                },
                None => {
                    assert(run_block(p.0, b, seq![r]) is None);
                },
            }
        },
        None => {
        },
    }
}

/// One repetition at a time: for `n >= 1`, `repeat_block` is one manual
/// execution of the block followed by `n - 1` more.
pub proof fn lemma_repeat_unfold(st: TState, b: Seq<Command>, n: int)
    requires
        n >= 1,
    ensures
        repeat_block(st, b, n) == (match run_commands(st, b) {
            Some(st1) => repeat_block(st1, b, n - 1),
            None => None,
        }),
{
}

} // verus!
