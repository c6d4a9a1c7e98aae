use vstd::prelude::*;
use crate::logs::AxisLog;
use crate::residual::Residual;

verus! {

/// Which way along an axis a probe moves.
#[derive(Clone, Copy, Debug, PartialEq, Eq, Structural)]
pub enum Direction {
    Left,
    Right,
}

impl Direction {
    pub open spec fn opposite(self) -> Direction {
        match self {
            Direction::Left => Direction::Right,
            Direction::Right => Direction::Left,
        }
    }

    pub fn flipped(self) -> (r: Direction)
        ensures
            r == self.opposite(),
    {
        match self {
            Direction::Left => Direction::Right,
            Direction::Right => Direction::Left,
        }
    }
}

/// What the pattern search asks of its host. The host owns the anchor point
/// in the unit cube, the step size `init_jump` and the objective.
pub trait PatternHost {
    /// Evaluates the objective at the anchor point.
    fn evaluate(&mut self) -> Residual;

    /// Evaluates the objective at the anchor point with coordinate `dim`
    /// replaced by `clamp(anchor[dim] ± init_jump * 2^exponent)`, the sign
    /// given by `direction`, and keeps that coordinate as the candidate of
    /// `direction`. The anchor itself does not change.
    fn probe(&mut self, dim: usize, direction: Direction, exponent: i64) -> Residual;

    /// The candidate of `direction` lies on the boundary of the cube. It is
    /// asked after every probe and must not change the host.
    fn on_boundary(&self, direction: Direction) -> bool;

    /// Moves coordinate `dim` of the anchor to the candidate of `direction`.
    fn accept(&mut self, dim: usize, direction: Direction);
}

/// How a pattern search ended.
pub struct PatternOutcome {
    /// The running residual at the end.
    pub residual: Residual,
    /// Objective evaluations spent.
    pub nfev: u64,
    /// The residual of every evaluation, the starting point's first.
    pub values: Vec<Residual>,
    /// The state after each evaluation; `states[k]` asked for the probe
    /// whose residual is `values[k + 1]`.
    pub states: Vec<PatternState>,
    /// For each probe, whether its candidate was reported to lie on the
    /// boundary of the cube; `edges[0]`, for the starting point, is false.
    pub edges: Vec<bool>,
}

pub open spec fn all_ordered(s: Seq<Residual>) -> bool {
    forall|k: int| 0 <= k < s.len() ==> (#[trigger] s[k]).is_ordered()
}

/// Where the search stands along its current axis.
#[derive(Clone, Copy, Debug, PartialEq, Eq, Structural)]
pub enum Phase {
    /// Bracketing at the initial step: the left probe is next.
    BracketLeft,
    /// Bracketing: the left probe returned the residual held; the right is next.
    BracketRight(Residual),
    /// Stepping further in the chosen direction, doubling the step.
    Expand,
    /// One step of half the last size after the expansion.
    Overshoot,
    /// Halving steps on both sides: the left probe is next.
    BisectLeft,
    /// Halving steps: the left probe returned the residual held.
    BisectRight(Residual),
    /// Alternating follow-up steps of ever smaller size.
    FollowUp,
    /// Every axis has been searched.
    Done,
}

/// The state of a zero-gradient search between two evaluations. The step
/// of the next probe is `init_jump * 2^exponent`.
#[derive(Clone, Copy, Debug)]
pub struct PatternState {
    pub dims: usize,
    pub dim: usize,
    pub phase: Phase,
    pub exponent: i64,
    pub turn: Direction,
    pub running: Residual,
    /// Least exponent whose step is at least machine epsilon.
    pub min_exponent: i64,
    /// Least exponent whose step is at least the width of the cube.
    pub max_exponent: i64,
}

/// The largest exponent the expansion reaches.
pub open spec fn top_exponent(max_exponent: i64) -> int {
    if max_exponent > 1 {
        max_exponent as int
    } else {
        1
    }
}

/// Moves on to the next axis, or ends the search after the last one.
pub open spec fn next_axis(s: PatternState) -> PatternState {
    if s.dim + 1 < s.dims {
        PatternState { dim: (s.dim + 1) as usize, phase: Phase::BracketLeft, exponent: 0, ..s }
    } else {
        PatternState { dim: s.dims, phase: Phase::Done, exponent: 0, ..s }
    }
}

/// A halving phase whose step has fallen below machine epsilon ends the axis.
pub open spec fn settle(s: PatternState) -> PatternState {
    if (s.phase == Phase::BisectLeft || s.phase == Phase::FollowUp) && s.exponent < s.min_exponent {
        next_axis(s)
    } else {
        s
    }
}

/// The state of a search over `dims` axes whose starting point has residual
/// `first`.
pub open spec fn start_state(dims: usize, first: Residual, min_exponent: i64, max_exponent: i64) -> PatternState {
    PatternState {
        dims,
        dim: 0,
        phase: if dims == 0 { Phase::Done } else { Phase::BracketLeft },
        exponent: 0,
        turn: Direction::Right,
        running: first,
        min_exponent,
        max_exponent,
    }
}

/// The next state after a probe returned `value`, and the candidate the
/// anchor moves to, if any. `edge` tells whether the probed coordinate lies
/// on the boundary of the cube; only the expansion reads it.
///
/// A single probe is taken unless it is strictly worse than the running
/// residual. Of a pair of probes the better is taken (the right one on a
/// tie), unless the running residual is strictly better than both.
#[verifier::opaque]
pub open spec fn next_state(s: PatternState, value: Residual, edge: bool) -> (PatternState, Option<Direction>) {
    let e = s.exponent;
    match s.phase {
        Phase::BracketLeft => (PatternState { phase: Phase::BracketRight(value), ..s }, None),
        Phase::BracketRight(l) => if s.running.lt(l) && s.running.lt(value) {
            (next_axis(s), None)
        } else if l.lt(value) {
            (
                PatternState { phase: Phase::Expand, exponent: 1, turn: Direction::Left, running: l, ..s },
                Some(Direction::Left),
            )
        } else {
            (
                PatternState { phase: Phase::Expand, exponent: 1, turn: Direction::Right, running: value, ..s },
                Some(Direction::Right),
            )
        },
        Phase::Expand => if s.running.lt(value) {
            (PatternState { phase: Phase::Overshoot, exponent: (e - 1) as i64, ..s }, None)
        } else if edge || e >= s.max_exponent {
            (PatternState { phase: Phase::Overshoot, exponent: (e - 1) as i64, running: value, ..s }, Some(s.turn))
        } else {
            (PatternState { exponent: (e + 1) as i64, running: value, ..s }, Some(s.turn))
        },
        Phase::Overshoot => if s.running.lt(value) {
            (settle(PatternState { phase: Phase::BisectLeft, exponent: (e - 1) as i64, ..s }), None)
        } else {
            (
                settle(PatternState { phase: Phase::BisectLeft, exponent: (e - 1) as i64, running: value, ..s }),
                Some(s.turn),
            )
        },
        Phase::BisectLeft => (PatternState { phase: Phase::BisectRight(value), ..s }, None),
        Phase::BisectRight(l) => if s.running.lt(l) && s.running.lt(value) {
            (settle(PatternState { phase: Phase::BisectLeft, exponent: (e - 1) as i64, ..s }), None)
        } else if l.lt(value) {
            (
                settle(
                    PatternState {
                        phase: Phase::FollowUp,
                        exponent: (e - 1) as i64,
                        turn: Direction::Right,
                        running: l,
                        ..s
                    },
                ),
                Some(Direction::Left),
            )
        } else {
            (
                settle(
                    PatternState {
                        phase: Phase::FollowUp,
                        exponent: (e - 1) as i64,
                        turn: Direction::Left,
                        running: value,
                        ..s
                    },
                ),
                Some(Direction::Right),
            )
        },
        Phase::FollowUp => if s.running.lt(value) {
            (settle(PatternState { exponent: (e - 1) as i64, ..s }), None)
        } else {
            (
                settle(PatternState { exponent: (e - 1) as i64, running: value, turn: s.turn.opposite(), ..s }),
                Some(s.turn),
            )
        },
        Phase::Done => (s, None),
    }
}

/// The probe that state `s` asks for: axis, direction and exponent.
pub open spec fn request_of(s: PatternState) -> (usize, Direction, i64) {
    let d = match s.phase {
        Phase::BracketLeft => Direction::Left,
        Phase::BisectLeft => Direction::Left,
        Phase::BracketRight(_) => Direction::Right,
        Phase::BisectRight(_) => Direction::Right,
        _ => s.turn,
    };
    (s.dim, d, s.exponent)
}

impl PatternState {
    pub open spec fn wf(&self) -> bool {
        let top = top_exponent(self.max_exponent);
        &&& i64::MIN < self.min_exponent
        &&& self.max_exponent < i64::MAX
        &&& if self.phase == Phase::Done {
            self.dim == self.dims
        } else {
            self.dim < self.dims
        }
        &&& match self.phase {
            Phase::BracketLeft => self.exponent == 0,
            Phase::BracketRight(_) => self.exponent == 0,
            Phase::Expand => 1 <= self.exponent <= top,
            Phase::Overshoot => 0 <= self.exponent < top,
            Phase::BisectLeft => self.min_exponent <= self.exponent < top,
            Phase::BisectRight(_) => self.min_exponent <= self.exponent < top,
            Phase::FollowUp => self.min_exponent <= self.exponent < top,
            Phase::Done => true,
        }
    }

    /// The state before the first axis, the starting point having residual
    /// `first`.
    pub fn start(dims: usize, first: Residual, min_exponent: i64, max_exponent: i64) -> (s: PatternState)
        requires
            i64::MIN < min_exponent,
            max_exponent < i64::MAX,
        ensures
            s == start_state(dims, first, min_exponent, max_exponent),
            s.wf(),
    {
        PatternState {
            dims,
            dim: 0,
            phase: if dims == 0 { Phase::Done } else { Phase::BracketLeft },
            exponent: 0,
            turn: Direction::Right,
            running: first,
            min_exponent,
            max_exponent,
        }
    }

    pub fn is_done(&self) -> (r: bool)
        ensures
            r == (self.phase == Phase::Done),
    {
        match self.phase {
            Phase::Done => true,
            _ => false,
        }
    }

    /// The probe to evaluate next.
    pub fn request(&self) -> (r: (usize, Direction, i64))
        ensures
            r == request_of(*self),
    {
        let d = match self.phase {
            Phase::BracketLeft => Direction::Left,
            Phase::BisectLeft => Direction::Left,
            Phase::BracketRight(_) => Direction::Right,
            Phase::BisectRight(_) => Direction::Right,
            _ => self.turn,
        };
        (self.dim, d, self.exponent)
    }

    fn next_axis(&mut self)
        requires
            old(self).wf(),
            old(self).phase != Phase::Done,
        ensures
            *final(self) == next_axis(*old(self)),
    {
        if self.dim + 1 < self.dims {
            self.dim = self.dim + 1;
            self.phase = Phase::BracketLeft;
        } else {
            self.dim = self.dims;
            self.phase = Phase::Done;
        }
        self.exponent = 0;
    }

    fn settle(&mut self)
        requires
            old(self).phase != Phase::Done,
            old(self).dim < old(self).dims,
        ensures
            *final(self) == settle(*old(self)),
    {
        let halving = match self.phase {
            Phase::BisectLeft => true,
            Phase::FollowUp => true,
            _ => false,
        };
        if halving && self.exponent < self.min_exponent {
            if self.dim + 1 < self.dims {
                self.dim = self.dim + 1;
                self.phase = Phase::BracketLeft;
            } else {
                self.dim = self.dims;
                self.phase = Phase::Done;
            }
            self.exponent = 0;
        }
    }

    /// Takes the residual of the requested probe; returns the candidate the
    /// anchor moves to, if any.
    pub fn step(&mut self, value: Residual, edge: bool) -> (accepted: Option<Direction>)
        requires
            old(self).wf(),
            old(self).phase != Phase::Done,
        ensures
            (*final(self), accepted) == next_state(*old(self), value, edge),
            final(self).wf(),
    {
        proof {
            reveal(next_state);
        }
        let e = self.exponent;
        match self.phase {
            Phase::BracketLeft => {
                self.phase = Phase::BracketRight(value);
                None
            },
            Phase::BracketRight(l) => {
                if self.running.less_than(&l) && self.running.less_than(&value) {
                    self.next_axis();
                    None
                } else if l.less_than(&value) {
                    self.phase = Phase::Expand;
                    self.exponent = 1;
                    self.turn = Direction::Left;
                    self.running = l;
                    Some(Direction::Left)
                } else {
                    self.phase = Phase::Expand;
                    self.exponent = 1;
                    self.turn = Direction::Right;
                    self.running = value;
                    Some(Direction::Right)
                }
            },
            Phase::Expand => {
                if self.running.less_than(&value) {
                    self.phase = Phase::Overshoot;
                    self.exponent = e - 1;
                    None
                } else if edge || e >= self.max_exponent {
                    self.phase = Phase::Overshoot;
                    self.exponent = e - 1;
                    self.running = value;
                    Some(self.turn)
                } else {
                    self.exponent = e + 1;
                    self.running = value;
                    Some(self.turn)
                }
            },
            Phase::Overshoot => {
                let worse = self.running.less_than(&value);
                self.phase = Phase::BisectLeft;
                self.exponent = e - 1;
                if !worse {
                    self.running = value;
                }
                let turn = self.turn;
                self.settle();
                if worse {
                    None
                } else {
                    Some(turn)
                }
            },
            Phase::BisectLeft => {
                self.phase = Phase::BisectRight(value);
                None
            },
            Phase::BisectRight(l) => {
                self.exponent = e - 1;
                if self.running.less_than(&l) && self.running.less_than(&value) {
                    self.phase = Phase::BisectLeft;
                    self.settle();
                    None
                } else if l.less_than(&value) {
                    self.phase = Phase::FollowUp;
                    self.turn = Direction::Right;
                    self.running = l;
                    self.settle();
                    Some(Direction::Left)
                } else {
                    self.phase = Phase::FollowUp;
                    self.turn = Direction::Left;
                    self.running = value;
                    self.settle();
                    Some(Direction::Right)
                }
            },
            Phase::FollowUp => {
                let turn = self.turn;
                self.exponent = e - 1;
                if self.running.less_than(&value) {
                    self.settle();
                    None
                } else {
                    self.running = value;
                    self.turn = turn.flipped();
                    self.settle();
                    Some(turn)
                }
            },
            Phase::Done => None,
        }
    }
}

/// Exponents from `min_exponent` up to `e` that a halving phase can still
/// use.
pub open spec fn halvings(e: int, min_exponent: i64) -> int {
    if e >= min_exponent {
        e - min_exponent + 1
    } else {
        0
    }
}

/// Most evaluations that one axis can take: the bracketing pair, one probe
/// per expansion exponent, the overshoot step, then two probes per halving
/// exponent.
pub open spec fn axis_budget(min_exponent: i64, max_exponent: i64) -> int {
    let top = top_exponent(max_exponent);
    top + 3 + 2 * halvings(top, min_exponent)
}

/// Most evaluations that the current axis can still take from state `s`.
pub open spec fn axis_left(s: PatternState) -> int {
    let top = top_exponent(s.max_exponent);
    let e = s.exponent as int;
    let m = s.min_exponent;
    match s.phase {
        Phase::BracketLeft => axis_budget(m, s.max_exponent),
        Phase::BracketRight(_) => axis_budget(m, s.max_exponent) - 1,
        Phase::Expand => top - e + 2 + 2 * halvings(top, m),
        Phase::Overshoot => 1 + 2 * halvings(e - 1, m),
        Phase::BisectLeft => 2 * halvings(e, m),
        Phase::BisectRight(_) => 2 * halvings(e, m) - 1,
        Phase::FollowUp => halvings(e, m),
        Phase::Done => 0,
    }
}

/// Most evaluations that a search over `dims` axes can take, the start
/// included.
#[verifier::opaque]
pub open spec fn search_budget(dims: usize, min_exponent: i64, max_exponent: i64) -> int {
    1 + dims * axis_budget(min_exponent, max_exponent)
}

/// Most evaluations that the search can still take from state `s`.
#[verifier::opaque]
pub open spec fn evaluations_left(s: PatternState) -> int {
    if s.phase == Phase::Done {
        0
    } else {
        (s.dims - s.dim - 1) * axis_budget(s.min_exponent, s.max_exponent) + axis_left(s)
    }
}

/// The state waits for the right probe of a pair.
pub open spec fn pending(s: PatternState) -> bool {
    s.phase is BracketRight || s.phase is BisectRight
}

proof fn lemma_axes_budget(rest: int, budget: int)
    requires
        rest >= 0,
        budget >= 0,
    ensures
        rest * budget >= 0,
        (rest + 1) * budget == rest * budget + budget,
{
    assert(rest * budget >= 0) by (nonlinear_arith)
        requires
            rest >= 0,
            budget >= 0,
    ;
    assert((rest + 1) * budget == rest * budget + budget) by (nonlinear_arith);
}

/// Every transition uses up at least one evaluation of the budget, and moves
/// to the same axis or the next one.
pub proof fn lemma_step_spends(s: PatternState, value: Residual, edge: bool)
    requires
        s.wf(),
        s.phase != Phase::Done,
    ensures
        ({
            let t = next_state(s, value, edge).0;
            &&& 0 <= evaluations_left(t) < evaluations_left(s)
            &&& t.dim == s.dim || t.dim == s.dim + 1
            &&& t.dims == s.dims && t.min_exponent == s.min_exponent && t.max_exponent == s.max_exponent
            &&& t.phase matches Phase::BracketRight(l) ==> l == value
            &&& t.phase matches Phase::BisectRight(l) ==> l == value
            &&& spent_at_least(t) <= spent_at_least(s) + 1
        }),
{
    reveal(next_state);
    reveal(evaluations_left);
    let t = next_state(s, value, edge).0;
    let budget = axis_budget(s.min_exponent, s.max_exponent);
    let rest = s.dims - s.dim - 1;
    lemma_axes_budget(rest, budget);
    if rest >= 1 {
        lemma_axes_budget(rest - 1, budget);
    }
}

/// The starting state's budget, and the finished state's.
proof fn lemma_budget_ends(dims: usize, first: Residual, min_exponent: i64, max_exponent: i64, s: PatternState)
    requires
        i64::MIN < min_exponent,
        max_exponent < i64::MAX,
    ensures
        1 + evaluations_left(start_state(dims, first, min_exponent, max_exponent))
            <= search_budget(dims, min_exponent, max_exponent),
        s.phase == Phase::Done ==> evaluations_left(s) == 0,
        evaluations_left(start_state(dims, first, min_exponent, max_exponent)) >= 0,
        search_budget(dims, min_exponent, max_exponent) == 1 + dims * axis_budget(min_exponent, max_exponent),
{
    reveal(evaluations_left);
    reveal(search_budget);
    let b = axis_budget(min_exponent, max_exponent);
    if dims > 0 {
        lemma_axes_budget((dims - 1) as int, b);
    }
}

/// A transition never makes the running residual worse, provided the
/// residuals involved are ordered.
pub proof fn lemma_step_never_worse(s: PatternState, value: Residual, edge: bool)
    requires
        s.wf(),
        s.running.is_ordered(),
        value.is_ordered(),
        s.phase matches Phase::BracketRight(l) ==> l.is_ordered(),
        s.phase matches Phase::BisectRight(l) ==> l.is_ordered(),
    ensures
        next_state(s, value, edge).0.running.le(s.running),
{
    reveal(next_state);
}

/// Once a probe, or a pair of probes, has been decided, the running residual
/// is at most each of them: every probe worse than the running residual is
/// rejected.
pub proof fn lemma_step_keeps_least(s: PatternState, value: Residual, edge: bool)
    requires
        s.wf(),
        s.phase != Phase::Done,
        s.running.is_ordered(),
        value.is_ordered(),
        s.phase matches Phase::BracketRight(l) ==> l.is_ordered(),
        s.phase matches Phase::BisectRight(l) ==> l.is_ordered(),
    ensures
        ({
            let t = next_state(s, value, edge).0;
            &&& pending(t) ==> !pending(s) && t.running == s.running
            &&& !pending(t) ==> t.running.le(value)
            &&& s.phase matches Phase::BracketRight(l) ==> t.running.le(l)
            &&& s.phase matches Phase::BisectRight(l) ==> t.running.le(l)
        }),
{
    reveal(next_state);
}

/// The running residual of a run never rises, and once the pending pair is
/// decided it is at most every residual seen.
pub open spec fn run_ok(values: Seq<Residual>, states: Seq<PatternState>) -> bool {
    all_ordered(values) ==> {
        &&& forall|i: int, j: int|
            0 <= i <= j < states.len() ==> (#[trigger] states[j]).running.le((#[trigger] states[i]).running)
        &&& forall|j: int|
            0 <= j < values.len() && (j < values.len() - 1 || !pending(states.last()))
                ==> states.last().running.le(#[trigger] values[j])
    }
}

proof fn lemma_run_extends(values: Seq<Residual>, states: Seq<PatternState>, value: Residual, edge: bool)
    requires
        values.len() == states.len(),
        states.len() >= 1,
        states.last().wf(),
        states.last().phase != Phase::Done,
        states[0].running == values[0],
        states.last().phase matches Phase::BracketRight(l) ==> l == values.last(),
        states.last().phase matches Phase::BisectRight(l) ==> l == values.last(),
        run_ok(values, states),
    ensures
        run_ok(values.push(value), states.push(next_state(states.last(), value, edge).0)),
{
    let before = states.last();
    let t = next_state(before, value, edge).0;
    let vs = values.push(value);
    let ss = states.push(t);
    let n = values.len() as int;
    if all_ordered(vs) {
        assert(all_ordered(values)) by {
            assert forall|k: int| 0 <= k < values.len() implies (#[trigger] values[k]).is_ordered() by {
                assert(vs[k] == values[k]);
            }
        }
        assert(value.is_ordered()) by {
            assert(vs[n] == value);
        }
        assert(values.last().is_ordered()) by {
            assert(vs[n - 1] == values.last());
        }
        assert(before.running.is_ordered()) by {
            assert(values[0].is_ordered());
            assert(states[n - 1].running.le(states[0].running));
        }
        lemma_step_never_worse(before, value, edge);
        lemma_step_keeps_least(before, value, edge);
        assert forall|i: int, j: int| 0 <= i <= j < ss.len() implies (#[trigger] ss[j]).running.le(
            (#[trigger] ss[i]).running,
        ) by {
            if j == n && i < n {
                assert(states[n - 1].running.le(states[i].running));
                assert(ss[i] == states[i]);
            } else if j < n {
                assert(ss[i] == states[i]);
                assert(ss[j] == states[j]);
            }
        }
        assert(ss.last() == t);
        assert forall|j: int| 0 <= j < vs.len() && (j < vs.len() - 1 || !pending(t)) implies t.running.le(
            #[trigger] vs[j],
        ) by {
            if j < n - 1 || (j == n - 1 && !pending(before)) {
                assert(vs[j] == values[j]);
                assert(before.running.le(values[j]));
            } else if j == n - 1 {
                assert(vs[j] == values.last());
            }
        }
    }
}

/// Between evaluations `k - 1` and `k` the search stays on its axis or moves
/// to the next one.
pub open spec fn dim_step(states: Seq<PatternState>, k: int) -> bool {
    states[k].dim == states[k - 1].dim || states[k].dim == states[k - 1].dim + 1
}

/// A run is determined by the host's answers: two state sequences that start
/// alike and follow `next_state` on the same residuals and boundary verdicts
/// are equal.
pub proof fn lemma_replay_unique(
    a: Seq<PatternState>,
    b: Seq<PatternState>,
    values: Seq<Residual>,
    edges: Seq<bool>,
)
    requires
        a.len() == b.len(),
        a.len() <= values.len(),
        a.len() <= edges.len(),
        a.len() >= 1,
        a[0] == b[0],
        forall|k: int| 1 <= k < a.len() ==> a[k] == next_state(a[k - 1], values[k], #[trigger] edges[k]).0,
        forall|k: int| 1 <= k < b.len() ==> b[k] == next_state(b[k - 1], values[k], #[trigger] edges[k]).0,
    ensures
        a == b,
    decreases a.len(),
{
    if a.len() > 1 {
        let n = a.len() - 1;
        lemma_replay_unique(a.drop_last(), b.drop_last(), values, edges);
        assert(a.drop_last()[n - 1] == a[n - 1]);
        assert(b.drop_last()[n - 1] == b[n - 1]);
        assert(a[n] == next_state(a[n - 1], values[n], edges[n]).0);
        assert(b[n] == next_state(b[n - 1], values[n], edges[n]).0);
        assert(a =~= b) by {
            assert forall|k: int| 0 <= k < a.len() implies a[k] == b[k] by {
                if k < n {
                    assert(a.drop_last()[k] == b.drop_last()[k]);
                }
            }
        }
    }
}

/// The probes that a run with states `states` asks for: the request of
/// every state but the last.
pub open spec fn requests_of(states: Seq<PatternState>) -> Seq<(usize, Direction, i64)> {
    Seq::new((states.len() - 1) as nat, |k: int| request_of(states[k]))
}

/// The moves that the first `n` states of a run make: after evaluation `k`
/// the anchor moves along the axis of `states[k - 1]` to the candidate that
/// `next_state` names, if any.
pub open spec fn moves_of(
    states: Seq<PatternState>,
    values: Seq<Residual>,
    edges: Seq<bool>,
    n: int,
) -> Seq<(usize, Direction)>
    decreases n,
{
    if n <= 1 {
        Seq::empty()
    } else {
        let m = moves_of(states, values, edges, n - 1);
        match next_state(states[n - 2], values[n - 1], edges[n - 1]).1 {
            Some(d) => m.push((states[n - 2].dim, d)),
            None => m,
        }
    }
}

proof fn lemma_moves_prefix(
    s1: Seq<PatternState>,
    v1: Seq<Residual>,
    e1: Seq<bool>,
    s2: Seq<PatternState>,
    v2: Seq<Residual>,
    e2: Seq<bool>,
    n: int,
)
    requires
        0 <= n <= s1.len(),
        n <= s2.len(),
        n <= v1.len(),
        n <= v2.len(),
        n <= e1.len(),
        n <= e2.len(),
        forall|i: int| 0 <= i < n ==> s1[i] == s2[i] && v1[i] == v2[i] && e1[i] == e2[i],
    ensures
        moves_of(s1, v1, e1, n) == moves_of(s2, v2, e2, n),
    decreases n,
{
    if n > 1 {
        lemma_moves_prefix(s1, v1, e1, s2, v2, e2, n - 1);
        assert(s1[n - 2] == s2[n - 2] && v1[n - 1] == v2[n - 1] && e1[n - 1] == e2[n - 1]);
    }
}

/// Evaluations that a search in state `s` has certainly spent: the start,
/// the bracketing pair of every finished axis, and what the current axis has
/// used so far.
pub open spec fn spent_at_least(s: PatternState) -> int {
    let axis: int = match s.phase {
        Phase::BracketLeft => 0,
        Phase::BracketRight(_) => 1,
        Phase::Done => 0,
        _ => 2,
    };
    1 + 2 * s.dim + axis
}

/// Zero-gradient search: evaluates the host's starting point, then searches
/// each of the `dims` axes once, in index order, as `next_state` prescribes.
/// Each probe asked of the host is `request_of` of the state before it.
///
/// `min_exponent` is the least `e` for which `init_jump * 2^e` is at least
/// machine epsilon; `max_exponent` the least `e` for which it is at least 1,
/// so that a step of that size always lands on the boundary of the cube.
pub fn zero_gradient<H: PatternHost>(
    host: &mut AxisLog<H>,
    dims: usize,
    min_exponent: i64,
    max_exponent: i64,
) -> (out: PatternOutcome)
    requires
        i64::MIN < min_exponent,
        max_exponent < i64::MAX,
    ensures
        final(host).answers() == old(host).answers() + out.values@,
        final(host).verdicts() == old(host).verdicts() + out.edges@.drop_first(),
        final(host).probes() == old(host).probes() + requests_of(out.states@),
        final(host).moves() == old(host).moves() + moves_of(
            out.states@,
            out.values@,
            out.edges@,
            out.states.len() as int,
        ),
        out.nfev == out.values.len(),
        out.states.len() == out.values.len(),
        out.edges.len() == out.values.len(),
        out.states[0] == start_state(dims, out.values[0], min_exponent, max_exponent),
        forall|k: int|
            1 <= k < out.states.len() ==> out.states[k] == next_state(
                out.states[k - 1],
                out.values[k],
                #[trigger] out.edges[k],
            ).0,
        forall|k: int| 1 <= k < out.states.len() ==> #[trigger] dim_step(out.states@, k),
        out.states@.last().phase == Phase::Done,
        out.states@.last().dim == dims,
        out.residual == out.states@.last().running,
        1 + 2 * dims <= out.values.len() <= search_budget(dims, min_exponent, max_exponent),
        search_budget(dims, min_exponent, max_exponent) == 1 + dims * axis_budget(min_exponent, max_exponent),
        all_ordered(out.values@) ==> forall|i: int, j: int|
            0 <= i <= j < out.states.len() ==> (#[trigger] out.states[j]).running.le(
                (#[trigger] out.states[i]).running,
            ),
        all_ordered(out.values@) ==> forall|j: int|
            0 <= j < out.values.len() ==> out.residual.le(#[trigger] out.values[j]),
{
    let mut values: Vec<Residual> = Vec::new();
    let mut states: Vec<PatternState> = Vec::new();
    let mut edges: Vec<bool> = Vec::new();
    let ghost a0 = host.answers();
    let ghost d0 = host.verdicts();
    let ghost p0 = host.probes();
    let ghost m0 = host.moves();
    let first = host.evaluate();
    values.push(first);
    edges.push(false);
    let mut state = PatternState::start(dims, first, min_exponent, max_exponent);
    states.push(state);
    proof {
        lemma_budget_ends(dims, first, min_exponent, max_exponent, state);
    }
    while !state.is_done()
        invariant
            state.wf(),
            state.dims == dims,
            state.min_exponent == min_exponent,
            state.max_exponent == max_exponent,
            values.len() == states.len(),
            edges.len() == states.len(),
            states.len() >= 1,
            states[0] == start_state(dims, values[0], min_exponent, max_exponent),
            forall|k: int|
                1 <= k < states.len() ==> states[k] == next_state(states[k - 1], values[k], #[trigger] edges[k]).0,
            forall|k: int|
                1 <= k < states.len() ==> #[trigger] dim_step(states@, k),
            state == states@.last(),
            state.phase matches Phase::BracketRight(l) ==> l == values@.last(),
            state.phase matches Phase::BisectRight(l) ==> l == values@.last(),
            values.len() >= spent_at_least(state),
            values.len() + evaluations_left(state) <= search_budget(dims, min_exponent, max_exponent),
            evaluations_left(state) >= 0,
            states[0].running == values[0],
            run_ok(values@, states@),
            host.answers() == a0 + values@,
            host.verdicts() == d0 + edges@.drop_first(),
            host.probes() == p0 + requests_of(states@),
            host.moves() == m0 + moves_of(states@, values@, edges@, states.len() as int),
        decreases evaluations_left(state),
    {
        let (dim, direction, exponent) = state.request();
        let (value, edge) = host.probe(dim, direction, exponent);
        let ghost before = state;
        let ghost old_values = values@;
        let ghost old_states = states@;
        let ghost old_edges = edges@;
        let ghost moves_before = host.moves();
        proof {
            lemma_step_spends(state, value, edge);
        }
        let accepted = state.step(value, edge);
        if let Some(d) = accepted {
            host.accept(dim, d);
        }
        values.push(value);
        edges.push(edge);
        states.push(state);
        proof {
            let n = values.len() - 1;
            assert(states[n] == next_state(states[n - 1], values[n], edges[n]).0);
            lemma_run_extends(old_values, old_states, value, edge);
            assert forall|k: int| 1 <= k < states.len() implies #[trigger] dim_step(states@, k) by {
                if k < n {
                    assert(dim_step(old_states, k));
                    assert(states@[k] == old_states[k]);
                    assert(states@[k - 1] == old_states[k - 1]);
                } else {
                    assert(states@[k - 1] == before);
                }
            }
            assert(values@ == old_values.push(value));
            assert(states@ == old_states.push(state));
            assert(host.answers() =~= a0 + values@);
            assert(edges@.drop_first() =~= old_edges.drop_first().push(edge));
            assert(host.verdicts() =~= d0 + edges@.drop_first());
            assert(requests_of(states@) =~= requests_of(old_states).push(request_of(before)));
            assert(host.probes() =~= p0 + requests_of(states@));
            lemma_moves_prefix(states@, values@, edges@, old_states, old_values, old_edges, n);
            assert(states@[n - 1] == before);
            assert(host.moves() =~= m0 + moves_of(states@, values@, edges@, states.len() as int));
        }
    }
    proof {
        assert(state.phase == Phase::Done);
        lemma_budget_ends(dims, values[0], min_exponent, max_exponent, state);
        assert(state == states@.last());
        if all_ordered(values@) {
            assert(!pending(state));
        }
    }
    PatternOutcome { residual: state.running, nfev: values.len() as u64, values, states, edges }
}

} // verus!
