use vstd::prelude::*;
use crate::early_stop::StopRule;
use crate::logs::SwarmLog;
use crate::residual::{Residual, INFINITE_LEVEL};

verus! {

/// Whole epochs needed to spend `max_evaluations` on a population of
/// `popsize`: the quotient rounded up.
pub open spec fn epochs_for(max_evaluations: u64, popsize: u64) -> int
    recommends
        popsize > 0,
{
    if max_evaluations % popsize == 0 {
        (max_evaluations / popsize) as int
    } else {
        max_evaluations / popsize + 1
    }
}

pub fn epoch_count(max_evaluations: u64, popsize: u64) -> (r: u64)
    requires
        popsize > 0,
    ensures
        r == epochs_for(max_evaluations, popsize),
{
    let whole = max_evaluations / popsize;
    if max_evaluations % popsize == 0 {
        whole
    } else {
        assert(popsize != 1);
        assert(whole <= max_evaluations / 2) by {
            vstd::arithmetic::div_mod::lemma_div_is_ordered_by_denominator(
                max_evaluations as int,
                2,
                popsize as int,
            );
        }
        whole + 1
    }
}

/// `e` whole epochs of `popsize` evaluations, with `e` at most the epoch
/// count, spend fewer than `max_evaluations + popsize` evaluations.
proof fn lemma_epochs_fit(max_evaluations: u64, popsize: u64, e: int)
    requires
        popsize > 0,
        0 <= e <= epochs_for(max_evaluations, popsize),
    ensures
        e * popsize < max_evaluations + popsize,
{
    let m = max_evaluations as int;
    let p = popsize as int;
    vstd::arithmetic::div_mod::lemma_fundamental_div_mod(m, p);
    let c = epochs_for(max_evaluations, popsize);
    assert(c * p < m + p) by (nonlinear_arith)
        requires
            m == p * (m / p) + m % p,
            0 <= m % p < p,
            c == (if m % p == 0 { m / p } else { m / p + 1 }),
    ;
    assert(e * p <= c * p) by (nonlinear_arith)
        requires
            e <= c,
            p > 0,
    ;
}

/// The least of `start` and the ordered residuals of `s`.
pub open spec fn lowest(s: Seq<Residual>, start: Residual) -> Residual
    decreases s.len(),
{
    if s.len() == 0 {
        start
    } else {
        let m = lowest(s.drop_last(), start);
        if s.last().lt(m) {
            s.last()
        } else {
            m
        }
    }
}

/// The least ordered residual evaluated in the first `n` epochs, or the
/// infinite sentinel if there is none.
pub open spec fn lowest_through(evaluated: Seq<Seq<Residual>>, n: int) -> Residual
    decreases n,
{
    if n <= 0 {
        Residual::Level(INFINITE_LEVEL)
    } else {
        lowest(evaluated[n - 1], lowest_through(evaluated, n - 1))
    }
}

proof fn lemma_lowest_through_prefix(a: Seq<Seq<Residual>>, b: Seq<Seq<Residual>>, n: int)
    requires
        0 <= n <= a.len(),
        n <= b.len(),
        forall|i: int| 0 <= i < n ==> a[i] == b[i],
    ensures
        lowest_through(a, n) == lowest_through(b, n),
    decreases n,
{
    if n > 0 {
        lemma_lowest_through_prefix(a, b, n - 1);
    }
}

/// The personal-best residual of each member after it has seen `current`.
pub open spec fn merged_bests(best: Seq<Residual>, current: Seq<Residual>) -> Seq<Residual> {
    Seq::new(best.len(), |p: int| if current[p].lt(best[p]) { current[p] } else { best[p] })
}

/// Personal bests and global-best index after members `0..k` have been
/// compared, in index order, with their new residuals: a member that improves
/// on its own best takes it, and takes the global-best index when it also
/// beats the member holding that index at that moment.
pub open spec fn best_scan(best: Seq<Residual>, current: Seq<Residual>, global: int, k: int) -> (
    Seq<Residual>,
    int,
)
    decreases k,
{
    if k <= 0 {
        (best, global)
    } else {
        let (b, g) = best_scan(best, current, global, k - 1);
        let p = k - 1;
        if current[p].lt(b[p]) {
            let b2 = b.update(p, current[p]);
            if b2[p].lt(b2[g]) {
                (b2, p)
            } else {
                (b2, g)
            }
        } else {
            (b, g)
        }
    }
}

/// The member that the stagnation test on the pair `(l, r)`, `l < r`, resets,
/// if any. The pair is tested only when neither personal best is infinite;
/// `close[l][r]` is the verdict of the relative-difference test on them. The
/// global-best member is never chosen; of two other members the worse one is,
/// and on a tie the first.
pub open spec fn reset_of_pair(
    best: Seq<Residual>,
    global: int,
    close: Seq<Vec<bool>>,
    l: int,
    r: int,
) -> Option<int> {
    if best[l] != Residual::Level(INFINITE_LEVEL) && best[r] != Residual::Level(INFINITE_LEVEL)
        && close[l][r] {
        if l != global && r != global {
            if best[l].lt(best[r]) {
                Some(r)
            } else {
                Some(l)
            }
        } else if l != global {
            Some(l)
        } else {
            Some(r)
        }
    } else {
        None
    }
}

/// Personal bests and members reset so far, after testing the pair `(l, r)`.
pub open spec fn test_pair(
    state: (Seq<Residual>, Seq<usize>),
    global: int,
    close: Seq<Vec<bool>>,
    l: int,
    r: int,
) -> (Seq<Residual>, Seq<usize>) {
    match reset_of_pair(state.0, global, close, l, r) {
        Some(m) => (state.0.update(m, Residual::Level(INFINITE_LEVEL)), state.1.push(m as usize)),
        None => state,
    }
}

/// Tests the pairs `(l, r)`, `(l, r + 1)`, ..., `(l, n - 1)` in turn.
pub open spec fn row_pass(
    state: (Seq<Residual>, Seq<usize>),
    global: int,
    close: Seq<Vec<bool>>,
    n: int,
    l: int,
    r: int,
) -> (Seq<Residual>, Seq<usize>)
    decreases n - r,
{
    if r >= n {
        state
    } else {
        row_pass(test_pair(state, global, close, l, r), global, close, n, l, r + 1)
    }
}

/// Tests every pair `(l', r)` with `l <= l' < r < n`, row by row.
pub open spec fn restart_pass(
    state: (Seq<Residual>, Seq<usize>),
    global: int,
    close: Seq<Vec<bool>>,
    n: int,
    l: int,
) -> (Seq<Residual>, Seq<usize>)
    decreases n - l,
{
    if l >= n {
        state
    } else {
        restart_pass(row_pass(state, global, close, n, l, l + 1), global, close, n, l + 1)
    }
}

/// Personal-best residuals of a population and the member holding the
/// global best.
pub struct Population {
    pub best: Vec<Residual>,
    pub global: usize,
}

impl Population {
    /// Every personal best is ordered, and the global-best member holds the
    /// least of them.
    pub open spec fn wf(&self) -> bool {
        &&& self.global < self.best.len()
        &&& forall|p: int|
            0 <= p < self.best.len() ==> (#[trigger] self.best[p]).le(Residual::Level(INFINITE_LEVEL))
        &&& forall|p: int| 0 <= p < self.best.len() ==> self.best[self.global as int].le(#[trigger] self.best[p])
    }

    pub open spec fn leader(&self) -> Residual {
        self.best[self.global as int]
    }

    /// A population of `popsize` members, none evaluated yet.
    pub fn new(popsize: usize) -> (pop: Population)
        requires
            popsize > 0,
        ensures
            pop.wf(),
            pop.best@ == Seq::new(popsize as nat, |p: int| Residual::Level(INFINITE_LEVEL)),
            pop.global == 0,
    {
        let mut best: Vec<Residual> = Vec::new();
        let mut p: usize = 0;
        while p < popsize
            invariant
                p <= popsize,
                best@ == Seq::new(p as nat, |q: int| Residual::Level(INFINITE_LEVEL)),
            decreases popsize - p,
        {
            best.push(Residual::infinite());
            p = p + 1;
        }
        Population { best, global: 0 }
    }

    /// Takes the residuals of one evaluated epoch: each member keeps the
    /// better of its personal best and its new residual, and the global-best
    /// index follows the members that beat it. Returns which members improved.
    pub fn absorb(&mut self, current: &Vec<Residual>) -> (improved: Vec<bool>)
        requires
            old(self).wf(),
            current.len() == old(self).best.len(),
        ensures
            final(self).wf(),
            improved.len() == current.len(),
            forall|p: int| 0 <= p < current.len() ==> improved[p] == current[p].lt(old(self).best[p]),
            final(self).best@ == merged_bests(old(self).best@, current@),
            (final(self).best@, final(self).global as int) == best_scan(
                old(self).best@,
                current@,
                old(self).global as int,
                current.len() as int,
            ),
            final(self).leader().le(old(self).leader()),
            final(self).leader() == lowest(current@, old(self).leader()),
    {
        let ghost best0 = self.best@;
        let ghost g0 = self.global as int;
        let n = self.best.len();
        let mut improved: Vec<bool> = Vec::new();
        let mut p: usize = 0;
        while p < n
            invariant
                n == self.best.len(),
                n == current.len(),
                n == best0.len(),
                p <= n,
                0 <= g0 < n,
                self.global < n,
                (self.best@, self.global as int) == best_scan(best0, current@, g0, p as int),
                improved.len() == p,
                forall|q: int| 0 <= q < p ==> improved[q] == current[q].lt(best0[q]),
                forall|q: int| 0 <= q < p ==> #[trigger] self.best[q] == merged_bests(best0, current@)[q],
                forall|q: int| p <= q < n ==> #[trigger] self.best[q] == best0[q],
                forall|q: int| 0 <= q < n ==> (#[trigger] self.best[q]).le(Residual::Level(INFINITE_LEVEL)),
                forall|q: int| 0 <= q < p ==> self.best[self.global as int].le(#[trigger] self.best[q]),
                self.best[self.global as int].le(best0[g0]),
                forall|q: int| 0 <= q < n ==> best0[g0].le(#[trigger] best0[q]),
                self.best[self.global as int] == lowest(current@.subrange(0, p as int), best0[g0]),
                self.global as int == g0 || self.global < p,
            decreases n - p,
        {
            let better = current[p].less_than(&self.best[p]);
            if better {
                self.best.set(p, current[p]);
                if self.best[p].less_than(&self.best[self.global]) {
                    self.global = p;
                }
            }
            improved.push(better);
            p = p + 1;
            assert(current@.subrange(0, p as int).drop_last() =~= current@.subrange(0, p - 1));
        }
        assert(current@.subrange(0, n as int) =~= current@);
        assert(self.best@ =~= merged_bests(best0, current@));
        improved
    }

    /// The stagnation pass: every pair of members whose personal bests are
    /// both finite and `close` has one of them reset to the infinite
    /// sentinel. Returns the reset members in the order they were chosen;
    /// the caller redraws their positions in that order.
    pub fn restart_stagnated(&mut self, close: &Vec<Vec<bool>>) -> (resets: Vec<usize>)
        requires
            old(self).wf(),
            close.len() == old(self).best.len(),
            forall|l: int| 0 <= l < close.len() ==> (#[trigger] close[l]).len() == close.len(),
        ensures
            final(self).wf(),
            final(self).best.len() == old(self).best.len(),
            final(self).global == old(self).global,
            final(self).leader() == old(self).leader(),
            (final(self).best@, resets@) == restart_pass(
                (old(self).best@, Seq::empty()),
                old(self).global as int,
                close@,
                close.len() as int,
                0,
            ),
            forall|i: int| 0 <= i < resets.len() ==> (#[trigger] resets[i]) != old(self).global,
            forall|i: int|
                0 <= i < resets.len() ==> resets[i] < close.len()
                    && final(self).best[resets[i] as int] == Residual::Level(INFINITE_LEVEL),
            forall|p: int|
                0 <= p < close.len() && !resets@.contains(p as usize) ==> final(self).best[p]
                    == old(self).best[p],
    {
        let ghost best0 = self.best@;
        let ghost whole = restart_pass((best0, Seq::empty()), self.global as int, close@, close.len() as int, 0);
        let n = self.best.len();
        let g = self.global;
        let mut resets: Vec<usize> = Vec::new();
        let mut l: usize = 0;
        while l < n
            invariant
                n == self.best.len(),
                n == close.len(),
                forall|k: int| 0 <= k < close.len() ==> (#[trigger] close[k]).len() == close.len(),
                l <= n,
                g == self.global,
                g < n,
                restart_pass((self.best@, resets@), g as int, close@, n as int, l as int) == whole,
                self.best[g as int] == best0[g as int],
                forall|q: int| 0 <= q < n ==> best0[g as int].le(#[trigger] best0[q]),
                forall|q: int| 0 <= q < n ==> (#[trigger] best0[q]).le(Residual::Level(INFINITE_LEVEL)),
                forall|q: int| 0 <= q < n ==> (#[trigger] self.best[q]).le(Residual::Level(INFINITE_LEVEL)),
                forall|i: int| 0 <= i < resets.len() ==> (#[trigger] resets[i]) != g,
                forall|i: int|
                    0 <= i < resets.len() ==> resets[i] < n && self.best[resets[i] as int]
                        == Residual::Level(INFINITE_LEVEL),
                forall|p: int| 0 <= p < n && !resets@.contains(p as usize) ==> self.best[p] == best0[p],
            decreases n - l,
        {
            let mut r: usize = l + 1;
            let ghost row_start = (self.best@, resets@);
            while r < n
                invariant
                    n == self.best.len(),
                    n == close.len(),
                    forall|k: int| 0 <= k < close.len() ==> (#[trigger] close[k]).len() == close.len(),
                    l < n,
                    l + 1 <= r <= n,
                    g == self.global,
                    g < n,
                    row_pass((self.best@, resets@), g as int, close@, n as int, l as int, r as int)
                        == row_pass(row_start, g as int, close@, n as int, l as int, l + 1),
                    self.best[g as int] == best0[g as int],
                    forall|q: int| 0 <= q < n ==> best0[g as int].le(#[trigger] best0[q]),
                    forall|q: int| 0 <= q < n ==> (#[trigger] best0[q]).le(Residual::Level(INFINITE_LEVEL)),
                    forall|q: int| 0 <= q < n ==> (#[trigger] self.best[q]).le(Residual::Level(INFINITE_LEVEL)),
                    forall|i: int| 0 <= i < resets.len() ==> (#[trigger] resets[i]) != g,
                    forall|i: int|
                        0 <= i < resets.len() ==> resets[i] < n && self.best[resets[i] as int]
                            == Residual::Level(INFINITE_LEVEL),
                    forall|p: int| 0 <= p < n && !resets@.contains(p as usize) ==> self.best[p] == best0[p],
                decreases n - r,
            {
                let ghost before = (self.best@, resets@);
                if !self.best[l].is_infinite() && !self.best[r].is_infinite() && close[l][r] {
                    let target = if l != g && r != g {
                        if self.best[l].less_than(&self.best[r]) {
                            r
                        } else {
                            l
                        }
                    } else if l != g {
                        l
                    } else {
                        r
                    };
                    self.best.set(target, Residual::infinite());
                    resets.push(target);
                    assert forall|p: int| 0 <= p < n && !resets@.contains(p as usize) implies self.best[p] == best0[p] by {
                        assert(!before.1.contains(p as usize)) by {
                            if before.1.contains(p as usize) {
                                let i = choose|i: int| 0 <= i < before.1.len() && before.1[i] == p as usize;
                                assert(resets@[i] == p as usize);
                            }
                        }
                        assert(p != target) by {
                            assert(resets@[resets.len() - 1] == target);
                        }
                    }
                }
                assert((self.best@, resets@) == test_pair(before, g as int, close@, l as int, r as int));
                r = r + 1;
            }
            l = l + 1;
        }
        assert forall|p: int| 0 <= p < n implies self.best[g as int].le(#[trigger] self.best[p]) by {
            if resets@.contains(p as usize) {
                let i = choose|i: int| 0 <= i < resets.len() && resets[i] == p as usize;
                assert(self.best[resets[i] as int] == Residual::Level(INFINITE_LEVEL));
                assert(best0[g as int].le(Residual::Level(INFINITE_LEVEL)));
            } else {
                assert(best0[g as int].le(best0[p]));
            }
        }
        resets
    }
}

/// What the population search asks of its host. The host owns the positions
/// in the unit cube, the seeded generator and the objective; the search makes
/// every call in the order the algorithm prescribes, so a host that draws its
/// random numbers inside these calls sees them in a fixed order.
pub trait Swarm {
    /// Evaluates the objective at `member`'s current position.
    fn evaluate(&mut self, member: usize) -> Residual;

    /// Copies `member`'s current position into its personal-best position.
    fn adopt(&mut self, member: usize);

    /// The relative-difference test on two finite personal-best residuals:
    /// `max(|a|, |b|) != 0` and `|a - b| / max(|a|, |b|)` below the restart
    /// tolerance.
    fn nearly_equal(&self, a: Residual, b: Residual) -> bool;

    /// Redraws `member`'s personal-best and current positions.
    fn restart(&mut self, member: usize);

    /// Moves `member`'s current position by the neighbour-attraction step.
    fn advance(&mut self, member: usize);

    /// Records the positions for the history: the current ones, or with
    /// `personal_best` the personal-best ones.
    fn snapshot(&mut self, personal_best: bool);
}

/// How a population search ended.
pub struct SwarmOutcome {
    /// The member holding the global best.
    pub best: usize,
    /// Its personal-best residual.
    pub residual: Residual,
    /// Objective evaluations spent.
    pub nfev: u64,
    /// Epochs whose population was evaluated.
    pub epochs: u64,
    /// The stop rule ended the search.
    pub stopped_early: bool,
    /// The global-best residual after each epoch.
    pub progress: Vec<Residual>,
    /// With history recording: the residuals of the initial population, then
    /// the personal-best residuals after each epoch.
    pub history: Option<Vec<Vec<Residual>>>,
    /// The personal-best residuals at the end.
    pub bests: Vec<Residual>,
    /// The residuals the host returned, one sequence per epoch.
    pub evaluated: Ghost<Seq<Seq<Residual>>>,
    /// The personal-best residuals before each epoch, then at the end.
    pub starts: Ghost<Seq<Seq<Residual>>>,
    /// The members restarted in each epoch, in order.
    pub resets: Ghost<Seq<Seq<usize>>>,
    /// The global-best member before each epoch, then at the end.
    pub leaders: Ghost<Seq<usize>>,
}

/// An epoch's residuals, each with the member it belongs to.
pub open spec fn tagged(e: Seq<Residual>) -> Seq<(usize, Residual)> {
    Seq::new(e.len(), |p: int| (p as usize, e[p]))
}

/// The members among `0..n`, in order, whose new residual improves on their
/// personal best.
pub open spec fn improvers(start: Seq<Residual>, current: Seq<Residual>, n: int) -> Seq<usize>
    decreases n,
{
    if n <= 0 {
        Seq::empty()
    } else {
        let m = improvers(start, current, n - 1);
        if current[n - 1].lt(start[n - 1]) {
            m.push((n - 1) as usize)
        } else {
            m
        }
    }
}

/// Personal bests `b` after the members in `resets` were restarted.
pub open spec fn after_restarts(b: Seq<Residual>, resets: Seq<usize>) -> Seq<Residual> {
    Seq::new(
        b.len(),
        |q: int|
            if resets.contains(q as usize) {
                Residual::Level(INFINITE_LEVEL)
            } else {
                b[q]
            },
    )
}

/// Evaluates every member in order.
fn evaluate_all<H: Swarm>(host: &mut SwarmLog<H>, n: usize) -> (current: Vec<Residual>)
    ensures
        current.len() == n,
        final(host).evaluations() == old(host).evaluations() + tagged(current@),
        final(host).unchanged_but_evaluations(old(host)),
{
    let mut current: Vec<Residual> = Vec::new();
    let mut p: usize = 0;
    while p < n
        invariant
            p <= n,
            current.len() == p,
            host.evaluations() == old(host).evaluations() + tagged(current@),
            host.unchanged_but_evaluations(old(host)),
        decreases n - p,
    {
        let r = host.evaluate(p);
        current.push(r);
        assert(tagged(current@) =~= tagged(current@.drop_last()).push((p, r)));
        assert(current@.drop_last() =~= current@.subrange(0, p as int));
        p = p + 1;
    }
    current
}

/// Copies the current position of every member that improved into its
/// personal best.
fn adopt_improved<H: Swarm>(
    host: &mut SwarmLog<H>,
    improved: &Vec<bool>,
    Ghost(start): Ghost<Seq<Residual>>,
    Ghost(current): Ghost<Seq<Residual>>,
)
    requires
        improved.len() == start.len(),
        improved.len() == current.len(),
        forall|p: int| 0 <= p < improved.len() ==> improved[p] == current[p].lt(start[p]),
    ensures
        final(host).adopted() == old(host).adopted() + improvers(start, current, improved.len() as int),
        final(host).evaluations() == old(host).evaluations(),
        final(host).restarted() == old(host).restarted(),
{
    let n = improved.len();
    let mut p: usize = 0;
    while p < n
        invariant
            p <= n,
            n == improved.len(),
            n == start.len(),
            n == current.len(),
            forall|q: int| 0 <= q < n ==> improved[q] == current[q].lt(start[q]),
            host.adopted() == old(host).adopted() + improvers(start, current, p as int),
            host.evaluations() == old(host).evaluations(),
            host.restarted() == old(host).restarted(),
        decreases n - p,
    {
        let ghost before = host.adopted();
        if improved[p] {
            host.adopt(p);
        }
        proof {
            let m = improvers(start, current, p as int);
            assert(improvers(start, current, p + 1) == if current[p as int].lt(start[p as int]) {
                m.push(p)
            } else {
                m
            });
            if improved[p as int] {
                assert(host.adopted() =~= old(host).adopted() + m.push(p));
            }
        }
        p = p + 1;
    }
}

/// Redraws the restarted members, in order.
fn restart_all<H: Swarm>(host: &mut SwarmLog<H>, resets: &Vec<usize>)
    ensures
        final(host).restarted() == old(host).restarted() + resets@,
        final(host).evaluations() == old(host).evaluations(),
        final(host).adopted() == old(host).adopted(),
{
    let mut i: usize = 0;
    while i < resets.len()
        invariant
            i <= resets.len(),
            host.restarted() == old(host).restarted() + resets@.subrange(0, i as int),
            host.evaluations() == old(host).evaluations(),
            host.adopted() == old(host).adopted(),
        decreases resets.len() - i,
    {
        host.restart(resets[i]);
        assert(resets@.subrange(0, i + 1) =~= resets@.subrange(0, i as int).push(resets[i as int]));
        i = i + 1;
    }
    assert(resets@.subrange(0, resets.len() as int) =~= resets@);
}

/// Moves every member, in order.
fn advance_all<H: Swarm>(host: &mut SwarmLog<H>, n: usize)
    ensures
        final(host).evaluations() == old(host).evaluations(),
        final(host).adopted() == old(host).adopted(),
        final(host).restarted() == old(host).restarted(),
{
    let mut p: usize = 0;
    while p < n
        invariant
            p <= n,
            host.evaluations() == old(host).evaluations(),
            host.adopted() == old(host).adopted(),
            host.restarted() == old(host).restarted(),
        decreases n - p,
    {
        host.advance(p);
        p = p + 1;
    }
}

/// The relative-difference verdicts for every pair `l < r` of finite personal
/// bests; every other entry is false.
fn closeness<H: Swarm>(host: &SwarmLog<H>, best: &Vec<Residual>) -> (close: Vec<Vec<bool>>)
    ensures
        close.len() == best.len(),
        forall|l: int| 0 <= l < close.len() ==> (#[trigger] close[l]).len() == close.len(),
        forall|l: int, r: int|
            0 <= l < close.len() && 0 <= r < close.len() && #[trigger] close[l][r] ==> l < r
                && best[l] != Residual::Level(INFINITE_LEVEL) && best[r] != Residual::Level(INFINITE_LEVEL),
{
    let n = best.len();
    let mut close: Vec<Vec<bool>> = Vec::new();
    let mut l: usize = 0;
    while l < n
        invariant
            l <= n,
            n == best.len(),
            close.len() == l,
            forall|k: int| 0 <= k < close.len() ==> (#[trigger] close[k]).len() == n,
            forall|k: int, j: int|
                0 <= k < close.len() && 0 <= j < n && #[trigger] close[k][j] ==> k < j
                    && best[k] != Residual::Level(INFINITE_LEVEL) && best[j] != Residual::Level(INFINITE_LEVEL),
        decreases n - l,
    {
        let mut row: Vec<bool> = Vec::new();
        let mut r: usize = 0;
        while r < n
            invariant
                r <= n,
                l < n,
                n == best.len(),
                row.len() == r,
                forall|j: int|
                    0 <= j < r && #[trigger] row[j] ==> l < j && best[l as int] != Residual::Level(INFINITE_LEVEL)
                        && best[j] != Residual::Level(INFINITE_LEVEL),
            decreases n - r,
        {
            let test = l < r && !best[l].is_infinite() && !best[r].is_infinite()
                && host.nearly_equal(best[l], best[r]);
            row.push(test);
            r = r + 1;
        }
        close.push(row);
        l = l + 1;
    }
    close
}

/// Adaptive neighbour-stochastic restart search over a population of
/// `popsize` members, for `ceil(max_evaluations / popsize)` epochs at most.
///
/// Each epoch evaluates every member, updates the personal and global bests,
/// and ends the search if the global best satisfies `rule`. Otherwise
/// stagnated pairs are restarted and every member moves.
pub fn ansr_search<H: Swarm>(
    host: &mut SwarmLog<H>,
    popsize: usize,
    max_evaluations: u64,
    rule: &StopRule,
    record_history: bool,
) -> (out: SwarmOutcome)
    requires
        popsize >= 2,
        max_evaluations + popsize <= u64::MAX,
    ensures
        out.best < popsize,
        out.epochs <= epochs_for(max_evaluations, popsize as u64),
        out.nfev == out.epochs * popsize,
        out.progress.len() == out.epochs,
        forall|i: int, j: int|
            0 <= i <= j < out.epochs ==> (#[trigger] out.progress[j]).le(#[trigger] out.progress[i]),
        out.epochs > 0 ==> out.residual == out.progress[out.epochs - 1],
        out.epochs == 0 ==> out.residual == Residual::Level(INFINITE_LEVEL) && out.best == 0,
        forall|k: int| 0 <= k < out.epochs - 1 ==> !rule.stops_at(out.progress[k]),
        out.stopped_early == (out.epochs > 0 && rule.stops_at(out.progress[out.epochs - 1])),
        !out.stopped_early ==> out.epochs == epochs_for(max_evaluations, popsize as u64),
        out.evaluated@.len() == out.epochs,
        forall|k: int| 0 <= k < out.epochs ==> (#[trigger] out.evaluated@[k]).len() == popsize,
        forall|k: int|
            0 <= k < out.epochs ==> #[trigger] out.progress[k] == lowest_through(out.evaluated@, k + 1),
        out.residual == lowest_through(out.evaluated@, out.epochs as int),
        out.bests.len() == popsize,
        out.bests[out.best as int] == out.residual,
        forall|q: int| 0 <= q < popsize ==> out.residual.le(#[trigger] out.bests[q]),
        forall|q: int|
            0 <= q < popsize && out.bests[q] != Residual::Level(INFINITE_LEVEL) ==> exists|k: int|
                0 <= k < out.epochs && #[trigger] out.evaluated@[k][q] == out.bests[q],
        out.starts@.len() == out.epochs + 1,
        out.starts@[0] == Seq::new(popsize as nat, |p: int| Residual::Level(INFINITE_LEVEL)),
        out.starts@[out.epochs as int] == out.bests@,
        out.resets@.len() == out.epochs,
        forall|k: int|
            0 <= k < out.epochs ==> #[trigger] out.starts@[k + 1] == after_restarts(
                merged_bests(out.starts@[k], out.evaluated@[k]),
                out.resets@[k],
            ),
        out.stopped_early ==> out.resets@[out.epochs - 1].len() == 0,
        out.leaders@.len() == out.epochs + 1,
        out.leaders@[0] == 0,
        out.best == out.leaders@[out.epochs as int],
        forall|k: int, i: int|
            0 <= k < out.epochs && 0 <= i < out.resets@[k].len() ==> #[trigger] out.resets@[k][i]
                != out.leaders@[k + 1],
        forall|k: int|
            0 <= k < out.epochs ==> #[trigger] out.leaders@[k + 1] == best_scan(
                out.starts@[k],
                out.evaluated@[k],
                out.leaders@[k] as int,
                popsize as int,
            ).1,
        final(host).evaluations() == old(host).evaluations() + Seq::new(
            out.epochs as nat,
            |k: int| tagged(out.evaluated@[k]),
        ).flatten(),
        final(host).adopted() == old(host).adopted() + Seq::new(
            out.epochs as nat,
            |k: int| improvers(out.starts@[k], out.evaluated@[k], popsize as int),
        ).flatten(),
        final(host).restarted() == old(host).restarted() + out.resets@.flatten(),
        record_history == out.history.is_some(),
        match out.history {
            Some(h) => {
                &&& h.len() == out.epochs + 1
                &&& h[0]@ == Seq::new(popsize as nat, |p: int| Residual::Level(INFINITE_LEVEL))
                &&& forall|k: int| 1 <= k <= out.epochs ==> (#[trigger] h[k]).len() == popsize
                &&& forall|k: int, q: int|
                    1 <= k <= out.epochs && 0 <= q < popsize ==> out.progress[k - 1].le(#[trigger] h[k][q])
                        && h[k][q].le(Residual::Level(INFINITE_LEVEL))
                &&& forall|k: int| 1 <= k <= out.epochs ==> (#[trigger] h[k])@.contains(out.progress[k - 1])
            },
            None => true,
        },
{
    let n = popsize;
    let max_epoch = epoch_count(max_evaluations, popsize as u64);
    let mut pop = Population::new(popsize);
    let mut history: Vec<Vec<Residual>> = Vec::new();
    if record_history {
        host.snapshot(false);
        history.push(pop.best.clone());
    }
    let mut epoch: u64 = 0;
    let mut nfev: u64 = 0;
    let mut stopped = false;
    let mut progress: Vec<Residual> = Vec::new();
    let ghost e0 = host.evaluations();
    let ghost a0 = host.adopted();
    let ghost r0 = host.restarted();
    let ghost mut evaluated: Seq<Seq<Residual>> = Seq::empty();
    let ghost mut starts: Seq<Seq<Residual>> = seq![pop.best@];
    let ghost mut resets_log: Seq<Seq<usize>> = Seq::empty();
    let ghost mut leaders: Seq<usize> = seq![0usize];
    proof {
        assert(Seq::new(0, |k: int| tagged(evaluated[k])) =~= Seq::<Seq<(usize, Residual)>>::empty());
        assert(Seq::new(0, |k: int| improvers(starts[k], evaluated[k], n as int)) =~= Seq::<Seq<usize>>::empty());
        assert(Seq::<Seq<(usize, Residual)>>::empty().flatten() =~= Seq::<(usize, Residual)>::empty());
        assert(Seq::<Seq<usize>>::empty().flatten() =~= Seq::<usize>::empty());
        assert(host.evaluations() =~= e0 + Seq::<(usize, Residual)>::empty());
        assert(host.adopted() =~= a0 + Seq::<usize>::empty());
        assert(host.restarted() =~= r0 + Seq::<usize>::empty());
    }
    while epoch < max_epoch && !stopped
        invariant
            n == popsize,
            n >= 2,
            max_evaluations + popsize <= u64::MAX,
            max_epoch == epochs_for(max_evaluations, popsize as u64),
            pop.wf(),
            pop.best.len() == n,
            epoch <= max_epoch,
            nfev == epoch * popsize,
            progress.len() == epoch,
            forall|i: int, j: int|
                0 <= i <= j < epoch ==> (#[trigger] progress[j]).le(#[trigger] progress[i]),
            epoch > 0 ==> pop.leader() == progress[epoch - 1],
            epoch == 0 ==> pop.leader() == Residual::Level(INFINITE_LEVEL) && pop.global == 0,
            forall|k: int| 0 <= k < epoch - 1 ==> !rule.stops_at(progress[k]),
            stopped == (epoch > 0 && rule.stops_at(progress[epoch - 1])),
            record_history ==> history.len() == epoch + 1,
            !record_history ==> history.len() == 0,
            record_history ==> history[0]@ == Seq::new(popsize as nat, |p: int| Residual::Level(INFINITE_LEVEL)),
            forall|k: int| 1 <= k < history.len() ==> (#[trigger] history[k]).len() == n,
            forall|k: int, q: int|
                1 <= k < history.len() && 0 <= q < n ==> progress[k - 1].le(#[trigger] history[k][q])
                    && history[k][q].le(Residual::Level(INFINITE_LEVEL)),
            forall|k: int| 1 <= k < history.len() ==> (#[trigger] history[k])@.contains(progress[k - 1]),
            evaluated.len() == epoch,
            forall|k: int| 0 <= k < epoch ==> (#[trigger] evaluated[k]).len() == n,
            forall|k: int| 0 <= k < epoch ==> #[trigger] progress[k] == lowest_through(evaluated, k + 1),
            pop.leader() == lowest_through(evaluated, epoch as int),
            starts.len() == epoch + 1,
            starts[0] == Seq::new(popsize as nat, |p: int| Residual::Level(INFINITE_LEVEL)),
            starts[epoch as int] == pop.best@,
            resets_log.len() == epoch,
            forall|k: int|
                0 <= k < epoch ==> #[trigger] starts[k + 1] == after_restarts(
                    merged_bests(starts[k], evaluated[k]),
                    resets_log[k],
                ),
            stopped ==> resets_log[epoch - 1].len() == 0,
            leaders.len() == epoch + 1,
            leaders[0] == 0,
            leaders[epoch as int] == pop.global,
            forall|k: int, i: int|
                0 <= k < epoch && 0 <= i < resets_log[k].len() ==> #[trigger] resets_log[k][i] != leaders[k + 1],
            forall|k: int|
                0 <= k < epoch ==> #[trigger] leaders[k + 1] == best_scan(
                    starts[k],
                    evaluated[k],
                    leaders[k] as int,
                    n as int,
                ).1,
            forall|q: int|
                0 <= q < n && pop.best[q] != Residual::Level(INFINITE_LEVEL) ==> exists|k: int|
                    0 <= k < epoch && #[trigger] evaluated[k][q] == pop.best[q],
            host.evaluations() == e0 + Seq::new(epoch as nat, |k: int| tagged(evaluated[k])).flatten(),
            host.adopted() == a0 + Seq::new(
                epoch as nat,
                |k: int| improvers(starts[k], evaluated[k], n as int),
            ).flatten(),
            host.restarted() == r0 + resets_log.flatten(),
        decreases max_epoch - epoch,
    {
        let ghost ev_before = host.evaluations();
        let ghost ad_before = host.adopted();
        let current = evaluate_all(host, n);
        proof {
            lemma_epochs_fit(max_evaluations, popsize as u64, epoch + 1);
            assert((epoch + 1) * popsize == epoch * popsize + popsize) by (nonlinear_arith);
        }
        nfev = nfev + popsize as u64;
        epoch = epoch + 1;
        let ghost start = pop.best@;
        let ghost old_evaluated = evaluated;
        let ghost old_starts = starts;
        proof {
            evaluated = evaluated.push(current@);
            assert forall|k: int| 0 <= k <= old_evaluated.len() implies lowest_through(evaluated, k)
                == lowest_through(old_evaluated, k) by {
                lemma_lowest_through_prefix(evaluated, old_evaluated, k);
            }
            assert(lowest_through(evaluated, epoch as int) == lowest(
                current@,
                lowest_through(old_evaluated, epoch - 1),
            ));
            let f = |k: int| tagged(evaluated[k]);
            let g = |k: int| tagged(old_evaluated[k]);
            assert(Seq::new(epoch as nat, f) =~= Seq::new((epoch - 1) as nat, g).push(tagged(current@)));
            Seq::new((epoch - 1) as nat, g).lemma_flatten_push(tagged(current@));
            assert(host.evaluations() =~= e0 + Seq::new(epoch as nat, f).flatten());
        }
        let ghost old_leaders = leaders;
        let improved = pop.absorb(&current);
        proof {
            leaders = leaders.push(pop.global);
            assert forall|k: int|
                0 <= k < epoch implies #[trigger] leaders[k + 1] == best_scan(
                    starts[k],
                    evaluated[k],
                    leaders[k] as int,
                    n as int,
                ).1 by {
                if k < epoch - 1 {
                    assert(leaders[k + 1] == old_leaders[k + 1]);
                    assert(leaders[k] == old_leaders[k]);
                    assert(evaluated[k] == old_evaluated[k]);
                } else {
                    assert(starts[k] == start);
                    assert(evaluated[k] == current@);
                }
            }
        }
        adopt_improved(host, &improved, Ghost(start), Ghost(current@));
        let leader = pop.best[pop.global];
        let ghost old_progress = progress@;
        progress.push(leader);
        proof {
            assert forall|k: int| 0 <= k < epoch implies #[trigger] progress[k] == lowest_through(evaluated, k + 1) by {
                if k < epoch - 1 {
                    assert(progress[k] == old_progress[k]);
                    assert(lowest_through(evaluated, k + 1) == lowest_through(old_evaluated, k + 1));
                }
            }
        }
        if record_history {
            host.snapshot(true);
            let ghost old_history = history@;
            history.push(pop.best.clone());
            proof {
                let last = history.len() - 1;
                assert(history[last]@ == pop.best@);
                assert(history[last][pop.global as int] == progress[last - 1]);
                assert forall|k: int| 1 <= k < history.len() implies (#[trigger] history[k])@.contains(progress[k - 1]) by {
                    if k < last {
                        assert(history[k] == old_history[k]);
                        assert(progress[k - 1] == old_progress[k - 1]);
                    } else {
                        assert(history[k]@[pop.global as int] == progress[k - 1]);
                    }
                }
            }
        }
        let ghost merged = pop.best@;
        let ghost rs_before = host.restarted();
        let mut resets: Vec<usize> = Vec::new();
        if rule.should_stop(leader) {
            stopped = true;
        } else {
            let close = closeness(host, &pop.best);
            resets = pop.restart_stagnated(&close);
            restart_all(host, &resets);
            advance_all(host, n);
        }
        proof {
            let old_resets = resets_log;
            resets_log = resets_log.push(resets@);
            starts = starts.push(pop.best@);
            assert(pop.best@ =~= after_restarts(merged, resets@));
            assert forall|k: int, i: int|
                0 <= k < epoch && 0 <= i < resets_log[k].len() implies #[trigger] resets_log[k][i]
                    != leaders[k + 1] by {
                if k < epoch - 1 {
                    assert(resets_log[k] == old_resets[k]);
                } else {
                    assert(resets_log[k] == resets@);
                }
            }
            assert forall|k: int|
                0 <= k < epoch implies #[trigger] starts[k + 1] == after_restarts(
                    merged_bests(starts[k], evaluated[k]),
                    resets_log[k],
                ) by {
                if k < epoch - 1 {
                    assert(starts[k + 1] == old_starts[k + 1]);
                    assert(starts[k] == old_starts[k]);
                    assert(evaluated[k] == old_evaluated[k]);
                    assert(resets_log[k] == old_resets[k]);
                } else {
                    assert(starts[k] == start);
                    assert(evaluated[k] == current@);
                }
            }
            old_resets.lemma_flatten_push(resets@);
            assert(host.restarted() =~= r0 + resets_log.flatten());
            let f = |k: int| improvers(starts[k], evaluated[k], n as int);
            let g = |k: int| improvers(old_starts[k], old_evaluated[k], n as int);
            assert(Seq::new(epoch as nat, f) =~= Seq::new((epoch - 1) as nat, g).push(
                improvers(start, current@, n as int),
            ));
            Seq::new((epoch - 1) as nat, g).lemma_flatten_push(improvers(start, current@, n as int));
            assert(host.adopted() =~= a0 + Seq::new(epoch as nat, f).flatten());
            assert forall|q: int|
                0 <= q < n && pop.best[q] != Residual::Level(INFINITE_LEVEL) implies exists|k: int|
                    0 <= k < epoch && #[trigger] evaluated[k][q] == pop.best[q] by {
                assert(!resets@.contains(q as usize));
                assert(pop.best[q] == merged[q]);
                if current[q].lt(start[q]) {
                    assert(evaluated[epoch - 1][q] == pop.best[q]);
                } else {
                    assert(merged[q] == start[q]);
                    let k = choose|k: int| 0 <= k < epoch - 1 && #[trigger] old_evaluated[k][q] == start[q];
                    assert(evaluated[k] == old_evaluated[k]);
                    assert(evaluated[k][q] == pop.best[q]);
                }
            }
        }
    }
    SwarmOutcome {
        best: pop.global,
        residual: pop.best[pop.global],
        nfev,
        epochs: epoch,
        stopped_early: stopped,
        progress,
        history: if record_history {
            Some(history)
        } else {
            None
        },
        bests: pop.best,
        evaluated: Ghost(evaluated),
        starts: Ghost(starts),
        resets: Ghost(resets_log),
        leaders: Ghost(leaders),
    }
}

} // verus!
