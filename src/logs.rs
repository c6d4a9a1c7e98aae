use vstd::prelude::*;
use crate::ansr::Swarm;
use crate::residual::Residual;
use crate::zero_gradient::{Direction, PatternHost};

verus! {

/// A pattern-search host together with a ghost record of every call made
/// to it through this wrapper and of every answer it gave. The record can
/// only grow, and only by making the call it records.
pub struct AxisLog<H> {
    host: H,
    answers: Ghost<Seq<Residual>>,
    verdicts: Ghost<Seq<bool>>,
    probes: Ghost<Seq<(usize, Direction, i64)>>,
    moves: Ghost<Seq<(usize, Direction)>>,
}

impl<H: PatternHost> AxisLog<H> {
    /// Residuals returned by `evaluate` and `probe`, in order.
    pub closed spec fn answers(&self) -> Seq<Residual> {
        self.answers@
    }

    /// Boundary verdicts given after each probe.
    pub closed spec fn verdicts(&self) -> Seq<bool> {
        self.verdicts@
    }

    /// The probes asked for: axis, direction, exponent.
    pub closed spec fn probes(&self) -> Seq<(usize, Direction, i64)> {
        self.probes@
    }

    /// The moves made: axis and the candidate moved to.
    pub closed spec fn moves(&self) -> Seq<(usize, Direction)> {
        self.moves@
    }

    pub fn new(host: H) -> (log: AxisLog<H>)
        ensures
            log.answers() == Seq::<Residual>::empty(),
            log.verdicts() == Seq::<bool>::empty(),
            log.probes() == Seq::<(usize, Direction, i64)>::empty(),
            log.moves() == Seq::<(usize, Direction)>::empty(),
    {
        AxisLog {
            host,
            answers: Ghost(Seq::empty()),
            verdicts: Ghost(Seq::empty()),
            probes: Ghost(Seq::empty()),
            moves: Ghost(Seq::empty()),
        }
    }

    pub fn host(&self) -> &H {
        &self.host
    }

    pub fn into_inner(self) -> H {
        self.host
    }

    /// Evaluates the host's anchor point.
    pub fn evaluate(&mut self) -> (r: Residual)
        ensures
            final(self).answers() == old(self).answers().push(r),
            final(self).verdicts() == old(self).verdicts(),
            final(self).probes() == old(self).probes(),
            final(self).moves() == old(self).moves(),
    {
        let r = self.host.evaluate();
        self.answers = Ghost(self.answers@.push(r));
        r
    }

    /// Makes the probe, then asks whether its candidate lies on the
    /// boundary of the cube.
    pub fn probe(&mut self, dim: usize, direction: Direction, exponent: i64) -> (r: (Residual, bool))
        ensures
            final(self).answers() == old(self).answers().push(r.0),
            final(self).verdicts() == old(self).verdicts().push(r.1),
            final(self).probes() == old(self).probes().push((dim, direction, exponent)),
            final(self).moves() == old(self).moves(),
    {
        let value = self.host.probe(dim, direction, exponent);
        let edge = self.host.on_boundary(direction);
        self.answers = Ghost(self.answers@.push(value));
        self.verdicts = Ghost(self.verdicts@.push(edge));
        self.probes = Ghost(self.probes@.push((dim, direction, exponent)));
        (value, edge)
    }

    /// Moves the anchor's coordinate `dim` to the candidate of `direction`.
    pub fn accept(&mut self, dim: usize, direction: Direction)
        ensures
            final(self).answers() == old(self).answers(),
            final(self).verdicts() == old(self).verdicts(),
            final(self).probes() == old(self).probes(),
            final(self).moves() == old(self).moves().push((dim, direction)),
    {
        self.host.accept(dim, direction);
        self.moves = Ghost(self.moves@.push((dim, direction)));
    }
}

/// A population host together with a ghost record of the calls made to it
/// through this wrapper that change the personal bests: evaluations with
/// their answers, adoptions and restarts.
pub struct SwarmLog<H> {
    host: H,
    evaluations: Ghost<Seq<(usize, Residual)>>,
    adopted: Ghost<Seq<usize>>,
    restarted: Ghost<Seq<usize>>,
}

impl<H: Swarm> SwarmLog<H> {
    /// Members evaluated, each with the residual returned, in order.
    pub closed spec fn evaluations(&self) -> Seq<(usize, Residual)> {
        self.evaluations@
    }

    /// Members whose current position became their personal best.
    pub closed spec fn adopted(&self) -> Seq<usize> {
        self.adopted@
    }

    /// Members redrawn by the stagnation pass.
    pub closed spec fn restarted(&self) -> Seq<usize> {
        self.restarted@
    }

    pub open spec fn unchanged_but_evaluations(&self, other: &Self) -> bool {
        &&& self.adopted() == other.adopted()
        &&& self.restarted() == other.restarted()
    }

    pub fn new(host: H) -> (log: SwarmLog<H>)
        ensures
            log.evaluations() == Seq::<(usize, Residual)>::empty(),
            log.adopted() == Seq::<usize>::empty(),
            log.restarted() == Seq::<usize>::empty(),
    {
        SwarmLog {
            host,
            evaluations: Ghost(Seq::empty()),
            adopted: Ghost(Seq::empty()),
            restarted: Ghost(Seq::empty()),
        }
    }

    pub fn host(&self) -> &H {
        &self.host
    }

    pub fn into_inner(self) -> H {
        self.host
    }

    pub fn evaluate(&mut self, member: usize) -> (r: Residual)
        ensures
            final(self).evaluations() == old(self).evaluations().push((member, r)),
            final(self).unchanged_but_evaluations(old(self)),
    {
        let r = self.host.evaluate(member);
        self.evaluations = Ghost(self.evaluations@.push((member, r)));
        r
    }

    pub fn adopt(&mut self, member: usize)
        ensures
            final(self).evaluations() == old(self).evaluations(),
            final(self).adopted() == old(self).adopted().push(member),
            final(self).restarted() == old(self).restarted(),
    {
        self.host.adopt(member);
        self.adopted = Ghost(self.adopted@.push(member));
    }

    pub fn nearly_equal(&self, a: Residual, b: Residual) -> bool {
        self.host.nearly_equal(a, b)
    }

    pub fn restart(&mut self, member: usize)
        ensures
            final(self).evaluations() == old(self).evaluations(),
            final(self).adopted() == old(self).adopted(),
            final(self).restarted() == old(self).restarted().push(member),
    {
        self.host.restart(member);
        self.restarted = Ghost(self.restarted@.push(member));
    }

    pub fn advance(&mut self, member: usize)
        ensures
            final(self).evaluations() == old(self).evaluations(),
            final(self).unchanged_but_evaluations(old(self)),
    {
        self.host.advance(member);
    }

    pub fn snapshot(&mut self, personal_best: bool)
        ensures
            final(self).evaluations() == old(self).evaluations(),
            final(self).unchanged_but_evaluations(old(self)),
    {
        self.host.snapshot(personal_best);
    }
}

} // verus!
