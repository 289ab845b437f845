//! The solving loop: when to iterate, when to measure how far the strategy is from equilibrium,
//! and when to stop.

use vstd::prelude::*;

use crate::ieee::{Double, Single};

verus! {

/// The exploitability is measured after every tenth iteration.
pub const CHECK_INTERVAL: u32 = 10;

/// What a solve came to.
#[derive(Debug, Clone, Copy, PartialEq, Eq, Structural)]
pub struct SolveOutcome {
    /// In chips.
    pub exploitability: Single,
    pub iterations: u32,
    pub elapsed_sec: Double,
    /// Whether the time ran out before the target was met.
    pub hit_time_limit: bool,
}

/// What the loop is waiting for.
#[derive(Debug, Clone, Copy, PartialEq, Eq, Structural)]
pub enum Phase {
    /// Nothing: the next thing is to be decided.
    Deciding,
    /// One more iteration.
    Iterating,
    /// A measurement, after which the loop goes on.
    Measuring,
    /// The last measurement.
    Closing,
    /// The loop is over.
    Done,
}

/// What is to be done next.
#[derive(Debug, Clone, Copy, PartialEq, Eq, Structural)]
pub enum Request {
    /// Do the iteration of this number.
    Iterate(u32),
    /// Measure the exploitability.
    Measure,
    /// Nothing more.
    Finish,
}

/// The state of the loop.
#[derive(Debug, Clone, Copy, PartialEq, Eq, Structural)]
pub struct SolveLoop {
    pub max_iterations: u32,
    pub target: Single,
    pub time_limit: Option<Double>,
    pub iterations: u32,
    pub exploitability: Single,
    /// The number of iterations that had been done when the exploitability was measured.
    pub measured_at: u32,
    pub hit_time_limit: bool,
    pub phase: Phase,
}

impl SolveLoop {
    /// No more iterations than allowed; the measurement is of the present strategy unless
    /// iterations have followed it, and it is when the loop is over. Iterations follow only a
    /// measurement that does not meet the target, and the loop ends where the target is met, all
    /// iterations are done, or the time limit cut it off before either.
    pub open spec fn well_formed(self) -> bool {
        &&& self.measured_at <= self.iterations <= self.max_iterations
        &&& self.phase is Iterating ==> self.iterations < self.max_iterations && !self.met()
        &&& self.phase is Measuring ==> self.iterations % 10 == 0 || self.iterations
            == self.max_iterations
        &&& self.phase is Done ==> self.measured_at == self.iterations
        &&& (self.phase is Deciding || self.phase is Iterating) ==> self.measured_at
            == self.iterations - self.iterations % 10 || (self.measured_at == self.iterations
            && self.iterations == self.max_iterations)
        &&& !(self.phase is Closing) && self.measured_at < self.iterations ==> !self.met()
        &&& self.hit_time_limit ==> {
            &&& self.phase is Closing || self.phase is Done
            &&& self.time_limit is Some
            &&& self.iterations < self.max_iterations
            &&& !self.met()
        }
        &&& self.phase is Closing && !self.hit_time_limit ==> self.iterations == self.max_iterations
        &&& self.phase is Done && !self.hit_time_limit ==> self.iterations == self.max_iterations
            || self.met()
    }

    /// Whether the time is up.
    pub open spec fn late(self, elapsed: Double) -> bool {
        self.time_limit is Some && self.time_limit->0.at_most(elapsed)
    }

    /// Whether the target is met.
    pub open spec fn met(self) -> bool {
        self.exploitability.at_most(self.target)
    }

    /// The state after an iteration was done.
    pub open spec fn iterated(self) -> SolveLoop {
        let n = (self.iterations + 1) as u32;
        SolveLoop {
            iterations: n,
            phase: if n % CHECK_INTERVAL == 0 || n == self.max_iterations {
                Phase::Measuring
            } else {
                Phase::Deciding
            },
            ..self
        }
    }

    /// The state in which the loop ends: a measurement is still to come where the number of
    /// iterations is no multiple of ten.
    pub open spec fn closed(self, late: bool) -> SolveLoop {
        SolveLoop {
            hit_time_limit: late,
            phase: if self.iterations % CHECK_INTERVAL != 0 {
                Phase::Closing
            } else {
                Phase::Done
            },
            ..self
        }
    }

    /// The state after a decision: the loop goes on while iterations are left, the target is not
    /// met and the time is not up.
    pub open spec fn decided(self, elapsed: Double) -> SolveLoop {
        if self.iterations < self.max_iterations && !self.met() {
            if self.late(elapsed) {
                self.closed(true)
            } else {
                SolveLoop { phase: Phase::Iterating, ..self }
            }
        } else {
            self.closed(false)
        }
    }

    /// The state after what was asked for was done; a measurement has been noted before.
    pub open spec fn advanced(self, elapsed: Double) -> SolveLoop {
        let s = if self.phase is Iterating {
            self.iterated()
        } else {
            self
        };
        if s.phase is Deciding {
            s.decided(elapsed)
        } else {
            s
        }
    }

    /// What a state asks for.
    pub open spec fn request(self) -> Request {
        match self.phase {
            Phase::Iterating => Request::Iterate(self.iterations),
            Phase::Measuring => Request::Measure,
            Phase::Closing => Request::Measure,
            Phase::Done => Request::Finish,
            Phase::Deciding => Request::Finish,
        }
    }

    /// A loop that has not begun, with the exploitability that it starts from.
    pub fn new(max_iterations: u32, target: Single, time_limit: Option<Double>, exploitability: Single) -> (r:
        SolveLoop)
        ensures
            r == (SolveLoop {
                max_iterations,
                target,
                time_limit,
                iterations: 0,
                exploitability,
                measured_at: 0,
                hit_time_limit: false,
                phase: Phase::Deciding,
            }),
            r.well_formed(),
    {
        SolveLoop {
            max_iterations,
            target,
            time_limit,
            iterations: 0,
            exploitability,
            measured_at: 0,
            hit_time_limit: false,
            phase: Phase::Deciding,
        }
    }

    /// What is to be done next, at this time after the start.
    pub fn next(&mut self, elapsed: Double) -> (r: Request)
        requires
            old(self).well_formed(),
        ensures
            *final(self) == old(self).advanced(elapsed),
            r == final(self).request(),
            final(self).well_formed(),
            !(final(self).phase is Deciding),
    {
        if let Phase::Iterating = self.phase {
            self.iterations = self.iterations + 1;
            if self.iterations % CHECK_INTERVAL == 0 || self.iterations == self.max_iterations {
                self.phase = Phase::Measuring;
            } else {
                self.phase = Phase::Deciding;
            }
        }
        if let Phase::Deciding = self.phase {
            let going: bool = self.iterations < self.max_iterations && !self.exploitability.le(
                &self.target,
            );
            let late: bool = match &self.time_limit {
                Some(limit) => limit.le(&elapsed),
                None => false,
            };
            if going && !late {
                self.phase = Phase::Iterating;
            } else {
                self.hit_time_limit = going && late;
                if self.iterations % CHECK_INTERVAL != 0 {
                    self.phase = Phase::Closing;
                } else {
                    self.phase = Phase::Done;
                }
            }
        }
        match self.phase {
            Phase::Iterating => Request::Iterate(self.iterations),
            Phase::Measuring => Request::Measure,
            Phase::Closing => Request::Measure,
            Phase::Done => Request::Finish,
            Phase::Deciding => Request::Finish,
        }
    }

    /// Notes a measurement that was asked for. Where the last one meets the target after all, the
    /// loop was not cut off before it.
    pub fn measured(&mut self, exploitability: Single)
        requires
            old(self).well_formed(),
            old(self).request() is Measure,
        ensures
            *final(self) == (SolveLoop {
                exploitability,
                measured_at: old(self).iterations,
                phase: match old(self).phase {
                    Phase::Measuring => Phase::Deciding,
                    Phase::Closing => Phase::Done,
                    other => other,
                },
                hit_time_limit: old(self).hit_time_limit && !exploitability.at_most(old(self).target),
                ..*old(self)
            }),
            final(self).well_formed(),
    {
        self.exploitability = exploitability;
        self.measured_at = self.iterations;
        self.hit_time_limit = self.hit_time_limit && !exploitability.le(&self.target);
        if let Phase::Measuring = self.phase {
            self.phase = Phase::Deciding;
        } else if let Phase::Closing = self.phase {
            self.phase = Phase::Done;
        }
    }

    /// What the solve came to.
    pub fn outcome(&self, elapsed_sec: Double) -> (r: SolveOutcome)
        ensures
            r == (SolveOutcome {
                exploitability: self.exploitability,
                iterations: self.iterations,
                elapsed_sec,
                hit_time_limit: self.hit_time_limit,
            }),
    {
        SolveOutcome {
            exploitability: self.exploitability,
            iterations: self.iterations,
            elapsed_sec,
            hit_time_limit: self.hit_time_limit,
        }
    }
}

/// When the loop is over, the exploitability that is reported is that of the final strategy, and
/// no more iterations were done than allowed.
pub proof fn law_reported_exploitability_is_current(s: SolveLoop)
    requires
        s.well_formed(),
        s.phase is Done,
    ensures
        s.measured_at == s.iterations,
        s.iterations <= s.max_iterations,
{
}

/// A loop is left for one of three reasons, and the time limit is named there exactly when
/// iterations were left, the target was not met and the time was up.
pub proof fn law_reasons_to_stop(s: SolveLoop, elapsed: Double)
    requires
        s.well_formed(),
        s.phase is Deciding,
        !(s.decided(elapsed).phase is Iterating),
    ensures
        s.iterations == s.max_iterations || s.met() || s.late(elapsed),
        s.decided(elapsed).hit_time_limit <==> s.iterations < s.max_iterations && !s.met() && s.late(
            elapsed,
        ),
{
}

/// When the loop is over, it was cut off by the time limit, with iterations left and the target not
/// met; or all iterations are done or the target is met, and it was not cut off.
pub proof fn law_how_loops_end(s: SolveLoop)
    requires
        s.well_formed(),
        s.phase is Done,
    ensures
        s.hit_time_limit ==> s.time_limit is Some && s.iterations < s.max_iterations && !s.met(),
        !s.hit_time_limit ==> s.iterations == s.max_iterations || s.met(),
        s.measured_at == s.iterations,
{
}

/// Solving stops once the target is reached: no iteration is asked for after a measurement that
/// meets it.
pub proof fn law_targets_end_the_loop(s: SolveLoop, elapsed: Double)
    requires
        s.well_formed(),
        s.met(),
        s.phase is Deciding,
    ensures
        s.advanced(elapsed).iterations == s.iterations,
        !(s.advanced(elapsed).request() is Iterate),
        !s.advanced(elapsed).hit_time_limit,
        s.iterations % 10 == 0 ==> s.advanced(elapsed).request() is Finish,
{
}

/// A loop whose target is met at the start ends at once, whatever the time limit.
pub proof fn law_targets_met_at_the_start(s: SolveLoop, elapsed: Double)
    requires
        s.well_formed(),
        s.met(),
        s.iterations == 0,
        s.phase is Deciding,
    ensures
        s.advanced(elapsed).request() is Finish,
        s.advanced(elapsed).iterations == 0,
        !s.advanced(elapsed).hit_time_limit,
        s.advanced(elapsed).exploitability == s.exploitability,
{
}

/// Iterations are asked for one after the other, each once: an iteration is counted when the loop
/// is told that it was done, and the next one asked for has the next number.
pub proof fn law_iterations_are_counted(s: SolveLoop, elapsed: Double)
    requires
        s.well_formed(),
    ensures
        s.request() is Iterate ==> s.request()->Iterate_0 == s.iterations,
        s.advanced(elapsed).iterations == s.iterations + (if s.request() is Iterate {
            1int
        } else {
            0int
        }),
{
}

/// Another iteration is asked for exactly while some are left, the exploitability is not down to the
/// target and the time limit, if there is one, is not reached. Otherwise the loop closes: with one more
/// measurement where the number of iterations is no multiple of ten, else at once. What the loop was
/// given and what was measured stays as it is.
pub proof fn law_when_loops_go_on(s: SolveLoop, elapsed: Double)
    requires
        s.well_formed(),
        s.phase is Deciding,
    ensures
        ({
            let t = s.advanced(elapsed);
            let reached = !s.exploitability.nan() && !s.target.nan() && s.exploitability.value()
                <= s.target.value();
            let up = match s.time_limit {
                None => false,
                Some(limit) => !limit.nan() && !elapsed.nan() && limit.value() <= elapsed.value(),
            };
            &&& t.request() is Iterate <==> s.iterations < s.max_iterations && !reached && !up
            &&& !(t.request() is Iterate) ==> {
                &&& t.request() is Measure <==> s.iterations % 10 != 0
                &&& t.request() is Finish <==> s.iterations % 10 == 0
                &&& t.hit_time_limit <==> s.iterations < s.max_iterations && !reached
            }
            &&& t.iterations == s.iterations
            &&& t.exploitability == s.exploitability
            &&& t.measured_at == s.measured_at
            &&& t.max_iterations == s.max_iterations
            &&& t.target == s.target
            &&& t.time_limit == s.time_limit
        }),
{
}

/// After an iteration the exploitability is measured exactly where the iterations done are a multiple
/// of ten or all that were allowed.
pub proof fn law_when_loops_measure(s: SolveLoop, elapsed: Double)
    requires
        s.well_formed(),
        s.request() is Iterate,
    ensures
        ({
            let t = s.advanced(elapsed);
            let n = s.iterations + 1;
            &&& t.iterations == n
            &&& n % 10 == 0 || n == s.max_iterations ==> t.request() is Measure
            &&& t.request() is Measure && !t.hit_time_limit ==> n % 10 == 0 || n == s.max_iterations
            &&& t.exploitability == s.exploitability
            &&& t.measured_at == s.measured_at
        }),
{
}

} // verus!
