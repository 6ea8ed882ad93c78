//! Running a production scheduler and a shadow scheduler side by side, stepping
//! whichever has the earlier next event, so that both schedules come out as one
//! time-ordered stream.

use vstd::prelude::*;

use crate::cluster::Cluster;
use crate::engine::{SteppableSimulation, StepOutcome};
use crate::events::{next_index, Event};
use crate::metrics::{metrics_of, SimulationMetrics};
use crate::snapshot::ClusterSnapshot;

verus! {

/// Which of the two simulations a step came from.
#[derive(Debug, Clone, Copy, PartialEq, Eq, Structural)]
pub enum ShadowSide {
    Primary,
    Shadow,
}

/// One step of either simulation, tagged with its side.
pub struct ShadowStep {
    pub side: ShadowSide,
    pub outcome: StepOutcome,
}

/// Time of the next event of `s`, if any.
pub open spec fn next_time_of(s: Seq<Event>) -> Option<u64> {
    if s.len() == 0 {
        None
    } else {
        Some(s[next_index(s)].time)
    }
}

/// The side whose next event comes first, the primary on equal times; `None`
/// when neither has an event left.
pub open spec fn side_to_step(p: Option<u64>, s: Option<u64>) -> Option<ShadowSide> {
    match (p, s) {
        (None, None) => None,
        (Some(_), None) => Some(ShadowSide::Primary),
        (None, Some(_)) => Some(ShadowSide::Shadow),
        (Some(a), Some(b)) => if a <= b {
            Some(ShadowSide::Primary)
        } else {
            Some(ShadowSide::Shadow)
        },
    }
}

/// A primary and a shadow simulation over the same arrivals.
pub struct ShadowRun<P, S> {
    pub primary: Box<P>,
    pub shadow: Box<S>,
    pub jobs_total: usize,
}

/// Step `st` took run `a` to `b`: the side whose next event comes first (the
/// primary on equal times) stepped, and the other side is unchanged.
pub open spec fn shadow_stepped<P: SteppableSimulation, S: SteppableSimulation>(
    a: ShadowRun<P, S>,
    b: ShadowRun<P, S>,
    st: ShadowStep,
) -> bool {
    &&& b.jobs_total == a.jobs_total
    &&& match side_to_step(a.primary_next(), a.shadow_next()) {
        Some(ShadowSide::Primary) => {
            &&& st.side == ShadowSide::Primary
            &&& Some(st.outcome.event_time) == a.primary_next()
            &&& (*a.primary).stepped_to(*b.primary, Some(st.outcome))
            &&& b.shadow == a.shadow
        },
        Some(ShadowSide::Shadow) => {
            &&& st.side == ShadowSide::Shadow
            &&& Some(st.outcome.event_time) == a.shadow_next()
            &&& (*a.shadow).stepped_to(*b.shadow, Some(st.outcome))
            &&& b.primary == a.primary
        },
        None => false,
    }
}

/// Taking `steps` in order took run `a` to `b`.
pub open spec fn shadow_trace<P: SteppableSimulation, S: SteppableSimulation>(
    a: ShadowRun<P, S>,
    steps: Seq<ShadowStep>,
    b: ShadowRun<P, S>,
) -> bool
    decreases steps.len(),
{
    if steps.len() == 0 {
        b == a
    } else {
        exists|m: ShadowRun<P, S>| shadow_trace(a, steps.drop_last(), m) && #[trigger] shadow_stepped(m, b, steps.last())
    }
}

impl<P: SteppableSimulation, S: SteppableSimulation> ShadowRun<P, S> {
    pub open spec fn wf(&self) -> bool {
        (*self.primary).inv() && (*self.shadow).inv()
    }

    pub open spec fn primary_next(&self) -> Option<u64> {
        next_time_of((*self.primary).pending_events())
    }

    pub open spec fn shadow_next(&self) -> Option<u64> {
        next_time_of((*self.shadow).pending_events())
    }

    pub fn new(primary: Box<P>, shadow: Box<S>, jobs_total: usize) -> (r: Self)
        ensures
            r.primary == primary,
            r.shadow == shadow,
            r.jobs_total == jobs_total,
    {
        ShadowRun { primary, shadow, jobs_total }
    }

    /// Steps whichever simulation's next event comes first, the primary on equal
    /// times, so that its schedule is authoritative when times coincide.
    /// `None` once neither has an event left.
    pub fn step(&mut self) -> (r: Option<ShadowStep>)
        requires
            old(self).wf(),
        ensures
            final(self).wf(),
            final(self).jobs_total == old(self).jobs_total,
            side_to_step(old(self).primary_next(), old(self).shadow_next()) is None ==> r is None && *final(self)
                == *old(self),
            r matches Some(st) ==> shadow_stepped(*old(self), *final(self), st),
            side_to_step(old(self).primary_next(), old(self).shadow_next()) == Some(ShadowSide::Primary) ==> ({
                &&& r matches Some(st)
                &&& st.side == ShadowSide::Primary
                &&& Some(st.outcome.event_time) == old(self).primary_next()
                &&& (*old(self).primary).stepped_to(*final(self).primary, Some(st.outcome))
                &&& final(self).shadow == old(self).shadow
            }),
            side_to_step(old(self).primary_next(), old(self).shadow_next()) == Some(ShadowSide::Shadow) ==> ({
                &&& r matches Some(st)
                &&& st.side == ShadowSide::Shadow
                &&& Some(st.outcome.event_time) == old(self).shadow_next()
                &&& (*old(self).shadow).stepped_to(*final(self).shadow, Some(st.outcome))
                &&& final(self).primary == old(self).primary
            }),
    {
        let p = self.primary.peek_next_event_time();
        let s = self.shadow.peek_next_event_time();
        let side = match (p, s) {
            (None, None) => return None,
            (Some(_), None) => ShadowSide::Primary,
            (None, Some(_)) => ShadowSide::Shadow,
            (Some(a), Some(b)) => if a <= b {
                ShadowSide::Primary
            } else {
                ShadowSide::Shadow
            },
        };
        let outcome = match side {
            ShadowSide::Primary => self.primary.step_once(),
            ShadowSide::Shadow => self.shadow.step_once(),
        };
        match outcome {
            Some(o) => Some(ShadowStep { side, outcome: o }),
            None => None,
        }
    }

    /// Both simulations have no event left.
    pub fn is_done(&self) -> (r: bool)
        ensures
            r == (self.primary_next() is None && self.shadow_next() is None),
    {
        self.primary.is_done() && self.shadow.is_done()
    }

    /// Steps both simulations until neither has an event left, collecting every
    /// step in order. Stops early only after `u64::MAX` steps.
    pub fn run_to_completion(&mut self) -> (steps: Vec<ShadowStep>)
        requires
            old(self).wf(),
        ensures
            final(self).wf(),
            steps@.len() < u64::MAX ==> final(self).primary_next() is None && final(self).shadow_next() is None,
            shadow_trace(*old(self), steps@, *final(self)),
    {
        let mut steps: Vec<ShadowStep> = Vec::new();
        let mut count: u64 = 0;
        loop
            invariant
                self.wf(),
                steps@.len() == count,
                shadow_trace(*old(self), steps@, *self),
            ensures
                self.wf(),
                steps@.len() < u64::MAX ==> self.primary_next() is None && self.shadow_next() is None,
                shadow_trace(*old(self), steps@, *self),
            decreases u64::MAX - count,
        {
            if count == u64::MAX {
                break;
            }
            let ghost before = *self;
            let ghost done = steps@;
            match self.step() {
                Some(st) => {
                    steps.push(st);
                    count = count + 1;
                    proof {
                        assert(steps@.drop_last() == done);
                        assert(shadow_stepped(before, *self, steps@.last()));
                    }
                },
                None => {
                    break;
                },
            }
        }
        steps
    }

    /// Metrics of `(primary, shadow)` from whatever has happened so far.
    pub fn metrics(&self) -> (r: (SimulationMetrics, SimulationMetrics))
        ensures
            metrics_of(r.0, (*self.primary).sim_cluster(), self.jobs_total),
            metrics_of(r.1, (*self.shadow).sim_cluster(), self.jobs_total),
    {
        (
            SimulationMetrics::from_cluster(self.primary.cluster(), self.jobs_total),
            SimulationMetrics::from_cluster(self.shadow.cluster(), self.jobs_total),
        )
    }

    pub fn primary_cluster(&self) -> (r: &Cluster)
        ensures
            *r == (*self.primary).sim_cluster(),
    {
        self.primary.cluster()
    }

    pub fn shadow_cluster(&self) -> (r: &Cluster)
        ensures
            *r == (*self.shadow).sim_cluster(),
    {
        self.shadow.cluster()
    }

    /// Hands out `(primary, shadow)` replay snapshots captured so far and forgets
    /// them; both are empty unless the simulations capture replays.
    pub fn take_replay_snapshots(&mut self) -> (r: (Vec<ClusterSnapshot>, Vec<ClusterSnapshot>))
        requires
            old(self).wf(),
        ensures
            final(self).wf(),
            r.0@ == (*old(self).primary).replay(),
            r.1@ == (*old(self).shadow).replay(),
            (*final(self).primary).replay().len() == 0,
            (*final(self).shadow).replay().len() == 0,
            final(self).primary_next() == old(self).primary_next(),
            final(self).shadow_next() == old(self).shadow_next(),
            (*final(self).primary).sim_cluster() == (*old(self).primary).sim_cluster(),
            (*final(self).shadow).sim_cluster() == (*old(self).shadow).sim_cluster(),
            final(self).jobs_total == old(self).jobs_total,
    {
        let a = self.primary.take_replay_snapshots();
        let b = self.shadow.take_replay_snapshots();
        (a, b)
    }
}

} // verus!
