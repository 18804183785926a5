//! The read path as a state machine without I/O.
//!
//! [`ReadFlow`] tells a driver which tier to probe next, when to promote a
//! hit upward, and how to classify the outcome. Everything it says is a
//! function of the answers it was given so far: [`ReadProgress`] holds those
//! answers, and [`ReadProgress::step`] is that function.
use vstd::prelude::*;

use crate::policy::{OnReadError, ReadPolicy};

verus! {

/// How one tier answered a probe.
#[derive(Debug, Clone, Copy, PartialEq, Eq, Structural)]
pub enum Probe {
    /// The tier holds the key.
    Hit,
    /// The tier answered and does not hold the key.
    Miss,
    /// The tier failed to answer.
    Error,
}

/// How a read ended.
#[derive(Debug, Clone, Copy, PartialEq, Eq, Structural)]
pub enum ReadOutcome {
    /// `tier` served the key.
    Hit {
        /// The topmost tier that holds the key.
        tier: usize,
    },
    /// Every tier answered and none held the key.
    Miss,
    /// No tier held the key, but at least one failed: absence is unconfirmed.
    Inconclusive,
    /// `tier` failed and the policy aborts on the first failure.
    Failed {
        /// The failing tier.
        tier: usize,
    },
}

/// What the driver has to do next.
#[derive(Debug, Clone, Copy, PartialEq, Eq, Structural)]
pub enum ReadStep {
    /// Probe `tier` for the key and report with [`ReadFlow::on_get`].
    Get {
        /// The tier to probe.
        tier: usize,
    },
    /// Copy the hit into `tier` and report with [`ReadFlow::on_promote`].
    Promote {
        /// The tier that receives the copy.
        tier: usize,
    },
    /// The read is over.
    Done(ReadOutcome),
}

/// Everything a read has learned: the probes answered so far, top-down, and
/// how many promotions were carried out.
#[verifier::ext_equal]
pub struct ReadProgress {
    /// Number of tiers in the hierarchy.
    pub tiers: int,
    /// The policy in force.
    pub policy: ReadPolicy,
    /// `probes[i]` is the answer of tier `i`.
    pub probes: Seq<Probe>,
    /// Number of promotions reported.
    pub promoted: int,
}

impl ReadProgress {
    /// The outcome, once the answers determine one. A hit always ends the
    /// probing; an error ends it under [`OnReadError::FailFast`]; otherwise
    /// it ends when every tier has answered.
    pub open spec fn outcome(self) -> Option<ReadOutcome> {
        let last = self.probes.len() - 1;
        if last >= 0 && self.probes[last] == Probe::Hit {
            Some(ReadOutcome::Hit { tier: last as usize })
        } else if last >= 0 && self.probes[last] == Probe::Error && self.policy.on_error
            == OnReadError::FailFast {
            Some(ReadOutcome::Failed { tier: last as usize })
        } else if self.probes.len() >= self.tiers {
            if self.probes.contains(Probe::Error) {
                Some(ReadOutcome::Inconclusive)
            } else {
                Some(ReadOutcome::Miss)
            }
        } else {
            None
        }
    }

    /// The next step: probe tiers top-down until the outcome is known, then
    /// copy a hit into the tiers the policy names, topmost first.
    pub open spec fn step(self) -> ReadStep {
        match self.outcome() {
            None => ReadStep::Get { tier: self.probes.len() as usize },
            Some(ReadOutcome::Hit { tier }) => if self.promoted < self.policy.promote.reach(
                tier as int,
            ) {
                ReadStep::Promote { tier: self.promoted as usize }
            } else {
                ReadStep::Done(ReadOutcome::Hit { tier })
            },
            Some(outcome) => ReadStep::Done(outcome),
        }
    }

    /// The progress after tier `probes.len()` answered `probe`.
    pub open spec fn probed(self, probe: Probe) -> ReadProgress {
        ReadProgress { probes: self.probes.push(probe), ..self }
    }

    /// The progress after one more promotion.
    pub open spec fn promoted_once(self) -> ReadProgress {
        ReadProgress { promoted: self.promoted + 1, ..self }
    }
}

/// The read of one key over a stack of tiers.
pub struct ReadFlow {
    tiers: usize,
    policy: ReadPolicy,
    next: usize,
    failed: bool,
    promoted: usize,
    outcome: Option<ReadOutcome>,
    probes: Ghost<Seq<Probe>>,
}

impl View for ReadFlow {
    type V = ReadProgress;

    closed spec fn view(&self) -> ReadProgress {
        ReadProgress {
            tiers: self.tiers as int,
            policy: self.policy,
            probes: self.probes@,
            promoted: self.promoted as int,
        }
    }
}

impl ReadFlow {
    /// What every flow that [`ReadFlow::new`] started satisfies.
    pub closed spec fn inv(&self) -> bool {
        &&& self.next == self.probes@.len() <= self.tiers
        &&& self.failed == self.probes@.contains(Probe::Error)
        &&& self.outcome == self@.outcome()
        &&& self.promoted <= self.tiers
    }

    /// Starts the read of one key over `tiers` tiers.
    pub fn new(tiers: usize, policy: ReadPolicy) -> (flow: ReadFlow)
        ensures
            flow.inv(),
            flow@ == (ReadProgress {
                tiers: tiers as int,
                policy,
                probes: Seq::empty(),
                promoted: 0,
            }),
    {
        ReadFlow {
            tiers,
            policy,
            next: 0,
            failed: false,
            promoted: 0,
            outcome: if tiers == 0 {
                Some(ReadOutcome::Miss)
            } else {
                None
            },
            probes: Ghost(Seq::empty()),
        }
    }

    /// What the driver has to do next.
    pub fn step(&self) -> (step: ReadStep)
        requires
            self.inv(),
        ensures
            step == self@.step(),
            step matches ReadStep::Get { tier } ==> tier == self@.probes.len() < self@.tiers,
            step matches ReadStep::Promote { tier } ==> tier == self@.promoted && tier
                < self@.probes.len() - 1,
    {
        match self.outcome {
            None => ReadStep::Get { tier: self.next },
            Some(ReadOutcome::Hit { tier }) => if self.promoted < self.policy.promote.targets(tier) {
                ReadStep::Promote { tier: self.promoted }
            } else {
                ReadStep::Done(ReadOutcome::Hit { tier })
            },
            Some(outcome) => ReadStep::Done(outcome),
        }
    }

    /// Reports how the probed tier answered.
    pub fn on_get(&mut self, probe: Probe)
        requires
            old(self).inv(),
            old(self)@.step() is Get,
        ensures
            final(self).inv(),
            final(self)@ == old(self)@.probed(probe),
    {
        let tier = self.next;
        let ghost before = self.probes@;
        proof {
            assert(before.push(probe).last() == probe);
            assert(before.push(probe).contains(Probe::Error) <==> before.contains(Probe::Error)
                || probe == Probe::Error) by {
                if before.contains(Probe::Error) {
                    let i = choose|i: int| 0 <= i < before.len() && before[i] == Probe::Error;
                    assert(before.push(probe)[i] == Probe::Error);
                }
                if probe == Probe::Error {
                    assert(before.push(probe)[before.len() as int] == Probe::Error);
                }
            }
        }
        self.probes = Ghost(self.probes@.push(probe));
        self.next = tier + 1;
        match probe {
            Probe::Hit => {
                self.outcome = Some(ReadOutcome::Hit { tier });
            },
            Probe::Miss => {
                if self.next == self.tiers {
                    self.outcome = Some(
                        if self.failed {
                            ReadOutcome::Inconclusive
                        } else {
                            ReadOutcome::Miss
                        },
                    );
                }
            },
            Probe::Error => {
                self.failed = true;
                match self.policy.on_error {
                    OnReadError::FailFast => {
                        self.outcome = Some(ReadOutcome::Failed { tier });
                    },
                    OnReadError::FallThrough => {
                        if self.next == self.tiers {
                            self.outcome = Some(ReadOutcome::Inconclusive);
                        }
                    },
                }
            },
        }
    }

    /// Reports that the requested promotion was carried out (or failed: the
    /// read does not depend on it).
    pub fn on_promote(&mut self)
        requires
            old(self).inv(),
            old(self)@.step() is Promote,
        ensures
            final(self).inv(),
            final(self)@ == old(self)@.promoted_once(),
    {
        self.promoted = self.promoted + 1;
    }
}

} // verus!
