//! The [`Policy`] trait and built-in scheduling heuristics.

use vstd::prelude::*;

pub use crate::policy::heuristics::{
    by_name, Builtin, Idle, Policy0, Policy1, Policy2, ThresholdScheduler, Uncontrolled,
};

use crate::num::Num;
use crate::state::{Observation, Setpoint};

pub mod answers;
pub mod feasible;
pub mod formulation;
pub mod futures;
pub mod heuristics;
pub mod mpc;
pub mod oracle;
pub mod points;
pub mod rates;
pub mod scenario_mpc;

verus! {

/// A charging policy: maps the observable state of one slot to a power
/// setpoint per connected session. A policy may keep private per-episode state
/// (e.g. the EDF/LLF threshold ratchet) but must not touch the environment.
pub trait Policy<N: Num>: Sized {
    /// What [`Policy::name`] returns.
    spec fn title(&self) -> &'static str;

    /// What the policy asks of its own state before a decision.
    spec fn ready(&self) -> bool;

    /// Whether the policy may answer `obs` with `out` and then be in state `after`.
    spec fn chooses(&self, obs: &Observation<N>, out: &Vec<Setpoint<N>>, after: &Self) -> bool;

    fn name(&self) -> (r: &'static str)
        ensures
            r@ == self.title()@,
    ;

    fn decide(&mut self, obs: &Observation<N>) -> (out: Vec<Setpoint<N>>)
        requires
            old(self).ready(),
            obs@.well_formed(),
        ensures
            old(self).chooses(obs, &out, final(self)),
            final(self).ready(),
            final(self).title()@ == old(self).title()@,
    ;
}

/// Names accepted by [`by_name`], for help output.
pub const POLICY_NAMES: [&'static str; 7] = [
    "idle",
    "uncontrolled",
    "policy-0",
    "policy-1",
    "policy-2",
    "edf",
    "llf",
];

} // verus!
