//! openv2b: a lightweight discrete-event simulator for EV vehicle-to-building
//! (V2B) charging and scheduling research.
//!
//! A site with electric vehicle chargers is simulated slot by slot: vehicles
//! arrive, request a departure state of charge, and leave, and a pluggable policy
//! decides each connected vehicle's power in every slot. The bill is settled with
//! energy prices, demand charges and demand-response penalties.
//!
//! Inputs and numbers:
//! - [`num`]: the number type everything is computed in; [`fixed`]: fixed point;
//!   [`rounding`]: what the laws ask of numbers
//! - [`scenario`]: input model (vehicles, chargers, building load, prices, DR events)
//! - [`series`]: tables to scenarios; [`validation`]: what is wrong with one
//! - [`month`]: a month of made-up data; [`text`], [`order`]: texts and stable sorting
//!
//! The simulation:
//! - [`state`]: what a policy sees; [`site`]: the model of the site; [`engine`]: the loop
//! - [`billing`]: the bill; [`output`]: the summary
//!
//! Decisions:
//! - [`policy`]: the policy interface, the heuristics and the planning policies
//! - [`milp`]: solver-independent linear programs and the solvers' files
//! - [`negotiation`]: contract menus offered on arrival
//!
//! What holds of every run (but for [`service`] and [`threshold`], whatever the policy
//! does):
//! - [`soundness`], [`flows`], [`physics`], [`dispatch`]: ports, power limits and batteries
//! - [`service`], [`threshold`]: targets that can be met are met by the target-seeking
//!   policies
//! - [`trace`], [`balance`], [`reporting`], [`persistence`], [`row_order`]: trace, books and
//!   reports
//! - [`tariff`]: what a bill amounts to; [`outlook`]: what policies are shown and what is
//!   summed up; [`bargain`]: what contracts and talks amount to
//!
//! What holds of the planners and the heuristics (in [`policy`]): which points satisfy their
//! programs and what they cost, what is made of an answer, and what is asked of a car.

use vstd::prelude::*;

pub mod balance;
pub mod bargain;
pub mod billing;
pub mod dispatch;
pub mod engine;
pub mod fixed;
pub mod flows;
pub mod milp;
pub mod month;
pub mod negotiation;
pub mod num;
pub mod order;
pub mod outlook;
pub mod output;
pub mod persistence;
pub mod physics;
pub mod policy;
pub mod reporting;
pub mod rounding;
pub mod row_order;
pub mod scenario;
pub mod series;
pub mod service;
pub mod site;
pub mod soundness;
pub mod state;
pub mod tariff;
pub mod text;
pub mod threshold;
pub mod trace;
pub mod validation;

use crate::num::{count, from_count, Num};

verus! {

/// Average power (kW) of an energy amount (kWh) over one slot.
pub open spec fn power_of<N: Num>(kwh: N, slot_minutes: N) -> N {
    kwh.times(count(60)).over(slot_minutes)
}

/// Energy (kWh) of an average power (kW) sustained over one slot.
pub open spec fn energy_of<N: Num>(kw: N, slot_minutes: N) -> N {
    kw.times(slot_minutes).over(count(60))
}

/// Convert an energy amount over one slot (kWh) to average power (kW).
pub fn kwh_to_kw<N: Num>(kwh: N, slot_minutes: N) -> (r: N)
    ensures
        r == power_of(kwh, slot_minutes),
{
    kwh.mul(from_count(60)).div(slot_minutes)
}

/// Convert average power (kW) sustained over one slot to energy (kWh).
pub fn kw_to_kwh<N: Num>(kw: N, slot_minutes: N) -> (r: N)
    ensures
        r == energy_of(kw, slot_minutes),
{
    kw.mul(slot_minutes).div(from_count(60))
}

} // verus!
