//! The summary of a run.

use vstd::prelude::*;

use crate::engine::{Results, SessionResult};
use crate::num::{zero, zero_of, Num};

verus! {

/// Totals over all sessions of a run.
#[derive(Debug, Clone, Copy, PartialEq)]
pub struct Summary<N> {
    pub sessions_total: usize,
    pub sessions_target_met: usize,
    pub sessions_never_connected: usize,
    pub energy_drawn_kwh: N,
    pub energy_exported_kwh: N,
    pub missing_kwh: N,
    pub banked_kwh: N,
    pub chain_clamped_kwh: N,
}

/// The sessions that met their target.
pub open spec fn count_met<N>(list: Seq<SessionResult<N>>) -> nat
    decreases list.len(),
{
    if list.len() == 0 {
        0
    } else {
        count_met(list.drop_last()) + if list.last().target_met {
            1nat
        } else {
            0nat
        }
    }
}

/// The sessions that never obtained a charger.
pub open spec fn count_unserved<N>(list: Seq<SessionResult<N>>) -> nat
    decreases list.len(),
{
    if list.len() == 0 {
        0
    } else {
        count_unserved(list.drop_last()) + if list.last().never_connected {
            1nat
        } else {
            0nat
        }
    }
}

/// A quantity added up over all sessions.
pub open spec fn total_of<N: Num>(
    list: Seq<SessionResult<N>>,
    quantity: spec_fn(SessionResult<N>) -> N,
) -> N
    decreases list.len(),
{
    if list.len() == 0 {
        zero_of()
    } else {
        total_of(list.drop_last(), quantity).plus(quantity(list.last()))
    }
}

pub open spec fn drawn<N>() -> spec_fn(SessionResult<N>) -> N {
    |r: SessionResult<N>| r.energy_drawn_kwh
}

pub open spec fn exported<N>() -> spec_fn(SessionResult<N>) -> N {
    |r: SessionResult<N>| r.energy_exported_kwh
}

pub open spec fn missed<N>() -> spec_fn(SessionResult<N>) -> N {
    |r: SessionResult<N>| r.missing_kwh
}

pub open spec fn banked<N>() -> spec_fn(SessionResult<N>) -> N {
    |r: SessionResult<N>| r.banked_kwh
}

pub open spec fn clamped_in<N>() -> spec_fn(SessionResult<N>) -> N {
    |r: SessionResult<N>| r.chain_clamped_kwh
}

/// The summary of the sessions of a run.
pub open spec fn is_summary<N: Num>(s: Summary<N>, list: Seq<SessionResult<N>>) -> bool {
    &&& s.sessions_total == list.len()
    &&& s.sessions_target_met == count_met(list)
    &&& s.sessions_never_connected == count_unserved(list)
    &&& s.energy_drawn_kwh == total_of(list, drawn())
    &&& s.energy_exported_kwh == total_of(list, exported())
    &&& s.missing_kwh == total_of(list, missed())
    &&& s.banked_kwh == total_of(list, banked())
    &&& s.chain_clamped_kwh == total_of(list, clamped_in())
}

/// Totals over the sessions of a run.
pub fn summarize<N: Num>(results: &Results<N>) -> (r: Summary<N>)
    ensures
        is_summary(r, results.sessions@),
{
    let list = &results.sessions;
    let mut s: Summary<N> = Summary {
        sessions_total: 0,
        sessions_target_met: 0,
        sessions_never_connected: 0,
        energy_drawn_kwh: zero(),
        energy_exported_kwh: zero(),
        missing_kwh: zero(),
        banked_kwh: zero(),
        chain_clamped_kwh: zero(),
    };
    for i in 0..list.len()
        invariant
            is_summary(s, list@.take(i as int)),
            s.sessions_target_met <= i,
            s.sessions_never_connected <= i,
    {
        let r = list[i];
        assert(list@.take(i + 1).drop_last() =~= list@.take(i as int));
        assert(list@.take(i + 1).last() == r);
        s.sessions_total = i + 1;
        if r.target_met {
            s.sessions_target_met = s.sessions_target_met + 1;
        }
        if r.never_connected {
            s.sessions_never_connected = s.sessions_never_connected + 1;
        }
        s.energy_drawn_kwh = s.energy_drawn_kwh.add(r.energy_drawn_kwh);
        s.energy_exported_kwh = s.energy_exported_kwh.add(r.energy_exported_kwh);
        s.missing_kwh = s.missing_kwh.add(r.missing_kwh);
        s.banked_kwh = s.banked_kwh.add(r.banked_kwh);
        s.chain_clamped_kwh = s.chain_clamped_kwh.add(r.chain_clamped_kwh);
    }
    assert(list@.take(list@.len() as int) =~= list@);
    s
}

} // verus!
