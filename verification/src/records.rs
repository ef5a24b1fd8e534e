//! The record kinds of the two tables: an experimental gamma transition
//! (energy and intensity, each with uncertainty) and a theoretical spectrum
//! point (energy and two model intensities, no uncertainty).

use vstd::prelude::*;
use crate::dec::{Dec, dec_wf, dec_canonical};

verus! {

/// A measured quantity: central value and one-sigma uncertainty, both exact
/// decimals.  Scaling makes a new `Value`; nothing mutates one in place.
#[derive(Clone, Copy, Debug, PartialEq, Eq, Structural)]
pub struct Value {
    pub value: Dec,
    pub delta: Dec,
}

/// One experimental gamma-transition record: energy in keV, intensity per
/// ten thousand neutron captures.
#[derive(Clone, Copy, Debug, PartialEq, Eq, Structural)]
pub struct Transition {
    pub energy: Value,
    pub intensity: Value,
}

/// One theoretical spectrum row: energy in MeV and the two model
/// intensities, in the order the table carries them.
#[derive(Clone, Copy, Debug, PartialEq, Eq, Structural)]
pub struct Theoretical {
    pub energy: Dec,
    pub empire: Dec,
    pub talys: Dec,
}

/// Every decimal the parser hands out is canonical and within its bounds,
/// and an uncertainty — a one-sigma width — is never negative.
pub open spec fn value_wf(v: Value) -> bool {
    &&& dec_wf(v.value)
    &&& dec_canonical(v.value)
    &&& dec_wf(v.delta)
    &&& dec_canonical(v.delta)
    &&& v.delta.mant >= 0
}

pub open spec fn transition_wf(t: Transition) -> bool {
    value_wf(t.energy) && value_wf(t.intensity)
}

pub open spec fn theoretical_wf(t: Theoretical) -> bool {
    &&& dec_wf(t.energy) && dec_canonical(t.energy)
    &&& dec_wf(t.empire) && dec_canonical(t.empire)
    &&& dec_wf(t.talys) && dec_canonical(t.talys)
}

} // verus!
