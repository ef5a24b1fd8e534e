//! The thermal converter: rescale both model intensities of every
//! theoretical point by the thermal-flux constant, and keep the points
//! below the low-energy cutoff.

use vstd::prelude::*;
use crate::dec::{Dec, dec_wf, pow10, scale_up, lemma_pow10_pos, MANT_LIMIT};
use crate::records::{Theoretical, theoretical_wf};
use vstd::arithmetic::power::lemma_pow_increases;

verus! {

/// Mantissa of the thermal-flux normalization constant `6.2869461`.
pub const C_THERMAL_MANT: i128 = 62_869_461;

/// Scale (fractional digits) of the thermal-flux constant.
pub const C_THERMAL_SCALE: u32 = 7;

/// Bound on a model intensity mantissa after the thermal rescale.
pub const THERMAL_MANT_LIMIT: i128 = 62_869_461_000_000_000_000_000_000;

/// Bound on a model intensity scale after the thermal rescale.
pub const THERMAL_SCALE_LIMIT: u32 = 32;

/// A model intensity of a thermal point stays within these bounds.
pub open spec fn thermal_dec_wf(d: Dec) -> bool {
    &&& -THERMAL_MANT_LIMIT <= d.mant <= THERMAL_MANT_LIMIT
    &&& d.scale <= THERMAL_SCALE_LIMIT
}

/// A thermal point: parsed energy, rescaled model intensities.
pub open spec fn thermal_wf(t: Theoretical) -> bool {
    &&& dec_wf(t.energy)
    &&& thermal_dec_wf(t.empire)
    &&& thermal_dec_wf(t.talys)
}

/// One point rescaled: both model intensities multiplied exactly by the
/// thermal constant; the energy is untouched.
pub open spec fn spec_as_thermal(t: Theoretical) -> Theoretical {
    Theoretical {
        energy: t.energy,
        empire: Dec {
            mant: (t.empire.mant * C_THERMAL_MANT) as i128,
            scale: (t.empire.scale + C_THERMAL_SCALE) as u32,
        },
        talys: Dec {
            mant: (t.talys.mant * C_THERMAL_MANT) as i128,
            scale: (t.talys.scale + C_THERMAL_SCALE) as u32,
        },
    }
}

/// Rescale one theoretical point by the thermal constant.
pub fn as_thermal(t: &Theoretical) -> (r: Theoretical)
    requires
        theoretical_wf(*t),
    ensures
        r == spec_as_thermal(*t),
        thermal_wf(r),
{
    Theoretical {
        energy: t.energy,
        empire: Dec {
            mant: t.empire.mant * C_THERMAL_MANT,
            scale: t.empire.scale + C_THERMAL_SCALE,
        },
        talys: Dec {
            mant: t.talys.mant * C_THERMAL_MANT,
            scale: t.talys.scale + C_THERMAL_SCALE,
        },
    }
}

/// The whole theoretical sequence rescaled, in order.
pub open spec fn spec_thermal(ts: Seq<Theoretical>) -> Seq<Theoretical> {
    Seq::new(ts.len(), |i: int| spec_as_thermal(ts[i]))
}

/// Rescale every theoretical point by the thermal constant.
pub fn thermal(ts: &Vec<Theoretical>) -> (r: Vec<Theoretical>)
    requires
        forall|j: int| 0 <= j < ts@.len() ==> theoretical_wf(#[trigger] ts@[j]),
    ensures
        r@ == spec_thermal(ts@),
        forall|j: int| 0 <= j < r@.len() ==> thermal_wf(#[trigger] r@[j]),
{
    let n = ts.len();
    let mut out: Vec<Theoretical> = Vec::new();
    let mut i: usize = 0;
    while i < n
        invariant
            0 <= i <= n,
            n == ts@.len(),
            forall|j: int| 0 <= j < n ==> theoretical_wf(#[trigger] ts@[j]),
            out@ == spec_thermal(ts@).subrange(0, i as int),
            forall|j: int| 0 <= j < out@.len() ==> thermal_wf(#[trigger] out@[j]),
        decreases n - i,
    {
        let t = as_thermal(&ts[i]);
        out.push(t);
        proof {
            assert(out@ =~= spec_thermal(ts@).subrange(0, (i + 1) as int));
        }
        i = i + 1;
    }
    proof {
        assert(spec_thermal(ts@).subrange(0, n as int) =~= spec_thermal(ts@));
    }
    out
}

/// Mantissa of the low-energy cutoff: a point is kept when its energy,
/// brought to the experimental unit scale, lies strictly below the cutoff.
pub const E_MAX_MANT: i128 = 325_000;

/// Power of ten that brings the energy to the experimental unit scale.
pub const E_MULT_POW: u32 = 6;

/// `energy * 10^6 < 325000`, read over the exact decimal energy.
pub open spec fn spec_is_low_energy(e: Dec) -> bool {
    e.mant * pow10(E_MULT_POW as nat) < E_MAX_MANT * pow10(e.scale as nat)
}

/// Decide the low-energy cutoff exactly.
pub fn is_low_energy(e: &Dec) -> (r: bool)
    requires
        dec_wf(*e),
    ensures
        r == spec_is_low_energy(*e),
{
    proof {
        assert(pow10(6) == 1_000_000) by {
            reveal_with_fuel(vstd::arithmetic::power::pow, 7);
        }
    }
    let lhs = e.mant * 1_000_000;
    match scale_up(E_MAX_MANT, e.scale) {
        Some(rhs) => lhs < rhs,
        None => {
            proof {
                assert(pow10(25) == 10_000_000_000_000_000_000_000_000) by {
                    reveal_with_fuel(vstd::arithmetic::power::pow, 26);
                }
                lemma_pow_increases(10, e.scale as nat, 25);
                lemma_pow10_pos(e.scale as nat);
                assert(E_MAX_MANT * pow10(e.scale as nat) <= E_MAX_MANT * pow10(25))
                    by (nonlinear_arith)
                    requires
                        0 <= pow10(e.scale as nat) <= pow10(25),
                {};
                assert(E_MAX_MANT * pow10(e.scale as nat) >= 0) by (nonlinear_arith)
                    requires
                        pow10(e.scale as nat) >= 1,
                {};
                assert(false);
            }
            false
        },
    }
}

/// The thermal points below the cutoff, in order.
pub open spec fn spec_low_energy(ts: Seq<Theoretical>) -> Seq<Theoretical>
    decreases ts.len(),
{
    if ts.len() == 0 {
        Seq::empty()
    } else {
        let rest = spec_low_energy(ts.drop_last());
        if spec_is_low_energy(ts.last().energy) {
            rest.push(ts.last())
        } else {
            rest
        }
    }
}

/// Keep the thermal points whose energy lies below the cutoff.
pub fn low_energy(ts: Vec<Theoretical>) -> (r: Vec<Theoretical>)
    requires
        forall|j: int| 0 <= j < ts@.len() ==> thermal_wf(#[trigger] ts@[j]),
    ensures
        r@ == spec_low_energy(ts@),
        forall|j: int| 0 <= j < r@.len() ==> thermal_wf(#[trigger] r@[j]),
{
    let n = ts.len();
    let mut out: Vec<Theoretical> = Vec::new();
    let mut i: usize = 0;
    proof {
        assert(ts@.subrange(0, 0) =~= Seq::<Theoretical>::empty());
    }
    while i < n
        invariant
            0 <= i <= n,
            n == ts@.len(),
            forall|j: int| 0 <= j < n ==> thermal_wf(#[trigger] ts@[j]),
            out@ == spec_low_energy(ts@.subrange(0, i as int)),
            forall|j: int| 0 <= j < out@.len() ==> thermal_wf(#[trigger] out@[j]),
        decreases n - i,
    {
        let ghost pre = ts@.subrange(0, i as int);
        let ghost post = ts@.subrange(0, (i + 1) as int);
        proof {
            assert(post.drop_last() =~= pre);
            assert(post.last() == ts@[i as int]);
        }
        if is_low_energy(&ts[i].energy) {
            let t = ts[i];
            out.push(t);
        }
        i = i + 1;
    }
    proof {
        assert(ts@.subrange(0, n as int) =~= ts@);
    }
    out
}

} // verus!
