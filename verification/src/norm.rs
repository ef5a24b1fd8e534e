//! The normalizer: derive, per theoretical model, the least-squares scalar
//! that maps the experimental intensities onto the low-energy reference
//! series, and rescale the whole experimental sequence by it.  All
//! arithmetic is exact: the constants are kept as integer ratios.

use vstd::prelude::*;
use crate::dec::{Dec, pow10, scale_up, lemma_pow10_pos};
use crate::records::{Value, Transition, Theoretical, transition_wf};
use crate::thermal::thermal_wf;
use crate::error::Error;

verus! {

/// An exact ratio of two 128-bit integers, the denominator positive.
#[derive(Clone, Copy, Debug, PartialEq, Eq, Structural)]
pub struct Rat {
    pub num: i128,
    pub den: i128,
}

pub open spec fn rat_wf(r: Rat) -> bool {
    r.den > 0
}

/// Two fractions name the same rational.
pub open spec fn rat_eq_frac(n1: int, d1: int, n2: int, d2: int) -> bool {
    n1 * d2 == n2 * d1
}

/// A rescaled quantity: central value and uncertainty as exact ratios.
#[derive(Clone, Copy, Debug, PartialEq, Eq, Structural)]
pub struct NormValue {
    pub value: Rat,
    pub delta: Rat,
}

/// A rescaled transition: the energy kept as parsed, the intensity scaled.
#[derive(Clone, Copy, Debug, PartialEq, Eq, Structural)]
pub struct NormTransition {
    pub energy: Value,
    pub intensity: NormValue,
}

/// How many positional pairs the two sequences form.
pub open spec fn pairs_len(ts: Seq<Transition>, hs: Seq<Theoretical>) -> int {
    if ts.len() <= hs.len() {
        ts.len() as int
    } else {
        hs.len() as int
    }
}

/// The scale every term of pair `j` can be brought to exactly.
pub open spec fn pair_scale(t: Transition, h: Theoretical) -> int {
    let si = t.intensity.value.scale as int;
    let a = si + h.talys.scale;
    let b = si + h.empire.scale;
    let c = 2 * si;
    if a >= b && a >= c {
        a
    } else if b >= c {
        b
    } else {
        c
    }
}

/// A scale every term of the first `n` pairs can be brought to exactly.
pub open spec fn spec_common_scale(ts: Seq<Transition>, hs: Seq<Theoretical>, n: int) -> int
    decreases n,
{
    if n <= 0 {
        0
    } else {
        let rest = spec_common_scale(ts, hs, n - 1);
        let p = pair_scale(ts[n - 1], hs[n - 1]);
        if p >= rest {
            p
        } else {
            rest
        }
    }
}

pub proof fn lemma_common_scale_ge(ts: Seq<Transition>, hs: Seq<Theoretical>, n: int, j: int)
    requires
        0 <= j < n,
    ensures
        spec_common_scale(ts, hs, n) >= pair_scale(ts[j], hs[j]),
        spec_common_scale(ts, hs, n) >= 0,
    decreases n,
{
    if j < n - 1 {
        lemma_common_scale_ge(ts, hs, n - 1, j);
    } else {
        lemma_common_scale_nonneg(ts, hs, n - 1);
    }
}

pub proof fn lemma_common_scale_nonneg(ts: Seq<Transition>, hs: Seq<Theoretical>, n: int)
    ensures
        spec_common_scale(ts, hs, n) >= 0,
    decreases n,
{
    if n > 0 {
        lemma_common_scale_nonneg(ts, hs, n - 1);
    }
}

/// One numerator term for the TALYS model, at common scale `c`.
pub open spec fn tal_term(t: Transition, h: Theoretical, c: int) -> int {
    t.intensity.value.mant * h.talys.mant * pow10(
        (c - t.intensity.value.scale - h.talys.scale) as nat,
    )
}

/// One numerator term for the EMPIRE model, at common scale `c`.
pub open spec fn emp_term(t: Transition, h: Theoretical, c: int) -> int {
    t.intensity.value.mant * h.empire.mant * pow10(
        (c - t.intensity.value.scale - h.empire.scale) as nat,
    )
}

/// One denominator term (the squared intensity), at common scale `c`.
pub open spec fn bot_term(t: Transition, c: int) -> int {
    t.intensity.value.mant * t.intensity.value.mant * pow10(
        (c - 2 * t.intensity.value.scale) as nat,
    )
}

pub open spec fn dot_tal(ts: Seq<Transition>, hs: Seq<Theoretical>, c: int, i: int) -> int
    decreases i,
{
    if i <= 0 {
        0
    } else {
        dot_tal(ts, hs, c, i - 1) + tal_term(ts[i - 1], hs[i - 1], c)
    }
}

pub open spec fn dot_emp(ts: Seq<Transition>, hs: Seq<Theoretical>, c: int, i: int) -> int
    decreases i,
{
    if i <= 0 {
        0
    } else {
        dot_emp(ts, hs, c, i - 1) + emp_term(ts[i - 1], hs[i - 1], c)
    }
}

pub open spec fn dot_bot(ts: Seq<Transition>, c: int, i: int) -> int
    decreases i,
{
    if i <= 0 {
        0
    } else {
        dot_bot(ts, c, i - 1) + bot_term(ts[i - 1], c)
    }
}

pub open spec fn in_i128(v: int) -> bool {
    i128::MIN <= v <= i128::MAX
}

/// Every term and every partial sum of the three sums stays in `i128`.
pub open spec fn sums_fit(ts: Seq<Transition>, hs: Seq<Theoretical>, c: int, n: int) -> bool {
    &&& forall|j: int| 0 <= j < n ==> in_i128(#[trigger] tal_term(ts[j], hs[j], c))
    &&& forall|j: int| 0 <= j < n ==> in_i128(#[trigger] emp_term(ts[j], hs[j], c))
    &&& forall|j: int| 0 <= j < n ==> in_i128(#[trigger] bot_term(ts[j], c))
    &&& forall|j: int| 0 <= j <= n ==> in_i128(#[trigger] dot_tal(ts, hs, c, j))
    &&& forall|j: int| 0 <= j <= n ==> in_i128(#[trigger] dot_emp(ts, hs, c, j))
    &&& forall|j: int| 0 <= j <= n ==> in_i128(#[trigger] dot_bot(ts, c, j))
}

pub proof fn lemma_bot_term_nonneg(t: Transition, c: int)
    ensures
        bot_term(t, c) >= 0,
{
    let m = t.intensity.value.mant as int;
    lemma_pow10_pos((c - 2 * t.intensity.value.scale) as nat);
    assert(m * m * pow10((c - 2 * t.intensity.value.scale) as nat) >= 0) by (nonlinear_arith)
        requires
            pow10((c - 2 * t.intensity.value.scale) as nat) >= 1,
    {}
}

proof fn lemma_unfit_term(ts: Seq<Transition>, hs: Seq<Theoretical>, c: int, n: int, j: int)
    requires
        0 <= j < n,
        !in_i128(tal_term(ts[j], hs[j], c)) || !in_i128(emp_term(ts[j], hs[j], c)) || !in_i128(
            bot_term(ts[j], c),
        ),
    ensures
        !sums_fit(ts, hs, c, n),
{
    if sums_fit(ts, hs, c, n) {
        assert(in_i128(tal_term(ts[j], hs[j], c)));
        assert(in_i128(emp_term(ts[j], hs[j], c)));
        assert(in_i128(bot_term(ts[j], c)));
    }
}

proof fn lemma_unfit_sum(ts: Seq<Transition>, hs: Seq<Theoretical>, c: int, n: int, j: int)
    requires
        0 <= j <= n,
        !in_i128(dot_tal(ts, hs, c, j)) || !in_i128(dot_emp(ts, hs, c, j)) || !in_i128(
            dot_bot(ts, c, j),
        ),
    ensures
        !sums_fit(ts, hs, c, n),
{
    if sums_fit(ts, hs, c, n) {
        assert(in_i128(dot_tal(ts, hs, c, j)));
        assert(in_i128(dot_emp(ts, hs, c, j)));
        assert(in_i128(dot_bot(ts, c, j)));
    }
}

/// `m1 * m2 * 10^k`, reporting exactly whether it leaves `i128`.
fn mul_term(m1: i128, m2: i128, k: u32) -> (r: Option<i128>)
    ensures
        match r {
            Some(v) => v as int == m1 * m2 * pow10(k as nat),
            None => !in_i128(m1 * m2 * pow10(k as nat)),
        },
{
    match m1.checked_mul(m2) {
        None => {
            proof {
                let a = m1 as int * m2 as int;
                lemma_pow10_pos(k as nat);
                if a > i128::MAX {
                    assert(a * pow10(k as nat) >= a) by (nonlinear_arith)
                        requires
                            a > 0,
                            pow10(k as nat) >= 1,
                    {}
                } else {
                    assert(a * pow10(k as nat) <= a) by (nonlinear_arith)
                        requires
                            a < 0,
                            pow10(k as nat) >= 1,
                    {}
                }
            }
            None
        },
        Some(a) => scale_up(a, k),
    }
}

/// The two normalization constants, one per model: the least-squares scalar
/// `Σ intensity·model / Σ intensity²` over the positional pairs, kept as an
/// exact ratio.  An empty pairing or a zero denominator is a normalization
/// failure; a sum that leaves 128 bits is a capacity failure.
#[verifier::rlimit(100)]
pub fn norm_constants(ts: &Vec<Transition>, hs: &Vec<Theoretical>) -> (r: Result<(Rat, Rat), Error>)
    requires
        forall|j: int| 0 <= j < ts@.len() ==> transition_wf(#[trigger] ts@[j]),
        forall|j: int| 0 <= j < hs@.len() ==> thermal_wf(#[trigger] hs@[j]),
    ensures
        ({
            let n = pairs_len(ts@, hs@);
            let c = spec_common_scale(ts@, hs@, n);
            &&& (r is Ok <==> sums_fit(ts@, hs@, c, n) && n > 0 && dot_bot(ts@, c, n) != 0)
            &&& (r matches Ok(p) ==> p.0.num == dot_tal(ts@, hs@, c, n) && p.1.num == dot_emp(
                ts@,
                hs@,
                c,
                n,
            ) && p.0.den == dot_bot(ts@, c, n) && p.1.den == dot_bot(ts@, c, n) && rat_wf(p.0)
                && rat_wf(p.1))
            &&& (r matches Err(e) ==> ((e is Capacity <==> !sums_fit(ts@, hs@, c, n)) && (e
                is Normalization <==> sums_fit(ts@, hs@, c, n))))
        }),
{
    let n = if ts.len() <= hs.len() {
        ts.len()
    } else {
        hs.len()
    };
    let ghost gn = n as int;

    // the common scale of all terms
    let mut cs: u32 = 0;
    let mut i: usize = 0;
    while i < n
        invariant
            0 <= i <= n,
            gn == pairs_len(ts@, hs@),
            n <= ts@.len() && n <= hs@.len(),
            forall|j: int| 0 <= j < ts@.len() ==> transition_wf(#[trigger] ts@[j]),
            forall|j: int| 0 <= j < hs@.len() ==> thermal_wf(#[trigger] hs@[j]),
            cs as int == spec_common_scale(ts@, hs@, i as int),
            cs <= 114,
        decreases n - i,
    {
        let si = ts[i].intensity.value.scale;
        let a = si + hs[i].talys.scale;
        let b = si + hs[i].empire.scale;
        let c2 = 2 * si;
        let mut p = a;
        if b > p {
            p = b;
        }
        if c2 > p {
            p = c2;
        }
        proof {
            assert(p as int == pair_scale(ts@[i as int], hs@[i as int]));
        }
        if p > cs {
            cs = p;
        }
        i = i + 1;
    }
    let ghost c = cs as int;
    proof {
        assert(c == spec_common_scale(ts@, hs@, gn));
    }

    // the three sums
    let mut up_tal: i128 = 0;
    let mut up_emp: i128 = 0;
    let mut bot: i128 = 0;
    let mut i: usize = 0;
    while i < n
        invariant
            0 <= i <= n,
            gn == pairs_len(ts@, hs@),
            n <= ts@.len() && n <= hs@.len(),
            forall|j: int| 0 <= j < ts@.len() ==> transition_wf(#[trigger] ts@[j]),
            forall|j: int| 0 <= j < hs@.len() ==> thermal_wf(#[trigger] hs@[j]),
            c == spec_common_scale(ts@, hs@, gn),
            cs as int == c,
            up_tal as int == dot_tal(ts@, hs@, c, i as int),
            up_emp as int == dot_emp(ts@, hs@, c, i as int),
            bot as int == dot_bot(ts@, c, i as int),
            bot >= 0,
            sums_fit(ts@, hs@, c, i as int),
        decreases n - i,
    {
        let t = &ts[i];
        let h = &hs[i];
        let si = t.intensity.value.scale;
        proof {
            lemma_common_scale_ge(ts@, hs@, gn, i as int);
        }
        let mi = t.intensity.value.mant;
        let kt = cs - si - h.talys.scale;
        let ke = cs - si - h.empire.scale;
        let kb = cs - 2 * si;
        let ghost gi = i as int;
        let tal_o = mul_term(mi, h.talys.mant, kt);
        let emp_o = mul_term(mi, h.empire.mant, ke);
        let sq_o = mul_term(mi, mi, kb);
        if tal_o.is_none() || emp_o.is_none() || sq_o.is_none() {
            proof {
                lemma_unfit_term(ts@, hs@, c, gn, gi);
            }
            return Err(Error::Capacity);
        }
        let tal = tal_o.unwrap();
        let emp = emp_o.unwrap();
        let sq = sq_o.unwrap();
        proof {
            assert(dot_tal(ts@, hs@, c, gi + 1) == dot_tal(ts@, hs@, c, gi) + tal_term(
                ts@[gi],
                hs@[gi],
                c,
            ));
            assert(dot_emp(ts@, hs@, c, gi + 1) == dot_emp(ts@, hs@, c, gi) + emp_term(
                ts@[gi],
                hs@[gi],
                c,
            ));
            assert(dot_bot(ts@, c, gi + 1) == dot_bot(ts@, c, gi) + bot_term(ts@[gi], c));
        }
        let ut_o = up_tal.checked_add(tal);
        let ue_o = up_emp.checked_add(emp);
        let bo_o = bot.checked_add(sq);
        if ut_o.is_none() || ue_o.is_none() || bo_o.is_none() {
            proof {
                lemma_unfit_sum(ts@, hs@, c, gn, gi + 1);
            }
            return Err(Error::Capacity);
        }
        proof {
            lemma_bot_term_nonneg(ts@[gi], c);
            assert(tal as int == tal_term(ts@[gi], hs@[gi], c));
            assert(emp as int == emp_term(ts@[gi], hs@[gi], c));
            assert(sq as int == bot_term(ts@[gi], c));
            assert(in_i128(tal_term(ts@[gi], hs@[gi], c)));
            assert(in_i128(emp_term(ts@[gi], hs@[gi], c)));
            assert(in_i128(bot_term(ts@[gi], c)));
            assert(in_i128(dot_tal(ts@, hs@, c, gi + 1)));
            assert(in_i128(dot_emp(ts@, hs@, c, gi + 1)));
            assert(in_i128(dot_bot(ts@, c, gi + 1)));
        }
        up_tal = ut_o.unwrap();
        up_emp = ue_o.unwrap();
        bot = bo_o.unwrap();
        i = i + 1;
    }
    if n == 0 {
        return Err(Error::Normalization);
    }
    if bot == 0 {
        return Err(Error::Normalization);
    }
    Ok((Rat { num: up_tal, den: bot }, Rat { num: up_emp, den: bot }))
}

// The least-squares orthogonality of the projection constants.

/// Prefix sum of `c.den·(intensity·model) − c.num·intensity²`, the residual
/// of the projection against the intensities, cross-multiplied by the
/// constant's denominator, at common scale `sc`.
pub open spec fn ortho_tal(
    ts: Seq<Transition>,
    hs: Seq<Theoretical>,
    sc: int,
    c: Rat,
    i: int,
) -> int
    decreases i,
{
    if i <= 0 {
        0
    } else {
        ortho_tal(ts, hs, sc, c, i - 1) + (c.den * tal_term(ts[i - 1], hs[i - 1], sc) - c.num
            * bot_term(ts[i - 1], sc))
    }
}

/// The same residual sum for the EMPIRE model.
pub open spec fn ortho_emp(
    ts: Seq<Transition>,
    hs: Seq<Theoretical>,
    sc: int,
    c: Rat,
    i: int,
) -> int
    decreases i,
{
    if i <= 0 {
        0
    } else {
        ortho_emp(ts, hs, sc, c, i - 1) + (c.den * emp_term(ts[i - 1], hs[i - 1], sc) - c.num
            * bot_term(ts[i - 1], sc))
    }
}

proof fn lemma_ortho_tal_linear(ts: Seq<Transition>, hs: Seq<Theoretical>, sc: int, c: Rat, i: int)
    ensures
        ortho_tal(ts, hs, sc, c, i) == c.den * dot_tal(ts, hs, sc, i) - c.num * dot_bot(
            ts,
            sc,
            i,
        ),
    decreases i,
{
    if i <= 0 {
        assert(c.den * 0 == 0) by (nonlinear_arith);
        assert(c.num * 0 == 0) by (nonlinear_arith);
    } else {
        lemma_ortho_tal_linear(ts, hs, sc, c, i - 1);
        let dt = dot_tal(ts, hs, sc, i - 1);
        let db = dot_bot(ts, sc, i - 1);
        let tt = tal_term(ts[i - 1], hs[i - 1], sc);
        let bt = bot_term(ts[i - 1], sc);
        assert(c.den * (dt + tt) == c.den * dt + c.den * tt) by (nonlinear_arith);
        assert(c.num * (db + bt) == c.num * db + c.num * bt) by (nonlinear_arith);
    }
}

proof fn lemma_ortho_emp_linear(ts: Seq<Transition>, hs: Seq<Theoretical>, sc: int, c: Rat, i: int)
    ensures
        ortho_emp(ts, hs, sc, c, i) == c.den * dot_emp(ts, hs, sc, i) - c.num * dot_bot(
            ts,
            sc,
            i,
        ),
    decreases i,
{
    if i <= 0 {
        assert(c.den * 0 == 0) by (nonlinear_arith);
        assert(c.num * 0 == 0) by (nonlinear_arith);
    } else {
        lemma_ortho_emp_linear(ts, hs, sc, c, i - 1);
        let dt = dot_emp(ts, hs, sc, i - 1);
        let db = dot_bot(ts, sc, i - 1);
        let tt = emp_term(ts[i - 1], hs[i - 1], sc);
        let bt = bot_term(ts[i - 1], sc);
        assert(c.den * (dt + tt) == c.den * dt + c.den * tt) by (nonlinear_arith);
        assert(c.num * (db + bt) == c.num * db + c.num * bt) by (nonlinear_arith);
    }
}

/// Least-squares orthogonality: a constant whose numerator is the
/// intensity-model dot sum and whose denominator is the squared-intensity
/// sum leaves no residual against the intensities —
/// `Σ (model_i − c·intensity_i)·intensity_i` vanishes exactly.
pub proof fn lemma_orthogonality(
    ts: Seq<Transition>,
    hs: Seq<Theoretical>,
    sc: int,
    n: int,
    ctal: Rat,
    cemp: Rat,
)
    requires
        ctal.num == dot_tal(ts, hs, sc, n),
        ctal.den == dot_bot(ts, sc, n),
        cemp.num == dot_emp(ts, hs, sc, n),
        cemp.den == dot_bot(ts, sc, n),
    ensures
        ortho_tal(ts, hs, sc, ctal, n) == 0,
        ortho_emp(ts, hs, sc, cemp, n) == 0,
{
    lemma_ortho_tal_linear(ts, hs, sc, ctal, n);
    lemma_ortho_emp_linear(ts, hs, sc, cemp, n);
    let dt = dot_tal(ts, hs, sc, n);
    let de = dot_emp(ts, hs, sc, n);
    let db = dot_bot(ts, sc, n);
    assert(db * dt - dt * db == 0) by (nonlinear_arith);
    assert(db * de - de * db == 0) by (nonlinear_arith);
}

// Rescaling the experimental sequence by a constant.

/// An exact decimal times an exact ratio, when the products stay in range.
pub open spec fn spec_scale_dec(d: Dec, c: Rat) -> Option<Rat> {
    if in_i128(d.mant * c.num) && c.den * pow10(d.scale as nat) <= i128::MAX {
        Some(
            Rat {
                num: (d.mant * c.num) as i128,
                den: (c.den * pow10(d.scale as nat)) as i128,
            },
        )
    } else {
        None
    }
}

/// Multiply a decimal by a ratio exactly.
fn scale_dec(d: &Dec, c: &Rat) -> (r: Result<Rat, Error>)
    requires
        rat_wf(*c),
    ensures
        match r {
            Ok(q) => spec_scale_dec(*d, *c) == Some(q) && rat_wf(q),
            Err(e) => spec_scale_dec(*d, *c) is None && e is Capacity,
        },
{
    let num = match d.mant.checked_mul(c.num) {
        Some(v) => v,
        None => {
            return Err(Error::Capacity);
        },
    };
    match scale_up(c.den, d.scale) {
        Some(den) => {
            proof {
                lemma_pow10_pos(d.scale as nat);
                assert(c.den * pow10(d.scale as nat) >= 1) by (nonlinear_arith)
                    requires
                        c.den >= 1,
                        pow10(d.scale as nat) >= 1,
                {}
            }
            Ok(Rat { num, den })
        },
        None => {
            proof {
                lemma_pow10_pos(d.scale as nat);
                assert(c.den * pow10(d.scale as nat) >= 1) by (nonlinear_arith)
                    requires
                        c.den >= 1,
                        pow10(d.scale as nat) >= 1,
                {}
            }
            Err(Error::Capacity)
        },
    }
}

/// Both components of a value scaled by the same constant.
pub open spec fn spec_norm_value(v: Value, c: Rat) -> Option<NormValue> {
    match (spec_scale_dec(v.value, c), spec_scale_dec(v.delta, c)) {
        (Some(a), Some(b)) => Some(NormValue { value: a, delta: b }),
        _ => None,
    }
}

/// A transition scaled: energy untouched, intensity scaled by `c`.
pub open spec fn spec_norm_transition(t: Transition, c: Rat) -> Option<NormTransition> {
    match spec_norm_value(t.intensity, c) {
        Some(nv) => Some(NormTransition { energy: t.energy, intensity: nv }),
        None => None,
    }
}

/// Scaling a transition by `c` multiplies both the central value and the
/// uncertainty of its intensity by exactly `c`, and leaves the energy
/// unchanged.
pub proof fn lemma_norm_scales_exactly(t: Transition, c: Rat, nt: NormTransition)
    requires
        rat_wf(c),
        spec_norm_transition(t, c) == Some(nt),
    ensures
        nt.energy == t.energy,
        rat_eq_frac(
            nt.intensity.value.num as int,
            nt.intensity.value.den as int,
            t.intensity.value.mant * c.num,
            c.den * pow10(t.intensity.value.scale as nat),
        ),
        rat_eq_frac(
            nt.intensity.delta.num as int,
            nt.intensity.delta.den as int,
            t.intensity.delta.mant * c.num,
            c.den * pow10(t.intensity.delta.scale as nat),
        ),
{
    let vm = t.intensity.value.mant as int;
    let vp = pow10(t.intensity.value.scale as nat);
    let dm = t.intensity.delta.mant as int;
    let dp = pow10(t.intensity.delta.scale as nat);
    lemma_pow10_pos(t.intensity.value.scale as nat);
    lemma_pow10_pos(t.intensity.delta.scale as nat);
    assert(c.den * vp >= 1) by (nonlinear_arith)
        requires
            c.den >= 1,
            vp >= 1,
    {}
    assert(c.den * dp >= 1) by (nonlinear_arith)
        requires
            c.den >= 1,
            dp >= 1,
    {}
    assert(nt.intensity.value.num == vm * c.num);
    assert(nt.intensity.value.den == c.den * vp);
    assert(nt.intensity.delta.num == dm * c.num);
    assert(nt.intensity.delta.den == c.den * dp);
}

/// A scaled transition keeps its energy and carries positive denominators.
pub proof fn lemma_norm_transition_wf(t: Transition, c: Rat, nt: NormTransition)
    requires
        rat_wf(c),
        spec_norm_transition(t, c) == Some(nt),
    ensures
        nt.energy == t.energy,
        rat_wf(nt.intensity.value),
        rat_wf(nt.intensity.delta),
{
    lemma_pow10_pos(t.intensity.value.scale as nat);
    lemma_pow10_pos(t.intensity.delta.scale as nat);
    assert(c.den * pow10(t.intensity.value.scale as nat) >= 1) by (nonlinear_arith)
        requires
            c.den >= 1,
            pow10(t.intensity.value.scale as nat) >= 1,
    {}
    assert(c.den * pow10(t.intensity.delta.scale as nat) >= 1) by (nonlinear_arith)
        requires
            c.den >= 1,
            pow10(t.intensity.delta.scale as nat) >= 1,
    {}
}

/// Scale one transition's intensity by a constant; the energy is kept.
pub fn norm_transition(t: &Transition, c: &Rat) -> (r: Result<NormTransition, Error>)
    requires
        rat_wf(*c),
    ensures
        match r {
            Ok(nt) => spec_norm_transition(*t, *c) == Some(nt),
            Err(e) => spec_norm_transition(*t, *c) is None && e is Capacity,
        },
{
    let value = match scale_dec(&t.intensity.value, c) {
        Ok(q) => q,
        Err(e) => {
            return Err(e);
        },
    };
    let delta = match scale_dec(&t.intensity.delta, c) {
        Ok(q) => q,
        Err(e) => {
            return Err(e);
        },
    };
    Ok(NormTransition { energy: t.energy, intensity: NormValue { value, delta } })
}

/// The whole experimental sequence scaled by one constant, in order.
pub open spec fn spec_norm_seq(ts: Seq<Transition>, c: Rat) -> Option<Seq<NormTransition>>
    decreases ts.len(),
{
    if ts.len() == 0 {
        Some(Seq::empty())
    } else {
        match spec_norm_seq(ts.drop_last(), c) {
            Some(ns) => match spec_norm_transition(ts.last(), c) {
                Some(nt) => Some(ns.push(nt)),
                None => None,
            },
            None => None,
        }
    }
}

pub proof fn lemma_norm_seq_none(ts: Seq<Transition>, c: Rat, i: int)
    requires
        0 <= i < ts.len(),
        spec_norm_transition(ts[i], c) is None,
    ensures
        spec_norm_seq(ts, c) is None,
    decreases ts.len(),
{
    if i < ts.len() - 1 {
        lemma_norm_seq_none(ts.drop_last(), c, i);
    }
}

/// Scale every transition by one constant, keeping length and order.
pub fn norm_seq(ts: &Vec<Transition>, c: &Rat) -> (r: Result<Vec<NormTransition>, Error>)
    requires
        rat_wf(*c),
    ensures
        match r {
            Ok(ns) => spec_norm_seq(ts@, *c) == Some(ns@) && ns@.len() == ts@.len(),
            Err(e) => spec_norm_seq(ts@, *c) is None && e is Capacity,
        },
{
    let n = ts.len();
    let mut out: Vec<NormTransition> = Vec::new();
    let mut i: usize = 0;
    proof {
        assert(ts@.subrange(0, 0) =~= Seq::<Transition>::empty());
        assert(out@ =~= Seq::<NormTransition>::empty());
    }
    while i < n
        invariant
            0 <= i <= n,
            n == ts@.len(),
            rat_wf(*c),
            spec_norm_seq(ts@.subrange(0, i as int), *c) == Some(out@),
            out@.len() == i,
        decreases n - i,
    {
        let ghost pre = ts@.subrange(0, i as int);
        let ghost post = ts@.subrange(0, (i + 1) as int);
        proof {
            assert(post.drop_last() =~= pre);
            assert(post.last() == ts@[i as int]);
        }
        match norm_transition(&ts[i], c) {
            Ok(nt) => {
                out.push(nt);
            },
            Err(e) => {
                proof {
                    lemma_norm_seq_none(ts@, *c, i as int);
                }
                return Err(e);
            },
        }
        i = i + 1;
    }
    proof {
        assert(ts@.subrange(0, n as int) =~= ts@);
    }
    Ok(out)
}

/// Rescale the whole experimental sequence by both constants: first the
/// TALYS series, then the EMPIRE series, each the full input in order.
pub fn norm_exp(ts: &Vec<Transition>, ctal: &Rat, cemp: &Rat) -> (r: Result<
    (Vec<NormTransition>, Vec<NormTransition>),
    Error,
>)
    requires
        rat_wf(*ctal),
        rat_wf(*cemp),
    ensures
        match r {
            Ok(p) => spec_norm_seq(ts@, *ctal) == Some(p.0@) && spec_norm_seq(ts@, *cemp)
                == Some(p.1@) && p.0@.len() == ts@.len() && p.1@.len() == ts@.len(),
            Err(e) => (spec_norm_seq(ts@, *ctal) is None || spec_norm_seq(ts@, *cemp) is None)
                && e is Capacity,
        },
{
    let tal = match norm_seq(ts, ctal) {
        Ok(v) => v,
        Err(e) => {
            return Err(e);
        },
    };
    let emp = match norm_seq(ts, cemp) {
        Ok(v) => v,
        Err(e) => {
            return Err(e);
        },
    };
    Ok((tal, emp))
}

} // verus!
