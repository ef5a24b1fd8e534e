//! Exact decimal quantities: an integer mantissa over a power-of-ten scale.

use vstd::prelude::*;
use vstd::arithmetic::power::{pow, lemma_pow_adds, lemma_pow_positive};

verus! {

/// Largest mantissa magnitude a parsed decimal may carry.
pub const MANT_LIMIT: i128 = 1_000_000_000_000_000_000;

/// Largest scale (count of fractional digits) a parsed decimal may carry.
pub const SCALE_LIMIT: u32 = 25;

/// `pow10(e)` is the mathematical value of ten to the `e`.
pub open spec fn pow10(e: nat) -> int {
    pow(10, e)
}

/// An exact decimal number, `mant / 10^scale`.
#[derive(Clone, Copy, Debug, PartialEq, Eq, Structural)]
pub struct Dec {
    pub mant: i128,
    pub scale: u32,
}

/// Bounds that every decimal produced by the parser satisfies.
pub open spec fn dec_wf(d: Dec) -> bool {
    &&& -MANT_LIMIT <= d.mant <= MANT_LIMIT
    &&& d.scale <= SCALE_LIMIT
}

/// A decimal is canonical when its fraction carries no trailing zero digit
/// (the zero value is canonical only at scale zero).
pub open spec fn dec_canonical(d: Dec) -> bool {
    d.scale == 0 || (d.mant % 10 != 0 && d.mant != 0)
}

proof fn lemma_pow10_unfold(e: nat)
    requires
        e >= 1,
    ensures
        pow10(e) == 10 * pow10((e - 1) as nat),
{
    reveal(pow);
}

pub proof fn lemma_pow10_pos(e: nat)
    ensures
        pow10(e) >= 1,
{
    lemma_pow_positive(10, e);
}

/// Multiply `x` by ten to the `k`, reporting overflow of `i128` exactly.
pub fn scale_up(x: i128, k: u32) -> (r: Option<i128>)
    ensures
        match r {
            Some(y) => y == x * pow10(k as nat),
            None => x * pow10(k as nat) > i128::MAX || x * pow10(k as nat) < i128::MIN,
        },
{
    let mut acc: i128 = x;
    let mut j: u32 = 0;
    proof {
        assert(pow10(0) == 1) by {
            reveal(pow);
        }
    }
    while j < k
        invariant
            j <= k,
            acc == x * pow10(j as nat),
        decreases k - j,
    {
        let next = acc.checked_mul(10);
        proof {
            lemma_pow10_unfold((j + 1) as nat);
        }
        match next {
            Some(v) => {
                proof {
                    assert(v == x * pow10((j + 1) as nat)) by (nonlinear_arith)
                        requires
                            v == acc * 10,
                            acc == x * pow10(j as nat),
                            pow10((j + 1) as nat) == 10 * pow10(j as nat),
                    {}
                }
                acc = v;
                j = j + 1;
            },
            None => {
                proof {
                    assert(x * pow10((j + 1) as nat) == acc * 10) by (nonlinear_arith)
                        requires
                            acc == x * pow10(j as nat),
                            pow10((j + 1) as nat) == 10 * pow10(j as nat),
                    {}
                    lemma_scale_up_overflow(x as int, (j + 1) as nat, k as nat);
                }
                return None;
            },
        }
    }
    Some(acc)
}

/// If multiplying by a smaller power of ten already leaves `i128`, so does
/// the full power.
proof fn lemma_scale_up_overflow(x: int, j: nat, k: nat)
    requires
        j <= k,
        x * pow10(j) > i128::MAX || x * pow10(j) < i128::MIN,
    ensures
        x * pow10(k) > i128::MAX || x * pow10(k) < i128::MIN,
{
    lemma_pow_adds(10, j, (k - j) as nat);
    lemma_pow10_pos((k - j) as nat);
    let p = pow10((k - j) as nat);
    let a = x * pow10(j);
    assert(x * pow10(k) == a * p) by (nonlinear_arith)
        requires
            pow10(k) == pow10(j) * p,
            a == x * pow10(j),
    {}
    if a > i128::MAX {
        assert(a * p >= a) by (nonlinear_arith)
            requires
                p >= 1,
                a > 0,
        {}
    } else {
        assert(a * p <= a) by (nonlinear_arith)
            requires
                p >= 1,
                a < 0,
        {}
    }
}

} // verus!
