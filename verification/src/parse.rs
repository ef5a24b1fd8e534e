//! The value parser: decimal tokens, with sign, fraction and exponent, read
//! exactly into `Dec`.

use vstd::prelude::*;
use vstd::arithmetic::power::{lemma_pow_adds, lemma_pow_strictly_increases};
use vstd::arithmetic::div_mod::lemma_mod_multiples_vanish;
use crate::dec::{Dec, dec_wf, dec_canonical, pow10, lemma_pow10_pos, scale_up, MANT_LIMIT,
    SCALE_LIMIT};
use crate::error::Error;
use crate::records::{Value, Transition, Theoretical, value_wf, transition_wf, theoretical_wf};
use crate::text::{spec_trim, remove_lt, strip_limit, views2, views3, join_bytes, spec_split_ws,
    split_whitespace};
use vstd::slice::slice_subrange;

verus! {

/// The exponent magnitude beyond which a token is refused.
pub const EXP_LIMIT: u32 = 999;

pub open spec fn is_digit(c: u8) -> bool {
    48 <= c && c <= 57
}

pub open spec fn digit_val(c: u8) -> int {
    c as int - 48
}

pub open spec fn all_digits(s: Seq<u8>) -> bool {
    forall|j: int| 0 <= j < s.len() ==> is_digit(#[trigger] s[j])
}

/// The number named by a string of decimal digits.
pub open spec fn digits_val(s: Seq<u8>) -> int
    decreases s.len(),
{
    if s.len() == 0 {
        0
    } else {
        digits_val(s.drop_last()) * 10 + digit_val(s.last())
    }
}

/// The first position holding `c1` or `c2`, or the length if there is none.
pub open spec fn find_byte2(s: Seq<u8>, c1: u8, c2: u8) -> int
    decreases s.len(),
{
    if s.len() == 0 {
        0
    } else if s[0] == c1 || s[0] == c2 {
        0
    } else {
        1 + find_byte2(s.drop_first(), c1, c2)
    }
}

pub proof fn lemma_find_byte2_at(s: Seq<u8>, c1: u8, c2: u8, k: int)
    requires
        0 <= k <= s.len(),
        forall|j: int| 0 <= j < k ==> s[j] != c1 && s[j] != c2,
        k < s.len() ==> s[k] == c1 || s[k] == c2,
    ensures
        find_byte2(s, c1, c2) == k,
    decreases k,
{
    if k > 0 {
        let t = s.drop_first();
        lemma_find_byte2_at(t, c1, c2, k - 1);
    }
}

// Decomposition of a decimal token: optional sign, mantissa digits with an
// optional point, optional exponent after `e` or `E`.

pub open spec fn sgn_len(s: Seq<u8>) -> int {
    if s.len() > 0 && (s[0] == 43 || s[0] == 45) {
        1
    } else {
        0
    }
}

pub open spec fn tok_neg(s: Seq<u8>) -> bool {
    s.len() > 0 && s[0] == 45
}

pub open spec fn body_of(s: Seq<u8>) -> Seq<u8> {
    s.subrange(sgn_len(s), s.len() as int)
}

pub open spec fn e_idx(s: Seq<u8>) -> int {
    find_byte2(body_of(s), 101, 69)
}

pub open spec fn has_exp(s: Seq<u8>) -> bool {
    e_idx(s) < body_of(s).len()
}

pub open spec fn mant_of(s: Seq<u8>) -> Seq<u8> {
    body_of(s).subrange(0, e_idx(s))
}

pub open spec fn exp_of(s: Seq<u8>) -> Seq<u8> {
    body_of(s).subrange(e_idx(s) + 1, body_of(s).len() as int)
}

pub open spec fn dot_idx(s: Seq<u8>) -> int {
    find_byte2(mant_of(s), 46, 46)
}

pub open spec fn int_of(s: Seq<u8>) -> Seq<u8> {
    mant_of(s).subrange(0, dot_idx(s))
}

pub open spec fn frac_of(s: Seq<u8>) -> Seq<u8> {
    if dot_idx(s) < mant_of(s).len() {
        mant_of(s).subrange(dot_idx(s) + 1, mant_of(s).len() as int)
    } else {
        Seq::empty()
    }
}

pub open spec fn exp_digits(s: Seq<u8>) -> Seq<u8> {
    exp_of(s).subrange(sgn_len(exp_of(s)), exp_of(s).len() as int)
}

pub open spec fn exp_neg(s: Seq<u8>) -> bool {
    tok_neg(exp_of(s))
}

/// The token has the shape of a signed decimal with optional exponent.
pub open spec fn dec_grammar_ok(s: Seq<u8>) -> bool {
    &&& all_digits(int_of(s))
    &&& all_digits(frac_of(s))
    &&& int_of(s).len() + frac_of(s).len() >= 1
    &&& (has_exp(s) ==> exp_digits(s).len() >= 1 && all_digits(exp_digits(s)))
}

pub open spec fn tok_exp_val(s: Seq<u8>) -> int {
    if has_exp(s) {
        if exp_neg(s) {
            -digits_val(exp_digits(s))
        } else {
            digits_val(exp_digits(s))
        }
    } else {
        0
    }
}

/// All mantissa digits, read as one integer.
pub open spec fn tok_raw(s: Seq<u8>) -> int {
    digits_val(int_of(s) + frac_of(s))
}

/// The power of ten the raw mantissa must still be shifted by.
pub open spec fn tok_eff(s: Seq<u8>) -> int {
    tok_exp_val(s) - frac_of(s).len()
}

/// Move trailing zero factors of the mantissa into the exponent.
pub open spec fn strip_zeros(m: int, e: int) -> (int, int)
    decreases m when m >= 0
{
    if m > 0 && m % 10 == 0 {
        strip_zeros(m / 10, e + 1)
    } else {
        (m, e)
    }
}

pub open spec fn apply_sign(neg: bool, v: int) -> int {
    if neg {
        -v
    } else {
        v
    }
}

/// What parsing a decimal token yields: the canonical exact decimal, or
/// nothing when the grammar fails or the number cannot be held exactly.
pub open spec fn spec_parse_dec(s: Seq<u8>) -> Option<Dec> {
    if !dec_grammar_ok(s) {
        None
    } else if has_exp(s) && digits_val(exp_digits(s)) > EXP_LIMIT {
        None
    } else {
        let p = strip_zeros(tok_raw(s), tok_eff(s));
        if p.0 == 0 {
            Some(Dec { mant: 0, scale: 0 })
        } else if p.1 >= 0 {
            if p.0 * pow10(p.1 as nat) <= MANT_LIMIT {
                Some(
                    Dec {
                        mant: apply_sign(tok_neg(s), p.0 * pow10(p.1 as nat)) as i128,
                        scale: 0,
                    },
                )
            } else {
                None
            }
        } else {
            if p.0 <= MANT_LIMIT && -p.1 <= SCALE_LIMIT {
                Some(Dec { mant: apply_sign(tok_neg(s), p.0) as i128, scale: (-p.1) as u32 })
            } else {
                None
            }
        }
    }
}

pub proof fn lemma_digits_val_nonneg(s: Seq<u8>)
    requires
        all_digits(s),
    ensures
        digits_val(s) >= 0,
    decreases s.len(),
{
    if s.len() > 0 {
        assert(all_digits(s.drop_last())) by {
            assert(forall|j: int|
                0 <= j < s.len() - 1 ==> s.drop_last()[j] == s[j] && is_digit(#[trigger] s[j]));
        }
        lemma_digits_val_nonneg(s.drop_last());
    }
}

/// Reading more digits never shrinks the number.
pub proof fn lemma_digits_val_mono(s: Seq<u8>, i: int)
    requires
        all_digits(s),
        0 <= i <= s.len(),
    ensures
        digits_val(s.subrange(0, i)) <= digits_val(s),
    decreases s.len() - i,
{
    if i == s.len() {
        assert(s.subrange(0, i) =~= s);
    } else {
        let a = s.subrange(0, i);
        let b = s.subrange(0, i + 1);
        assert(b.drop_last() =~= a);
        assert(all_digits(a)) by {
            assert(forall|j: int| 0 <= j < i ==> a[j] == s[j] && is_digit(#[trigger] s[j]));
        }
        lemma_digits_val_nonneg(a);
        assert(digits_val(b) == digits_val(a) * 10 + digit_val(s[i]));
        lemma_digits_val_mono(s, i + 1);
    }
}

/// Trailing zero digits factor out as a power of ten.
pub proof fn lemma_digits_strip(s: Seq<u8>, sl: int)
    requires
        all_digits(s),
        0 <= sl <= s.len(),
        forall|j: int| sl <= j < s.len() ==> s[j] == 48,
    ensures
        digits_val(s) == digits_val(s.subrange(0, sl)) * pow10((s.len() - sl) as nat),
    decreases s.len() - sl,
{
    if sl == s.len() {
        assert(s.subrange(0, sl) =~= s);
        assert(pow10(0) == 1) by {
            reveal(vstd::arithmetic::power::pow);
        }
    } else {
        let t = s.drop_last();
        assert(all_digits(t)) by {
            assert(forall|j: int|
                0 <= j < s.len() - 1 ==> t[j] == s[j] && is_digit(#[trigger] s[j]));
        }
        lemma_digits_strip(t, sl);
        assert(t.subrange(0, sl) =~= s.subrange(0, sl));
        assert(s.last() == 48);
        assert(digits_val(s) == digits_val(t) * 10);
        let z = s.len() - sl;
        assert(pow10(z as nat) == pow10((z - 1) as nat) * 10) by {
            lemma_pow_adds(10, (z - 1) as nat, 1);
            reveal(vstd::arithmetic::power::pow);
        }
        let v = digits_val(s.subrange(0, sl));
        assert(v * pow10((z - 1) as nat) * 10 == v * (pow10((z - 1) as nat) * 10))
            by (nonlinear_arith);
    }
}

/// A digit string not ending in zero names a number not divisible by ten.
pub proof fn lemma_digits_last_mod(s: Seq<u8>)
    requires
        all_digits(s),
        s.len() > 0,
        s.last() != 48,
    ensures
        digits_val(s) % 10 == digit_val(s.last()),
        digits_val(s) > 0,
{
    let a = digits_val(s.drop_last());
    let d = digit_val(s.last());
    assert(all_digits(s.drop_last())) by {
        assert(forall|j: int|
            0 <= j < s.len() - 1 ==> s.drop_last()[j] == s[j] && is_digit(#[trigger] s[j]));
    }
    lemma_digits_val_nonneg(s.drop_last());
    assert(1 <= d <= 9);
    lemma_mod_multiples_vanish(a, d, 10);
    assert(a * 10 == 10 * a) by (nonlinear_arith);
    assert(a * 10 >= 0) by (nonlinear_arith)
        requires
            a >= 0,
    {}
}

/// `strip_zeros` undoes exactly the trailing-zero factors.
pub proof fn lemma_strip_match(m: int, z: nat, e: int)
    requires
        m > 0,
        m % 10 != 0,
    ensures
        strip_zeros(m * pow10(z), e) == (m, e + z),
    decreases z,
{
    if z == 0 {
        assert(pow10(0) == 1) by {
            reveal(vstd::arithmetic::power::pow);
        }
    } else {
        let w = m * pow10((z - 1) as nat);
        assert(pow10(z) == pow10((z - 1) as nat) * 10) by {
            lemma_pow_adds(10, (z - 1) as nat, 1);
            reveal(vstd::arithmetic::power::pow);
        }
        assert(m * pow10(z) == w * 10) by (nonlinear_arith)
            requires
                pow10(z) == pow10((z - 1) as nat) * 10,
                w == m * pow10((z - 1) as nat),
        {}
        lemma_pow10_pos((z - 1) as nat);
        assert(w > 0) by (nonlinear_arith)
            requires
                m > 0,
                pow10((z - 1) as nat) >= 1,
                w == m * pow10((z - 1) as nat),
        {}
        lemma_mod_multiples_vanish(w, 0, 10);
        assert((w * 10) % 10 == 0) by {
            assert(10 * w + 0 == w * 10) by (nonlinear_arith);
        }
        assert((w * 10) / 10 == w) by (nonlinear_arith)
            requires
                w > 0,
        {}
        lemma_strip_match(m, (z - 1) as nat, e + 1);
    }
}

/// What `strip_zeros` keeps: a nonnegative number with no factor of ten,
/// zero only for zero.
pub proof fn lemma_strip_props(m: int, e: int)
    requires
        m >= 0,
    ensures
        strip_zeros(m, e).0 >= 0,
        strip_zeros(m, e).0 == 0 <==> m == 0,
        strip_zeros(m, e).0 != 0 ==> strip_zeros(m, e).0 % 10 != 0,
        m == 0 ==> strip_zeros(m, e) == (0int, e),
    decreases m,
{
    if m > 0 && m % 10 == 0 {
        assert(0 <= m / 10 < m);
        assert(m / 10 > 0) by {
            if m / 10 == 0 {
                assert(m == (m / 10) * 10 + m % 10);
            }
        }
        lemma_strip_props(m / 10, e + 1);
    }
}

/// What `strip_zeros` keeps, multiplied back by the zeros it moved, is the
/// number it started from.
pub proof fn lemma_strip_decompose(m: int, e: int)
    requires
        m > 0,
    ensures
        strip_zeros(m, e).1 >= e,
        m == strip_zeros(m, e).0 * pow10((strip_zeros(m, e).1 - e) as nat),
    decreases m,
{
    if m % 10 == 0 {
        assert(0 <= m / 10 < m);
        assert(m / 10 > 0) by {
            if m / 10 == 0 {
                assert(m == (m / 10) * 10 + m % 10);
            }
        }
        lemma_strip_decompose(m / 10, e + 1);
        let p = strip_zeros(m, e);
        assert(p == strip_zeros(m / 10, e + 1));
        let z = p.1 - e;
        assert(pow10(z as nat) == pow10((z - 1) as nat) * 10) by {
            lemma_pow_adds(10, (z - 1) as nat, 1);
            reveal(vstd::arithmetic::power::pow);
        }
        assert(m == (m / 10) * 10) by {
            assert(m == (m / 10) * 10 + m % 10);
        }
        assert(m == p.0 * pow10(z as nat)) by (nonlinear_arith)
            requires
                m == (m / 10) * 10,
                m / 10 == p.0 * pow10((z - 1) as nat),
                pow10(z as nat) == pow10((z - 1) as nat) * 10,
        {}
    } else {
        assert(pow10(0) == 1) by {
            reveal(vstd::arithmetic::power::pow);
        }
    }
}

/// A successfully parsed decimal is canonical and within the parser bounds.
pub proof fn lemma_parse_dec_props(s: Seq<u8>)
    ensures
        spec_parse_dec(s) matches Some(d) ==> dec_wf(d) && dec_canonical(d),
{
    if spec_parse_dec(s) is Some {
        let c = int_of(s) + frac_of(s);
        assert(all_digits(c)) by {
            assert(forall|j: int|
                0 <= j < int_of(s).len() ==> c[j] == int_of(s)[j] && is_digit(
                    #[trigger] int_of(s)[j],
                ));
            assert(forall|j: int|
                int_of(s).len() <= j < c.len() ==> c[j] == frac_of(s)[j - int_of(s).len()]);
        }
        lemma_digits_val_nonneg(c);
        let raw = tok_raw(s);
        let e = tok_eff(s);
        lemma_strip_props(raw, e);
        let p = strip_zeros(raw, e);
        if p.0 == 0 {
        } else if p.1 >= 0 {
            lemma_pow10_pos(p.1 as nat);
            assert(p.0 * pow10(p.1 as nat) >= 1) by (nonlinear_arith)
                requires
                    p.0 >= 1,
                    pow10(p.1 as nat) >= 1,
            {}
        } else {
            if tok_neg(s) {
                lemma_neg_mod_ten(p.0);
            }
        }
    }
}

/// A positive number not divisible by ten stays indivisible when negated.
proof fn lemma_neg_mod_ten(a: int)
    requires
        a > 0,
        a % 10 != 0,
    ensures
        (-a) % 10 != 0,
{
    vstd::arithmetic::div_mod::lemma_fundamental_div_mod(a, 10);
    let q = a / 10;
    let r = a % 10;
    assert(1 <= r <= 9);
    assert(-a == 10 * (-q - 1) + (10 - r));
    lemma_mod_multiples_vanish(-q - 1, 10 - r, 10);
    vstd::arithmetic::div_mod::lemma_small_mod((10 - r) as nat, 10);
}

fn find2_to(token: &[u8], from: usize, to: usize, c1: u8, c2: u8) -> (r: usize)
    requires
        from <= to <= token@.len(),
    ensures
        from <= r <= to,
        forall|j: int| from <= j < r ==> token@[j] != c1 && token@[j] != c2,
        r < to ==> (token@[r as int] == c1 || token@[r as int] == c2),
{
    let mut i = from;
    while i < to && !(token[i] == c1 || token[i] == c2)
        invariant
            from <= i <= to <= token@.len(),
            forall|j: int| from <= j < i ==> token@[j] != c1 && token@[j] != c2,
        decreases to - i,
    {
        i = i + 1;
    }
    i
}

fn check_all_digits(token: &[u8], from: usize, to: usize) -> (r: bool)
    requires
        from <= to <= token@.len(),
    ensures
        r == all_digits(token@.subrange(from as int, to as int)),
{
    let ghost dseq = token@.subrange(from as int, to as int);
    let mut i = from;
    while i < to
        invariant
            from <= i <= to <= token@.len(),
            dseq == token@.subrange(from as int, to as int),
            forall|j: int| from <= j < i ==> is_digit(#[trigger] token@[j]),
        decreases to - i,
    {
        let c = token[i];
        if !(48 <= c && c <= 57) {
            proof {
                assert(dseq[i - from] == token@[i as int]);
                assert(!is_digit(dseq[i - from]));
            }
            return false;
        }
        i = i + 1;
    }
    proof {
        assert(forall|j: int| 0 <= j < dseq.len() ==> dseq[j] == token@[j + from]);
    }
    true
}

fn copy_range(token: &[u8], from: usize, to: usize) -> (r: Vec<u8>)
    requires
        from <= to <= token@.len(),
    ensures
        r@ == token@.subrange(from as int, to as int),
{
    let mut r: Vec<u8> = Vec::new();
    let mut i = from;
    proof {
        assert(r@ =~= token@.subrange(from as int, from as int));
    }
    while i < to
        invariant
            from <= i <= to <= token@.len(),
            r@ == token@.subrange(from as int, i as int),
        decreases to - i,
    {
        r.push(token[i]);
        proof {
            assert(token@.subrange(from as int, (i + 1) as int) =~= token@.subrange(
                from as int,
                i as int,
            ).push(token@[i as int]));
        }
        i = i + 1;
    }
    r
}

/// Read the digits in `[from, to)` as a number, refusing one over `limit`.
fn digits_value_capped(s: &[u8], from: usize, to: usize, limit: i128) -> (r: Option<i128>)
    requires
        from <= to <= s@.len(),
        all_digits(s@.subrange(from as int, to as int)),
        0 <= limit <= MANT_LIMIT,
    ensures
        match r {
            Some(v) => v == digits_val(s@.subrange(from as int, to as int)) && 0 <= v <= limit,
            None => digits_val(s@.subrange(from as int, to as int)) > limit,
        },
{
    let ghost dseq = s@.subrange(from as int, to as int);
    let mut acc: i128 = 0;
    let mut i = from;
    while i < to
        invariant
            from <= i <= to <= s@.len(),
            dseq == s@.subrange(from as int, to as int),
            all_digits(dseq),
            0 <= limit <= MANT_LIMIT,
            0 <= acc <= limit,
            acc == digits_val(dseq.subrange(0, i - from)),
        decreases to - i,
    {
        let ghost pre = dseq.subrange(0, i - from);
        let ghost post = dseq.subrange(0, i - from + 1);
        proof {
            assert(dseq[i - from] == s@[i as int]);
            assert(is_digit(dseq[i - from]));
            assert(post.drop_last() =~= pre);
            assert(post.last() == s@[i as int]);
        }
        let c = s[i];
        let d = (c - 48) as i128;
        let acc2 = acc * 10 + d;
        if acc2 > limit {
            proof {
                lemma_digits_val_mono(dseq, i - from + 1);
            }
            return None;
        }
        acc = acc2;
        i = i + 1;
    }
    proof {
        assert(dseq.subrange(0, to - from) =~= dseq);
    }
    Some(acc)
}

/// Parse one decimal token exactly; `None` when the grammar fails or the
/// number does not fit the parser bounds.
#[verifier::rlimit(100)]
pub fn parse_dec(token: &[u8]) -> (r: Option<Dec>)
    ensures
        r == spec_parse_dec(token@),
{
    let ghost s = token@;
    let n = token.len();

    // sign
    let mut start: usize = 0;
    let mut neg = false;
    if n > 0 && (token[0] == 43 || token[0] == 45) {
        neg = token[0] == 45;
        start = 1;
    }
    proof {
        assert(start as int == sgn_len(s));
        assert(neg == tok_neg(s));
        assert(body_of(s) =~= s.subrange(start as int, n as int));
    }

    // exponent marker and decimal point
    let ei = find2_to(token, start, n, 101, 69);
    proof {
        let body = s.subrange(start as int, n as int);
        assert(forall|j: int| 0 <= j < ei - start ==> body[j] == s[j + start]);
        lemma_find_byte2_at(body, 101, 69, ei - start);
        assert(e_idx(s) == ei - start);
        assert(mant_of(s) =~= s.subrange(start as int, ei as int));
    }
    let dp = find2_to(token, start, ei, 46, 46);
    proof {
        let mant = s.subrange(start as int, ei as int);
        assert(forall|j: int| 0 <= j < dp - start ==> mant[j] == s[j + start]);
        assert(dp < ei ==> mant[dp - start] == s[dp as int]);
        lemma_find_byte2_at(mant, 46, 46, dp - start);
        assert(dot_idx(s) == dp - start);
        assert(int_of(s) =~= s.subrange(start as int, dp as int));
        if dp < ei {
            assert(frac_of(s) =~= s.subrange(dp + 1, ei as int));
        } else {
            assert(frac_of(s) =~= Seq::<u8>::empty());
        }
    }

    // mantissa digits
    if !check_all_digits(token, start, dp) {
        return None;
    }
    if dp < ei {
        if !check_all_digits(token, dp + 1, ei) {
            return None;
        }
    }
    let int_len = dp - start;
    let frac_len = if dp < ei {
        ei - dp - 1
    } else {
        0
    };
    proof {
        assert(int_len as int == int_of(s).len());
        assert(frac_len as int == frac_of(s).len());
    }
    if int_len + frac_len == 0 {
        proof {
            assert(!dec_grammar_ok(s));
        }
        return None;
    }

    // exponent value
    let mut eneg = false;
    let mut expv: i128 = 0;
    if ei < n {
        proof {
            assert(exp_of(s) =~= s.subrange(ei + 1, n as int));
        }
        let mut k = ei + 1;
        if k < n && (token[k] == 43 || token[k] == 45) {
            eneg = token[k] == 45;
            k = k + 1;
        }
        proof {
            let etxt = s.subrange(ei + 1, n as int);
            assert((k - ei - 1) as int == sgn_len(etxt));
            assert(eneg == exp_neg(s));
            assert(exp_digits(s) =~= s.subrange(k as int, n as int));
        }
        if k == n {
            proof {
                assert(exp_digits(s).len() == 0);
                assert(!dec_grammar_ok(s));
            }
            return None;
        }
        if !check_all_digits(token, k, n) {
            return None;
        }
        match digits_value_capped(token, k, n, 999) {
            None => {
                proof {
                    assert(dec_grammar_ok(s));
                    assert(digits_val(exp_digits(s)) > EXP_LIMIT);
                }
                return None;
            },
            Some(v) => {
                expv = v;
            },
        }
    }
    proof {
        assert(dec_grammar_ok(s));
        if ei < n {
            assert(has_exp(s));
            assert(tok_exp_val(s) == if eneg {
                -(expv as int)
            } else {
                expv as int
            });
        } else {
            assert(!has_exp(s));
            assert(tok_exp_val(s) == 0 && expv == 0 && !eneg);
        }
        assert(!(has_exp(s) && digits_val(exp_digits(s)) > EXP_LIMIT));
    }
    parse_dec_tail(token, start, dp, ei, neg, eneg, expv, frac_len)
}

/// The semantic half of `parse_dec`: collect the mantissa digits, strip
/// trailing zeros, and assemble the canonical decimal.
#[verifier::rlimit(100)]
fn parse_dec_tail(
    token: &[u8],
    start: usize,
    dp: usize,
    ei: usize,
    neg: bool,
    eneg: bool,
    expv: i128,
    frac_len: usize,
) -> (r: Option<Dec>)
    requires
        start <= dp <= ei <= token@.len(),
        dec_grammar_ok(token@),
        !(has_exp(token@) && digits_val(exp_digits(token@)) > EXP_LIMIT),
        int_of(token@) == token@.subrange(start as int, dp as int),
        frac_of(token@) == if dp < ei {
            token@.subrange(dp + 1, ei as int)
        } else {
            Seq::<u8>::empty()
        },
        neg == tok_neg(token@),
        frac_len as int == frac_of(token@).len(),
        tok_exp_val(token@) == if eneg {
            -(expv as int)
        } else {
            expv as int
        },
        0 <= expv <= 999,
    ensures
        r == spec_parse_dec(token@),
{
    let ghost s = token@;
    // all mantissa digits, point removed
    let mut digs = copy_range(token, start, dp);
    if dp < ei {
        let mut fr = copy_range(token, dp + 1, ei);
        digs.append(&mut fr);
    }
    proof {
        assert(digs@ =~= int_of(s) + frac_of(s));
        assert(all_digits(digs@)) by {
            assert(forall|j: int|
                0 <= j < int_of(s).len() ==> digs@[j] == int_of(s)[j] && is_digit(
                    #[trigger] int_of(s)[j],
                ));
            assert(forall|j: int|
                int_of(s).len() <= j < digs@.len() ==> digs@[j] == frac_of(s)[j - int_of(
                    s,
                ).len()]);
        }
    }

    // strip trailing zeros
    let dn = digs.len();
    let mut sl = dn;
    while sl > 0 && digs[sl - 1] == 48
        invariant
            0 <= sl <= dn,
            dn == digs@.len(),
            forall|q: int| sl <= q < dn ==> digs@[q] == 48,
        decreases sl,
    {
        sl = sl - 1;
    }
    let ghost stripped = digs@.subrange(0, sl as int);
    proof {
        lemma_digits_strip(digs@, sl as int);
        assert(tok_raw(s) == digits_val(stripped) * pow10((dn - sl) as nat));
        assert(all_digits(stripped));
    }
    if sl == 0 {
        proof {
            assert(stripped =~= Seq::<u8>::empty());
            assert(tok_raw(s) == 0) by {
                assert(0 * pow10((dn - sl) as nat) == 0) by (nonlinear_arith);
            }
            lemma_strip_props(0, tok_eff(s));
        }
        return Some(Dec { mant: 0, scale: 0 });
    }
    proof {
        assert(stripped.last() == digs@[sl - 1]);
        lemma_digits_last_mod(stripped);
    }

    // mantissa value
    let m: i128;
    match digits_value_capped(digs.as_slice(), 0, sl, MANT_LIMIT) {
        None => {
            proof {
                assert(digs@.subrange(0, sl as int) == stripped);
                lemma_strip_match(digits_val(stripped), (dn - sl) as nat, tok_eff(s));
                let p = strip_zeros(tok_raw(s), tok_eff(s));
                assert(p.0 == digits_val(stripped) > MANT_LIMIT);
                if p.1 >= 0 {
                    lemma_pow10_pos(p.1 as nat);
                    assert(p.0 * pow10(p.1 as nat) >= p.0) by (nonlinear_arith)
                        requires
                            p.0 > 0,
                            pow10(p.1 as nat) >= 1,
                    {}
                }
            }
            return None;
        },
        Some(v) => {
            m = v;
        },
    }
    proof {
        assert(m == digits_val(stripped));
        assert(m > 0 && m % 10 != 0);
        lemma_strip_match(m as int, (dn - sl) as nat, tok_eff(s));
    }

    // effective power of ten
    let z = dn - sl;
    let eff: i128 = (if eneg {
        -expv
    } else {
        expv
    }) - (frac_len as i128) + (z as i128);
    let ghost p = strip_zeros(tok_raw(s), tok_eff(s));
    proof {
        assert(p == (m as int, tok_eff(s) + z));
        assert(eff as int == tok_eff(s) + z);
    }
    if eff >= 0 {
        if eff > 38 {
            proof {
                lemma_pow_strictly_increases(10, 18, eff as nat);
                assert(pow10(18) == MANT_LIMIT) by {
                    reveal_with_fuel(vstd::arithmetic::power::pow, 19);
                }
                assert(m * pow10(eff as nat) >= pow10(eff as nat)) by (nonlinear_arith)
                    requires
                        m >= 1,
                        pow10(eff as nat) >= 0,
                {}
            }
            return None;
        }
        match scale_up(m, eff as u32) {
            None => {
                proof {
                    lemma_pow10_pos(eff as nat);
                    assert(m * pow10(eff as nat) > i128::MAX) by (nonlinear_arith)
                        requires
                            m > 0,
                            pow10(eff as nat) >= 1,
                            m * pow10(eff as nat) > i128::MAX || m * pow10(eff as nat)
                                < i128::MIN,
                    {}
                }
                return None;
            },
            Some(mm) => {
                if mm > MANT_LIMIT {
                    return None;
                }
                proof {
                    assert(mm as int == p.0 * pow10(p.1 as nat));
                    lemma_pow10_pos(p.1 as nat);
                    assert(mm >= 0) by (nonlinear_arith)
                        requires
                            p.0 > 0,
                            pow10(p.1 as nat) >= 1,
                            mm as int == p.0 * pow10(p.1 as nat),
                    {}
                }
                if neg {
                    Some(Dec { mant: -mm, scale: 0 })
                } else {
                    Some(Dec { mant: mm, scale: 0 })
                }
            },
        }
    } else {
        let sc = -eff;
        if sc > SCALE_LIMIT as i128 {
            return None;
        }
        if neg {
            Some(Dec { mant: -m, scale: sc as u32 })
        } else {
            Some(Dec { mant: m, scale: sc as u32 })
        }
    }
}

/// What parsing a `central(uncertainty)` token yields.  An upper-limit
/// token `<X` is first rewritten: `X` becomes the central value and the
/// uncertainty is zero.  Otherwise the token must be exactly one
/// parenthesized suffix after the central value, and the uncertainty — a
/// one-sigma width — must not be negative.
pub open spec fn spec_parse_value(t: Seq<u8>) -> Option<Value> {
    if t.len() > 0 && t[0] == 60 {
        match spec_parse_dec(spec_trim(remove_lt(t))) {
            Some(d) => Some(Value { value: d, delta: Dec { mant: 0, scale: 0 } }),
            None => None,
        }
    } else {
        let lp = find_byte2(t, 40, 40);
        let rp = find_byte2(t, 41, 41);
        if lp < t.len() && rp == t.len() - 1 && lp < rp && find_byte2(
            t.subrange(lp + 1, t.len() as int),
            40,
            40,
        ) == t.len() - lp - 1 {
            match (spec_parse_dec(t.subrange(0, lp)), spec_parse_dec(
                t.subrange(lp + 1, t.len() - 1),
            )) {
                (Some(v), Some(d)) => if d.mant >= 0 {
                    Some(Value { value: v, delta: d })
                } else {
                    None
                },
                _ => None,
            }
        } else {
            None
        }
    }
}

/// A successfully parsed value is made of canonical, bounded decimals.
pub proof fn lemma_parse_value_props(t: Seq<u8>)
    ensures
        spec_parse_value(t) matches Some(v) ==> value_wf(v),
{
    if t.len() > 0 && t[0] == 60 {
        lemma_parse_dec_props(spec_trim(remove_lt(t)));
    } else {
        let lp = find_byte2(t, 40, 40);
        lemma_parse_dec_props(t.subrange(0, lp));
        lemma_parse_dec_props(t.subrange(lp + 1, t.len() - 1));
    }
}

/// Parse one `central(uncertainty)` or `<limit` token into a `Value`.
pub fn parse_value(token: &[u8]) -> (r: Result<Value, Error>)
    ensures
        match r {
            Ok(v) => spec_parse_value(token@) == Some(v) && value_wf(v),
            Err(e) => spec_parse_value(token@) is None && (e matches Error::Parse {
                token: t,
            } && t@ == token@),
        },
{
    let n = token.len();
    if n > 0 && token[0] == 60 {
        let stripped = strip_limit(token);
        match parse_dec(stripped.as_slice()) {
            Some(d) => {
                proof {
                    lemma_parse_dec_props(stripped@);
                }
                Ok(Value { value: d, delta: Dec { mant: 0, scale: 0 } })
            },
            None => Err(Error::Parse { token: copy_range(token, 0, n) }),
        }
    } else {
        let lp = find2_to(token, 0, n, 40, 40);
        proof {
            lemma_find_byte2_at(token@, 40, 40, lp as int);
        }
        let rp = find2_to(token, 0, n, 41, 41);
        proof {
            lemma_find_byte2_at(token@, 41, 41, rp as int);
        }
        if !(lp < n && n > 0 && rp == n - 1 && lp < rp) {
            return Err(Error::Parse { token: copy_range(token, 0, n) });
        }
        let lp2 = find2_to(token, lp + 1, n, 40, 40);
        proof {
            let sub = token@.subrange(lp + 1, n as int);
            assert(forall|j: int| 0 <= j < lp2 - lp - 1 ==> sub[j] == token@[j + lp + 1]);
            assert(lp2 < n ==> sub[lp2 - lp - 1] == token@[lp2 as int]);
            lemma_find_byte2_at(sub, 40, 40, lp2 - lp - 1);
        }
        if lp2 < n {
            return Err(Error::Parse { token: copy_range(token, 0, n) });
        }
        let central = slice_subrange(token, 0, lp);
        let dtxt = slice_subrange(token, lp + 1, n - 1);
        match parse_dec(central) {
            None => Err(Error::Parse { token: copy_range(token, 0, n) }),
            Some(v) => match parse_dec(dtxt) {
                None => Err(Error::Parse { token: copy_range(token, 0, n) }),
                Some(d) => {
                    if d.mant < 0 {
                        return Err(Error::Parse { token: copy_range(token, 0, n) });
                    }
                    proof {
                        lemma_parse_dec_props(central@);
                        lemma_parse_dec_props(dtxt@);
                    }
                    Ok(Value { value: v, delta: d })
                },
            },
        }
    }
}

/// One experimental row: exactly two value tokens, energy then intensity.
pub open spec fn spec_parse_transition_tokens(row: Seq<Seq<u8>>) -> Option<Transition> {
    if row.len() == 2 {
        match (spec_parse_value(row[0]), spec_parse_value(row[1])) {
            (Some(e), Some(i)) => Some(Transition { energy: e, intensity: i }),
            _ => None,
        }
    } else {
        None
    }
}

/// Build one transition from a row of rewritten tokens.  A wrong column
/// count is a malformed record; a bad token is a parse failure.
pub fn transition_from_tokens(row: &Vec<Vec<u8>>) -> (r: Result<Transition, Error>)
    ensures
        match r {
            Ok(t) => spec_parse_transition_tokens(views2(row@)) == Some(t) && transition_wf(t),
            Err(e) => spec_parse_transition_tokens(views2(row@)) is None && (e is MalformedRecord
                <==> row@.len() != 2) && (e is Parse <==> row@.len() == 2),
        },
{
    if row.len() != 2 {
        return Err(Error::MalformedRecord { line: join_bytes(row, 32) });
    }
    proof {
        assert(views2(row@)[0] == row@[0]@);
        assert(views2(row@)[1] == row@[1]@);
    }
    let energy = match parse_value(row[0].as_slice()) {
        Ok(v) => v,
        Err(e) => {
            return Err(e);
        },
    };
    let intensity = match parse_value(row[1].as_slice()) {
        Ok(v) => v,
        Err(e) => {
            return Err(e);
        },
    };
    Ok(Transition { energy, intensity })
}

/// One theoretical row: exactly three plain decimal tokens, energy then the
/// two model intensities.
pub open spec fn spec_parse_theoretical_tokens(row: Seq<Seq<u8>>) -> Option<Theoretical> {
    if row.len() == 3 {
        match (spec_parse_dec(row[0]), spec_parse_dec(row[1]), spec_parse_dec(row[2])) {
            (Some(e), Some(em), Some(ta)) => Some(
                Theoretical { energy: e, empire: em, talys: ta },
            ),
            _ => None,
        }
    } else {
        None
    }
}

/// Build one theoretical point from a row of tokens.
pub fn theoretical_from_tokens(row: &Vec<Vec<u8>>) -> (r: Result<Theoretical, Error>)
    ensures
        match r {
            Ok(t) => spec_parse_theoretical_tokens(views2(row@)) == Some(t) && theoretical_wf(t),
            Err(e) => spec_parse_theoretical_tokens(views2(row@)) is None && (e
                is MalformedRecord <==> row@.len() != 3) && (e is Parse <==> row@.len() == 3),
        },
{
    if row.len() != 3 {
        return Err(Error::MalformedRecord { line: join_bytes(row, 32) });
    }
    proof {
        assert(views2(row@)[0] == row@[0]@);
        assert(views2(row@)[1] == row@[1]@);
        assert(views2(row@)[2] == row@[2]@);
    }
    let t0 = row[0].as_slice();
    let energy = match parse_dec(t0) {
        Some(d) => d,
        None => {
            return Err(Error::Parse { token: copy_range(t0, 0, t0.len()) });
        },
    };
    let t1 = row[1].as_slice();
    let empire = match parse_dec(t1) {
        Some(d) => d,
        None => {
            return Err(Error::Parse { token: copy_range(t1, 0, t1.len()) });
        },
    };
    let t2 = row[2].as_slice();
    let talys = match parse_dec(t2) {
        Some(d) => d,
        None => {
            return Err(Error::Parse { token: copy_range(t2, 0, t2.len()) });
        },
    };
    proof {
        lemma_parse_dec_props(row@[0]@);
        lemma_parse_dec_props(row@[1]@);
        lemma_parse_dec_props(row@[2]@);
    }
    Ok(Theoretical { energy, empire, talys })
}

/// Every experimental row built in order; the first bad row stops it all.
pub open spec fn spec_transitions(rows: Seq<Seq<Seq<u8>>>) -> Option<Seq<Transition>>
    decreases rows.len(),
{
    if rows.len() == 0 {
        Some(Seq::empty())
    } else {
        match spec_transitions(rows.drop_last()) {
            Some(ts) => match spec_parse_transition_tokens(rows.last()) {
                Some(t) => Some(ts.push(t)),
                None => None,
            },
            None => None,
        }
    }
}

pub proof fn lemma_transitions_none(rows: Seq<Seq<Seq<u8>>>, i: int)
    requires
        0 <= i < rows.len(),
        spec_parse_transition_tokens(rows[i]) is None,
    ensures
        spec_transitions(rows) is None,
    decreases rows.len(),
{
    if i < rows.len() - 1 {
        lemma_transitions_none(rows.drop_last(), i);
    }
}

/// Build the experimental sequence, keeping line order.
pub fn transitions(rows: &Vec<Vec<Vec<u8>>>) -> (r: Result<Vec<Transition>, Error>)
    ensures
        match r {
            Ok(ts) => spec_transitions(views3(rows@)) == Some(ts@) && forall|j: int|
                0 <= j < ts@.len() ==> transition_wf(#[trigger] ts@[j]),
            Err(e) => spec_transitions(views3(rows@)) is None && (e is Parse || e
                is MalformedRecord) && exists|i: int|
                0 <= i < rows@.len() && #[trigger] spec_parse_transition_tokens(
                    views3(rows@)[i],
                ) is None && (forall|j: int|
                    0 <= j < i ==> spec_parse_transition_tokens(views3(rows@)[j]) is Some) && (e
                    is MalformedRecord <==> views3(rows@)[i].len() != 2),
        },
{
    let n = rows.len();
    let mut out: Vec<Transition> = Vec::new();
    let mut i: usize = 0;
    proof {
        assert(views3(rows@).subrange(0, 0) =~= Seq::<Seq<Seq<u8>>>::empty());
        assert(out@ =~= Seq::<Transition>::empty());
    }
    while i < n
        invariant
            0 <= i <= n,
            n == rows@.len(),
            spec_transitions(views3(rows@).subrange(0, i as int)) == Some(out@),
            forall|j: int|
                0 <= j < i ==> #[trigger] spec_parse_transition_tokens(
                    views3(rows@)[j],
                ) is Some,
            forall|j: int| 0 <= j < out@.len() ==> transition_wf(#[trigger] out@[j]),
        decreases n - i,
    {
        let ghost pre = views3(rows@).subrange(0, i as int);
        let ghost post = views3(rows@).subrange(0, (i + 1) as int);
        proof {
            assert(post.drop_last() =~= pre);
            assert(post.last() == views2(rows@[i as int]@));
        }
        match transition_from_tokens(&rows[i]) {
            Ok(t) => {
                out.push(t);
            },
            Err(e) => {
                proof {
                    lemma_transitions_none(views3(rows@), i as int);
                }
                return Err(e);
            },
        }
        i = i + 1;
    }
    proof {
        assert(views3(rows@).subrange(0, n as int) =~= views3(rows@));
    }
    Ok(out)
}

/// What one cleaned theoretical line yields: its whitespace tokens, read as
/// one theoretical point.
pub open spec fn spec_theoretical_line(l: Seq<u8>) -> Option<Theoretical> {
    spec_parse_theoretical_tokens(spec_split_ws(l))
}

/// Every theoretical line built in order; the first bad line stops it all.
pub open spec fn spec_theoreticals(ls: Seq<Seq<u8>>) -> Option<Seq<Theoretical>>
    decreases ls.len(),
{
    if ls.len() == 0 {
        Some(Seq::empty())
    } else {
        match spec_theoreticals(ls.drop_last()) {
            Some(ts) => match spec_theoretical_line(ls.last()) {
                Some(t) => Some(ts.push(t)),
                None => None,
            },
            None => None,
        }
    }
}

pub proof fn lemma_theoreticals_none(ls: Seq<Seq<u8>>, i: int)
    requires
        0 <= i < ls.len(),
        spec_theoretical_line(ls[i]) is None,
    ensures
        spec_theoreticals(ls) is None,
    decreases ls.len(),
{
    if i < ls.len() - 1 {
        lemma_theoreticals_none(ls.drop_last(), i);
    }
}

/// Build the theoretical sequence from the cleaned lines, keeping order.
pub fn theoretical(lines: &Vec<Vec<u8>>) -> (r: Result<Vec<Theoretical>, Error>)
    ensures
        match r {
            Ok(ts) => spec_theoreticals(views2(lines@)) == Some(ts@) && forall|j: int|
                0 <= j < ts@.len() ==> theoretical_wf(#[trigger] ts@[j]),
            Err(e) => spec_theoreticals(views2(lines@)) is None && (e is Parse || e
                is MalformedRecord) && exists|i: int|
                0 <= i < lines@.len() && #[trigger] spec_theoretical_line(
                    views2(lines@)[i],
                ) is None && (e is MalformedRecord <==> spec_split_ws(views2(lines@)[i]).len()
                    != 3),
        },
{
    let n = lines.len();
    let mut out: Vec<Theoretical> = Vec::new();
    let mut i: usize = 0;
    proof {
        assert(views2(lines@).subrange(0, 0) =~= Seq::<Seq<u8>>::empty());
        assert(out@ =~= Seq::<Theoretical>::empty());
    }
    while i < n
        invariant
            0 <= i <= n,
            n == lines@.len(),
            spec_theoreticals(views2(lines@).subrange(0, i as int)) == Some(out@),
            forall|j: int| 0 <= j < out@.len() ==> theoretical_wf(#[trigger] out@[j]),
        decreases n - i,
    {
        let ghost pre = views2(lines@).subrange(0, i as int);
        let ghost post = views2(lines@).subrange(0, (i + 1) as int);
        proof {
            assert(post.drop_last() =~= pre);
            assert(post.last() == lines@[i as int]@);
        }
        let tokens = split_whitespace(lines[i].as_slice());
        match theoretical_from_tokens(&tokens) {
            Ok(t) => {
                out.push(t);
            },
            Err(e) => {
                proof {
                    lemma_theoreticals_none(views2(lines@), i as int);
                }
                return Err(e);
            },
        }
        i = i + 1;
    }
    proof {
        assert(views2(lines@).subrange(0, n as int) =~= views2(lines@));
    }
    Ok(out)
}

} // verus!
