//! Formatting of parsed records: each field printed with the fractional
//! precision its own value expresses (at least one digit), right-aligned in
//! an eight-column field, as the processed table is written.

use vstd::prelude::*;
use crate::dec::{Dec, dec_wf, dec_canonical, pow10, scale_up, lemma_pow10_pos, MANT_LIMIT,
    SCALE_LIMIT};
use crate::records::{Value, Transition, value_wf, transition_wf};
use vstd::arithmetic::power::{lemma_pow_increases, lemma_pow_adds};
use vstd::arithmetic::div_mod::{lemma_fundamental_div_mod, lemma_mod_multiples_vanish};
use crate::parse::{spec_parse_dec, digits_val, digit_val, all_digits, is_digit,
    lemma_find_byte2_at, strip_zeros, lemma_strip_match, lemma_strip_props, lemma_strip_decompose,
    dec_grammar_ok, sgn_len, tok_neg, body_of, e_idx, has_exp, mant_of, dot_idx, int_of, frac_of,
    tok_exp_val, tok_raw, tok_eff, apply_sign};

verus! {

/// The decimal digits of `n`, most significant first.
pub open spec fn spec_digits(n: nat) -> Seq<u8>
    decreases n,
{
    if n < 10 {
        seq![(48 + n) as u8]
    } else {
        spec_digits(n / 10).push((48 + n % 10) as u8)
    }
}

/// Exactly `k` digits of the fraction `f`, zero-padded on the left.
pub open spec fn spec_frac_digits(f: nat, k: nat) -> Seq<u8>
    decreases k,
{
    if k == 0 {
        Seq::empty()
    } else {
        spec_frac_digits(f / 10, (k - 1) as nat).push((48 + f % 10) as u8)
    }
}

pub open spec fn dec_abs(d: Dec) -> nat {
    if d.mant < 0 {
        (-d.mant) as nat
    } else {
        d.mant as nat
    }
}

/// A decimal rendered with the precision its own value expresses: its
/// `scale` fractional digits, or a single zero when it is an integer.
pub open spec fn spec_dec_text(d: Dec) -> Seq<u8> {
    let sign: Seq<u8> = if d.mant < 0 {
        seq![45u8]
    } else {
        Seq::empty()
    };
    if d.scale == 0 {
        sign + spec_digits(dec_abs(d)) + seq![46u8, 48u8]
    } else {
        sign + spec_digits(dec_abs(d) / (pow10(d.scale as nat) as nat)) + seq![46u8]
            + spec_frac_digits(dec_abs(d) % (pow10(d.scale as nat) as nat), d.scale as nat)
    }
}

pub open spec fn spec_spaces(k: nat) -> Seq<u8>
    decreases k,
{
    if k == 0 {
        Seq::empty()
    } else {
        spec_spaces((k - 1) as nat).push(32u8)
    }
}

/// Right-aligned in a field of eight columns.
pub open spec fn spec_pad8(s: Seq<u8>) -> Seq<u8> {
    if s.len() >= 8 {
        s
    } else {
        spec_spaces((8 - s.len()) as nat) + s
    }
}

/// A value's two fields, each padded, separated by one space.
pub open spec fn spec_fmt_value(v: Value) -> Seq<u8> {
    spec_pad8(spec_dec_text(v.value)) + seq![32u8] + spec_pad8(spec_dec_text(v.delta))
}

/// A transition line: energy then intensity.
pub open spec fn spec_fmt_transition(t: Transition) -> Seq<u8> {
    spec_fmt_value(t.energy) + seq![32u8] + spec_fmt_value(t.intensity)
}

/// The processed table: one line per transition, newline-ended.
pub open spec fn spec_processed(ts: Seq<Transition>) -> Seq<u8>
    decreases ts.len(),
{
    if ts.len() == 0 {
        Seq::empty()
    } else {
        spec_processed(ts.drop_last()) + spec_fmt_transition(ts.last()) + seq![10u8]
    }
}

fn fmt_u128(n: u128, out: &mut Vec<u8>)
    ensures
        final(out)@ == old(out)@ + spec_digits(n as nat),
    decreases n,
{
    if n < 10 {
        out.push(48 + n as u8);
        proof {
            assert(out@ =~= old(out)@ + spec_digits(n as nat));
        }
    } else {
        fmt_u128(n / 10, out);
        out.push(48 + (n % 10) as u8);
        proof {
            assert(out@ =~= old(out)@ + spec_digits(n as nat));
        }
    }
}

fn fmt_frac(f: u128, k: u32, out: &mut Vec<u8>)
    ensures
        final(out)@ == old(out)@ + spec_frac_digits(f as nat, k as nat),
    decreases k,
{
    if k > 0 {
        fmt_frac(f / 10, k - 1, out);
        out.push(48 + (f % 10) as u8);
        proof {
            assert(out@ =~= old(out)@ + spec_frac_digits(f as nat, k as nat));
        }
    } else {
        proof {
            assert(out@ =~= old(out)@ + spec_frac_digits(f as nat, 0));
        }
    }
}

/// Ten to the `k`, for the scales a parsed decimal can carry.
fn pow10_i128(k: u32) -> (r: i128)
    requires
        k <= SCALE_LIMIT,
    ensures
        r as int == pow10(k as nat),
        r >= 1,
{
    proof {
        assert(pow10(25) == 10_000_000_000_000_000_000_000_000) by {
            reveal_with_fuel(vstd::arithmetic::power::pow, 26);
        }
        lemma_pow_increases(10, k as nat, 25);
        lemma_pow10_pos(k as nat);
    }
    match scale_up(1, k) {
        Some(v) => v,
        None => {
            proof {
                assert(1 * pow10(k as nat) == pow10(k as nat));
                assert(false);
            }
            1
        },
    }
}

/// Render one decimal with its own precision, unpadded.
pub fn fmt_dec(d: &Dec) -> (r: Vec<u8>)
    requires
        dec_wf(*d),
    ensures
        r@ == spec_dec_text(*d),
{
    let mut out: Vec<u8> = Vec::new();
    let a: i128 = if d.mant < 0 {
        out.push(45);
        -d.mant
    } else {
        d.mant
    };
    let au = a as u128;
    proof {
        assert(au as nat == dec_abs(*d));
    }
    if d.scale == 0 {
        fmt_u128(au, &mut out);
        out.push(46);
        out.push(48);
        proof {
            assert(out@ =~= spec_dec_text(*d));
        }
    } else {
        let p = pow10_i128(d.scale);
        let pu = p as u128;
        fmt_u128(au / pu, &mut out);
        out.push(46);
        fmt_frac(au % pu, d.scale, &mut out);
        proof {
            assert((au / pu) as nat == dec_abs(*d) / (pow10(d.scale as nat) as nat));
            assert((au % pu) as nat == dec_abs(*d) % (pow10(d.scale as nat) as nat));
            assert(out@ =~= spec_dec_text(*d));
        }
    }
    out
}

/// Right-align a rendered field in eight columns.
pub fn pad8(v: Vec<u8>) -> (r: Vec<u8>)
    ensures
        r@ == spec_pad8(v@),
{
    if v.len() >= 8 {
        return v;
    }
    let k = 8 - v.len();
    let mut out: Vec<u8> = Vec::new();
    let mut i: usize = 0;
    while i < k
        invariant
            0 <= i <= k,
            out@ == spec_spaces(i as nat),
        decreases k - i,
    {
        out.push(32);
        i = i + 1;
    }
    let n = v.len();
    let mut j: usize = 0;
    let ghost base = out@;
    while j < n
        invariant
            0 <= j <= n,
            n == v@.len(),
            out@ == base + v@.subrange(0, j as int),
        decreases n - j,
    {
        out.push(v[j]);
        proof {
            assert(v@.subrange(0, (j + 1) as int) =~= v@.subrange(0, j as int).push(
                v@[j as int],
            ));
            assert(out@ =~= base + v@.subrange(0, (j + 1) as int));
        }
        j = j + 1;
    }
    proof {
        assert(v@.subrange(0, n as int) =~= v@);
    }
    out
}

/// Render a value as its two padded fields.
pub fn fmt_value(v: &Value) -> (r: Vec<u8>)
    requires
        value_wf(*v),
    ensures
        r@ == spec_fmt_value(*v),
{
    let mut out = pad8(fmt_dec(&v.value));
    out.push(32);
    let ghost mid = out@;
    let tail = pad8(fmt_dec(&v.delta));
    let n = tail.len();
    let mut j: usize = 0;
    while j < n
        invariant
            0 <= j <= n,
            n == tail@.len(),
            out@ == mid + tail@.subrange(0, j as int),
        decreases n - j,
    {
        out.push(tail[j]);
        proof {
            assert(tail@.subrange(0, (j + 1) as int) =~= tail@.subrange(0, j as int).push(
                tail@[j as int],
            ));
            assert(out@ =~= mid + tail@.subrange(0, (j + 1) as int));
        }
        j = j + 1;
    }
    proof {
        assert(tail@.subrange(0, n as int) =~= tail@);
        assert(out@ =~= spec_fmt_value(*v));
    }
    out
}

fn append_bytes(out: &mut Vec<u8>, tail: &Vec<u8>)
    ensures
        final(out)@ == old(out)@ + tail@,
{
    let n = tail.len();
    let mut j: usize = 0;
    while j < n
        invariant
            0 <= j <= n,
            n == tail@.len(),
            out@ == old(out)@ + tail@.subrange(0, j as int),
        decreases n - j,
    {
        out.push(tail[j]);
        proof {
            assert(tail@.subrange(0, (j + 1) as int) =~= tail@.subrange(0, j as int).push(
                tail@[j as int],
            ));
            assert(out@ =~= old(out)@ + tail@.subrange(0, (j + 1) as int));
        }
        j = j + 1;
    }
    proof {
        assert(tail@.subrange(0, n as int) =~= tail@);
    }
}

/// Render one transition line, unterminated.
pub fn fmt_transition(t: &Transition) -> (r: Vec<u8>)
    requires
        transition_wf(*t),
    ensures
        r@ == spec_fmt_transition(*t),
{
    let mut out = fmt_value(&t.energy);
    out.push(32);
    let tail = fmt_value(&t.intensity);
    append_bytes(&mut out, &tail);
    proof {
        assert(out@ =~= spec_fmt_transition(*t));
    }
    out
}

/// Render the processed table: one line per transition, newline-ended.
pub fn write_processed(ts: &Vec<Transition>) -> (r: Vec<u8>)
    requires
        forall|j: int| 0 <= j < ts@.len() ==> transition_wf(#[trigger] ts@[j]),
    ensures
        r@ == spec_processed(ts@),
{
    let n = ts.len();
    let mut out: Vec<u8> = Vec::new();
    let mut i: usize = 0;
    proof {
        assert(ts@.subrange(0, 0) =~= Seq::<Transition>::empty());
        assert(out@ =~= spec_processed(ts@.subrange(0, 0)));
    }
    while i < n
        invariant
            0 <= i <= n,
            n == ts@.len(),
            forall|j: int| 0 <= j < n ==> transition_wf(#[trigger] ts@[j]),
            out@ == spec_processed(ts@.subrange(0, i as int)),
        decreases n - i,
    {
        let ghost pre = ts@.subrange(0, i as int);
        let ghost post = ts@.subrange(0, (i + 1) as int);
        proof {
            assert(post.drop_last() =~= pre);
            assert(post.last() == ts@[i as int]);
        }
        let line = fmt_transition(&ts[i]);
        append_bytes(&mut out, &line);
        out.push(10);
        proof {
            assert(out@ =~= spec_processed(post));
        }
        i = i + 1;
    }
    proof {
        assert(ts@.subrange(0, n as int) =~= ts@);
    }
    out
}

/// How many fractional digits a number's text expresses: the digits after
/// the first point, or one when there is no point.
pub open spec fn spec_shown_precision(s: Seq<u8>) -> int {
    let i = crate::parse::find_byte2(s, 46, 46);
    if i < s.len() {
        s.len() - i - 1
    } else {
        1
    }
}

/// Count the fractional digits a rendered number expresses.
pub fn fractional_digits(s: &[u8]) -> (r: usize)
    ensures
        r as int == spec_shown_precision(s@),
{
    let n = s.len();
    let mut i: usize = 0;
    while i < n && s[i] != 46
        invariant
            0 <= i <= n,
            n == s@.len(),
            forall|j: int| 0 <= j < i ==> s@[j] != 46,
        decreases n - i,
    {
        i = i + 1;
    }
    proof {
        crate::parse::lemma_find_byte2_at(s@, 46, 46, i as int);
    }
    if i < n {
        n - i - 1
    } else {
        1
    }
}

// The round trip: a canonical decimal, rendered with its own precision,
// parses back to exactly itself.

proof fn lemma_digits_inverse(n: nat)
    ensures
        all_digits(spec_digits(n)),
        digits_val(spec_digits(n)) == n,
        spec_digits(n).len() >= 1,
    decreases n,
{
    if n < 10 {
        let s = spec_digits(n);
        assert(s == seq![(48 + n) as u8]);
        assert(s.drop_last() =~= Seq::<u8>::empty());
        assert(digits_val(Seq::<u8>::empty()) == 0);
        assert(digits_val(s) == digits_val(s.drop_last()) * 10 + digit_val(s.last()));
        assert(digit_val((48 + n) as u8) == n);
    } else {
        lemma_digits_inverse(n / 10);
        let s = spec_digits(n);
        let t = spec_digits(n / 10);
        assert(s.drop_last() =~= t);
        assert(s.last() == (48 + n % 10) as u8);
        assert(digits_val(s) == digits_val(t) * 10 + digit_val(s.last()));
        assert((n / 10) * 10 + n % 10 == n) by {
            lemma_fundamental_div_mod(n as int, 10);
        }
        assert(all_digits(s)) by {
            assert(forall|j: int|
                0 <= j < t.len() ==> s[j] == t[j] && is_digit(#[trigger] t[j]));
        }
    }
}

proof fn lemma_frac_inverse(f: nat, k: nat)
    requires
        f < pow10(k),
    ensures
        all_digits(spec_frac_digits(f, k)),
        digits_val(spec_frac_digits(f, k)) == f,
        spec_frac_digits(f, k).len() == k,
    decreases k,
{
    if k == 0 {
        assert(pow10(0) == 1) by {
            reveal(vstd::arithmetic::power::pow);
        }
    } else {
        assert(pow10(k) == pow10((k - 1) as nat) * 10) by {
            lemma_pow_adds(10, (k - 1) as nat, 1);
            reveal(vstd::arithmetic::power::pow);
        }
        assert(10 * (f / 10) <= f) by {
            lemma_fundamental_div_mod(f as int, 10);
        }
        assert(f / 10 < pow10((k - 1) as nat)) by (nonlinear_arith)
            requires
                10 * (f / 10) <= f,
                f < pow10((k - 1) as nat) * 10,
        {}
        lemma_frac_inverse(f / 10, (k - 1) as nat);
        let s = spec_frac_digits(f, k);
        let t = spec_frac_digits(f / 10, (k - 1) as nat);
        assert(s.drop_last() =~= t);
        assert(s.last() == (48 + f % 10) as u8);
        assert(digits_val(s) == digits_val(t) * 10 + digit_val(s.last()));
        assert((f / 10) * 10 + f % 10 == f) by {
            lemma_fundamental_div_mod(f as int, 10);
        }
        assert(all_digits(s)) by {
            assert(forall|j: int|
                0 <= j < t.len() ==> s[j] == t[j] && is_digit(#[trigger] t[j]));
        }
    }
}

proof fn lemma_digits_concat(a: Seq<u8>, b: Seq<u8>)
    ensures
        digits_val(a + b) == digits_val(a) * pow10(b.len()) + digits_val(b),
    decreases b.len(),
{
    if b.len() == 0 {
        assert(a + b =~= a);
        assert(pow10(0) == 1) by {
            reveal(vstd::arithmetic::power::pow);
        }
        assert(digits_val(a) * 1 == digits_val(a)) by (nonlinear_arith);
    } else {
        let b0 = b.drop_last();
        lemma_digits_concat(a, b0);
        assert((a + b).drop_last() =~= a + b0);
        assert((a + b).last() == b.last());
        assert(digits_val(a + b) == digits_val(a + b0) * 10 + digit_val(b.last()));
        assert(pow10(b.len()) == pow10(b0.len()) * 10) by {
            lemma_pow_adds(10, b0.len(), 1);
            reveal(vstd::arithmetic::power::pow);
        }
        assert((digits_val(a) * pow10(b0.len()) + digits_val(b0)) * 10 == digits_val(a) * (
        pow10(b0.len()) * 10) + digits_val(b0) * 10) by (nonlinear_arith);
    }
}

/// How a plain rendered number decomposes under the token grammar.
proof fn lemma_parse_plain_decomposition(neg: bool, istr: Seq<u8>, fstr: Seq<u8>)
    requires
        all_digits(istr),
        all_digits(fstr),
        istr.len() >= 1,
        fstr.len() >= 1,
    ensures
        ({
            let sign: Seq<u8> = if neg {
                seq![45u8]
            } else {
                Seq::empty()
            };
            let s = sign + istr + seq![46u8] + fstr;
            &&& tok_neg(s) == neg
            &&& !has_exp(s)
            &&& int_of(s) == istr
            &&& frac_of(s) == fstr
            &&& dec_grammar_ok(s)
            &&& tok_raw(s) == digits_val(istr) * pow10(fstr.len()) + digits_val(fstr)
            &&& tok_eff(s) == -(fstr.len() as int)
        }),
{
    let sign: Seq<u8> = if neg {
        seq![45u8]
    } else {
        Seq::empty()
    };
    let s = sign + istr + seq![46u8] + fstr;
    if neg {
        assert(s[0] == 45);
        assert(sgn_len(s) == 1);
        assert(tok_neg(s));
    } else {
        assert(s[0] == istr[0]);
        assert(is_digit(istr[0]));
        assert(sgn_len(s) == 0);
        assert(!tok_neg(s));
    }
    let body = istr + seq![46u8] + fstr;
    assert(body_of(s) =~= body);
    assert(forall|j: int| 0 <= j < istr.len() ==> body[j] == istr[j] && is_digit(#[trigger] istr[j]));
    assert(body[istr.len() as int] == 46);
    assert(forall|j: int|
        istr.len() + 1 <= j < body.len() ==> body[j] == fstr[j - istr.len() - 1] && is_digit(
            #[trigger] fstr[j - istr.len() - 1],
        ));
    assert(forall|j: int| 0 <= j < body.len() ==> body[j] != 101 && body[j] != 69) by {
        assert(forall|j: int|
            0 <= j < body.len() && j != istr.len() ==> is_digit(#[trigger] body[j]));
    }
    lemma_find_byte2_at(body, 101, 69, body.len() as int);
    assert(e_idx(s) == body.len());
    assert(!has_exp(s));
    assert(mant_of(s) =~= body);
    assert(forall|j: int| 0 <= j < istr.len() ==> body[j] != 46);
    lemma_find_byte2_at(body, 46, 46, istr.len() as int);
    assert(dot_idx(s) == istr.len());
    assert(int_of(s) =~= istr);
    assert(frac_of(s) =~= fstr);
    assert(dec_grammar_ok(s));
    lemma_digits_concat(istr, fstr);
    assert(tok_raw(s) == digits_val(istr) * pow10(fstr.len()) + digits_val(fstr));
    assert(tok_exp_val(s) == 0);
    assert(tok_eff(s) == -(fstr.len() as int));
}

/// The rendered text of a decimal shows exactly the precision its scale
/// expresses: its `scale` digits after the point, one at least.
pub proof fn lemma_shown_precision(d: Dec)
    ensures
        spec_shown_precision(spec_dec_text(d)) == if d.scale == 0 {
            1int
        } else {
            d.scale as int
        },
{
    let s = spec_dec_text(d);
    let sign: Seq<u8> = if d.mant < 0 {
        seq![45u8]
    } else {
        Seq::empty()
    };
    if d.scale == 0 {
        let istr = spec_digits(dec_abs(d));
        lemma_digits_inverse(dec_abs(d));
        assert(s == sign + istr + seq![46u8, 48u8]);
        let dot = sign.len() + istr.len();
        assert(forall|j: int|
            0 <= j < istr.len() ==> s[sign.len() + j] == istr[j] && is_digit(#[trigger] istr[j]));
        assert(forall|j: int| 0 <= j < dot ==> s[j] != 46);
        assert(s[dot as int] == 46);
        lemma_find_byte2_at(s, 46, 46, dot as int);
        assert(s.len() - dot - 1 == 1);
    } else {
        let pn = pow10(d.scale as nat);
        lemma_pow10_pos(d.scale as nat);
        let istr = spec_digits(dec_abs(d) / (pn as nat));
        let fr = dec_abs(d) % (pn as nat);
        lemma_digits_inverse(dec_abs(d) / (pn as nat));
        lemma_frac_inverse(fr, d.scale as nat);
        let fstr = spec_frac_digits(fr, d.scale as nat);
        assert(s == sign + istr + seq![46u8] + fstr);
        let dot = sign.len() + istr.len();
        assert(forall|j: int|
            0 <= j < istr.len() ==> s[sign.len() + j] == istr[j] && is_digit(#[trigger] istr[j]));
        assert(forall|j: int| 0 <= j < dot ==> s[j] != 46);
        assert(s[dot as int] == 46);
        lemma_find_byte2_at(s, 46, 46, dot as int);
        assert(s.len() - dot - 1 == d.scale);
    }
}

/// A canonical decimal, rendered with the precision its value expresses,
/// parses back to exactly itself: the text round-trips value and precision.
pub proof fn lemma_format_parse_round_trip(d: Dec)
    requires
        dec_wf(d),
        dec_canonical(d),
    ensures
        spec_parse_dec(spec_dec_text(d)) == Some(d),
{
    let neg = d.mant < 0;
    let a = dec_abs(d);
    let s = spec_dec_text(d);
    let sign: Seq<u8> = if neg {
        seq![45u8]
    } else {
        Seq::empty()
    };
    if d.scale == 0 {
        let istr = spec_digits(a);
        let fstr: Seq<u8> = seq![48u8];
        lemma_digits_inverse(a);
        assert(all_digits(fstr)) by {
            assert(is_digit(fstr[0]));
        }
        lemma_parse_plain_decomposition(neg, istr, fstr);
        assert(s =~= sign + istr + seq![46u8] + fstr);
        assert(digits_val(fstr) == 0) by {
            assert(fstr.drop_last() =~= Seq::<u8>::empty());
            assert(digits_val(Seq::<u8>::empty()) == 0);
            assert(digits_val(fstr) == digits_val(fstr.drop_last()) * 10 + digit_val(
                fstr.last(),
            ));
        }
        assert(pow10(1) == 10) by {
            reveal_with_fuel(vstd::arithmetic::power::pow, 2);
        }
        assert(tok_raw(s) == a * 10);
        assert(tok_eff(s) == -1);
        if a == 0 {
            assert(tok_raw(s) == 0) by (nonlinear_arith)
                requires
                    tok_raw(s) == 0 * 10,
            {}
            assert(strip_zeros(0, -1) == (0int, -1int));
            assert(spec_parse_dec(s) == Some(Dec { mant: 0, scale: 0 }));
            assert(d.mant == 0);
        } else {
            let q = strip_zeros(a as int, 0);
            lemma_strip_props(a as int, 0);
            lemma_strip_decompose(a as int, 0);
            assert(a == q.0 * pow10((q.1 - 0) as nat));
            assert(pow10((q.1 + 1) as nat) == pow10(q.1 as nat) * 10) by {
                lemma_pow_adds(10, q.1 as nat, 1);
                reveal(vstd::arithmetic::power::pow);
            }
            assert(tok_raw(s) == q.0 * pow10((q.1 + 1) as nat)) by (nonlinear_arith)
                requires
                    tok_raw(s) == a * 10,
                    a == q.0 * pow10(q.1 as nat),
                    pow10((q.1 + 1) as nat) == pow10(q.1 as nat) * 10,
            {}
            lemma_strip_match(q.0, (q.1 + 1) as nat, -1);
            let p = strip_zeros(tok_raw(s), tok_eff(s));
            assert(p == (q.0, q.1));
            assert(p.0 * pow10(p.1 as nat) == a);
            assert(a <= MANT_LIMIT);
            assert(apply_sign(tok_neg(s), a as int) == d.mant);
            assert(spec_parse_dec(s) == Some(d));
        }
    } else {
        let pn = pow10(d.scale as nat);
        lemma_pow10_pos(d.scale as nat);
        let hi = a / (pn as nat);
        let fr = a % (pn as nat);
        let istr = spec_digits(hi);
        let fstr = spec_frac_digits(fr, d.scale as nat);
        lemma_digits_inverse(hi);
        lemma_frac_inverse(fr, d.scale as nat);
        lemma_parse_plain_decomposition(neg, istr, fstr);
        assert(s =~= sign + istr + seq![46u8] + fstr);
        assert(hi * pn + fr == a) by {
            lemma_fundamental_div_mod(a as int, pn);
        }
        assert(tok_raw(s) == a);
        assert(tok_eff(s) == -(d.scale as int));
        // the canonical mantissa keeps its last digit away from zero
        assert(d.mant % 10 != 0 && d.mant != 0);
        assert(a > 0);
        assert(a as int % 10 != 0) by {
            if a as int % 10 == 0 {
                lemma_fundamental_div_mod(a as int, 10);
                assert(a as int == 10 * (a as int / 10));
                if neg {
                    assert(d.mant == 10 * (-(a as int / 10)) + 0);
                    lemma_mod_multiples_vanish(-(a as int / 10), 0, 10);
                } else {
                    assert(d.mant == 10 * (a as int / 10) + 0);
                    lemma_mod_multiples_vanish(a as int / 10, 0, 10);
                }
            }
        }
        let p = strip_zeros(tok_raw(s), tok_eff(s));
        assert(p == (a as int, -(d.scale as int)));
        assert(a <= MANT_LIMIT);
        assert(d.scale <= SCALE_LIMIT);
        assert(apply_sign(tok_neg(s), a as int) == d.mant);
        assert(spec_parse_dec(s) == Some(d));
    }
}

} // verus!
