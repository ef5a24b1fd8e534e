//! The orchestrator: from the two raw table texts to the cleaned table,
//! the parsed records, the normalization constants and the two rescaled
//! series.  Any failure at any stage aborts the whole run; nothing partial
//! is handed out.

use vstd::prelude::*;
use crate::error::Error;
use crate::records::{Transition, Theoretical};
use crate::norm::{Rat, NormTransition, rat_wf, pairs_len, spec_common_scale, sums_fit, dot_tal,
    dot_emp, dot_bot, spec_norm_seq, norm_constants, norm_exp};
use crate::parse::{spec_transitions, spec_theoreticals, spec_parse_transition_tokens,
    lemma_transitions_none, transitions, theoretical};
use crate::text::{spec_trim_contents, spec_format_lines, spec_flatten, trim_contents,
    format_lines, flatten_preprocessed};
use crate::thermal::{spec_thermal, spec_low_energy, thermal, low_energy};
use crate::fmt::{spec_processed, write_processed};

verus! {

/// Everything one successful run of the pipeline produces.
#[derive(Debug)]
pub struct Outputs {
    /// The cleaned experimental table, tab-joined tokens, one line each.
    pub preprocessed: Vec<u8>,
    /// The parsed experimental table, rendered field by field.
    pub processed: Vec<u8>,
    /// The experimental records, in input order.
    pub transitions: Vec<Transition>,
    /// The thermal reference series restricted to the low-energy window.
    pub low_thermal: Vec<Theoretical>,
    /// The TALYS normalization constant, an exact ratio.
    pub c_talys: Rat,
    /// The EMPIRE normalization constant, an exact ratio.
    pub c_empire: Rat,
    /// The experimental series rescaled by the TALYS constant.
    pub norm_talys: Vec<NormTransition>,
    /// The experimental series rescaled by the EMPIRE constant.
    pub norm_empire: Vec<NormTransition>,
}

/// The TALYS constant a successful run derives.
pub open spec fn spec_c_talys(ts: Seq<Transition>, lo: Seq<Theoretical>) -> Rat {
    let n = pairs_len(ts, lo);
    let sc = spec_common_scale(ts, lo, n);
    Rat { num: dot_tal(ts, lo, sc, n) as i128, den: dot_bot(ts, sc, n) as i128 }
}

/// The EMPIRE constant a successful run derives.
pub open spec fn spec_c_empire(ts: Seq<Transition>, lo: Seq<Theoretical>) -> Rat {
    let n = pairs_len(ts, lo);
    let sc = spec_common_scale(ts, lo, n);
    Rat { num: dot_emp(ts, lo, sc, n) as i128, den: dot_bot(ts, sc, n) as i128 }
}

/// When the whole pipeline succeeds: both tables parse, the pairing is
/// non-empty with a nonzero denominator, and every exact sum and product
/// stays within 128 bits.
pub open spec fn spec_pipeline_ok(exp: Seq<u8>, theo: Seq<u8>) -> bool {
    match spec_transitions(spec_format_lines(spec_trim_contents(exp))) {
        None => false,
        Some(ts) => match spec_theoreticals(spec_trim_contents(theo)) {
            None => false,
            Some(th) => {
                let lo = spec_low_energy(spec_thermal(th));
                let n = pairs_len(ts, lo);
                let sc = spec_common_scale(ts, lo, n);
                &&& sums_fit(ts, lo, sc, n)
                &&& n > 0
                &&& dot_bot(ts, sc, n) != 0
                &&& spec_norm_seq(ts, spec_c_talys(ts, lo)) is Some
                &&& spec_norm_seq(ts, spec_c_empire(ts, lo)) is Some
            },
        },
    }
}

/// What each field of a successful run's outputs is.
pub open spec fn spec_outputs_ok(exp: Seq<u8>, theo: Seq<u8>, o: Outputs) -> bool {
    let rows = spec_format_lines(spec_trim_contents(exp));
    &&& spec_transitions(rows) == Some(o.transitions@)
    &&& o.preprocessed@ == spec_flatten(rows)
    &&& o.processed@ == spec_processed(o.transitions@)
    &&& (spec_theoreticals(spec_trim_contents(theo)) matches Some(th) && o.low_thermal@
        == spec_low_energy(spec_thermal(th)))
    &&& o.c_talys == spec_c_talys(o.transitions@, o.low_thermal@)
    &&& o.c_empire == spec_c_empire(o.transitions@, o.low_thermal@)
    &&& rat_wf(o.c_talys) && rat_wf(o.c_empire)
    &&& spec_norm_seq(o.transitions@, o.c_talys) == Some(o.norm_talys@)
    &&& spec_norm_seq(o.transitions@, o.c_empire) == Some(o.norm_empire@)
    &&& o.norm_talys@.len() == o.transitions@.len()
    &&& o.norm_empire@.len() == o.transitions@.len()
}

/// A line with the wrong column count anywhere in the experimental table
/// makes the run fail, so nothing at all is produced; `convert_texts`'s
/// contract adds that when such a line is the first failing one, the
/// failure is the malformed record.
pub proof fn lemma_wrong_columns_abort(exp: Seq<u8>, theo: Seq<u8>, i: int)
    requires
        0 <= i < spec_format_lines(spec_trim_contents(exp)).len(),
        spec_format_lines(spec_trim_contents(exp))[i].len() != 2,
    ensures
        !spec_pipeline_ok(exp, theo),
{
    lemma_transitions_none(spec_format_lines(spec_trim_contents(exp)), i);
}

/// Run the whole pipeline on the two raw texts.  Nothing is produced
/// unless every stage succeeds.
pub fn convert_texts(exp_text: &[u8], theo_text: &[u8]) -> (r: Result<Outputs, Error>)
    ensures
        r is Ok <==> spec_pipeline_ok(exp_text@, theo_text@),
        r matches Ok(o) ==> spec_outputs_ok(exp_text@, theo_text@, o),
        r matches Err(e) ==> ({
            let rows = spec_format_lines(spec_trim_contents(exp_text@));
            let tso = spec_transitions(rows);
            let tho = spec_theoreticals(spec_trim_contents(theo_text@));
            &&& (tso is None || tho is None ==> e is Parse || e is MalformedRecord)
            &&& (tso is None ==> exists|i: int|
                0 <= i < rows.len() && #[trigger] spec_parse_transition_tokens(rows[i])
                    is None && (forall|j: int|
                    0 <= j < i ==> spec_parse_transition_tokens(rows[j]) is Some) && (e
                    is MalformedRecord <==> rows[i].len() != 2))
            &&& (tso is Some && tho is Some ==> e is Normalization || e is Capacity)
            &&& (e is Normalization ==> (tso matches Some(ts) && (tho matches Some(th) && ({
                let lo = spec_low_energy(spec_thermal(th));
                let n = pairs_len(ts, lo);
                let sc = spec_common_scale(ts, lo, n);
                n == 0 || dot_bot(ts, sc, n) == 0
            }))))
        }),
{
    let trimmed = trim_contents(exp_text);
    let rows = format_lines(&trimmed);
    let preprocessed = flatten_preprocessed(&rows);
    let ts = match transitions(&rows) {
        Ok(v) => v,
        Err(e) => {
            return Err(e);
        },
    };
    let processed = write_processed(&ts);
    let theo_lines = trim_contents(theo_text);
    let th = match theoretical(&theo_lines) {
        Ok(v) => v,
        Err(e) => {
            return Err(e);
        },
    };
    let therm = thermal(&th);
    let lo = low_energy(therm);
    let (c_talys, c_empire) = match norm_constants(&ts, &lo) {
        Ok(p) => p,
        Err(e) => {
            return Err(e);
        },
    };
    proof {
        assert(c_talys == spec_c_talys(ts@, lo@));
        assert(c_empire == spec_c_empire(ts@, lo@));
    }
    let (norm_talys, norm_empire) = match norm_exp(&ts, &c_talys, &c_empire) {
        Ok(p) => p,
        Err(e) => {
            return Err(e);
        },
    };
    Ok(
        Outputs {
            preprocessed,
            processed,
            transitions: ts,
            low_thermal: lo,
            c_talys,
            c_empire,
            norm_talys,
            norm_empire,
        },
    )
}

} // verus!
