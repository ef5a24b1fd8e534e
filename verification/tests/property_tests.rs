use talys_empire::dec::Dec;
use talys_empire::error::Error;
use talys_empire::fmt::{fmt_value, write_processed};
use talys_empire::norm::{norm_constants, norm_exp, norm_transition, Rat};
use talys_empire::pipeline::convert_texts;
use talys_empire::records::{Theoretical, Transition, Value};
use talys_empire::text::split_whitespace;

fn dec(mant: i128, scale: u32) -> Dec {
    Dec { mant, scale }
}

fn val(m: i128, s: u32, dm: i128, ds: u32) -> Value {
    Value { value: dec(m, s), delta: dec(dm, ds) }
}

fn tr(em: i128, es: u32, edm: i128, eds: u32, im: i128, is_: u32, idm: i128, ids: u32) -> Transition {
    Transition { energy: val(em, es, edm, eds), intensity: val(im, is_, idm, ids) }
}

/// The two experimental records of the end-to-end scenario:
/// `170.857(15) 0.045(9)` and `200.0(5) <0.50`.
fn scenario_transitions() -> Vec<Transition> {
    vec![
        tr(170857, 3, 15, 0, 45, 3, 9, 0),
        tr(200, 0, 5, 0, 5, 1, 0, 0),
    ]
}

/// A low-energy reference whose TALYS intensities are `[1.0, 2.0]`.
fn scenario_reference() -> Vec<Theoretical> {
    vec![
        Theoretical { energy: dec(1, 6), empire: dec(3, 0), talys: dec(1, 0) },
        Theoretical { energy: dec(2, 6), empire: dec(4, 0), talys: dec(2, 0) },
    ]
}

#[test]
fn upper_limit_tokens() {
    let zero = dec(0, 0);
    let v = talys_empire::parse::parse_value(b"<0.03").unwrap();
    assert_eq!(v, Value { value: dec(3, 2), delta: zero });

    let v = talys_empire::parse::parse_value(b"< 10").unwrap();
    assert_eq!(v, Value { value: dec(10, 0), delta: zero });

    let glued = talys_empire::text::glue_bracket(b"<   0.10");
    assert_eq!(glued, b"<0.10".to_vec());
    let v = talys_empire::parse::parse_value(&glued).unwrap();
    assert_eq!(v, Value { value: dec(1, 1), delta: zero });
}

#[test]
fn whitespace_collapsing() {
    let a = split_whitespace(b"  a b   c     d   ");
    let b = split_whitespace(b"a b c d");
    assert_eq!(a, b);
}

#[test]
fn parse_format_precision() {
    let v = talys_empire::parse::parse_value(b"170.857(15.15)").unwrap();
    let shown = fmt_value(&v);
    assert_eq!(shown, b" 170.857    15.15".to_vec());

    let v = talys_empire::parse::parse_value(b"150.0(5)").unwrap();
    let shown = fmt_value(&v);
    assert_eq!(shown, b"   150.0      5.0".to_vec());
}

#[test]
fn processed_table_bytes() {
    let ts = vec![tr(170857, 3, 15, 0, 45, 3, 9, 0)];
    let text = write_processed(&ts);
    assert_eq!(text, b" 170.857     15.0    0.045      9.0\n".to_vec());
}

#[test]
fn end_to_end_constant() {
    let ts = scenario_transitions();
    let lo = scenario_reference();
    let (ctal, cemp) = norm_constants(&ts, &lo).unwrap();

    // at common scale 6: 45*1*10^3 + 5*2*10^5 over 45^2 + 5^2*10^4
    assert_eq!(ctal, Rat { num: 1_045_000, den: 252_025 });
    assert_eq!(cemp, Rat { num: 2_135_000, den: 252_025 });

    let expected = (0.045 * 1.0 + 0.50 * 2.0) / (0.045 * 0.045 + 0.50 * 0.50);
    let got = ctal.num as f64 / ctal.den as f64;
    assert!((got - expected).abs() < 1e-12);

    // every transition of the full sequence is rescaled by that constant
    let (ntal, nemp) = norm_exp(&ts, &ctal, &cemp).unwrap();
    assert_eq!(ntal.len(), 2);
    assert_eq!(nemp.len(), 2);
    assert_eq!(ntal[0].energy, ts[0].energy);
    assert_eq!(
        ntal[0].intensity.value,
        Rat { num: 45 * 1_045_000, den: 252_025 * 1000 }
    );
    assert_eq!(
        ntal[1].intensity.value,
        Rat { num: 5 * 1_045_000, den: 252_025 * 10 }
    );
}

#[test]
fn orthogonality_residual() {
    let ts = scenario_transitions();
    let lo = scenario_reference();
    let (ctal, cemp) = norm_constants(&ts, &lo).unwrap();

    let c = ctal.num as f64 / ctal.den as f64;
    let resid = (1.0 - c * 0.045) * 0.045 + (2.0 - c * 0.50) * 0.50;
    assert!(resid.abs() < 1e-9);

    let ce = cemp.num as f64 / cemp.den as f64;
    let resid = (3.0 - ce * 0.045) * 0.045 + (4.0 - ce * 0.50) * 0.50;
    assert!(resid.abs() < 1e-9);
}

#[test]
fn scaling_is_exact() {
    let t = tr(170857, 3, 15, 0, 45, 3, 9, 0);
    let c = Rat { num: 3, den: 2 };
    let nt = norm_transition(&t, &c).unwrap();
    assert_eq!(nt.energy, t.energy);
    assert_eq!(nt.intensity.value, Rat { num: 45 * 3, den: 2 * 1000 });
    assert_eq!(nt.intensity.delta, Rat { num: 9 * 3, den: 2 });
}

#[test]
fn pipeline_success() {
    let exp = b"# capture gamma table\n\n170.857(15) 0.045(9)\n200.0(5)  <  0.50\n";
    let theo = b"# model spectra\n1.0E-6 2.0 3.0\n2.0E-6 4.0 5.0\n";
    let out = convert_texts(exp, theo).unwrap();

    assert_eq!(
        out.preprocessed,
        b"170.857(15)\t0.045(9)\n200.0(5)\t0.50(0)\n".to_vec()
    );
    assert_eq!(out.transitions.len(), 2);
    assert_eq!(out.low_thermal.len(), 2);
    assert_eq!(out.norm_talys.len(), 2);
    assert_eq!(out.norm_empire.len(), 2);
    assert!(out.c_talys.den > 0);
    assert!(out.c_empire.den > 0);
    // the thermal rescale is exact: 2.0 * 6.2869461
    assert_eq!(out.low_thermal[0].empire, dec(125_738_922, 7));
}

#[test]
fn malformed_record_aborts() {
    let exp = b"170.857(15) 0.045(9) 1.0(2)\n";
    let theo = b"1.0E-6 2.0 3.0\n";
    let err = convert_texts(exp, theo).unwrap_err();
    assert!(matches!(err, Error::MalformedRecord { .. }));
}

#[test]
fn parse_error_aborts() {
    let exp = b"abc(15) 0.045(9)\n";
    let theo = b"1.0E-6 2.0 3.0\n";
    let err = convert_texts(exp, theo).unwrap_err();
    assert!(matches!(err, Error::Parse { .. }));
}

#[test]
fn empty_pairing_is_normalization_error() {
    let ts = scenario_transitions();
    let empty: Vec<Theoretical> = vec![];
    let err = norm_constants(&ts, &empty).unwrap_err();
    assert!(matches!(err, Error::Normalization));

    // through the pipeline: every theoretical energy sits above the window
    let exp = b"170.857(15) 0.045(9)\n";
    let theo = b"0.5 1.0 2.0\n1.0 3.0 4.0\n";
    let err = convert_texts(exp, theo).unwrap_err();
    assert!(matches!(err, Error::Normalization));
}

#[test]
fn zero_denominator_is_normalization_error() {
    let ts = vec![tr(1, 0, 0, 0, 0, 0, 0, 0)];
    let lo = scenario_reference();
    let err = norm_constants(&ts, &lo).unwrap_err();
    assert!(matches!(err, Error::Normalization));
}

#[test]
fn capacity_error_on_huge_sums() {
    let ts = vec![tr(1, 0, 0, 0, 1_000_000_000_000_000_000, 0, 0, 0)];
    let lo = vec![Theoretical {
        energy: dec(1, 6),
        empire: dec(1, 0),
        talys: dec(10_000_000_000_000_000_000_000_000, 0),
    }];
    let err = norm_constants(&ts, &lo).unwrap_err();
    assert!(matches!(err, Error::Capacity));
}

#[test]
fn empty_input_yields_no_lines() {
    let lines = talys_empire::text::trim_contents(b"");
    assert_eq!(lines.len(), 0);

    let lines = talys_empire::text::trim_contents(b"\n\n# only a comment\n   \n");
    assert_eq!(lines.len(), 0);
}

#[test]
fn low_energy_cutoff_is_strict() {
    let below = Theoretical { energy: dec(3249999, 7), empire: dec(1, 0), talys: dec(1, 0) };
    let at = Theoretical { energy: dec(325, 3), empire: dec(1, 0), talys: dec(1, 0) };
    let kept = talys_empire::thermal::low_energy(vec![below, at]);
    assert_eq!(kept.len(), 1);
    assert_eq!(kept[0].energy, dec(3249999, 7));
}

#[test]
fn exponent_tokens() {
    let d = talys_empire::parse::parse_dec(b"2.76401e-09").unwrap();
    assert_eq!(d, dec(276401, 14));

    let d = talys_empire::parse::parse_dec(b"1e3").unwrap();
    assert_eq!(d, dec(1000, 0));

    let d = talys_empire::parse::parse_dec(b"+12.50E+1").unwrap();
    assert_eq!(d, dec(125, 0));

    assert!(talys_empire::parse::parse_dec(b"1e").is_none());
    assert!(talys_empire::parse::parse_dec(b"e3").is_none());
    assert!(talys_empire::parse::parse_dec(b".").is_none());
    assert!(talys_empire::parse::parse_dec(b"1.2.3").is_none());
}

#[test]
fn negative_values() {
    let v = talys_empire::parse::parse_value(b"-1.5(0.2)").unwrap();
    assert_eq!(v, Value { value: dec(-15, 1), delta: dec(2, 1) });
    let shown = fmt_value(&v);
    assert_eq!(shown, b"    -1.5      0.2".to_vec());
}

#[test]
fn negative_uncertainty_is_rejected() {
    let err = talys_empire::parse::parse_value(b"1(-1)").unwrap_err();
    assert!(matches!(err, Error::Parse { .. }));

    let err = talys_empire::parse::parse_value(b"1.0(-0.5)").unwrap_err();
    assert!(matches!(err, Error::Parse { .. }));

    // a negative central value with a non-negative uncertainty stays fine
    let v = talys_empire::parse::parse_value(b"-1(1)").unwrap();
    assert_eq!(v, Value { value: dec(-1, 0), delta: dec(1, 0) });

    // through the pipeline: the bad column poisons the whole run
    let exp = b"170.857(15) 0.045(-9)\n";
    let theo = b"1.0E-6 2.0 3.0\n";
    let err = convert_texts(exp, theo).unwrap_err();
    assert!(matches!(err, Error::Parse { .. }));
}
