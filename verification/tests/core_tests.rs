use talys_empire::dec::Dec;
use talys_empire::fmt::fractional_digits;
use talys_empire::parse::transition_from_tokens;
use talys_empire::records::{Transition, Value};
use talys_empire::text::{join_bytes, split_whitespace};

#[test]
fn whitespace_split() {
    let tokens = split_whitespace(b"  a b   c     d   ");
    let line = join_bytes(&tokens, b' ');
    assert_eq!(b"a b c d".to_vec(), line);
}

#[test]
fn parse_value() {
    let value: Value = talys_empire::parse::parse_value(b"170.857(15.15)").unwrap();
    assert_eq!(
        Value {
            value: Dec { mant: 170857, scale: 3 },
            delta: Dec { mant: 1515, scale: 2 },
        },
        value
    );
}

#[test]
fn parse_zero_value() {
    let zero = Value {
        value: Dec { mant: 0, scale: 0 },
        delta: Dec { mant: 0, scale: 0 },
    };
    let value = talys_empire::parse::parse_value(b"0.0(0.0)").unwrap();
    assert_eq!(zero, value);

    let value = talys_empire::parse::parse_value(b"0(0)").unwrap();
    assert_eq!(zero, value);
}

#[test]
fn format_values() {
    assert_eq!(talys_empire::text::format_values(b"<0.03"), b"0.03(0)".to_vec());
    assert_eq!(talys_empire::text::format_values(b"< 10"), b"10(0)".to_vec());
    assert_eq!(talys_empire::text::format_values(b"<"), b"(0)".to_vec());
}

#[test]
fn format_lines() {
    let lines: Vec<Vec<u8>> = vec![b"150.0(5) <0.10".to_vec(), b"150.0(5)  <  0.10".to_vec()];
    let lines = talys_empire::text::format_lines(&lines);
    let expect: Vec<Vec<u8>> = vec![b"150.0(5)".to_vec(), b"0.10(0)".to_vec()];
    assert_eq!(lines, vec![expect.clone(), expect.clone()]);
}

#[test]
fn glue_bracket() {
    assert_eq!(b"<0.10".to_vec(), talys_empire::text::glue_bracket(b"<   0.10"));
}

#[test]
fn collect_transition() {
    let tokens = split_whitespace(b"170.857(15)    0.045(9)");
    let transition = transition_from_tokens(&tokens).unwrap();

    assert_eq!(
        Transition {
            energy: Value {
                value: Dec { mant: 170857, scale: 3 },
                delta: Dec { mant: 15, scale: 0 },
            },
            intensity: Value {
                value: Dec { mant: 45, scale: 3 },
                delta: Dec { mant: 9, scale: 0 },
            },
        },
        transition
    );
}

#[test]
fn regex_use() {
    let cap = talys_empire::parse::parse_value(b"170.857(15)").unwrap();
    let value = cap.value;
    let delta = cap.delta;
    assert_eq!(Dec { mant: 170857, scale: 3 }, value);
    assert_eq!(Dec { mant: 15, scale: 0 }, delta);
}

#[test]
fn vec_remove() {
    let mut v = vec!["a", "b"];
    let a = v.remove(0);
    let b = v.remove(0);
    assert_eq!(a, "a");
    assert_eq!(b, "b");
}

#[test]
fn precision() {
    assert_eq!(12.0.to_string(), "12");
    assert_eq!(fractional_digits(12.0.to_string().as_bytes()), 1);
    assert_eq!(fractional_digits(12.0.to_string().as_bytes()), 1);
    assert_eq!(fractional_digits(12.1.to_string().as_bytes()), 1);
    assert_eq!(fractional_digits(12.01.to_string().as_bytes()), 2);
    assert_eq!(fractional_digits(12.000_001.to_string().as_bytes()), 6);
    assert_eq!(fractional_digits(0.000_001.to_string().as_bytes()), 6);
    assert_eq!(fractional_digits(0.000_000.to_string().as_bytes()), 1);
    assert_eq!(fractional_digits(1.01e2.to_string().as_bytes()), 1);
    assert_eq!(fractional_digits(1.0001e2.to_string().as_bytes()), 2);
}

#[test]
fn copy_from() {
    let mut src = vec![1, 2, 3, 4];
    let out = &mut src[..];
    let to_copy = 3;
    out[..to_copy].copy_from_slice(&vec![4, 5, 6, 7][..to_copy]);
    assert_eq!(out, vec![4, 5, 6, 4]);
}
