use cctag::bank::{parse_bank_values, BankError, BankValue};

fn ratio(v: &BankValue) -> Option<(u32, u32)> {
    match v {
        BankValue::Ratio(a, b) => Some((*a, *b)),
        BankValue::Decimal(_) => None,
    }
}

fn decimal(v: &BankValue) -> Option<String> {
    match v {
        BankValue::Ratio(_, _) => None,
        BankValue::Decimal(s) => Some(s.clone()),
    }
}

fn parse_error(text: &str) -> (usize, String) {
    match parse_bank_values(text) {
        Err(BankError::Parse { line, token }) => (line, token),
        other => panic!("expected a parse error, got {:?}", other),
    }
}

#[test]
fn bank_lines_become_markers() {
    let v = parse_bank_values("1/2 3/4\n0.5\t1e-3\r\n").unwrap();
    assert_eq!(v.len(), 2);
    assert_eq!(v[0].len(), 2);
    assert_eq!(ratio(&v[0][0]), Some((1, 2)));
    assert_eq!(ratio(&v[0][1]), Some((3, 4)));
    assert_eq!(decimal(&v[1][0]), Some("0.5".to_string()));
    assert_eq!(decimal(&v[1][1]), Some("1e-3".to_string()));
}

#[test]
fn bank_blank_lines_are_skipped() {
    let v = parse_bank_values("\n  \n1\n\n").unwrap();
    assert_eq!(v.len(), 1);
    assert_eq!(decimal(&v[0][0]), Some("1".to_string()));
    assert!(parse_bank_values("").unwrap().is_empty());
}

#[test]
fn bank_unicode_space_separates() {
    let v = parse_bank_values("1\u{3000}2\u{a0}3").unwrap();
    assert_eq!(v.len(), 1);
    assert_eq!(v[0].len(), 3);
}

#[test]
fn bank_number_forms() {
    let v = parse_bank_values("+5/7 inf NaN -Infinity .5 5. 2E+3").unwrap();
    assert_eq!(ratio(&v[0][0]), Some((5, 7)));
    assert_eq!(v[0].len(), 7);
    for t in ["1e", ".", "e5", "1.2.3", "--1", "infin"] {
        assert_eq!(parse_error(t), (1, t.to_string()));
    }
}

#[test]
fn bank_first_bad_token_is_reported() {
    assert_eq!(parse_error("1/2\nabc 1/x"), (2, "abc".to_string()));
    assert_eq!(parse_error("1/2\n\n2/3 1/x abc"), (3, "1/x".to_string()));
    assert_eq!(parse_error("4294967296/1"), (1, "4294967296/1".to_string()));
    assert_eq!(parse_error("1/2/3"), (1, "1/2/3".to_string()));
    assert_eq!(parse_error("-1/2"), (1, "-1/2".to_string()));
    let v = parse_bank_values("4294967295/1").unwrap();
    assert_eq!(ratio(&v[0][0]), Some((4294967295, 1)));
}
