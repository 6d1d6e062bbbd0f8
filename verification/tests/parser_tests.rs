use namu::parser::parse_ternary;
use namu::stdlib::k;
use namu::tree::Trees;

#[test]
fn test_ternary_leaf() {
    let mut trees = Trees::new();
    let l = trees.leaf();
    assert_eq!(parse_ternary(&mut trees, "0").unwrap(), l);
}

#[test]
fn test_ternary_stem() {
    let mut trees = Trees::new();
    let k_val = k(&mut trees);
    assert_eq!(parse_ternary(&mut trees, "10").unwrap(), k_val);
}

#[test]
fn test_ternary_fork() {
    let mut trees = Trees::new();
    let l = trees.leaf();
    let expected = trees.fork(l, l);
    assert_eq!(parse_ternary(&mut trees, "200").unwrap(), expected);
}

#[test]
fn test_ternary_nested() {
    let mut trees = Trees::new();
    let k_val = k(&mut trees);
    let l = trees.leaf();
    let expected = trees.fork(k_val, l);
    assert_eq!(parse_ternary(&mut trees, "2100").unwrap(), expected);
}

#[test]
fn test_ternary_trailing_error() {
    let mut trees = Trees::new();
    assert!(parse_ternary(&mut trees, "00").is_err());
}

#[test]
fn test_ternary_empty_error() {
    let mut trees = Trees::new();
    assert!(parse_ternary(&mut trees, "").is_err());
}

#[test]
fn ternary_error_messages() {
    let mut trees = Trees::new();
    assert_eq!(parse_ternary(&mut trees, "00").unwrap_err(), "trailing input: 1 bytes remaining");
    assert_eq!(parse_ternary(&mut trees, "1012").unwrap_err(), "trailing input: 2 bytes remaining");
    assert_eq!(parse_ternary(&mut trees, "0000000000000").unwrap_err(), "trailing input: 12 bytes remaining");
    assert_eq!(parse_ternary(&mut trees, "").unwrap_err(), "unexpected end of ternary input");
    assert_eq!(parse_ternary(&mut trees, "21").unwrap_err(), "unexpected end of ternary input");
    assert_eq!(parse_ternary(&mut trees, "2x0").unwrap_err(), "unexpected byte in ternary: 'x'");
    assert_eq!(parse_ternary(&mut trees, "3").unwrap_err(), "unexpected byte in ternary: '3'");
    // A multi-byte character is reported by its first byte, read as Latin-1.
    assert_eq!(parse_ternary(&mut trees, "é").unwrap_err(), "unexpected byte in ternary: 'Ã'");
}

#[test]
fn ternary_parses_interned_trees() {
    let mut trees = Trees::new();
    let a = parse_ternary(&mut trees, "21210100").unwrap();
    let size_before = trees.arena_size();
    let b = parse_ternary(&mut trees, "21210100").unwrap();
    assert_eq!(a, b);
    assert_eq!(trees.arena_size(), size_before);
    assert_eq!(trees.display(a), "(t (t (t (t t) (t t))) t)");
    assert_eq!(trees.size(a), 8);
}
