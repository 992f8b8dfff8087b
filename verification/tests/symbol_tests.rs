use r1cs_acir::symbols::{parse_symbol_line, SymbolError};

fn parse(l: &str) -> Result<(u64, Vec<u8>, Vec<u64>), SymbolError> {
    let bytes = l.as_bytes().to_vec();
    parse_symbol_line(&bytes).map(|e| (e.witness, e.name, e.indices))
}

#[test]
fn plain_scalar_line() {
    let (witness, name, indices) = parse("0,0,0,main.y").unwrap();
    assert_eq!(witness, 0);
    assert_eq!(name, b"y".to_vec());
    assert!(indices.is_empty());
}

#[test]
fn witness_field_is_the_second_number() {
    let (witness, name, indices) = parse("12,34,7,main.foo.bar[3][4]").unwrap();
    assert_eq!(witness, 34);
    assert_eq!(name, b"bar".to_vec());
    assert_eq!(indices, vec![3, 4]);
}

#[test]
fn empty_component_prefix_is_accepted() {
    // The path grammar allows an empty prefix before the final dot.
    let (witness, name, _) = parse("0,1,0,.y").unwrap();
    assert_eq!(witness, 1);
    assert_eq!(name, b"y".to_vec());
}

#[test]
fn trailing_dot_in_prefix_is_accepted() {
    // "main." is a valid prefix block, so two dots may precede the leaf.
    let (_, name, _) = parse("0,1,0,main..y").unwrap();
    assert_eq!(name, b"y".to_vec());
}

#[test]
fn malformed_lines_are_rejected() {
    assert!(matches!(parse("x,1,0,main.y"), Err(SymbolError::Malformed)));
    assert!(matches!(parse("1,1,0,mainy"), Err(SymbolError::Malformed)));
    assert!(matches!(parse("1,1,0,main...y"), Err(SymbolError::Malformed)));
    assert!(matches!(parse("1,1,main.y"), Err(SymbolError::Malformed)));
    assert!(matches!(parse("1,1,0,main.y["), Err(SymbolError::Malformed)));
    assert!(matches!(parse("1,1,0,main.y[]"), Err(SymbolError::Malformed)));
    assert!(matches!(parse("1,1,0,main.y[1]z"), Err(SymbolError::Malformed)));
    assert!(matches!(parse("1,1,0,main."), Err(SymbolError::Malformed)));
    assert!(matches!(parse(""), Err(SymbolError::Malformed)));
    assert!(matches!(parse("1,1,0,"), Err(SymbolError::Malformed)));
}

#[test]
fn oversized_numbers_are_rejected() {
    // A witness field beyond the machine word fails the line.
    assert!(matches!(
        parse("1,99999999999999999999,0,main.y"),
        Err(SymbolError::Malformed)
    ));
    // An array index must leave room for the length it implies.
    assert!(matches!(
        parse("1,1,0,main.y[18446744073709551615]"),
        Err(SymbolError::IndexTooLarge)
    ));
    // The largest acceptable index parses.
    let (_, _, indices) = parse("1,1,0,main.y[18446744073709551614]").unwrap();
    assert_eq!(indices, vec![u64::MAX - 1]);
}

#[test]
fn shape_errors_dominate_value_errors() {
    // A later malformed group makes the whole line malformed, even though
    // an earlier group's value is oversized.
    assert!(matches!(
        parse("1,1,0,main.y[18446744073709551615][x]"),
        Err(SymbolError::Malformed)
    ));
}
