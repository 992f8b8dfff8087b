use r1cs_acir::abi::{
    abi_from_symbols, collapse_ranges, AbiError, AbiType, AbiVisibility,
};
use r1cs_acir::circuit::Header;

fn header(n_pub_out: u32, n_pub_in: u32, n_prv_in: u32, n_wires: u32) -> Header {
    Header { n_wires, n_pub_out, n_pub_in, n_prv_in }
}

fn lines(ls: &[&str]) -> Vec<Vec<u8>> {
    ls.iter().map(|l| l.as_bytes().to_vec()).collect()
}

#[test]
fn collapse_scenarios() {
    assert_eq!(collapse_ranges(&vec![5, 6, 7, 10, 11]), vec![(5, 8), (10, 12)]);
    assert_eq!(collapse_ranges(&Vec::new()), Vec::<(u32, u32)>::new());
    assert_eq!(collapse_ranges(&vec![9]), vec![(9, 10)]);
}

#[test]
fn three_records() {
    // One return signal, one public input, one private input.
    let h = header(1, 1, 1, 4);
    let ls = lines(&["0,0,0,main.y", "1,1,0,main.x", "2,2,0,main.secret"]);
    let abi = abi_from_symbols(&h, &ls).unwrap();

    assert_eq!(abi.parameters.len(), 2);
    assert_eq!(abi.parameters[0].name, b"x".to_vec());
    assert!(matches!(abi.parameters[0].typ, AbiType::Field));
    assert!(matches!(abi.parameters[0].visibility, AbiVisibility::Public));
    assert_eq!(abi.parameters[1].name, b"secret".to_vec());
    assert!(matches!(abi.parameters[1].typ, AbiType::Field));
    assert!(matches!(abi.parameters[1].visibility, AbiVisibility::Private));

    let rt = abi.return_type.as_ref().unwrap();
    assert!(matches!(rt.abi_type, AbiType::Field));
    assert!(matches!(rt.visibility, AbiVisibility::Public));
    assert_eq!(abi.return_witnesses, vec![0]);

    // The positional walk hands x the first input witness and secret the
    // next one.
    assert_eq!(abi.param_witnesses.len(), 2);
    assert_eq!(abi.param_witnesses[0].0, b"x".to_vec());
    assert_eq!(abi.param_witnesses[0].1, vec![(1, 2)]);
    assert_eq!(abi.param_witnesses[1].0, b"secret".to_vec());
    assert_eq!(abi.param_witnesses[1].1, vec![(2, 3)]);
}

#[test]
fn gap_in_indices_still_sizes_the_array() {
    // arr[0] and arr[2] observed, arr[1] never listed: length is still 3.
    let h = header(2, 0, 0, 4);
    let ls = lines(&["0,0,0,main.arr[0]", "1,1,0,main.arr[2]"]);
    let abi = abi_from_symbols(&h, &ls).unwrap();
    let rt = abi.return_type.as_ref().unwrap();
    match &rt.abi_type {
        AbiType::Array { length, typ } => {
            assert_eq!(*length, 3);
            assert!(matches!(**typ, AbiType::Field));
        },
        _ => panic!("expected an array return type"),
    }
    assert_eq!(abi.return_witnesses, vec![0, 1]);
    assert!(abi.param_witnesses.is_empty());
}

#[test]
fn array_parameter_consumes_consecutive_witnesses() {
    let h = header(0, 3, 0, 4);
    let ls = lines(&["0,0,0,main.arr[0]", "1,1,0,main.arr[1]", "2,2,0,main.arr[2]"]);
    let abi = abi_from_symbols(&h, &ls).unwrap();
    assert_eq!(abi.parameters.len(), 1);
    assert_eq!(abi.parameters[0].name, b"arr".to_vec());
    match &abi.parameters[0].typ {
        AbiType::Array { length, typ } => {
            assert_eq!(*length, 3);
            assert!(matches!(**typ, AbiType::Field));
        },
        _ => panic!("expected an array parameter"),
    }
    assert_eq!(abi.param_witnesses.len(), 1);
    assert_eq!(abi.param_witnesses[0].1, vec![(0, 3)]);
}

#[test]
fn no_returns_and_no_inputs() {
    // Zero return signals: no return type.
    let h = header(0, 1, 1, 4);
    let ls = lines(&["0,0,0,main.x", "1,1,0,main.secret"]);
    let abi = abi_from_symbols(&h, &ls).unwrap();
    assert!(abi.return_type.is_none());
    assert!(abi.return_witnesses.is_empty());

    // Zero public and private inputs: no parameter maps to any range.
    let h2 = header(1, 0, 0, 2);
    let ls2 = lines(&["0,0,0,main.y"]);
    let abi2 = abi_from_symbols(&h2, &ls2).unwrap();
    assert!(abi2.parameters.is_empty());
    assert!(abi2.param_witnesses.is_empty());
    assert!(abi2.return_type.is_some());
}

#[test]
fn two_return_names_make_a_tuple_in_first_seen_order() {
    let h = header(2, 0, 0, 4);
    let ls = lines(&["0,0,0,main.b[1]", "1,1,0,main.a"]);
    let abi = abi_from_symbols(&h, &ls).unwrap();
    let rt = abi.return_type.as_ref().unwrap();
    match &rt.abi_type {
        AbiType::Tuple { fields } => {
            assert_eq!(fields.len(), 2);
            // b came first in the symbol table, so its (array) type leads.
            assert!(matches!(fields[0], AbiType::Array { .. }));
            assert!(matches!(fields[1], AbiType::Field));
        },
        _ => panic!("expected a tuple return type"),
    }
    assert!(matches!(rt.visibility, AbiVisibility::Public));
}

#[test]
fn private_names_are_sorted_and_public_names_keep_file_order() {
    let h = header(0, 2, 2, 6);
    let ls = lines(&[
        "0,0,0,main.zeta",
        "1,1,0,main.alpha",
        "2,2,0,main.q",
        "3,3,0,main.b",
    ]);
    let abi = abi_from_symbols(&h, &ls).unwrap();
    assert_eq!(abi.parameters.len(), 4);
    // Public inputs in first-seen order.
    assert_eq!(abi.parameters[0].name, b"zeta".to_vec());
    assert_eq!(abi.parameters[1].name, b"alpha".to_vec());
    // Private inputs sorted by name.
    assert_eq!(abi.parameters[2].name, b"b".to_vec());
    assert_eq!(abi.parameters[3].name, b"q".to_vec());
    assert!(matches!(abi.parameters[2].visibility, AbiVisibility::Private));
}

#[test]
fn duplicate_occurrences_make_one_parameter() {
    let h = header(0, 2, 0, 4);
    let ls = lines(&["0,0,0,main.v[0]", "1,1,0,main.v[1]"]);
    let abi = abi_from_symbols(&h, &ls).unwrap();
    assert_eq!(abi.parameters.len(), 1);
    assert_eq!(abi.parameters[0].name, b"v".to_vec());
}

#[test]
fn truncated_symbol_table_is_rejected() {
    let h = header(1, 1, 1, 4);
    let ls = lines(&["0,0,0,main.y", "1,1,0,main.x"]);
    let e = abi_from_symbols(&h, &ls).unwrap_err();
    assert!(matches!(e, AbiError::TruncatedSymbolTable));
}

#[test]
fn malformed_line_is_rejected_with_its_position() {
    let h = header(1, 1, 0, 4);
    let ls = lines(&["0,0,0,main.y", "not a symbol line"]);
    let e = abi_from_symbols(&h, &ls).unwrap_err();
    match e {
        AbiError::MalformedLine { line } => assert_eq!(line, 1),
        _ => panic!("expected a malformed-line error"),
    }
}

#[test]
fn oversized_array_index_is_rejected() {
    let h = header(0, 1, 0, 4);
    let ls = lines(&["0,0,0,main.a[18446744073709551615]"]);
    let e = abi_from_symbols(&h, &ls).unwrap_err();
    match e {
        AbiError::NonNumericArrayIndex { line } => assert_eq!(line, 0),
        _ => panic!("expected an index error"),
    }
}

#[test]
fn shapes_larger_than_the_input_range_are_rejected() {
    let h = header(0, 1, 0, 4);
    let ls = lines(&["0,1,0,main.a[5]"]);
    let e = abi_from_symbols(&h, &ls).unwrap_err();
    assert!(matches!(e, AbiError::WitnessCountMismatch));
}

#[test]
fn multi_dimensional_shapes_nest_outermost_first() {
    let h = header(0, 4, 0, 6);
    let ls = lines(&[
        "0,0,0,main.m[0][0]",
        "1,1,0,main.m[0][1]",
        "2,2,0,main.m[1][0]",
        "3,3,0,main.m[1][1]",
    ]);
    let abi = abi_from_symbols(&h, &ls).unwrap();
    match &abi.parameters[0].typ {
        AbiType::Array { length, typ } => {
            assert_eq!(*length, 2);
            match &**typ {
                AbiType::Array { length, typ } => {
                    assert_eq!(*length, 2);
                    assert!(matches!(**typ, AbiType::Field));
                },
                _ => panic!("expected a nested array"),
            }
        },
        _ => panic!("expected an array"),
    }
    assert_eq!(abi.param_witnesses[0].1, vec![(0, 4)]);
}

#[test]
fn collapse_round_trips_and_is_idempotent_on_an_example() {
    let witnesses = vec![5, 6, 7, 10, 11];
    let ranges = collapse_ranges(&witnesses);
    let mut expanded: Vec<u32> = Vec::new();
    for (a, b) in &ranges {
        for w in *a..*b {
            expanded.push(w);
        }
    }
    assert_eq!(expanded, witnesses);
    assert_eq!(collapse_ranges(&expanded), ranges);
}

#[test]
fn shape_inference_ignores_observation_order() {
    let h = header(2, 0, 0, 4);
    let one_way = lines(&["0,0,0,main.arr[0]", "1,1,0,main.arr[2]"]);
    let other_way = lines(&["0,0,0,main.arr[2]", "1,1,0,main.arr[0]"]);
    let a1 = abi_from_symbols(&h, &one_way).unwrap();
    let a2 = abi_from_symbols(&h, &other_way).unwrap();
    match (
        &a1.return_type.as_ref().unwrap().abi_type,
        &a2.return_type.as_ref().unwrap().abi_type,
    ) {
        (
            AbiType::Array { length: l1, typ: t1 },
            AbiType::Array { length: l2, typ: t2 },
        ) => {
            assert_eq!(l1, l2);
            assert!(matches!(**t1, AbiType::Field));
            assert!(matches!(**t2, AbiType::Field));
        },
        _ => panic!("expected arrays from both orders"),
    }
}
