use ark_ff::PrimeField;
use ark_serialize::CanonicalSerialize;
use r1cs_acir::circuit::{acir_circuit_from_r1cs, Constraint, Header, Opcode};
use r1cs_acir::field::Fe;

fn fe(x: u64) -> Fe {
    let mut bytes = vec![0u8; 32];
    bytes[..8].copy_from_slice(&x.to_le_bytes());
    Fe { bytes }
}

fn fe_bytes_of_ark(x: ark_bn254::Fr) -> Vec<u8> {
    let mut out = Vec::new();
    x.serialize_compressed(&mut out).unwrap();
    out
}

fn header(n_pub_out: u32, n_pub_in: u32, n_prv_in: u32, n_wires: u32) -> Header {
    Header { n_wires, n_pub_out, n_pub_in, n_prv_in }
}

#[test]
fn witness_partitioning() {
    let h = header(2, 3, 4, 42);
    let circuit = acir_circuit_from_r1cs(&h, &Vec::new());
    assert_eq!(circuit.current_witness_index, 42);
    assert_eq!(circuit.return_values, vec![0, 1]);
    assert_eq!(circuit.public_parameters, vec![2, 3, 4]);
    assert_eq!(circuit.private_parameters, vec![5, 6, 7, 8]);
    assert!(circuit.opcodes.is_empty());
}

#[test]
fn wire_indices_shift_down_by_one() {
    // One constraint: a = 5*w1, b = 1 (constant), c = 4*w2.
    let h = header(0, 0, 0, 3);
    let cons = vec![Constraint {
        a: vec![(1, fe(5))],
        b: vec![(0, fe(1))],
        c: vec![(2, fe(4))],
    }];
    let circuit = acir_circuit_from_r1cs(&h, &cons);
    assert_eq!(circuit.opcodes.len(), 1);
    let Opcode::AssertZero(e) = &circuit.opcodes[0];
    assert!(e.mul_terms.is_empty());
    // Wire 1 becomes witness 0, wire 2 becomes witness 1; wire 0 never
    // appears as a witness.
    assert_eq!(e.linear_combinations.len(), 2);
    assert_eq!(e.linear_combinations[0].1, 0);
    assert_eq!(e.linear_combinations[0].0.bytes, fe_bytes_of_ark(ark_bn254::Fr::from(5u64)));
    assert_eq!(e.linear_combinations[1].1, 1);
    // The subtracted row's coefficient is negated in the field.
    assert_eq!(e.linear_combinations[1].0.bytes, fe_bytes_of_ark(-ark_bn254::Fr::from(4u64)));
    assert_eq!(e.q_c.bytes, fe_bytes_of_ark(ark_bn254::Fr::from(0u64)));
}

#[test]
fn wire_zero_coefficients_are_summed() {
    // a's two wire-0 entries are summed: (1 + 2) * 3 = 9.
    let h = header(0, 0, 0, 2);
    let cons = vec![Constraint {
        a: vec![(0, fe(1)), (0, fe(2))],
        b: vec![(0, fe(3))],
        c: vec![],
    }];
    let circuit = acir_circuit_from_r1cs(&h, &cons);
    let Opcode::AssertZero(e) = &circuit.opcodes[0];
    assert_eq!(e.q_c.bytes, fe_bytes_of_ark(ark_bn254::Fr::from(9u64)));
    assert!(e.mul_terms.is_empty());
    assert!(e.linear_combinations.is_empty());
}

#[test]
fn product_builds_quadratic_and_scaled_terms() {
    // a = 2 + 5*w1, b = 3 + 7*w2: the product has one quadratic term
    // 35*w0*w1 (after the shift), linear terms 2*7*w1 and 3*5*w0, and
    // constant 6.
    let h = header(0, 0, 0, 3);
    let cons = vec![Constraint {
        a: vec![(0, fe(2)), (1, fe(5))],
        b: vec![(0, fe(3)), (2, fe(7))],
        c: vec![],
    }];
    let circuit = acir_circuit_from_r1cs(&h, &cons);
    let Opcode::AssertZero(e) = &circuit.opcodes[0];
    assert_eq!(e.mul_terms.len(), 1);
    assert_eq!(e.mul_terms[0].0.bytes, fe_bytes_of_ark(ark_bn254::Fr::from(35u64)));
    assert_eq!(e.mul_terms[0].1, 0);
    assert_eq!(e.mul_terms[0].2, 1);
    assert_eq!(e.linear_combinations.len(), 2);
    assert_eq!(e.linear_combinations[0].0.bytes, fe_bytes_of_ark(ark_bn254::Fr::from(14u64)));
    assert_eq!(e.linear_combinations[0].1, 1);
    assert_eq!(e.linear_combinations[1].0.bytes, fe_bytes_of_ark(ark_bn254::Fr::from(15u64)));
    assert_eq!(e.linear_combinations[1].1, 0);
    assert_eq!(e.q_c.bytes, fe_bytes_of_ark(ark_bn254::Fr::from(6u64)));
}

#[test]
fn constraint_order_is_preserved() {
    let h = header(0, 0, 0, 3);
    let cons = vec![
        Constraint { a: vec![(0, fe(1))], b: vec![(0, fe(1))], c: vec![] },
        Constraint { a: vec![(0, fe(2))], b: vec![(0, fe(2))], c: vec![] },
    ];
    let circuit = acir_circuit_from_r1cs(&h, &cons);
    assert_eq!(circuit.opcodes.len(), 2);
    let Opcode::AssertZero(e0) = &circuit.opcodes[0];
    let Opcode::AssertZero(e1) = &circuit.opcodes[1];
    assert_eq!(e0.q_c.bytes, fe_bytes_of_ark(ark_bn254::Fr::from(1u64)));
    assert_eq!(e1.q_c.bytes, fe_bytes_of_ark(ark_bn254::Fr::from(4u64)));
}

#[test]
fn field_addition_reduces_by_the_modulus() {
    // (p - 1) + 2 must reduce to 1, not grow past the modulus.
    let pm1 = fe_bytes_of_ark(-ark_bn254::Fr::from(1u64));
    let h = header(0, 0, 0, 2);
    let cons = vec![Constraint {
        a: vec![(0, Fe { bytes: pm1 }), (0, fe(2))],
        b: vec![(0, fe(1))],
        c: vec![],
    }];
    let circuit = acir_circuit_from_r1cs(&h, &cons);
    let Opcode::AssertZero(e) = &circuit.opcodes[0];
    assert_eq!(e.q_c.bytes, fe_bytes_of_ark(ark_bn254::Fr::from(1u64)));
}

#[test]
fn emitted_opcode_agrees_with_the_constraint_semantics() {
    // Constraint w1 * w1 = w2. The assignment (3, 9) satisfies it, the
    // assignment (3, 10) does not; the emitted opcode must agree.
    let h = header(0, 0, 0, 3);
    let cons = vec![Constraint {
        a: vec![(1, fe(1))],
        b: vec![(1, fe(1))],
        c: vec![(2, fe(1))],
    }];
    let circuit = acir_circuit_from_r1cs(&h, &cons);
    let Opcode::AssertZero(e) = &circuit.opcodes[0];

    let eval = |witness: &[u64]| -> ark_bn254::Fr {
        let mut acc = ark_bn254::Fr::from(0u64);
        for (c, x, y) in &e.mul_terms {
            acc += ark_bn254::Fr::from_le_bytes_mod_order(&c.bytes)
                * ark_bn254::Fr::from(witness[*x as usize])
                * ark_bn254::Fr::from(witness[*y as usize]);
        }
        for (c, x) in &e.linear_combinations {
            acc += ark_bn254::Fr::from_le_bytes_mod_order(&c.bytes)
                * ark_bn254::Fr::from(witness[*x as usize]);
        }
        acc + ark_bn254::Fr::from_le_bytes_mod_order(&e.q_c.bytes)
    };

    assert_eq!(eval(&[3, 9]), ark_bn254::Fr::from(0u64));
    assert_ne!(eval(&[3, 10]), ark_bn254::Fr::from(0u64));
}
