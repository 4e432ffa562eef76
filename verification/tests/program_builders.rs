//! What the text program parser builds, operation by operation, against the
//! builder calls that spell the same circuit.
use qsimulator::circuit::{GateOp, Op};
use qsimulator::program::{self, SampleSpec};
use qsimulator::Circuit;

/// The operations of a circuit, as text to compare.
fn ops(c: &Circuit) -> Vec<String> {
    c.ops().iter().map(|op| format!("{op:?}")).collect()
}

#[test]
fn native_bell_builds_h_and_cnot() {
    let prog = program::parse("qubits 2\nh 0\ncnot 0 1\n").expect("should parse");
    assert!(prog.sample.is_none());
    let mut bell = Circuit::new(2);
    bell.h(0).cnot(0, 1);
    assert_eq!(prog.circuit.n_qubits(), 2);
    assert_eq!(ops(&prog.circuit), ops(&bell));
}

#[test]
fn native_comments_and_blank_lines_are_skipped() {
    let src = "# GHZ\nqubits 3\n\nh 0        # superpose\ncnot 0 1\ncnot 1 2\nsample 500 7\n";
    let prog = program::parse(src).expect("should parse");
    assert_eq!(prog.sample, Some(SampleSpec { shots: 500, seed: 7 }));
    let mut ghz = Circuit::new(3);
    ghz.h(0).cnot(0, 1).cnot(1, 2);
    assert_eq!(ops(&prog.circuit), ops(&ghz));
}

#[test]
fn native_mcx_builds_a_multi_controlled_x() {
    let prog = program::parse("qubits 4\nh 0\nh 1\nh 2\nmcx 0 1 2 3\n").expect("should parse");
    let mut direct = Circuit::new(4);
    direct.h(0).h(1).h(2).mcx(&[0, 1, 2], 3);
    assert_eq!(ops(&prog.circuit), ops(&direct));
}

#[test]
fn native_if_guards_one_instruction() {
    let prog = program::parse("qubits 2\nh 0\nmeasure 0\nif 1 x 1\nmeasure 1\n").expect("parse");
    let c = &prog.circuit;
    assert_eq!(c.ops().len(), 4);
    assert!(matches!(c.ops()[1], Op::Measure { qubit: 0, clbit: 0 }));
    assert!(matches!(&c.ops()[2], Op::Conditional { value: 1, ops } if ops.len() == 1 && matches!(ops[0], GateOp::Single { target: 1, .. })));
    assert!(matches!(c.ops()[3], Op::Measure { qubit: 1, clbit: 1 }));
}

#[test]
fn native_instructions_with_a_sample_directive() {
    let src = "qubits 3\nid 0\nh 0\nx 0\ny 1\nz 2\ns 0\nt 1\nsdg 2\ntdg 0\nrx pi/2 0\nry -pi/4 1\nrz 0.3 2\np pi 0\nu2 0.1 0.2 1\nu3 0.4 0.5 0.6 2\ncnot 0 1\ncy 1 2\ncz 0 2\nch 0 1\ncrz 0.7 1 2\ncp pi/2 0 1\ncu3 0.1 0.2 0.3 0 2\nswap 0 2\ntoffoli 0 1 2\ncswap 0 1 2\nmeasure 0\nreset 1\nif 1 x 2\nmcx 0 1 2\nmcu3 0.1 0.2 0.3 0 1 2\nsample 100 42\n";
    let prog = program::parse(src).expect("should parse");
    assert_eq!(prog.sample, Some(SampleSpec { shots: 100, seed: 42 }));
    assert_eq!(prog.circuit.n_qubits(), 3);
    assert!(matches!(prog.circuit.ops()[0], Op::Gate(GateOp::Single { target: 0, .. })));
    assert!(prog.circuit.ops().iter().any(|op| matches!(op, Op::Reset { qubit: 1 })));
    assert!(prog.circuit.ops().iter().any(|op| matches!(op, Op::Conditional { value: 1, .. })));
}
