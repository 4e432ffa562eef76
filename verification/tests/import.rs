//! What the importers build, read back through the circuit's operations.
use qsimulator::circuit::{Gate, GateOp, Label, Op};
use qsimulator::expr::{BinOp, Expr};
use qsimulator::{program, qasm, qasm3};

/// The targets of the single-qubit gates of a circuit, in order.
fn single_targets(ops: &[Op]) -> Vec<(Label, usize)> {
    let mut out = Vec::new();
    for op in ops {
        if let Op::Gate(GateOp::Single { target, label, .. }) = op {
            out.push((*label, *target));
        }
    }
    out
}

#[test]
fn registers_share_one_flat_index_space() {
    let c = qasm::parse("qreg a[2];\nqreg b[3];\nh b[1];\nx a[1];\n").unwrap();
    assert_eq!(c.n_qubits(), 5);
    assert_eq!(single_targets(c.ops()), vec![(Label::H, 3), (Label::X, 1)]);
}

#[test]
fn a_declaration_shadows_the_builtin_of_its_name() {
    // The file's own `h` is an X, so the call appends an X.
    let c = qasm::parse("gate h a { x a; }\nqreg q[1];\nh q[0];\n").unwrap();
    assert_eq!(single_targets(c.ops()), vec![(Label::X, 0)]);
}

#[test]
fn a_declaration_remaps_qubits_and_substitutes_angles() {
    let c = qasm::parse("gate g(t) a,b { rz(t/2) b; cx a,b; }\nqreg q[3];\ng(pi) q[2],q[0];\n").unwrap();
    let ops = c.ops();
    assert_eq!(ops.len(), 2);
    match &ops[0] {
        Op::Gate(GateOp::Single { gate: Gate::RZ(a), target, .. }) => {
            assert_eq!(*target, 0);
            match &a.expr {
                Expr::Bin(BinOp::Div, num, den) => {
                    assert!(matches!(**num, Expr::Pi));
                    assert!(matches!(&**den, Expr::Num(d) if d == &vec!['2']));
                }
                other => panic!("unexpected angle {other:?}"),
            }
        }
        other => panic!("unexpected first operation {other:?}"),
    }
    match &ops[1] {
        Op::Gate(GateOp::Controlled { control, target, label, .. }) => {
            assert_eq!((*control, *target, *label), (2, 0, Label::X));
        }
        other => panic!("unexpected second operation {other:?}"),
    }
}

#[test]
fn measure_writes_the_named_classical_bit() {
    let c = qasm::parse("qreg q[2];\ncreg c[2];\nmeasure q[1] -> c[0];\nmeasure q -> c;\n").unwrap();
    let got: Vec<(usize, usize)> = c
        .ops()
        .iter()
        .filter_map(|op| match op {
            Op::Measure { qubit, clbit } => Some((*qubit, *clbit)),
            _ => None,
        })
        .collect();
    assert_eq!(got, vec![(1, 0), (0, 0), (1, 1)]);
}

#[test]
fn a_guard_on_a_later_register_is_shifted_to_its_bits() {
    let c = qasm::parse("qreg q[3];\ncreg a[1];\ncreg b[2];\nif(b==3) x q[2];\n").unwrap();
    match &c.ops()[0] {
        Op::Conditional { value, ops } => {
            assert_eq!(*value, 6);
            assert_eq!(ops.len(), 1);
        }
        other => panic!("unexpected operation {other:?}"),
    }
    // A value the register cannot hold never matches, so nothing is added.
    let never = qasm::parse("qreg q[1];\ncreg c[1];\nif(c==2) x q[0];\n").unwrap();
    assert_eq!(never.ops().len(), 0);
}

#[test]
fn reset_of_a_whole_register_resets_each_qubit() {
    let c = qasm::parse("qreg q[2];\nreset q;\n").unwrap();
    let got: Vec<usize> = c
        .ops()
        .iter()
        .filter_map(|op| match op {
            Op::Reset { qubit } => Some(*qubit),
            _ => None,
        })
        .collect();
    assert_eq!(got, vec![0, 1]);
}

#[test]
fn qelib_decompositions_append_their_gates() {
    // rzz is cx, phase, cx; c3x is a three-control X.
    let c = qasm::parse("qreg q[4];\nrzz(0.5) q[0],q[1];\nc3x q[0],q[1],q[2],q[3];\n").unwrap();
    assert_eq!(c.ops().len(), 4);
    match &c.ops()[3] {
        Op::Gate(GateOp::MultiControlled { controls, target, label, .. }) => {
            assert_eq!(controls, &vec![0, 1, 2]);
            assert_eq!((*target, *label), (3, Label::X));
        }
        other => panic!("unexpected operation {other:?}"),
    }
}

#[test]
fn openqasm3_declarations_and_measurements_translate() {
    let c = qasm3::parse(
        "OPENQASM 3.0;\nqubit[2] q;\nbit[2] c;\nh q[0];\nc[1] = measure q[0];\nif (c == 2) { x q[1]; z q[1]; }\n",
    )
    .unwrap();
    assert_eq!(c.n_qubits(), 2);
    assert!(matches!(c.ops()[1], Op::Measure { qubit: 0, clbit: 1 }));
    assert!(matches!(c.ops()[2], Op::Conditional { value: 2, .. }));
    assert!(matches!(c.ops()[3], Op::Conditional { value: 2, .. }));
}

#[test]
fn program_lines_build_the_circuit_and_sample() {
    let p = program::parse("qubits 3 # three\n\nh 0\nmcx 0 1 2\nif 1 x 2\nsample 100 7\n").unwrap();
    assert_eq!(p.circuit.n_qubits(), 3);
    assert_eq!(p.circuit.ops().len(), 3);
    assert_eq!(p.sample, Some(program::SampleSpec { shots: 100, seed: 7 }));
    assert!(matches!(p.circuit.ops()[2], Op::Conditional { value: 1, .. }));
}

#[test]
fn program_angles_carry_their_line() {
    let p = program::parse("qubits 1\n\nrx 2pi 0\n").unwrap();
    match &p.circuit.ops()[0] {
        Op::Gate(GateOp::Single { gate: Gate::RX(a), .. }) => {
            assert_eq!(a.line, Some(3));
            assert!(matches!(&a.expr, Expr::Bin(BinOp::Mul, _, _)));
        }
        other => panic!("unexpected operation {other:?}"),
    }
}

#[test]
fn parse_error_renders_its_line() {
    let e = program::parse("qubits 1\nfoo\n").unwrap_err();
    assert_eq!(e.line, Some(2));
    assert_eq!(e.render(), "line 2: unknown instruction `foo`");
    let q = qasm::parse("qreg q[1];\nfoo q[0];\n").unwrap_err();
    assert_eq!(q.line, None);
    assert_eq!(q.render(), "unsupported gate `foo` in `foo q[0]`");
}
