//! What the OpenQASM importer builds, operation by operation, against the
//! builder calls that spell the same circuit.
use qsimulator::circuit::{GateOp, Op};
use qsimulator::{qasm, Circuit};

/// The operations of a circuit, as text to compare.
fn ops(c: &Circuit) -> Vec<String> {
    c.ops().iter().map(|op| format!("{op:?}")).collect()
}

fn assert_builds(src: &str, expected: &Circuit) {
    let imported = qasm::parse(src).expect("should parse");
    assert_eq!(imported.n_qubits(), expected.n_qubits());
    assert_eq!(ops(&imported), ops(expected));
}

#[test]
fn a_barrier_adds_nothing() {
    let mut ghz = Circuit::new(3);
    ghz.h(0).cnot(0, 1).cnot(1, 2);
    assert_builds("OPENQASM 2.0;\nqreg q[3];\nh q[0];\nbarrier q;\ncx q[0],q[1];\ncx q[1],q[2];\n", &ghz);
}

#[test]
fn three_qubit_gates_import_as_their_builders() {
    let mut toffoli = Circuit::new(3);
    toffoli.x(0).x(1).toffoli(0, 1, 2);
    assert_builds("qreg q[3];\nx q[0];\nx q[1];\nccx q[0],q[1],q[2];\n", &toffoli);
    let mut fredkin = Circuit::new(3);
    fredkin.x(0).x(1).cswap(0, 1, 2);
    assert_builds("qreg q[3];\nx q[0];\nx q[1];\ncswap q[0],q[1],q[2];\n", &fredkin);
    let mut controlled = Circuit::new(2);
    controlled.x(0).cy(0, 1).ch(0, 1);
    assert_builds("qreg q[2];\nx q[0];\ncy q[0],q[1];\nch q[0],q[1];\n", &controlled);
}

#[test]
fn comments_are_not_statements() {
    let mut one = Circuit::new(1);
    one.x(0);
    assert_builds("// leading comment\nqreg q[1]; /* inline */ x q[0]; // trailing\n/* multi\n   line */\n", &one);
}

#[test]
fn nested_declarations_remap_their_qubits() {
    let mut direct = Circuit::new(2);
    direct.x(1).cnot(1, 0);
    assert_builds("OPENQASM 2.0;\ngate flip a { x a; }\ngate pair a,b { flip b; cx b,a; }\nqreg q[2];\npair q[0],q[1];\n", &direct);
}

#[test]
fn reset_names_a_qubit_or_a_whole_register() {
    let mut one = Circuit::new(2);
    one.h(0).h(1).reset(0);
    assert_builds("qreg q[2];\nh q[0];\nh q[1];\nreset q[0];\n", &one);
    let mut all = Circuit::new(2);
    all.h(0).h(1).reset(0).reset(1);
    assert_builds("qreg q[2];\nh q[0];\nh q[1];\nreset q;\n", &all);
    let err = qasm::parse("qreg q[1];\nreset nope;\n").unwrap_err().render();
    assert!(err.contains("unknown register"), "{err}");
}

#[test]
fn a_guarded_gate_follows_the_measurement_it_reads() {
    let src = "OPENQASM 2.0;\nqreg q[2];\ncreg c[2];\nh q[0];\nmeasure q[0] -> c[0];\nif(c==1) x q[1];\nmeasure q[1] -> c[1];\n";
    let c = qasm::parse(src).expect("should parse");
    assert!(matches!(c.ops()[1], Op::Measure { qubit: 0, clbit: 0 }));
    match &c.ops()[2] {
        Op::Conditional { value: 1, ops } => {
            assert_eq!(ops.len(), 1);
            assert!(matches!(ops[0], GateOp::Single { target: 1, .. }));
        }
        other => panic!("expected a guarded gate, got {other:?}"),
    }
    assert!(matches!(c.ops()[3], Op::Measure { qubit: 1, clbit: 1 }));

    let src = "qreg q[2];\ncreg c[2];\nx q[1];\nmeasure q[1] -> c[0];\nif(c==1) x q[0];\n";
    let c = qasm::parse(src).expect("should parse");
    assert!(matches!(c.ops()[1], Op::Measure { qubit: 1, clbit: 0 }));
    assert!(matches!(&c.ops()[2], Op::Conditional { value: 1, ops } if matches!(ops[0], GateOp::Single { target: 0, .. })));
}
