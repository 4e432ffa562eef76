//! Imported circuits against the same circuits built by hand: the importer
//! must build exactly the operations the builder does.
use qsimulator::circuit::{Gate, GateOp, Op};
use qsimulator::{qasm, Circuit};

/// The operations of a circuit, as text to compare.
fn ops(c: &Circuit) -> Vec<String> {
    c.ops().iter().map(|op| format!("{op:?}")).collect()
}

#[test]
fn imports_cz_and_swap() {
    let src = "qreg q[2];\nx q[0];\nswap q[0],q[1];\ncz q[0],q[1];\n";
    let imported = qasm::parse(src).expect("should parse");

    let mut expected = Circuit::new(2);
    expected.x(0).swap(0, 1).cz(0, 1);
    assert_eq!(imported.n_qubits(), expected.n_qubits());
    assert_eq!(ops(&imported), ops(&expected));
}

#[test]
fn multiple_registers_map_to_flat_space() {
    // q[0..2] -> 0,1 ; r[0] -> 2. cx q[0],r[0] entangles qubit 0 and qubit 2.
    let src = "qreg q[2];\nqreg r[1];\nh q[0];\ncx q[0],r[0];\n";
    let imported = qasm::parse(src).expect("should parse");

    let mut expected = Circuit::new(3);
    expected.h(0).cnot(0, 2);
    assert_eq!(imported.n_qubits(), expected.n_qubits());
    assert_eq!(ops(&imported), ops(&expected));
}

#[test]
fn gate_declaration_expands() {
    let src = "\
OPENQASM 2.0;
gate bell a,b { h a; cx a,b; }
qreg q[2];
bell q[0],q[1];
";
    let expanded = qasm::parse(src).expect("should parse");
    let direct = qasm::parse("qreg q[2];\nh q[0];\ncx q[0],q[1];\n").unwrap();
    assert_eq!(ops(&expanded), ops(&direct));
}

#[test]
fn declaration_shadows_the_builtin() {
    // Redefine `x` as a no-op; the qubit must stay in |0>.
    let src = "OPENQASM 2.0;\ngate x a { id a; }\nqreg q[1];\nx q[0];\n";
    let c = qasm::parse(src).expect("should parse");
    assert_eq!(c.ops().len(), 1);
    assert!(matches!(
        &c.ops()[0],
        Op::Gate(GateOp::Single { gate: Gate::I, target: 0, .. })
    ));
}

#[test]
fn the_longest_builtin_appends_eighteen_gates() {
    let c = qasm::parse("qreg q[4];\nrc3x q[0],q[1],q[2],q[3];\n").unwrap();
    assert_eq!(c.ops().len(), 18);
    assert!(c.ops().iter().all(|op| matches!(op, Op::Gate(_))));
}
