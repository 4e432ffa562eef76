//! OpenQASM 3 programs against their OpenQASM 2 spellings: the front end
//! normalizes into the OpenQASM 2 subset, so both must build the same
//! operations.
use qsimulator::circuit::{GateOp, Op};
use qsimulator::{qasm, qasm3, Circuit};

/// The operations of a circuit, as text to compare.
fn ops(c: &Circuit) -> Vec<String> {
    c.ops().iter().map(|op| format!("{op:?}")).collect()
}

/// Both spellings parse, on the same register, to the same operations.
fn assert_same_circuit(three: &str, two: &str) {
    let a = qasm3::parse(three).expect("OpenQASM 3 should parse");
    let b = qasm::parse(two).expect("OpenQASM 2 should parse");
    assert_eq!(a.n_qubits(), b.n_qubits(), "register sizes differ");
    assert_eq!(ops(&a), ops(&b));
}

#[test]
fn openqasm3_declarations_build_the_openqasm2_circuit() {
    assert_same_circuit(
        "OPENQASM 3.0;\ninclude \"stdgates.inc\";\nqubit[2] q;\nh q[0];\ncx q[0], q[1];\n",
        "OPENQASM 2.0;\nqreg q[2];\nh q[0];\ncx q[0],q[1];\n",
    );
    assert_same_circuit("OPENQASM 3.0;\nqubit q;\nh q[0];\n", "OPENQASM 2.0;\nqreg q[1];\nh q[0];\n");
    assert_same_circuit(
        "OPENQASM 3.0;\nqubit[2] q;\nqubit[1] r;\nh q[0];\ncx q[0], r[0];\n",
        "OPENQASM 2.0;\nqreg q[2];\nqreg r[1];\nh q[0];\ncx q[0],r[0];\n",
    );
}

#[test]
fn openqasm3_gate_declarations_build_the_openqasm2_circuit() {
    assert_same_circuit(
        "OPENQASM 3.0;
gate bell _gate_q_0, _gate_q_1 {
  h _gate_q_0;
  cx _gate_q_0, _gate_q_1;
}
qubit[2] q;
bell q[0], q[1];
",
        "OPENQASM 2.0;\nqreg q[2];\nh q[0];\ncx q[0],q[1];\n",
    );
}

#[test]
fn openqasm3_measurement_forms_build_the_same_circuit() {
    let assigned = "OPENQASM 3.0;\nqubit[2] q;\nbit[2] c;\nh q[0];\nc[0] = measure q[0];\nif (c == 1) {\n  x q[1];\n}\n";
    let arrow = "OPENQASM 3.0;\nqubit[2] q;\nbit[2] c;\nh q[0];\nmeasure q[0] -> c[0];\nif (c == 1) {\n  x q[1];\n}\n";
    let a = qasm3::parse(assigned).expect("should parse");
    let b = qasm3::parse(arrow).expect("should parse");
    assert_eq!(ops(&a), ops(&b));
    assert!(matches!(a.ops()[1], Op::Measure { qubit: 0, clbit: 0 }));
    match &a.ops()[2] {
        Op::Conditional { value, ops } => {
            assert_eq!(*value, 1);
            assert_eq!(ops.len(), 1);
            assert!(matches!(ops[0], GateOp::Single { target: 1, .. }));
        }
        other => panic!("expected a guarded gate, got {other:?}"),
    }
}

#[test]
fn openqasm3_braced_conditional_guards_every_gate() {
    let src = "OPENQASM 3.0;\nqubit[3] q;\nbit[3] c;\nx q[0];\nc[0] = measure q[0];\nif (c == 1) {\n  x q[1];\n  x q[2];\n}\n";
    let c = qasm3::parse(src).expect("should parse");
    let guarded: Vec<(u64, usize)> = c
        .ops()
        .iter()
        .filter_map(|op| match op {
            Op::Conditional { value, ops } => Some((*value, ops.len())),
            _ => None,
        })
        .collect();
    assert_eq!(guarded.iter().map(|g| g.0).collect::<Vec<_>>(), vec![1; guarded.len()]);
    assert_eq!(guarded.iter().map(|g| g.1).sum::<usize>(), 2);
}

/// An operation's text without the statement its angles were read from,
/// which is kept only to quote in error messages.
fn without_source(op: &str) -> String {
    let mut out = String::new();
    let mut rest = op;
    while let Some(at) = rest.find("stmt: ") {
        out.push_str(&rest[..at]);
        let tail = &rest[at..];
        let end = tail.find(", line:").expect("an angle records its line after its statement");
        rest = &tail[end + 2..];
    }
    out.push_str(rest);
    out
}

#[test]
fn openqasm3_stdgates_names_build_the_openqasm2_circuit() {
    let a = qasm3::parse("OPENQASM 3.0;\nqubit[2] q;\np(0.3) q[0];\ncp(0.4) q[0], q[1];\nsx q[1];\n").unwrap();
    let b = qasm::parse("OPENQASM 2.0;\nqreg q[2];\nu1(0.3) q[0];\ncu1(0.4) q[0],q[1];\nsx q[1];\n").unwrap();
    assert_eq!(a.n_qubits(), b.n_qubits());
    let strip = |c: &Circuit| ops(c).iter().map(|o| without_source(o)).collect::<Vec<_>>();
    assert_eq!(strip(&a), strip(&b));
    assert_eq!(a.ops().len(), 3);
}
