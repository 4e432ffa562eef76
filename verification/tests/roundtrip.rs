//! A program exported with no number in it reads back as the same circuit.
use qsimulator::circuit::Op;
use qsimulator::qasm;
use qsimulator::roundtrip::statement_text;
use qsimulator::Circuit;

/// The exported program, when every statement needs no number.
fn export_text(c: &Circuit) -> String {
    let mut out = String::new();
    for stmt in c.qasm_plan().unwrap() {
        out.push_str(&statement_text(&stmt).expect("a statement with no number"));
        out.push('\n');
    }
    out
}

fn kinds(c: &Circuit) -> Vec<String> {
    c.ops().iter().map(|op| format!("{op:?}")).collect()
}

#[test]
fn an_export_without_numbers_reads_back_as_the_circuit() {
    let mut c = Circuit::new(3);
    c.h(0).x(1).y(2).z(0).s(1).sdg(2).t(0).tdg(1).sx(2).sxdg(0).id(1);
    c.cnot(0, 1).cy(1, 2).cz(2, 0).ch(0, 2).swap(1, 2).toffoli(0, 1, 2).cswap(2, 0, 1);
    c.measure_into(2, 0).reset(1).measure(0);
    let mut block = Circuit::new(3);
    block.cz(0, 2);
    c.if_classical_eq(5, block);
    let text = export_text(&c);
    assert!(text.starts_with("OPENQASM 2.0;\ninclude \"qelib1.inc\";\nqreg q[3];\ncreg c[3];\nh q[0];\n"));
    assert!(text.contains("cx q[0],q[1];\n"));
    assert!(text.contains("ccx q[0],q[1],q[2];\n"));
    assert!(text.contains("measure q[2] -> c[0];\nreset q[1];\n"));
    assert!(text.ends_with("measure q[0] -> c[0];\nif(c==5) cz q[0],q[2];\n"));
    let back = qasm::parse(&text).unwrap();
    assert_eq!(back.n_qubits(), 3);
    assert_eq!(kinds(&back), kinds(&c));
    assert_eq!(export_text(&back), text);
}

#[test]
fn statements_with_numbers_are_left_to_the_caller() {
    let mut c = Circuit::new(2);
    c.h(0);
    let mut block = Circuit::new(2);
    block.x(1);
    c.measure(0).if_classical_eq(1, block);
    let plan = c.qasm_plan().unwrap();
    let texts: Vec<Option<String>> = plan.iter().map(statement_text).collect();
    assert_eq!(texts.last().unwrap().as_deref(), Some("if(c==1) x q[1];"));
    let mut r = Circuit::new(1);
    r.rx(qsimulator::expr::Angle::pi(), 0);
    let plan = r.qasm_plan().unwrap();
    assert_eq!(statement_text(&plan[3]), None);
    assert!(matches!(r.ops()[0], Op::Gate(_)));
}

#[test]
fn a_numberless_export_has_header_and_qreg() {
    let mut c = Circuit::new(4);
    c.h(0);
    let q = export_text(&c);
    assert!(q.starts_with("OPENQASM 2.0;"), "{q}");
    assert!(q.contains("qreg q[4];"), "{q}");
    assert!(q.contains("h q[0];"), "{q}");
}

#[test]
fn export_is_idempotent_through_parse() {
    let src = "qreg q[2];\nh q[0];\ncx q[0],q[1];\n";
    let first = qasm::parse(src).unwrap();
    let once = export_text(&first);
    let second = qasm::parse(&once).unwrap();
    let twice = export_text(&second);
    assert_eq!(once, twice);
    let plan = |c: &Circuit| format!("{:?}", c.qasm_plan().unwrap());
    assert_eq!(plan(&first), plan(&second));
}
