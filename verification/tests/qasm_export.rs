//! OpenQASM export: the error text, and the statements a circuit becomes.
use qsimulator::ExportError;

#[test]
fn single_gate_export_error_reads_well() {
    let e = ExportError::SingleGate { label: "W" };
    assert_eq!(
        e.render(),
        "cannot export single-qubit gate `W` to OpenQASM 2"
    );
}
