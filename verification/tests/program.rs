//! The text program parser: what it refuses, and why.
use qsimulator::program;

#[test]
fn all_two_qubit_forms_parse() {
    let prog = program::parse("qubits 3\ncz 0 1\nswap 0 2\ntoffoli 0 1 2\n");
    assert!(prog.is_ok(), "{:?}", prog.err());
}

#[test]
fn error_gate_before_qubits() {
    let err = program::parse("h 0\n").unwrap_err().render();
    assert!(
        err.contains("first instruction must be `qubits N`"),
        "{err}"
    );
}

#[test]
fn program_error_qubit_out_of_range() {
    let err = program::parse("qubits 2\nx 5\n").unwrap_err().render();
    assert!(err.contains("out of range"), "{err}");
    assert!(err.contains("line 2"), "{err}");
}

#[test]
fn error_too_many_qubits() {
    let err = program::parse("qubits 40\n").unwrap_err().render();
    assert!(err.contains("exceeds the maximum"), "{err}");
}

#[test]
fn error_unknown_instruction() {
    let err = program::parse("qubits 2\nfoo 0\n").unwrap_err().render();
    assert!(err.contains("unknown instruction"), "{err}");
}

#[test]
fn error_bad_arity() {
    let err = program::parse("qubits 2\ncnot 0\n")
        .unwrap_err()
        .render();
    assert!(err.contains("expects 3 tokens"), "{err}");
}

#[test]
fn error_control_equals_target() {
    let err = program::parse("qubits 2\ncnot 1 1\n")
        .unwrap_err()
        .render();
    assert!(err.contains("must differ"), "{err}");
}

#[test]
fn error_empty_program() {
    let err = program::parse("# just a comment\n\n")
        .unwrap_err()
        .render();
    assert!(err.contains("empty"), "{err}");
}

#[test]
fn native_error_paths() {
    let cases = [
        ("qubits 1\nqubits 2\n", "may only appear once"),
        ("qubits 0\n", "must be >= 1"),
        ("qubits 2\ncrz 0.5 1 1\n", "must differ"),
        ("qubits 3\ncswap 0 1 1\n", "must be distinct"),
        ("qubits 3\ntoffoli 0 1 1\n", "must differ"),
        ("qubits 3\nmcx 0 1 1\n", "is repeated"),
        ("qubits 3\nmcx 2\n", "at least 3 tokens"),
        ("qubits 3\nmcu3 0.1 0.2 0.3 2\n", "at least 6 tokens"),
        ("qubits 3\nmcu3 nope 0.2 0.3 0 2\n", "invalid angle"),
        ("qubits 3\nmcx 0 9\n", "out of range"),
        ("qubits 1\nif 1\n", "expects a value then an instruction"),
        ("qubits 1\nif nope x 0\n", "invalid conditional value"),
        (
            "qubits 1\nif 1 measure 0\n",
            "only a gate may be conditional",
        ),
        (
            "qubits 1\nif 1 if 1 x 0\n",
            "only a gate may be conditional",
        ),
        ("qubits 1\nif 1 bogus 0\n", "unknown instruction"),
        (
            "qubits 2\nh 0\nsample 1 1\nsample 2 2\n",
            "may only appear once",
        ),
    ];
    for (src, needle) in cases {
        let err = program::parse(src).unwrap_err().render();
        assert!(err.contains(needle), "for `{src}`: {err}");
    }
}
