//! The OpenQASM 3 front end: version detection and what it refuses.
use qsimulator::{qasm, qasm3};

/// The version header picks the front end, and only a 3 means OpenQASM 3.
#[test]
fn version_detection() {
    assert!(qasm3::is_openqasm3("OPENQASM 3.0;\nqubit[1] q;\n"));
    assert!(qasm3::is_openqasm3("// a comment\nOPENQASM 3;\n"));
    assert!(!qasm3::is_openqasm3("OPENQASM 2.0;\nqreg q[1];\n"));
    assert!(!qasm3::is_openqasm3("qreg q[1];\nh q[0];\n"));
}

/// Constructs with no OpenQASM 2 counterpart are named, not ignored.
#[test]
fn unsupported_constructs_are_reported() {
    for (src, needle) in [
        (
            "OPENQASM 3.0;\nqubit[1] q;\nfor int i in [0:3] { h q[0]; }\n",
            "`for`",
        ),
        (
            "OPENQASM 3.0;\nqubit[1] q;\nwhile (true) { h q[0]; }\n",
            "`while`",
        ),
        (
            "OPENQASM 3.0;\nqubit[1] q;\ndef thing() { h q[0]; }\n",
            "`def`",
        ),
        (
            "OPENQASM 3.0;\nqubit[1] q;\nbit[1] c;\nif (c == 0) { x q[0]; } else { h q[0]; }\n",
            "`else`",
        ),
    ] {
        let err = qasm3::parse(src).unwrap_err().render();
        assert!(err.contains(needle), "for `{src}`: {err}");
    }
}

/// A malformed declaration is reported rather than half-understood.
#[test]
fn malformed_declarations_are_reported() {
    for (src, needle) in [
        ("OPENQASM 3.0;\nqubit[2 q;\n", "needs `]`"),
        ("OPENQASM 3.0;\nqubit[2] ;\n", "needs a name"),
        (
            "OPENQASM 3.0;\nqubit[1] q;\nbit[1] c;\nif (c == 0) x q[0];\n",
            "needs a `{",
        ),
    ] {
        let err = qasm3::parse(src).unwrap_err().render();
        assert!(err.contains(needle), "for `{src}`: {err}");
    }
}

/// A comment whose line begins with `OPENQASM 3` does not pick the parser.
#[test]
fn a_comment_does_not_pick_the_parser() {
    let src = "\
/*
OPENQASM 3 was the original source language.
This file is the OpenQASM 2 translation.
*/
OPENQASM 2.0;
qreg q[1];
creg c[1];
h q[0];
measure q[0] -> c[0];
if(c==1) x q[0];
";
    assert!(
        !qasm3::is_openqasm3(src),
        "comment text must not select OpenQASM 3"
    );
    qasm::parse(src).expect("a valid OpenQASM 2 file must still parse");

    // And a real OpenQASM 3 header is still found when a comment precedes it.
    let three = "// a leading note\n/* and a block */\nOPENQASM 3.0;\nqubit[1] q;\n";
    assert!(qasm3::is_openqasm3(three));
}
