//! The OpenQASM 2 importer: what it refuses, and why.
use qsimulator::qasm;

#[test]
fn error_u3_wrong_angle_count() {
    let err = qasm::parse("qreg q[1];\nu3(pi,0) q[0];\n")
        .unwrap_err()
        .render();
    assert!(err.contains("3 angle(s)"), "{err}");
}

#[test]
fn error_unsupported_gate() {
    let err = qasm::parse("qreg q[1];\nnotagate q[0];\n")
        .unwrap_err()
        .render();
    assert!(err.contains("unsupported gate `notagate`"), "{err}");
}

#[test]
fn error_unsupported_feature() {
    let err = qasm::parse("qreg q[1];\nopaque mystery a;\n")
        .unwrap_err()
        .render();
    assert!(
        err.contains("unsupported OpenQASM feature `opaque`"),
        "{err}"
    );
}

#[test]
fn error_no_qreg() {
    let err = qasm::parse("OPENQASM 2.0;\nh q[0];\n")
        .unwrap_err()
        .render();
    assert!(
        err.contains("no `qreg`") || err.contains("unknown register"),
        "{err}"
    );
}

#[test]
fn qasm_error_qubit_out_of_range() {
    let err = qasm::parse("qreg q[2];\nx q[5];\n")
        .unwrap_err()
        .render();
    assert!(err.contains("out of range"), "{err}");
}

#[test]
fn error_unknown_register() {
    let err = qasm::parse("qreg q[2];\nx r[0];\n")
        .unwrap_err()
        .render();
    assert!(err.contains("unknown register `r`"), "{err}");
}

#[test]
fn error_reversed_brackets_in_qreg() {
    let err = qasm::parse("qreg q]3[;\n").unwrap_err().render();
    assert!(err.contains("malformed register declaration"), "{err}");
}

#[test]
fn error_reversed_brackets_in_operand() {
    let err = qasm::parse("qreg q[2];\nx q]0[;\n")
        .unwrap_err()
        .render();
    assert!(err.contains("malformed qubit reference"), "{err}");
}

#[test]
fn error_register_too_large() {
    let err = qasm::parse("qreg q[40];\n").unwrap_err().render();
    assert!(err.contains("exceeds the maximum"), "{err}");
}

#[test]
fn error_register_sizes_do_not_overflow() {
    let huge = usize::MAX;
    let err = qasm::parse(&format!("qreg a[{huge}];\nqreg b[{huge}];\n"))
        .unwrap_err()
        .render();
    assert!(err.contains("exceeds the maximum"), "{err}");
}

/// A `gate` body ends at its closing brace, so a `qreg` after it is seen.
#[test]
fn gate_block_before_qreg_finds_the_register() {
    let src = "OPENQASM 2.0;\ngate g a { h a; }\nqreg q[1];\nh q[0];\n";
    let c = qasm::parse(src).expect("the qreg after a gate body must be seen");
    assert_eq!(c.n_qubits(), 1);
}

#[test]
fn unbalanced_braces_are_reported() {
    let open = qasm::parse("OPENQASM 2.0;\ngate g a { h a;\nqreg q[1];\n")
        .unwrap_err()
        .render();
    assert!(open.contains("unterminated `{`"), "{open}");

    let close = qasm::parse("OPENQASM 2.0;\nqreg q[1];\n}\n")
        .unwrap_err()
        .render();
    assert!(close.contains("unexpected `}`"), "{close}");
}

#[test]
fn gate_declaration_errors() {
    let cases = [
        (
            "gate g a,b { cx a,b; }\nqreg q[2];\ng q[0];",
            "takes 2 qubit(s) and 0 angle(s)",
        ),
        (
            "gate g(t) a { u1(t) a; }\nqreg q[1];\ng q[0];",
            "takes 1 qubit(s) and 1 angle(s)",
        ),
        (
            "gate g a { cx a,zz; }\nqreg q[2];\ng q[0];",
            "not a qubit argument",
        ),
        (
            "gate g a { u1(nope) a; }\nqreg q[1];\ng q[0];",
            "unknown name",
        ),
        (
            "gate g a { h a; }\ngate g a { x a; }\nqreg q[1];\ng q[0];",
            "duplicate `gate g`",
        ),
        ("gate g { h a; }\nqreg q[1];", "at least one qubit argument"),
        (
            "gate g a,a { h a; }\nqreg q[1];\ng q[0];",
            "duplicate qubit argument",
        ),
        ("gate g a { g a; }\nqreg q[1];\ng q[0];", "recursive"),
    ];
    for (src, needle) in cases {
        let err = qasm::parse(src).unwrap_err().render();
        assert!(err.contains(needle), "for `{src}`: {err}");
    }
}

#[test]
fn exponential_expansion_is_bounded() {
    let mut src = String::from("gate g0 a { x a; }\n");
    for i in 1..40 {
        src.push_str(&format!("gate g{i} a {{ g{} a; g{} a; }}\n", i - 1, i - 1));
    }
    src.push_str("qreg q[1];\ng39 q[0];\n");

    let err = qasm::parse(&src).unwrap_err().render();
    assert!(err.contains("expands to more than"), "{err}");
}

#[test]
fn measure_errors() {
    for (src, needle) in [
        (
            "qreg q[1];\ncreg c[1];\nmeasure q[0];\n",
            "needs `-> target`",
        ),
        (
            "qreg q[1];\ncreg c[1];\nmeasure q[0] ->;\n",
            "classical target",
        ),
        (
            "qreg q[2];\ncreg c[2];\nmeasure q[0],q[1] -> c[0];\n",
            "expected one qubit",
        ),
    ] {
        let err = qasm::parse(src).unwrap_err().render();
        assert!(err.contains(needle), "for `{src}`: {err}");
    }
}

#[test]
fn conditional_errors() {
    for (src, needle) in [
        (
            "qreg q[1];\ncreg c[1];\nif c==0 x q[0];\n",
            "needs `(c==value)`",
        ),
        (
            "qreg q[1];\ncreg c[1];\nif(c=0) x q[0];\n",
            "compare with `==`",
        ),
        (
            "qreg q[1];\ncreg c[1];\nif(d==0) x q[0];\n",
            "unknown classical register",
        ),
        (
            "qreg q[1];\ncreg c[1];\nif(c==x) x q[0];\n",
            "non-negative integer",
        ),
        ("qreg q[1];\ncreg c[1];\nif(c==0)\n", "no statement"),
        (
            "qreg q[1];\ncreg c[1];\nif(c==0) measure q[0] -> c[0];\n",
            "only a gate may be conditional",
        ),
        (
            "qreg q[1];\ncreg c[4];\n",
            "more than the 1 qubits this engine models",
        ),
        (
            "qreg q[2];\ncreg c[2];\nmeasure q -> c[0];\n",
            "onto 1 classical bit",
        ),
    ] {
        let err = qasm::parse(src).unwrap_err().render();
        assert!(err.contains(needle), "for `{src}`: {err}");
    }
}

#[test]
fn declaration_errors() {
    for (src, needle) in [
        ("qreg q[1];\nqreg q[1];\n", "duplicate register"),
        (
            "qreg q[1];\ncreg c[1];\ncreg c[1];\n",
            "duplicate classical register",
        ),
        ("qreg q[0];\n", "size must be >= 1"),
        ("qreg q[1];\ngate { h a; }\n", "needs a name"),
        ("qreg q[1];\ngate g(1) a { h a; }\n", "invalid parameter"),
        ("qreg q[2];\ncx q[0],q[0];\n", "must be distinct qubits"),
        ("qreg q[1];\nreset ;\n", "expected a qubit"),
    ] {
        let err = qasm::parse(src).unwrap_err().render();
        assert!(err.contains(needle), "for `{src}`: {err}");
    }
}

#[test]
fn stripping_comments_leaves_none_and_is_stable() {
    for src in [
        "// leading\nqreg q[1]; /* inline */ x q[0]; // trailing\n/* multi\n line */\n",
        "a/ b/*c*/*d// e\nf",
        "x/*unterminated",
        "no slash here;\n",
    ] {
        let chars: Vec<char> = src.chars().collect();
        let once = qasm::strip_comments(&chars);
        let text: String = once.iter().collect();
        assert!(!text.contains("//") && !text.contains("/*"), "{text:?}");
        assert_eq!(qasm::strip_comments(&once), once);
        if !src.contains('/') {
            assert_eq!(once, chars);
        }
    }
    let kept: String = qasm::strip_comments(&"a/ b/*c*/*d// e\nf".chars().collect::<Vec<_>>()).iter().collect();
    assert_eq!(kept, "a/ b*d\nf");
}

#[test]
fn strips_line_and_block_comments() {
    let src = "\
// leading comment
qreg q[1]; /* inline */ x q[0]; // trailing
/* multi
   line */
";
    let stripped: String = qasm::strip_comments(&src.chars().collect::<Vec<_>>()).iter().collect();
    assert_eq!(stripped, "\nqreg q[1];  x q[0]; \n\n");
    let c = qasm::parse(src).expect("should parse");
    assert_eq!(c.n_qubits(), 1);
    assert_eq!(c.ops().len(), 1);
    assert!(matches!(
        c.ops()[0],
        qsimulator::circuit::Op::Gate(qsimulator::circuit::GateOp::Single { target: 0, .. })
    ));
}
