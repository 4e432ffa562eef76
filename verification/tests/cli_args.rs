//! The command line's decisions.
use qsimulator::cli::{effective_sample, is_qasm_input, parse_args, Mode};
use qsimulator::program::SampleSpec;

fn args(v: &[&str]) -> Vec<String> {
    v.iter().map(|s| s.to_string()).collect()
}

#[test]
fn no_arguments_is_the_demo() {
    let cli = parse_args(&args(&[])).unwrap();
    assert_eq!(cli.mode, Mode::Demo);
    assert_eq!(parse_args(&args(&["-h"])).unwrap().mode, Mode::Help);
    assert_eq!(parse_args(&args(&["x.qsim", "--help"])).unwrap().mode, Mode::Help);
}

#[test]
fn a_file_with_flags_runs() {
    let cli = parse_args(&args(&["--shots", "10", "prog.qsim", "--seed", "+7"])).unwrap();
    assert_eq!(cli.mode, Mode::Run);
    assert_eq!(cli.path.as_deref(), Some("prog.qsim"));
    assert_eq!((cli.shots, cli.seed), (Some(10), Some(7)));
    let emit = parse_args(&args(&["--emit-qasm", "-"])).unwrap();
    assert_eq!(emit.mode, Mode::EmitQasm);
    assert_eq!(emit.path.as_deref(), Some("-"));
}

#[test]
fn bad_command_lines_are_named() {
    for (v, needle) in [
        (vec!["a", "b", "c"], "unexpected arguments"),
        (vec!["--emit-qasm", "--statevector", "f"], "exclusive"),
        (vec!["--shots"], "needs a value"),
        (vec!["--shots", "x", "f"], "invalid shot count `x`"),
        (vec!["--seed", "-1", "f"], "invalid seed `-1`"),
        (vec!["--bogus"], "unknown flag `--bogus`"),
        (vec!["--shots", "3"], "expected a program file"),
        (vec!["--statevector", "f", "--seed", "1"], "do not apply"),
    ] {
        let err = parse_args(&args(&v)).unwrap_err();
        assert!(err.contains(needle), "for {v:?}: {err}");
    }
}

#[test]
fn flags_override_the_sample_directive() {
    let spec = Some(SampleSpec { shots: 5, seed: 9 });
    assert_eq!(effective_sample(spec, None, None), Ok(spec));
    assert_eq!(effective_sample(spec, Some(3), None), Ok(Some(SampleSpec { shots: 3, seed: 9 })));
    assert_eq!(effective_sample(None, Some(3), None), Ok(Some(SampleSpec { shots: 3, seed: 0 })));
    assert_eq!(effective_sample(spec, None, Some(1)), Ok(Some(SampleSpec { shots: 5, seed: 1 })));
    assert!(effective_sample(None, None, Some(1)).unwrap_err().contains("`--seed` needs `--shots`"));
}

#[test]
fn openqasm_is_recognised_by_path_or_header() {
    assert!(is_qasm_input("bell.qasm", "qubits 2"));
    assert!(is_qasm_input("-", "  \nOPENQASM 2.0;\n"));
    assert!(!is_qasm_input("ghz.qsim", "qubits 3\n"));
    assert!(!is_qasm_input("qasm", "# OPENQASM\n"));
}
