//! The parsers never panic: they only ever return `Ok` or `Err`.
use qsimulator::{program, qasm, Rng};

/// Build a pseudo-random string from a small alphabet biased toward the tokens
/// the parsers recognize, so the inputs reach deep into the grammar rather
/// than bouncing off the first byte.
fn random_input(rng: &mut Rng, tokens: usize) -> String {
    const ALPHABET: &[&str] = &[
        "OPENQASM", "2.0", "qreg", "creg", "qubits", "q", "r", "c", "h", "x", "y", "z", "s", "t",
        "sdg", "tdg", "rx", "ry", "rz", "p", "u1", "u2", "u3", "cx", "cz", "crz", "cu1", "cp",
        "swap", "ccx", "cnot", "toffoli", "measure", "barrier", "sample", "include", "pi", "->",
        "[", "]", "(", ")", ",", ";", "0", "1", "2", "40", "-", "/", ".", "#", "//", "/*", "*/",
        "\"", " ", "\n",
    ];
    let mut s = String::new();
    for _ in 0..tokens {
        let idx = (rng.next_u64() % ALPHABET.len() as u64) as usize;
        s.push_str(ALPHABET[idx]);
        s.push(' ');
    }
    s
}

#[test]
fn parsers_never_panic_on_random_input() {
    let mut rng = Rng::new(0xF00D_CAFE);
    for _ in 0..50_000 {
        let tokens = 1 + (rng.next_u64() % 40) as usize;
        let input = random_input(&mut rng, tokens);
        // The only contract under test: these return, they do not panic.
        let _ = program::parse(&input);
        let _ = qasm::parse(&input);
    }
}

#[test]
fn parsers_handle_pathological_bytes() {
    for input in [
        "",
        ";",
        ";;;;",
        "[]()",
        "q]0[",
        "qreg q]9[;",
        "OPENQASM",
        "qreg q[;",
        "qubits",
        "qubits -1",
        "rx(",
        "u3(,,)",
        "cx q[0],",
        "\n\n\n",
        "// only a comment",
        "/* unclosed",
        "qreg\0q[2];",
    ] {
        let _ = program::parse(input);
        let _ = qasm::parse(input);
    }
}
