# qsimulator

A state-vector quantum circuit simulator whose circuit logic is written in
Verus and proved against its specifications.

## Layout

- `src/` — the verified library. A circuit is exact data: gates are kept by
  name and their angles as expressions, so everything that decides what a
  circuit *is* can be stated and proved.
  - `circuit.rs` — the circuit and its builder methods.
  - `expr.rs` — angle expressions and their syntax.
  - `program.rs` — the line-based text program format.
  - `qasm.rs`, `qelib.rs` — the OpenQASM 2.0 importer, with `gate`
    declarations, registers, measurement, reset and `if`.
  - `qasm3.rs` — the OpenQASM 3 subset, rewritten into OpenQASM 2.
  - `export.rs` — the statements a circuit exports as, including the
    decomposition of multi-controlled gates.
  - `roundtrip.rs` — the text of an exported program, and the proof that a
    circuit whose export prints no number is rebuilt exactly by importing it.
  - `diagram.rs` — the ASCII circuit diagram.
  - `pauli.rs`, `rng.rs`, `cli.rs`, `error.rs`, `text.rs` — Pauli strings, the
    seedable generator, the command line's decisions, errors, and the
    character-sequence helpers the parsers share.
  - `laws.rs` — properties of the library as a whole: imported and parsed
    circuits stay in their register, the export allocates no qubit, its
    borrowed-qubit Toffoli networks compute what they stand for and its
    square-root networks apply `sx` twice exactly when every control is set,
    the importer's output is bounded by its budget, removing comments leaves
    none behind and is stable, the diagram's rows line
    up, the generator never sticks at zero.
- `app/` — the command-line program and the numerics: gate matrices, the state
  vector, the density matrix, noise channels, angle values, sampling, and the
  printing of exported angles.
- `tests/` — tests of the library through its public interface.
