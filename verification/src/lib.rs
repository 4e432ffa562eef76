//! A quantum circuit simulator's verified core: the seedable generator, Pauli
//! strings, the circuit structure, the text, OpenQASM 2 and OpenQASM 3 front
//! ends that build it, its ASCII diagram, its OpenQASM export and the proof
//! that the importer reads that export back, and the command line's
//! decisions.
pub mod circuit;
pub mod cli;
pub mod diagram;
pub mod error;
pub mod export;
pub mod expr;
pub mod laws;
pub mod pauli;
pub mod program;
pub mod qasm;
pub mod qasm3;
pub mod qelib;
pub mod rng;
pub mod roundtrip;
pub mod text;

pub use circuit::{Circuit, DensityError, ExportError};
pub use error::ParseError;
pub use rng::Rng;
