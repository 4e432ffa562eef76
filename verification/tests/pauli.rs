//! Pauli strings: identities dropped, flips and phases per basis state.
use num_complex::Complex64;
use qsimulator::pauli::{Pauli, PauliString, Phase};

/// The complex number a phase stands for.
fn as_complex(p: Phase) -> Complex64 {
    match p {
        Phase::One => Complex64::new(1.0, 0.0),
        Phase::PlusI => Complex64::new(0.0, 1.0),
        Phase::MinusOne => Complex64::new(-1.0, 0.0),
        Phase::MinusI => Complex64::new(0.0, -1.0),
    }
}

#[test]
fn identities_are_dropped_but_the_string_still_works() {
    let p = PauliString::new(&[(0, Pauli::I), (1, Pauli::Z), (2, Pauli::I)]);
    assert_eq!(p.terms(), &[(1, Pauli::Z)]);
    assert_eq!(p.max_qubit(), Some(1));
    assert_eq!(PauliString::identity().max_qubit(), None);
}

#[test]
fn flip_mask_covers_x_and_y_only() {
    let p = PauliString::new(&[(0, Pauli::X), (1, Pauli::Y), (2, Pauli::Z)]);
    assert_eq!(p.flip_mask(), 0b011);
}

/// The coefficients are the Pauli matrices' own entries.
#[test]
fn coefficients_match_the_matrices() {
    let c = |re: f64, im: f64| Complex64::new(re, im);

    // Z|0> = |0>, Z|1> = -|1>.
    let z = PauliString::new(&[(0, Pauli::Z)]);
    assert_eq!(as_complex(z.coefficient(0b0)), c(1.0, 0.0));
    assert_eq!(as_complex(z.coefficient(0b1)), c(-1.0, 0.0));

    // Y|0> = i|1>, Y|1> = -i|0>.
    let y = PauliString::new(&[(0, Pauli::Y)]);
    assert_eq!(as_complex(y.coefficient(0b0)), c(0.0, 1.0));
    assert_eq!(as_complex(y.coefficient(0b1)), c(0.0, -1.0));

    // X carries no phase.
    let x = PauliString::new(&[(0, Pauli::X)]);
    assert_eq!(as_complex(x.coefficient(0b0)), c(1.0, 0.0));
    assert_eq!(as_complex(x.coefficient(0b1)), c(1.0, 0.0));

    // Two Ys give i^2 = -1 when both qubits are clear.
    let yy = PauliString::new(&[(0, Pauli::Y), (1, Pauli::Y)]);
    assert_eq!(as_complex(yy.coefficient(0b00)), c(-1.0, 0.0));
    // And both set flips the sign twice more, back to -1.
    assert_eq!(as_complex(yy.coefficient(0b11)), c(-1.0, 0.0));

    assert_eq!(as_complex(PauliString::identity().coefficient(0b101)), c(1.0, 0.0));
}
