//! Pauli strings: products of single-qubit Paulis over named qubits, with the
//! identity everywhere else.
//!
//! `P|j>` is always a single basis state `c|j ^ flip_mask>`, where the
//! coefficient `c` is a power of `i`; that is what makes an expectation value
//! one pass over the amplitudes rather than a matrix product.
use vstd::prelude::*;

verus! {

/// A single-qubit Pauli operator.
#[derive(Debug, Clone, Copy, PartialEq, Eq, Structural)]
pub enum Pauli {
    /// The identity, which contributes nothing.
    I,
    /// Pauli-X.
    X,
    /// Pauli-Y.
    Y,
    /// Pauli-Z.
    Z,
}

/// A unit coefficient `i^k`: the factor a Pauli string multiplies a basis
/// state by.
#[derive(Debug, Clone, Copy, PartialEq, Eq, Structural)]
pub enum Phase {
    /// `1`
    One,
    /// `i`
    PlusI,
    /// `-1`
    MinusOne,
    /// `-i`
    MinusI,
}

/// The phase `i^k`.
pub open spec fn phase_of_power(k: nat) -> Phase {
    if k % 4 == 0 {
        Phase::One
    } else if k % 4 == 1 {
        Phase::PlusI
    } else if k % 4 == 2 {
        Phase::MinusOne
    } else {
        Phase::MinusI
    }
}

/// Whether `p` flips the bit of its qubit (X and Y do).
pub open spec fn flips(p: Pauli) -> bool {
    p == Pauli::X || p == Pauli::Y
}

/// The non-identity terms of `terms`, in order.
pub open spec fn non_identity(terms: Seq<(usize, Pauli)>) -> Seq<(usize, Pauli)> {
    terms.filter(|t: (usize, Pauli)| t.1 != Pauli::I)
}

/// No two of `terms` name the same qubit.
pub open spec fn distinct_qubits(terms: Seq<(usize, Pauli)>) -> bool {
    forall|i: int, j: int| 0 <= i < j < terms.len() ==> terms[i].0 != terms[j].0
}

/// The bits flipped by `terms`: the OR of `1 << q` over every term on qubit
/// `q` carrying X or Y.
pub open spec fn mask_of(terms: Seq<(usize, Pauli)>) -> usize
    decreases terms.len(),
{
    if terms.len() == 0 {
        0
    } else {
        let rest = mask_of(terms.drop_last());
        let t = terms.last();
        if flips(t.1) {
            rest | (1usize << t.0)
        } else {
            rest
        }
    }
}

/// Whether bit `q` of `basis` is set.
pub open spec fn bit_set(basis: usize, q: usize) -> bool {
    (basis >> q) & 1 == 1
}

/// The power of `i` in the coefficient of `terms` on `basis`: one per Y, and
/// two (a sign) per Z or Y whose qubit is set.
pub open spec fn i_power(terms: Seq<(usize, Pauli)>, basis: usize) -> nat
    decreases terms.len(),
{
    if terms.len() == 0 {
        0
    } else {
        let rest = i_power(terms.drop_last(), basis);
        let t = terms.last();
        let y: nat = if t.1 == Pauli::Y { 1 } else { 0 };
        let sign: nat = if (t.1 == Pauli::Z || t.1 == Pauli::Y) && bit_set(basis, t.0) {
            2
        } else {
            0
        };
        rest + y + sign
    }
}

/// A product of single-qubit Paulis, one per named qubit.
///
/// Qubits not named carry the identity; no qubit is named twice.
#[derive(Debug, Clone, PartialEq, Eq, Default)]
pub struct PauliString {
    terms: Vec<(usize, Pauli)>,
}

impl View for PauliString {
    type V = Seq<(usize, Pauli)>;

    closed spec fn view(&self) -> Seq<(usize, Pauli)> {
        self.terms@
    }
}

impl PauliString {
    /// Well formed: no identity term, and no qubit named twice.
    pub open spec fn wf(&self) -> bool {
        &&& forall|i: int| 0 <= i < self@.len() ==> #[trigger] self@[i].1 != Pauli::I
        &&& distinct_qubits(self@)
    }

    /// The identity: no terms.
    pub fn identity() -> (r: Self)
        ensures
            r@ == Seq::<(usize, Pauli)>::empty(),
            r.wf(),
    {
        PauliString { terms: Vec::new() }
    }

    /// Build from `(qubit, pauli)` pairs, dropping identities. No qubit may
    /// be named twice, identities included.
    pub fn new(terms: &[(usize, Pauli)]) -> (r: Self)
        requires
            distinct_qubits(terms@),
        ensures
            r@ == non_identity(terms@),
            r.wf(),
    {
        let mut kept: Vec<(usize, Pauli)> = Vec::new();
        let ghost mut from: Seq<int> = Seq::empty();
        let n = terms.len();
        for k in 0..n
            invariant
                n == terms@.len(),
                distinct_qubits(terms@),
                kept@ == non_identity(terms@.subrange(0, k as int)),
                forall|i: int| 0 <= i < kept@.len() ==> #[trigger] kept@[i].1 != Pauli::I,
                distinct_qubits(kept@),
                from.len() == kept@.len(),
                forall|i: int|
                    0 <= i < kept@.len() ==> 0 <= #[trigger] from[i] < k && kept@[i]
                        == terms@[from[i]],
        {
            let (qubit, pauli) = terms[k];
            proof {
                assert(terms@.subrange(0, k + 1).drop_last() == terms@.subrange(0, k as int));
                reveal_with_fuel(Seq::filter, 1);
            }
            if pauli != Pauli::I {
                proof {
                    assert forall|i: int| 0 <= i < kept@.len() implies #[trigger] kept@[i].0
                        != qubit by {
                        assert(terms@[from[i]].1 != Pauli::I);
                    }
                    from = from.push(k as int);
                }
                kept.push((qubit, pauli));
            }
        }
        proof {
            assert(terms@.subrange(0, n as int) == terms@);
        }
        PauliString { terms: kept }
    }

    /// The non-identity terms, as `(qubit, pauli)` pairs.
    pub fn terms(&self) -> (r: &[(usize, Pauli)])
        ensures
            r@ == self@,
    {
        self.terms.as_slice()
    }

    /// Highest qubit index named, or `None` for the identity.
    pub fn max_qubit(&self) -> (r: Option<usize>)
        ensures
            r is None <==> self@.len() == 0,
            r matches Some(m) ==> {
                &&& exists|i: int| 0 <= i < self@.len() && #[trigger] self@[i].0 == m
                &&& forall|i: int| 0 <= i < self@.len() ==> #[trigger] self@[i].0 <= m
            },
    {
        let mut best: Option<usize> = None;
        let n = self.terms.len();
        for k in 0..n
            invariant
                n == self@.len(),
                best is None <==> k == 0,
                best matches Some(m) ==> {
                    &&& exists|i: int| 0 <= i < k && #[trigger] self@[i].0 == m
                    &&& forall|i: int| 0 <= i < k ==> #[trigger] self@[i].0 <= m
                },
        {
            let q = self.terms[k].0;
            match best {
                Some(m) if m >= q => {},
                _ => {
                    best = Some(q);
                },
            }
        }
        best
    }

    /// The bits this string flips: the qubits carrying X or Y.
    pub fn flip_mask(&self) -> (r: usize)
        requires
            forall|i: int| 0 <= i < self@.len() ==> #[trigger] self@[i].0 < usize::BITS,
        ensures
            r == mask_of(self@),
    {
        let mut mask: usize = 0;
        let n = self.terms.len();
        for k in 0..n
            invariant
                n == self@.len(),
                forall|i: int| 0 <= i < self@.len() ==> #[trigger] self@[i].0 < usize::BITS,
                mask == mask_of(self@.subrange(0, k as int)),
        {
            let (q, p) = self.terms[k];
            proof {
                assert(self@.subrange(0, k + 1).drop_last() == self@.subrange(0, k as int));
                assert(self@[k as int].0 < usize::BITS);
            }
            if p == Pauli::X || p == Pauli::Y {
                mask = mask | (1usize << q);
            }
        }
        proof {
            assert(self@.subrange(0, n as int) == self@);
        }
        mask
    }

    /// The coefficient `c` in `P|basis> = c |basis ^ flip_mask>`, as a power
    /// of `i`.
    ///
    /// Z contributes `-1` when its qubit is set; Y contributes `i` when its
    /// qubit is clear and `-i` when set; X contributes nothing beyond the flip.
    pub fn coefficient(&self, basis: usize) -> (r: Phase)
        ensures
            r == phase_of_power(i_power(self@, basis)),
    {
        let mut power: u8 = 0;
        let n = self.terms.len();
        for k in 0..n
            invariant
                n == self@.len(),
                power < 4,
                power as nat == i_power(self@.subrange(0, k as int), basis) % 4,
        {
            let (q, p) = self.terms[k];
            proof {
                assert(self@.subrange(0, k + 1).drop_last() == self@.subrange(0, k as int));
            }
            let set = shr_bit(basis, q);
            let y: u8 = if p == Pauli::Y { 1 } else { 0 };
            let sign: u8 = if (p == Pauli::Z || p == Pauli::Y) && set { 2 } else { 0 };
            power = (power + y + sign) % 4;
        }
        proof {
            assert(self@.subrange(0, n as int) == self@);
        }
        match power {
            0 => Phase::One,
            1 => Phase::PlusI,
            2 => Phase::MinusOne,
            _ => Phase::MinusI,
        }
    }
}

/// Whether bit `q` of `basis` is set, for any `q` (a shift past the width
/// reads zero, as the bit does not exist).
fn shr_bit(basis: usize, q: usize) -> (r: bool)
    ensures
        r == bit_set(basis, q),
{
    if q >= usize::BITS as usize {
        proof {
            assert((basis >> q) & 1 != 1) by (bit_vector)
                requires q >= usize::BITS;
        }
        false
    } else {
        (basis >> q) & 1 == 1
    }
}

// ---------------------------------------------------------------------------
// What a coefficient is, term by term.
// ---------------------------------------------------------------------------

/// Whether bit `q` of `basis` is set, read arithmetically: the `q`-th binary
/// digit of the number. A position past the word's width holds no bit.
pub open spec fn digit_set(basis: usize, q: usize) -> bool {
    q < usize::BITS && (basis as nat / vstd::arithmetic::power2::pow2(q as nat)) % 2 == 1
}

/// The factor one Pauli contributes on a basis state whose bit on its qubit
/// is `set`: `I` and `X` give `1`; `Z` gives `-1` on a set bit and `1` on a
/// clear one; `Y` gives `-i` on a set bit and `i` on a clear one.
pub open spec fn term_phase(p: Pauli, set: bool) -> Phase {
    match p {
        Pauli::I | Pauli::X => Phase::One,
        Pauli::Z => if set {
            Phase::MinusOne
        } else {
            Phase::One
        },
        Pauli::Y => if set {
            Phase::MinusI
        } else {
            Phase::PlusI
        },
    }
}

/// The product of two units among `1`, `i`, `-1`, `-i`.
pub open spec fn phase_times(a: Phase, b: Phase) -> Phase {
    match (a, b) {
        (Phase::One, x) => x,
        (x, Phase::One) => x,
        (Phase::PlusI, Phase::PlusI) => Phase::MinusOne,
        (Phase::PlusI, Phase::MinusOne) => Phase::MinusI,
        (Phase::PlusI, Phase::MinusI) => Phase::One,
        (Phase::MinusOne, Phase::PlusI) => Phase::MinusI,
        (Phase::MinusOne, Phase::MinusOne) => Phase::One,
        (Phase::MinusOne, Phase::MinusI) => Phase::PlusI,
        (Phase::MinusI, Phase::PlusI) => Phase::One,
        (Phase::MinusI, Phase::MinusOne) => Phase::PlusI,
        (Phase::MinusI, Phase::MinusI) => Phase::MinusOne,
    }
}

/// `bit_set` reads the `q`-th binary digit of `basis`.
proof fn lemma_bit_set_is_digit(basis: usize, q: usize)
    ensures
        bit_set(basis, q) == digit_set(basis, q),
{
    if q < usize::BITS {
        vstd::bits::lemma_usize_shr_is_div(basis, q);
        let y = basis >> q;
        assert((y & 1 == 1) == (y % 2 == 1)) by (bit_vector);
    } else {
        assert((basis >> q) & 1 != 1) by (bit_vector)
            requires
                q >= usize::BITS,
        ;
    }
}

/// The coefficient of the identity string is `1` on every basis state.
pub proof fn lemma_identity_coefficient(basis: usize)
    ensures
        phase_of_power(i_power(Seq::empty(), basis)) == Phase::One,
{
}

/// Adding a term on a qubit multiplies the coefficient by that term's own
/// factor, read from the bit of `basis` on the term's qubit: so a string's
/// coefficient on `basis` is the product, over its terms, of `-1` for each
/// `Z` on a set bit, `i` for each `Y` on a clear bit and `-i` for each `Y`
/// on a set bit.
pub proof fn lemma_coefficient_of_term(terms: Seq<(usize, Pauli)>, q: usize, p: Pauli, basis: usize)
    ensures
        phase_of_power(i_power(terms.push((q, p)), basis)) == phase_times(
            phase_of_power(i_power(terms, basis)),
            term_phase(p, digit_set(basis, q)),
        ),
{
    lemma_bit_set_is_digit(basis, q);
    assert(terms.push((q, p)).drop_last() == terms);
    let k = i_power(terms, basis);
    assert(k % 4 == 0 || k % 4 == 1 || k % 4 == 2 || k % 4 == 3);
    assert((k + 1) % 4 == (k % 4 + 1) % 4);
    assert((k + 2) % 4 == (k % 4 + 2) % 4);
    assert((k + 3) % 4 == (k % 4 + 3) % 4);
}

/// A single term's coefficient is its own factor: `Z` on qubit `q` gives
/// `-1` exactly when bit `q` of `basis` is set, `Y` gives `i` on a clear bit
/// and `-i` on a set one, and `X` and `I` give `1`.
pub proof fn lemma_single_term_coefficient(q: usize, p: Pauli, basis: usize)
    ensures
        phase_of_power(i_power(seq![(q, p)], basis)) == term_phase(p, digit_set(basis, q)),
{
    lemma_coefficient_of_term(Seq::empty(), q, p, basis);
    assert(Seq::<(usize, Pauli)>::empty().push((q, p)) == seq![(q, p)]);
}

/// The identity string flips no bit.
pub proof fn lemma_identity_flips_nothing(r: usize)
    ensures
        !digit_set(mask_of(Seq::empty()), r),
{
    lemma_bit_set_is_digit(0, r);
    assert((0usize >> r) & 1 != 1) by (bit_vector);
}

/// Adding a term flips bit `q` of the mask when the term is an `X` or a
/// `Y` on qubit `q`, and leaves every other bit as it was: so bit `r` of a
/// string's flip mask is set exactly when the string carries an `X` or a
/// `Y` on qubit `r`.
pub proof fn lemma_flip_mask_of_term(terms: Seq<(usize, Pauli)>, q: usize, p: Pauli, r: usize)
    requires
        q < usize::BITS,
    ensures
        digit_set(mask_of(terms.push((q, p))), r) == (digit_set(mask_of(terms), r) || (r == q && (p
            == Pauli::X || p == Pauli::Y))),
{
    assert(terms.push((q, p)).drop_last() == terms);
    let m = mask_of(terms);
    let m2 = mask_of(terms.push((q, p)));
    lemma_bit_set_is_digit(m, r);
    lemma_bit_set_is_digit(m2, r);
    if p == Pauli::X || p == Pauli::Y {
        assert(m2 == m | (1usize << q));
        assert((((m | (1usize << q)) >> r) & 1 == 1) == (((m >> r) & 1 == 1) || r == q)) by (bit_vector)
            requires
                q < usize::BITS,
        ;
    }
}

} // verus!
