//! A call that fails leaves the circuit and the expansion budget as they
//! were.
use qsimulator::expr::Angle;
use qsimulator::qasm::{apply_resolved, expand_user_gate, GateDef};
use qsimulator::qelib::apply_builtin;
use qsimulator::Circuit;

fn chars(s: &str) -> Vec<char> {
    s.chars().collect()
}

fn text(v: &[char]) -> String {
    v.iter().collect()
}

#[test]
fn a_wrong_angle_count_appends_nothing() {
    let mut c = Circuit::new(1);
    let angles = [Angle::pi(), Angle::zero()];
    let err = apply_builtin(&mut c, &chars("u3"), &angles, &[0], &chars("u3(pi,0) q[0]")).unwrap_err();
    assert_eq!(text(&err), "`u3` takes 3 angle(s), got 2 in `u3(pi,0) q[0]`");
    assert!(c.ops().is_empty());
}

#[test]
fn a_recursive_declaration_appends_nothing_and_spends_nothing() {
    let def = GateDef { params: vec![], qargs: vec![chars("a")], body: vec![chars("g a")] };
    let defs = vec![(chars("g"), GateDef { params: vec![], qargs: vec![chars("a")], body: vec![chars("g a")] })];
    let mut c = Circuit::new(1);
    let mut budget: usize = 100_000;
    let err = expand_user_gate(&mut c, &chars("g"), &def, &[], &[0], &defs, &mut budget, 0, &chars("g q[0]")).unwrap_err();
    assert!(text(&err).contains("recursive"), "{}", text(&err));
    assert!(c.ops().is_empty());
    assert_eq!(budget, 100_000);
}

#[test]
fn a_body_that_fails_halfway_takes_back_what_it_appended() {
    let defs = vec![(chars("g"), GateDef { params: vec![], qargs: vec![chars("a")], body: vec![chars("x a"), chars("h a"), chars("nope a")] })];
    let mut c = Circuit::new(1);
    c.z(0);
    let before = format!("{:?}", c.ops());
    let mut budget: usize = 10;
    let err = apply_resolved(&mut c, &chars("g"), &[], &[0], &defs, &mut budget, 0, &chars("g q[0]")).unwrap_err();
    assert!(text(&err).contains("unsupported gate `nope`"), "{}", text(&err));
    assert_eq!(format!("{:?}", c.ops()), before);
    assert_eq!(budget, 10);
}
