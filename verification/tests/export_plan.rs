//! The statements a circuit exports as.
use qsimulator::circuit::Gate;
use qsimulator::export::{free_qubit, QasmLine, QasmStmt};
use qsimulator::{Circuit, DensityError, ExportError};

/// The text of each fully written statement, or else its name and qubits.
fn names(plan: &[QasmStmt]) -> Vec<String> {
    plan.iter()
        .map(|s| match &s.line {
            QasmLine::Text(t) => t.iter().collect(),
            QasmLine::Gate { name, qubits, .. } => format!("{name} {qubits:?}"),
            QasmLine::ControlledU { .. } => "controlled-u".to_string(),
            QasmLine::MultiU { .. } => "multi-u".to_string(),
        })
        .collect()
}

#[test]
fn header_names_the_registers() {
    let mut c = Circuit::new(2);
    c.h(0).cnot(0, 1);
    let plan = c.qasm_plan().unwrap();
    assert_eq!(
        names(&plan),
        vec!["OPENQASM 2.0;", "include \"qelib1.inc\";", "qreg q[2];", "h [0]", "cx [0, 1]"]
    );
    let mut m = Circuit::new(2);
    m.measure_into(1, 0);
    let plan = m.qasm_plan().unwrap();
    assert_eq!(names(&plan)[3], "creg c[2];");
    assert_eq!(names(&plan)[4], "measure q[1] -> c[0];");
}

#[test]
fn a_guarded_block_guards_every_statement() {
    let mut block = Circuit::new(2);
    block.x(0).cz(0, 1);
    let mut c = Circuit::new(2);
    c.measure(0).if_classical_eq(1, block);
    let plan = c.qasm_plan().unwrap();
    let guards: Vec<Option<u64>> = plan.iter().map(|s| s.guard).collect();
    assert_eq!(guards[5..].to_vec(), vec![Some(1), Some(1)]);
}

#[test]
fn a_spare_qubit_gives_toffolis_only() {
    let mut c = Circuit::new(5);
    c.mcx(&[0, 1, 2], 3);
    let plan = c.qasm_plan().unwrap();
    let body = &plan[3..];
    assert!(!body.is_empty());
    for s in body {
        match &s.line {
            QasmLine::Gate { name, params, .. } => {
                assert!(["x", "cx", "ccx"].contains(name), "{name}");
                assert!(params.is_empty());
            }
            _ => panic!("a borrowed decomposition needs no square roots"),
        }
    }
    assert_eq!(free_qubit(5, &[0, 1, 2], 3), Some(4));
    assert_eq!(free_qubit(4, &[0, 1, 2], 3), None);
}

#[test]
fn no_spare_qubit_uses_square_roots() {
    let mut c = Circuit::new(4);
    c.mcx(&[0, 1, 2], 3);
    let plan = c.qasm_plan().unwrap();
    assert!(plan.iter().any(|s| matches!(&s.line, QasmLine::ControlledU { gate: Gate::SX, .. })));
    assert!(plan.iter().any(|s| matches!(&s.line, QasmLine::MultiU { gate: Gate::SX, .. })));
}

#[test]
fn noise_cannot_be_exported() {
    let mut c = Circuit::new(1);
    let identity = qsimulator::circuit::Matrix {
        parts: ["1", "0", "0", "0", "0", "0", "1", "0"].iter().map(|p| p.chars().collect()).collect(),
    };
    c.channel(vec![identity], 0);
    let err = c.qasm_plan().unwrap_err();
    assert_eq!(err, ExportError::Noise);
    assert_eq!(
        err.render(),
        "cannot export a noise channel to OpenQASM 2, which has no syntax for one"
    );
}

#[test]
fn the_density_backend_refuses_what_it_cannot_hold() {
    let big = Circuit::new(13);
    assert_eq!(
        big.density_admits(),
        Err(DensityError::TooManyQubits { qubits: 13, max: 12 })
    );
    assert_eq!(
        DensityError::TooManyQubits { qubits: 13, max: 12 }.render(),
        "a density matrix for 13 qubits is 4^13 entries, over the maximum of 12"
    );
    let mut ff = Circuit::new(2);
    let mut block = Circuit::new(2);
    block.x(1);
    ff.h(0).measure(0).if_classical_eq(1, block);
    assert_eq!(ff.density_admits(), Err(DensityError::ClassicalFeedForward));
    assert!(DensityError::ClassicalFeedForward.render().contains("sample it instead"));
    assert_eq!(Circuit::new(3).density_admits(), Ok(()));
}

/// Run Toffoli-level statements on one basis state.
fn run_bits(plan: &[QasmStmt], bits: &mut [bool]) {
    for s in plan {
        if let QasmLine::Gate { qubits, .. } = &s.line {
            let (target, controls) = qubits.split_last().unwrap();
            if controls.iter().all(|q| bits[*q]) {
                bits[*target] = !bits[*target];
            }
        }
    }
}

#[test]
fn the_borrowed_network_flips_the_target_and_restores_the_rest() {
    let controls = [0, 2, 4, 5];
    let target = 1;
    let mut c = Circuit::new(7);
    c.mcx(&controls, target);
    let plan = c.qasm_plan().unwrap();
    let body = &plan[3..];
    for state in 0u32..128 {
        let before: Vec<bool> = (0..7).map(|q| state >> q & 1 == 1).collect();
        let mut after = before.clone();
        run_bits(body, &mut after);
        let all = controls.iter().all(|q| before[*q]);
        for q in 0..7 {
            if q == target {
                assert_eq!(after[q], before[q] != all, "state {state:07b}");
            } else {
                assert_eq!(after[q], before[q], "qubit {q} of state {state:07b}");
            }
        }
    }
}

#[test]
fn the_export_names_no_qubit_outside_the_register() {
    for n in 4..7 {
        let mut c = Circuit::new(n);
        c.mcx(&[0, 1, 2], 3).mcu(Gate::H, &[0, 1], n - 1);
        for s in c.qasm_plan().unwrap() {
            match &s.line {
                QasmLine::Gate { qubits, .. } => assert!(qubits.iter().all(|q| *q < n), "{qubits:?}"),
                QasmLine::ControlledU { control, target, .. } => assert!(*control < n && *target < n),
                QasmLine::MultiU { controls, target, .. } => {
                    assert!(controls.iter().all(|q| *q < n) && *target < n)
                }
                QasmLine::Text(_) => {}
            }
        }
    }
}

/// Count the square roots of X applied to the target on one basis state,
/// running the Toffoli-level statements on the bits as they come.
fn run_turns(plan: &[QasmStmt], bits: &mut [bool]) -> i32 {
    let mut turns = 0;
    for s in plan {
        match &s.line {
            QasmLine::Gate { qubits, .. } => {
                let (target, controls) = qubits.split_last().unwrap();
                if controls.iter().all(|q| bits[*q]) {
                    bits[*target] = !bits[*target];
                }
            }
            QasmLine::ControlledU { gate, control, .. } => {
                if bits[*control] {
                    turns += if matches!(gate, Gate::SX) { 1 } else { -1 };
                }
            }
            QasmLine::MultiU { gate, controls, .. } => {
                if controls.iter().all(|q| bits[*q]) {
                    turns += if matches!(gate, Gate::SX) { 1 } else { -1 };
                }
            }
            QasmLine::Text(_) => {}
        }
    }
    turns
}

#[test]
fn the_square_root_network_is_one_x_exactly_when_every_control_is_set() {
    let controls = [0, 1, 3, 4];
    let target = 2;
    let mut c = Circuit::new(5);
    c.mcx(&controls, target);
    let plan = c.qasm_plan().unwrap();
    let body = &plan[3..];
    assert!(matches!(&body[0].line, QasmLine::ControlledU { gate: Gate::SX, control: 4, target: 2 }));
    for state in 0u32..32 {
        let before: Vec<bool> = (0..5).map(|q| state >> q & 1 == 1).collect();
        let mut after = before.clone();
        let turns = run_turns(body, &mut after);
        let all = controls.iter().all(|q| before[*q]);
        assert_eq!(turns, if all { 2 } else { 0 }, "state {state:05b}");
        assert_eq!(after, before, "state {state:05b}");
    }
}
