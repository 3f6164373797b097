use vstd::prelude::*;

use crate::logical::error::LogicalError;
use crate::logical::qubit::{LogicalQubit, LogicalState};
use crate::surface::code::{valid_distance, SurfaceCode};
use crate::surface::error::QecError;

verus! {

/// Logical gates on encoded qubits.
#[derive(Debug, Clone, Copy, PartialEq, Eq, Structural)]
pub enum LogicalGate {
    X,
    Z,
    H,
    CNOT,
    Measure,
}

/// The tracked state after a single-qubit logical gate (`None` for CNOT,
/// which needs two qubits).
pub open spec fn gate_effect(gate: LogicalGate, s: LogicalState) -> Option<LogicalState> {
    match gate {
        LogicalGate::X => Some(
            match s {
                LogicalState::Zero => LogicalState::One,
                LogicalState::One => LogicalState::Zero,
                other => other,
            },
        ),
        LogicalGate::Z => Some(
            match s {
                LogicalState::Plus => LogicalState::Minus,
                LogicalState::Minus => LogicalState::Plus,
                other => other,
            },
        ),
        LogicalGate::H => Some(
            match s {
                LogicalState::Zero => LogicalState::Plus,
                LogicalState::One => LogicalState::Minus,
                LogicalState::Plus => LogicalState::Zero,
                LogicalState::Minus => LogicalState::One,
                LogicalState::Unknown => LogicalState::Unknown,
            },
        ),
        LogicalGate::CNOT => None,
        LogicalGate::Measure => Some(
            match s {
                LogicalState::Zero => LogicalState::Zero,
                LogicalState::One => LogicalState::One,
                _ => LogicalState::Unknown,
            },
        ),
    }
}

/// Applies a single-qubit logical gate to the tracked state (no simulation);
/// CNOT is refused and leaves the qubit unchanged.
pub fn apply_logical_gate(qubit: &mut LogicalQubit, gate: LogicalGate) -> (res: Result<(), LogicalError>)
    ensures
        final(qubit).id == old(qubit).id,
        final(qubit).code_type == old(qubit).code_type,
        final(qubit).num_physical_qubits == old(qubit).num_physical_qubits,
        match gate_effect(gate, old(qubit).state) {
            Some(s) => res is Ok && final(qubit).state == s,
            None => final(qubit).state == old(qubit).state && (res matches Err(LogicalError::UnsupportedOperation(
                msg,
            )) && msg@ == "CNOT requires two logical qubits"@),
        },
{
    match gate {
        LogicalGate::X => {
            qubit.state = match qubit.state {
                LogicalState::Zero => LogicalState::One,
                LogicalState::One => LogicalState::Zero,
                LogicalState::Plus => LogicalState::Plus,
                LogicalState::Minus => LogicalState::Minus,
                LogicalState::Unknown => LogicalState::Unknown,
            };
            Ok(())
        },
        LogicalGate::Z => {
            qubit.state = match qubit.state {
                LogicalState::Zero => LogicalState::Zero,
                LogicalState::One => LogicalState::One,
                LogicalState::Plus => LogicalState::Minus,
                LogicalState::Minus => LogicalState::Plus,
                LogicalState::Unknown => LogicalState::Unknown,
            };
            Ok(())
        },
        LogicalGate::H => {
            qubit.state = match qubit.state {
                LogicalState::Zero => LogicalState::Plus,
                LogicalState::One => LogicalState::Minus,
                LogicalState::Plus => LogicalState::Zero,
                LogicalState::Minus => LogicalState::One,
                LogicalState::Unknown => LogicalState::Unknown,
            };
            Ok(())
        },
        LogicalGate::CNOT => Err(LogicalError::UnsupportedOperation("CNOT requires two logical qubits".to_owned())),
        LogicalGate::Measure => {
            if qubit.state == LogicalState::Unknown || qubit.state == LogicalState::Plus || qubit.state
                == LogicalState::Minus {
                qubit.state = LogicalState::Unknown;
            }
            Ok(())
        },
    }
}

/// The tracked states of (control, target) after a logical CNOT: a |0>
/// control leaves both alone, a |1> control flips a |0>/|1> target, any other
/// control makes both unknown.
pub open spec fn cnot_effect(control: LogicalState, target: LogicalState) -> (LogicalState, LogicalState) {
    match control {
        LogicalState::Zero => (control, target),
        LogicalState::One => (
            control,
            match target {
                LogicalState::Zero => LogicalState::One,
                LogicalState::One => LogicalState::Zero,
                other => other,
            },
        ),
        _ => (LogicalState::Unknown, LogicalState::Unknown),
    }
}

/// Applies a logical CNOT between two qubits (state tracking only).
pub fn apply_logical_cnot(control: &mut LogicalQubit, target: &mut LogicalQubit) -> (res: Result<(), LogicalError>)
    ensures
        res is Ok,
        (final(control).state, final(target).state) == cnot_effect(old(control).state, old(target).state),
        final(control).id == old(control).id,
        final(control).code_type == old(control).code_type,
        final(control).num_physical_qubits == old(control).num_physical_qubits,
        final(target).id == old(target).id,
        final(target).code_type == old(target).code_type,
        final(target).num_physical_qubits == old(target).num_physical_qubits,
{
    match control.state {
        LogicalState::Zero => {},
        LogicalState::One => {
            target.state = match target.state {
                LogicalState::Zero => LogicalState::One,
                LogicalState::One => LogicalState::Zero,
                other => other,
            };
        },
        _ => {
            control.state = LogicalState::Unknown;
            target.state = LogicalState::Unknown;
        },
    }
    Ok(())
}

/// Physical resources needed for a number of logical qubits.
#[derive(Debug, Clone, PartialEq, Eq)]
pub struct LogicalResourceEstimate {
    pub physical_qubits_per_logical: usize,
    pub total_physical_qubits: usize,
    pub num_logical_qubits: usize,
    pub code_distance: usize,
}

/// Resources for `num_logical_qubits` logical qubits, each in its own
/// distance-`distance` surface code with all its data and measurement qubits.
pub fn estimate_resources(num_logical_qubits: usize, distance: usize) -> (res: Result<LogicalResourceEstimate, LogicalError>)
    requires
        valid_distance(distance as nat) ==> 2 * distance * distance <= usize::MAX,
        valid_distance(distance as nat) ==> (2 * distance * distance - 1) * num_logical_qubits <= usize::MAX,
    ensures
        !valid_distance(distance as nat) ==> res == Err::<LogicalResourceEstimate, LogicalError>(
            LogicalError::QecError(QecError::InvalidDistance(distance)),
        ),
        valid_distance(distance as nat) ==> res == Ok::<LogicalResourceEstimate, LogicalError>(
            LogicalResourceEstimate {
                physical_qubits_per_logical: (2 * distance * distance - 1) as usize,
                total_physical_qubits: ((2 * distance * distance - 1) * num_logical_qubits) as usize,
                num_logical_qubits,
                code_distance: distance,
            },
        ),
{
    let code = match SurfaceCode::new(distance) {
        Ok(c) => c,
        Err(e) => { return Err(LogicalError::QecError(e)); },
    };
    proof {
        crate::surface::code::lemma_qubit_counts(&code);
    }
    let phys_per_logical = code.total_qubits();
    Ok(LogicalResourceEstimate {
        physical_qubits_per_logical: phys_per_logical,
        total_physical_qubits: phys_per_logical * num_logical_qubits,
        num_logical_qubits,
        code_distance: distance,
    })
}

/// X, Z and H are involutions on the tracked state: applying one twice gives
/// back the state.
pub proof fn lemma_gate_involution(gate: LogicalGate, s: LogicalState)
    requires
        gate == LogicalGate::X || gate == LogicalGate::Z || gate == LogicalGate::H,
    ensures
        gate_effect(gate, gate_effect(gate, s).unwrap()) == Some(s),
{
}

/// Measuring twice is the same as measuring once.
pub proof fn lemma_measure_idempotent(s: LogicalState)
    ensures
        gate_effect(LogicalGate::Measure, gate_effect(LogicalGate::Measure, s).unwrap()) == gate_effect(
            LogicalGate::Measure,
            s,
        ),
{
}

/// A CNOT with a |0> control changes neither qubit.
pub proof fn lemma_cnot_zero_control(t: LogicalState)
    ensures
        cnot_effect(LogicalState::Zero, t) == (LogicalState::Zero, t),
{
}

/// A computational basis state: |0> or |1>.
pub open spec fn is_basis_state(s: LogicalState) -> bool {
    s == LogicalState::Zero || s == LogicalState::One
}

/// Measurement leaves a computational basis state as it is, and loses any
/// other state: the outcome is always |0>, |1> or unknown.
pub proof fn lemma_measure_keeps_basis_states(s: LogicalState)
    ensures
        is_basis_state(s) ==> gate_effect(LogicalGate::Measure, s) == Some(s),
        !is_basis_state(s) ==> gate_effect(LogicalGate::Measure, s) == Some(LogicalState::Unknown),
        gate_effect(LogicalGate::Measure, s) matches Some(t) && (is_basis_state(t) || t == LogicalState::Unknown),
{
}

/// X exchanges |0> and |1> and leaves every other state alone; Z exchanges
/// |+> and |->, leaves every other state alone. Neither turns a known state
/// into an unknown one.
pub proof fn lemma_pauli_effects(s: LogicalState)
    ensures
        is_basis_state(s) ==> (gate_effect(LogicalGate::X, s) matches Some(t) && is_basis_state(t) && t != s),
        !is_basis_state(s) ==> gate_effect(LogicalGate::X, s) == Some(s),
        (s == LogicalState::Plus || s == LogicalState::Minus) ==> (gate_effect(LogicalGate::Z, s) matches Some(t) && (t
            == LogicalState::Plus || t == LogicalState::Minus) && t != s),
        !(s == LogicalState::Plus || s == LogicalState::Minus) ==> gate_effect(LogicalGate::Z, s) == Some(s),
        s != LogicalState::Unknown ==> gate_effect(LogicalGate::X, s) != Some(LogicalState::Unknown)
            && gate_effect(LogicalGate::Z, s) != Some(LogicalState::Unknown),
{
}

/// H exchanges the two bases (|0> with |+>, |1> with |->), and conjugating X
/// by H gives Z.
pub proof fn lemma_hadamard_swaps_bases(s: LogicalState)
    ensures
        is_basis_state(s) ==> (gate_effect(LogicalGate::H, s) matches Some(t) && (t == LogicalState::Plus || t
            == LogicalState::Minus)),
        (s == LogicalState::Plus || s == LogicalState::Minus) ==> (gate_effect(LogicalGate::H, s) matches Some(t)
            && is_basis_state(t)),
        gate_effect(LogicalGate::H, gate_effect(LogicalGate::X, gate_effect(LogicalGate::H, s).unwrap()).unwrap())
            == gate_effect(LogicalGate::Z, s),
{
}

/// CNOT with a |1> control applies X to the target; with a basis-state
/// control it keeps the control, and applying it twice gives back both
/// states.
pub proof fn lemma_cnot_controls(c: LogicalState, t: LogicalState)
    ensures
        cnot_effect(LogicalState::One, t) == (LogicalState::One, gate_effect(LogicalGate::X, t).unwrap()),
        is_basis_state(c) ==> cnot_effect(c, t).0 == c,
        is_basis_state(c) ==> cnot_effect(cnot_effect(c, t).0, cnot_effect(c, t).1) == (c, t),
{
}

} // verus!
