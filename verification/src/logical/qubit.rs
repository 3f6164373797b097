use vstd::prelude::*;

use crate::ldpc::code::CssCode;
use crate::logical::error::LogicalError;
use crate::surface::code::{valid_distance, SurfaceCode};
use crate::surface::error::QecError;

verus! {

/// Type of error-correcting code backing a logical qubit.
#[derive(Debug, Clone, PartialEq, Eq)]
pub enum CodeType {
    Surface { distance: usize },
    CssLdpc { name: String },
}

/// A logical qubit encoded in an error-correcting code.
#[derive(Debug, Clone)]
pub struct LogicalQubit {
    pub id: usize,
    pub code_type: CodeType,
    pub num_physical_qubits: usize,
    pub state: LogicalState,
}

/// Tracked logical state.
#[derive(Debug, Clone, Copy, PartialEq, Eq, Structural)]
pub enum LogicalState {
    Zero,
    One,
    Plus,
    Minus,
    Unknown,
}

impl LogicalQubit {
    /// A logical qubit in |0> of the distance-`distance` surface code, with
    /// one physical qubit per data qubit of the code.
    pub fn from_surface_code(id: usize, distance: usize) -> (res: Result<Self, LogicalError>)
        requires
            valid_distance(distance as nat) ==> 2 * distance * distance <= usize::MAX,
        ensures
            !valid_distance(distance as nat) ==> res == Err::<Self, LogicalError>(LogicalError::QecError(
                QecError::InvalidDistance(distance),
            )),
            valid_distance(distance as nat) ==> (res matches Ok(q) && q.id == id && q.code_type == (CodeType::Surface {
                distance,
            }) && q.num_physical_qubits == distance * distance && q.state == LogicalState::Zero),
    {
        let code = match SurfaceCode::new(distance) {
            Ok(c) => c,
            Err(e) => { return Err(LogicalError::QecError(e)); },
        };
        proof {
            crate::surface::code::lemma_qubit_counts(&code);
        }
        Ok(LogicalQubit {
            id,
            code_type: CodeType::Surface { distance },
            num_physical_qubits: code.num_data_qubits(),
            state: LogicalState::Zero,
        })
    }

    /// A logical qubit in |0> of a CSS code, with one physical qubit per
    /// column of Hx.
    pub fn from_css_code(id: usize, css: &CssCode) -> (q: Self)
        ensures
            q.id == id,
            q.code_type matches CodeType::CssLdpc { name } && name@ == css.name@,
            q.num_physical_qubits == css.hx.num_cols(),
            q.state == LogicalState::Zero,
    {
        LogicalQubit {
            id,
            code_type: CodeType::CssLdpc { name: css.name.clone() },
            num_physical_qubits: css.num_physical_qubits(),
            state: LogicalState::Zero,
        }
    }

    /// Number of physical qubits encoding this logical qubit.
    pub fn physical_qubit_count(&self) -> (n: usize)
        ensures
            n == self.num_physical_qubits,
    {
        self.num_physical_qubits
    }
}

} // verus!
