use vstd::prelude::*;

verus! {

/// A quantum gate. A rotation carries its angle in radians as the bit
/// pattern of the IEEE 754 binary64 value, so that circuits can be built,
/// compared and analysed without floating-point arithmetic.
#[derive(Debug, Clone, Copy, PartialEq, Eq, Structural)]
pub enum Gate {
    H,
    X,
    Y,
    Z,
    S,
    T,
    Rx(u64),
    Ry(u64),
    Rz(u64),
    CNOT,
    CZ,
    Measure,
}

/// Number of qubits a gate acts on.
pub open spec fn arity(g: Gate) -> nat {
    match g {
        Gate::CNOT | Gate::CZ => 2,
        _ => 1,
    }
}

/// A rotation gate.
pub open spec fn parameterized(g: Gate) -> bool {
    g is Rx || g is Ry || g is Rz
}

/// A Clifford gate or a measurement.
pub open spec fn clifford(g: Gate) -> bool {
    match g {
        Gate::H | Gate::S | Gate::X | Gate::Y | Gate::Z | Gate::CNOT | Gate::CZ | Gate::Measure => true,
        _ => false,
    }
}

/// Upper-case name of a gate.
pub open spec fn gate_name(g: Gate) -> Seq<char> {
    match g {
        Gate::H => "H"@,
        Gate::X => "X"@,
        Gate::Y => "Y"@,
        Gate::Z => "Z"@,
        Gate::S => "S"@,
        Gate::T => "T"@,
        Gate::Rx(_) => "RX"@,
        Gate::Ry(_) => "RY"@,
        Gate::Rz(_) => "RZ"@,
        Gate::CNOT => "CNOT"@,
        Gate::CZ => "CZ"@,
        Gate::Measure => "MEASURE"@,
    }
}

impl Gate {
    /// Number of qubits acted on: two for CNOT and CZ, one otherwise.
    pub fn num_qubits(&self) -> (n: usize)
        ensures
            n == arity(*self),
    {
        match self {
            Gate::CNOT | Gate::CZ => 2,
            _ => 1,
        }
    }

    /// Whether this is a rotation with an angle.
    pub fn is_parameterized(&self) -> (b: bool)
        ensures
            b == parameterized(*self),
    {
        match self {
            Gate::Rx(_) | Gate::Ry(_) | Gate::Rz(_) => true,
            _ => false,
        }
    }

    /// Whether this is a measurement.
    pub fn is_measurement(&self) -> (b: bool)
        ensures
            b == (*self == Gate::Measure),
    {
        match self {
            Gate::Measure => true,
            _ => false,
        }
    }

    /// Upper-case name, as the text format spells it.
    pub fn name(&self) -> (s: &'static str)
        ensures
            s@ == gate_name(*self),
    {
        match self {
            Gate::H => "H",
            Gate::X => "X",
            Gate::Y => "Y",
            Gate::Z => "Z",
            Gate::S => "S",
            Gate::T => "T",
            Gate::Rx(_) => "RX",
            Gate::Ry(_) => "RY",
            Gate::Rz(_) => "RZ",
            Gate::CNOT => "CNOT",
            Gate::CZ => "CZ",
            Gate::Measure => "MEASURE",
        }
    }
}

} // verus!
