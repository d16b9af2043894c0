//! Why a netlist could not be built.

use crate::boundary::{join, joined, texts};
use crate::text::{decimal, decimal_text};
use vstd::prelude::*;
use vstd::string::*;

verus! {

/// The broad classes into which build failures fall.
#[derive(Debug, Clone, Copy, PartialEq, Eq, Structural)]
pub enum ErrorKind {
    /// A record's attributes do not fit the schema of any object kind.
    SchemaViolation,
    /// An enumerated attribute holds a value outside its closed set.
    UnsupportedValue,
    /// A uid is used that nothing in scope carries.
    UnresolvedReference,
    /// A connection ends on an object without input ports.
    InvalidConnectionTarget,
    /// A connection names a port that its target does not have.
    OutOfRangePort,
    /// Sub-circuit definitions depend on each other in a circle.
    DependencyCycle,
}

/// A failure of netlist construction. Every failure aborts the whole build.
#[derive(Debug, Clone, PartialEq, Eq)]
pub enum BuildError {
    /// The kind tag is neither a known kind nor a UUID.
    UnsupportedKind(String),
    /// A text that should name an input type names none.
    InvalidInputType(String),
    /// A text that should name a gate type names none.
    InvalidGateType(String),
    /// An input record carries an input count, a text or a function index.
    InvalidInput,
    /// A switch or push button lacks its initial value.
    MissingInitialValue,
    /// The initial value of an input is neither `true` nor `false`.
    UnsupportedOutputFlag(String),
    /// An output record carries an attribute besides its export name.
    InvalidOutput,
    /// A label lacks its text or carries an attribute besides it.
    InvalidLabel,
    /// A gate lacks its input count or carries a name, value or text.
    InvalidGate,
    /// A sub-circuit instance carries a name, value, input count or text.
    InvalidCustomGate,
    /// The rotation is not one of 0, 90, 180 and 270 degrees.
    UnsupportedRotation(u16),
    /// An instance names a sub-circuit that is not among the known ones;
    /// carries the uid of the instance.
    UnknownCustomCircuit(String),
    /// A connection names a uid that no object carries.
    UnknownObject,
    /// A connection ends on an input or a label.
    InvalidConnectionTarget,
    /// A connection names an input port beyond those of its target.
    PortOutOfRange,
    /// Sub-circuit definitions depend on each other in a circle; carries the
    /// uids along the circle, the first of them repeated at the end.
    DependencyCycle(Vec<String>),
    /// The search for a circle met a dependency on a uid that no definition
    /// carries.
    CycleNotFound,
}

impl BuildError {
    /// The class of this failure.
    pub open spec fn spec_kind(&self) -> ErrorKind {
        match *self {
            BuildError::UnsupportedKind(_) => ErrorKind::SchemaViolation,
            BuildError::InvalidInputType(_) => ErrorKind::UnsupportedValue,
            BuildError::InvalidGateType(_) => ErrorKind::UnsupportedValue,
            BuildError::InvalidInput => ErrorKind::SchemaViolation,
            BuildError::MissingInitialValue => ErrorKind::SchemaViolation,
            BuildError::UnsupportedOutputFlag(_) => ErrorKind::UnsupportedValue,
            BuildError::InvalidOutput => ErrorKind::SchemaViolation,
            BuildError::InvalidLabel => ErrorKind::SchemaViolation,
            BuildError::InvalidGate => ErrorKind::SchemaViolation,
            BuildError::InvalidCustomGate => ErrorKind::SchemaViolation,
            BuildError::UnsupportedRotation(_) => ErrorKind::UnsupportedValue,
            BuildError::UnknownCustomCircuit(_) => ErrorKind::UnresolvedReference,
            BuildError::UnknownObject => ErrorKind::UnresolvedReference,
            BuildError::InvalidConnectionTarget => ErrorKind::InvalidConnectionTarget,
            BuildError::PortOutOfRange => ErrorKind::OutOfRangePort,
            BuildError::DependencyCycle(_) => ErrorKind::DependencyCycle,
            BuildError::CycleNotFound => ErrorKind::DependencyCycle,
        }
    }

    /// The class of this failure.
    #[verifier::when_used_as_spec(spec_kind)]
    pub fn kind(&self) -> (kind: ErrorKind)
        ensures
            kind == self.spec_kind(),
    {
        match self {
            BuildError::UnsupportedKind(_) => ErrorKind::SchemaViolation,
            BuildError::InvalidInputType(_) => ErrorKind::UnsupportedValue,
            BuildError::InvalidGateType(_) => ErrorKind::UnsupportedValue,
            BuildError::InvalidInput => ErrorKind::SchemaViolation,
            BuildError::MissingInitialValue => ErrorKind::SchemaViolation,
            BuildError::UnsupportedOutputFlag(_) => ErrorKind::UnsupportedValue,
            BuildError::InvalidOutput => ErrorKind::SchemaViolation,
            BuildError::InvalidLabel => ErrorKind::SchemaViolation,
            BuildError::InvalidGate => ErrorKind::SchemaViolation,
            BuildError::InvalidCustomGate => ErrorKind::SchemaViolation,
            BuildError::UnsupportedRotation(_) => ErrorKind::UnsupportedValue,
            BuildError::UnknownCustomCircuit(_) => ErrorKind::UnresolvedReference,
            BuildError::UnknownObject => ErrorKind::UnresolvedReference,
            BuildError::InvalidConnectionTarget => ErrorKind::InvalidConnectionTarget,
            BuildError::PortOutOfRange => ErrorKind::OutOfRangePort,
            BuildError::DependencyCycle(_) => ErrorKind::DependencyCycle,
            BuildError::CycleNotFound => ErrorKind::DependencyCycle,
        }
    }
}

impl BuildError {
    /// The text that describes this failure.
    pub open spec fn message_text(self) -> Seq<char> {
        match self {
            BuildError::UnsupportedKind(kind) => "Unsupported object type "@ + kind@,
            BuildError::InvalidInputType(text) => "invalid type "@ + text@,
            BuildError::InvalidGateType(text) => "invalid type for simple gate: "@ + text@,
            BuildError::InvalidInput => "Invalid gate: unexpected property"@,
            BuildError::MissingInitialValue => "Invalid gate"@,
            BuildError::UnsupportedOutputFlag(flag) =>
                "invalid output field in object: expected 'true' or 'false', not "@ + flag@,
            BuildError::InvalidOutput => "Invalid light bulb"@,
            BuildError::InvalidLabel => "Invalid label: attributes are invalid"@,
            BuildError::InvalidGate => "Invalid gate: attributes are invalid"@,
            BuildError::InvalidCustomGate => "Invalid custom gate: attributes are invalid"@,
            BuildError::UnsupportedRotation(angle) => "Unsupported rotation "@ + decimal(
                angle as nat,
            ),
            BuildError::UnknownCustomCircuit(uid) => "Unknown custom circuit "@ + uid@,
            BuildError::UnknownObject => "UUID does not correspond to any known object"@,
            BuildError::InvalidConnectionTarget =>
                "Invalid connection: cannot connect an output or a label to something else"@,
            BuildError::PortOutOfRange => "Invalid connection: the input port is out of range"@,
            BuildError::DependencyCycle(path) => "Circuit contains a dependency cycle: "@ + joined(
                texts(path@),
                " -> "@,
            ),
            BuildError::CycleNotFound => "Circuit contains a dependency cycle: failed to find it"@,
        }
    }

    /// Describes this failure in words.
    pub fn message(&self) -> (text: String)
        ensures
            text@ == self.message_text(),
    {
        match self {
            BuildError::UnsupportedKind(kind) => String::from_str("Unsupported object type ").concat(
                kind.as_str(),
            ),
            BuildError::InvalidInputType(text) => String::from_str("invalid type ").concat(
                text.as_str(),
            ),
            BuildError::InvalidGateType(text) => String::from_str(
                "invalid type for simple gate: ",
            ).concat(text.as_str()),
            BuildError::InvalidInput => String::from_str("Invalid gate: unexpected property"),
            BuildError::MissingInitialValue => String::from_str("Invalid gate"),
            BuildError::UnsupportedOutputFlag(flag) => String::from_str(
                "invalid output field in object: expected 'true' or 'false', not ",
            ).concat(flag.as_str()),
            BuildError::InvalidOutput => String::from_str("Invalid light bulb"),
            BuildError::InvalidLabel => String::from_str("Invalid label: attributes are invalid"),
            BuildError::InvalidGate => String::from_str("Invalid gate: attributes are invalid"),
            BuildError::InvalidCustomGate => String::from_str(
                "Invalid custom gate: attributes are invalid",
            ),
            BuildError::UnsupportedRotation(angle) => {
                let number = decimal_text(*angle as u64);
                String::from_str("Unsupported rotation ").concat(number.as_str())
            },
            BuildError::UnknownCustomCircuit(uid) => String::from_str(
                "Unknown custom circuit ",
            ).concat(uid.as_str()),
            BuildError::UnknownObject => String::from_str(
                "UUID does not correspond to any known object",
            ),
            BuildError::InvalidConnectionTarget => String::from_str(
                "Invalid connection: cannot connect an output or a label to something else",
            ),
            BuildError::PortOutOfRange => String::from_str(
                "Invalid connection: the input port is out of range",
            ),
            BuildError::DependencyCycle(path) => {
                let chain = join(path, " -> ");
                String::from_str("Circuit contains a dependency cycle: ").concat(chain.as_str())
            },
            BuildError::CycleNotFound => String::from_str(
                "Circuit contains a dependency cycle: failed to find it",
            ),
        }
    }
}

} // verus!
