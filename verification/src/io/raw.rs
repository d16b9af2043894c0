//! The records of a parsed circuit document, before any validation.

use vstd::prelude::*;

verus! {

/// A whole document: the top-level circuit and its sub-circuit definitions.
#[derive(Debug, PartialEq)]
pub struct RawCircuit {
    pub xmlns: Option<String>,
    pub objects: Vec<RawObject>,
    pub connections: Vec<RawConnection>,
    pub settings: Vec<Setting>,
    pub customs: Option<Vec<CustomCircuitWrapper>>,
}

/// One object record. Which of the optional attributes may be present
/// depends on `kind`.
#[derive(Debug, Clone, PartialEq)]
pub struct RawObject {
    /// The kind tag: a fixed name, or the uid of a sub-circuit definition.
    pub kind: String,
    pub uid: String,
    /// Horizontal position, as the bit pattern of a binary64 number.
    pub x: u64,
    /// Vertical position, as the bit pattern of a binary64 number.
    pub y: u64,
    /// Rotation in degrees.
    pub rotation: u16,
    pub export_name: Option<String>,
    /// The initial value of an input, `true` or `false` in letters.
    pub outputs: Option<String>,
    /// The number of input ports of a gate.
    pub inputs: Option<u32>,
    pub text: Option<String>,
    /// Selects the reading of exclusive-or gates with more than two inputs.
    pub function_index: Option<u8>,
}

/// One wire: from output port `output_index` of the object `output_uid` to
/// input port `input_index` of the object `input_uid`.
#[derive(Clone, Debug, PartialEq)]
pub struct RawConnection {
    pub input_uid: String,
    pub output_uid: String,
    pub input_index: u32,
    pub output_index: u32,
    /// Routing points of the drawn wire.
    pub points: Option<String>,
}

/// A named setting of the document.
#[derive(Debug, PartialEq)]
pub struct Setting {
    pub name: String,
    pub value: String,
}

/// A sub-circuit definition as it stands in the document.
#[derive(Debug, Clone, PartialEq)]
pub struct CustomCircuitWrapper {
    pub name: String,
    pub uid: String,
    pub label: String,
    pub inner: RawCustomCircuit,
}

/// The body of a sub-circuit definition.
#[derive(Debug, Clone, PartialEq)]
pub struct RawCustomCircuit {
    pub objects: Vec<RawObject>,
    pub connections: Vec<RawConnection>,
    pub locations: Vec<Location>,
}

/// Where the ports of a sub-circuit are drawn on its instances.
#[derive(Clone, Debug, PartialEq)]
pub struct Location {
    pub id: String,
    pub uids: String,
}

} // verus!
