//! Reading one record: which kind of object it describes, and whether its
//! attributes are exactly those that the kind allows.

use super::error::BuildError;
use super::netlist::{
    count_named_inputs, count_named_outputs, named_input_count, named_output_count, unconnected,
    Connection, CustomCircuit, InputType, Object, ObjectInner, Rotation, SimpleGateType, XorType,
};
use super::raw::RawObject;
use crate::boundary::{is_uuid, uuid_format};
use vstd::prelude::*;

verus! {

/// The direction that an angle in degrees stands for.
pub open spec fn rotation_of(angle: u16) -> Option<Rotation> {
    if angle == 0 {
        Some(Rotation::Right)
    } else if angle == 90 {
        Some(Rotation::Down)
    } else if angle == 180 {
        Some(Rotation::Left)
    } else if angle == 270 {
        Some(Rotation::Up)
    } else {
        None
    }
}

/// The input type that a kind tag names, if it names one.
pub open spec fn input_type_of(kind: Seq<char>) -> Option<InputType> {
    if kind == "switch@logic.ly"@ {
        Some(InputType::Switch)
    } else if kind == "push_button@logic.ly"@ {
        Some(InputType::Button)
    } else if kind == "constant_high@logic.ly"@ {
        Some(InputType::True)
    } else if kind == "constant_low@logic.ly"@ {
        Some(InputType::False)
    } else {
        None
    }
}

/// The number of ports of the output that a kind tag names, if it names one.
pub open spec fn output_ports_of(kind: Seq<char>) -> Option<nat> {
    if kind == "light_bulb@logic.ly"@ {
        Some(1nat)
    } else if kind == "digit@logic.ly"@ {
        Some(4nat)
    } else {
        None
    }
}

/// Whether a kind tag names a label.
pub open spec fn is_label_kind(kind: Seq<char>) -> bool {
    kind == "label@logic.ly"@
}

/// Which simple gate a kind tag names, if it names one.
pub open spec fn gate_type_of(kind: Seq<char>) -> Option<SimpleGateType> {
    if kind == "buffer@logic.ly"@ {
        Some(SimpleGateType::Buffer)
    } else if kind == "not@logic.ly"@ {
        Some(SimpleGateType::Not)
    } else if kind == "and@logic.ly"@ {
        Some(SimpleGateType::And)
    } else if kind == "nand@logic.ly"@ {
        Some(SimpleGateType::Nand)
    } else if kind == "or@logic.ly"@ {
        Some(SimpleGateType::Or)
    } else if kind == "nor@logic.ly"@ {
        Some(SimpleGateType::Nor)
    } else if kind == "xor@logic.ly"@ {
        Some(SimpleGateType::Xor)
    } else if kind == "xnor@logic.ly"@ {
        Some(SimpleGateType::Xnor)
    } else {
        None
    }
}

impl Rotation {
    /// Reads a rotation from its angle in degrees.
    pub fn try_from(value: u16) -> (res: Result<Rotation, BuildError>)
        ensures
            res == match rotation_of(value) {
                Some(rotation) => Ok::<Rotation, BuildError>(rotation),
                None => Err(BuildError::UnsupportedRotation(value)),
            },
    {
        if value == 0 {
            Ok(Rotation::Right)
        } else if value == 90 {
            Ok(Rotation::Down)
        } else if value == 180 {
            Ok(Rotation::Left)
        } else if value == 270 {
            Ok(Rotation::Up)
        } else {
            Err(BuildError::UnsupportedRotation(value))
        }
    }
}

impl InputType {
    /// The input type that a kind tag names, if any.
    pub fn parse(value: &str) -> (res: Option<InputType>)
        ensures
            res == input_type_of(value@),
    {
        if value.eq("switch@logic.ly") {
            Some(InputType::Switch)
        } else if value.eq("push_button@logic.ly") {
            Some(InputType::Button)
        } else if value.eq("constant_high@logic.ly") {
            Some(InputType::True)
        } else if value.eq("constant_low@logic.ly") {
            Some(InputType::False)
        } else {
            None
        }
    }

    /// Reads an input type from its kind tag; any other text is refused
    /// and handed back in the error.
    pub fn try_from(value: &str) -> (res: Result<InputType, BuildError>)
        ensures
            match res {
                Ok(kind) => input_type_of(value@) == Some(kind),
                Err(BuildError::InvalidInputType(text)) => input_type_of(value@) is None && text@
                    == value@,
                Err(_) => false,
            },
    {
        match InputType::parse(value) {
            Some(kind) => Ok(kind),
            None => Err(BuildError::InvalidInputType(value.to_owned())),
        }
    }
}

impl SimpleGateType {
    /// Which simple gate a kind tag names, if any.
    pub fn parse(value: &str) -> (res: Option<SimpleGateType>)
        ensures
            res == gate_type_of(value@),
    {
        if value.eq("buffer@logic.ly") {
            Some(SimpleGateType::Buffer)
        } else if value.eq("not@logic.ly") {
            Some(SimpleGateType::Not)
        } else if value.eq("and@logic.ly") {
            Some(SimpleGateType::And)
        } else if value.eq("nand@logic.ly") {
            Some(SimpleGateType::Nand)
        } else if value.eq("or@logic.ly") {
            Some(SimpleGateType::Or)
        } else if value.eq("nor@logic.ly") {
            Some(SimpleGateType::Nor)
        } else if value.eq("xor@logic.ly") {
            Some(SimpleGateType::Xor)
        } else if value.eq("xnor@logic.ly") {
            Some(SimpleGateType::Xnor)
        } else {
            None
        }
    }

    /// Reads a gate type from its kind tag; any other text is refused and
    /// handed back in the error.
    pub fn try_from(value: &str) -> (res: Result<SimpleGateType, BuildError>)
        ensures
            match res {
                Ok(kind) => gate_type_of(value@) == Some(kind),
                Err(BuildError::InvalidGateType(text)) => gate_type_of(value@) is None && text@
                    == value@,
                Err(_) => false,
            },
    {
        match SimpleGateType::parse(value) {
            Some(kind) => Ok(kind),
            None => Err(BuildError::InvalidGateType(value.to_owned())),
        }
    }
}

/// The initial value of an input: what its `outputs` attribute says, or,
/// for a constant without that attribute, the constant itself.
pub open spec fn initial_value(flag: Option<String>, kind: InputType) -> Result<bool, BuildError> {
    match flag {
        Some(text) => if text@ == "false"@ {
            Ok(false)
        } else if text@ == "true"@ {
            Ok(true)
        } else {
            Err(BuildError::UnsupportedOutputFlag(text))
        },
        None => match kind {
            InputType::True => Ok(true),
            InputType::False => Ok(false),
            _ => Err(BuildError::MissingInitialValue),
        },
    }
}

/// The index of the sub-circuit that carries a uid. Where several carry
/// it, the last one counts.
pub open spec fn find_custom(customs: Seq<CustomCircuit>, uid: Seq<char>) -> Option<int>
    decreases customs.len(),
{
    if customs.len() == 0 {
        None
    } else if customs.last().uid@ == uid {
        Some(customs.len() - 1)
    } else {
        find_custom(customs.drop_last(), uid)
    }
}

/// `len` input ports with nothing connected.
pub open spec fn no_connections(len: nat) -> Seq<Connection> {
    Seq::new(len, |i: int| None::<(u32, usize)>)
}

/// Why a record is refused, or `None` if it is accepted. `is_uuid` says
/// whether the kind tag has the syntax of a UUID; it matters only for a
/// tag that is not one of the fixed names. The checks are made in this
/// order: the attributes that the kind forbids or requires, the
/// sub-circuit that an instance names, the rotation, the initial value of
/// an input.
pub open spec fn classify_failure(
    raw: RawObject,
    is_uuid: bool,
    customs: Seq<CustomCircuit>,
) -> Option<BuildError> {
    let kind = raw.kind@;
    let rotation_failure = if rotation_of(raw.rotation) is None {
        Some(BuildError::UnsupportedRotation(raw.rotation))
    } else {
        None
    };
    if input_type_of(kind) is Some {
        if raw.inputs is Some || raw.text is Some || raw.function_index is Some {
            Some(BuildError::InvalidInput)
        } else if rotation_failure is Some {
            rotation_failure
        } else {
            match initial_value(raw.outputs, input_type_of(kind)->0) {
                Ok(_) => None,
                Err(e) => Some(e),
            }
        }
    } else if output_ports_of(kind) is Some {
        if raw.outputs is Some || raw.inputs is Some || raw.text is Some || raw.function_index
            is Some {
            Some(BuildError::InvalidOutput)
        } else {
            rotation_failure
        }
    } else if is_label_kind(kind) {
        if raw.export_name is Some || raw.outputs is Some || raw.inputs is Some || raw.text
            is None || raw.function_index is Some {
            Some(BuildError::InvalidLabel)
        } else {
            rotation_failure
        }
    } else if gate_type_of(kind) is Some {
        if raw.export_name is Some || raw.outputs is Some || raw.inputs is None || raw.text
            is Some {
            Some(BuildError::InvalidGate)
        } else {
            rotation_failure
        }
    } else if is_uuid {
        if raw.export_name is Some || raw.outputs is Some || raw.inputs is Some || raw.text
            is Some {
            Some(BuildError::InvalidCustomGate)
        } else if find_custom(customs, kind) is None {
            Some(BuildError::UnknownCustomCircuit(raw.uid))
        } else {
            rotation_failure
        }
    } else {
        Some(BuildError::UnsupportedKind(raw.kind))
    }
}

/// The number of input ports of the object that a record describes: one
/// or four for an output, the `inputs` attribute for a gate, and for an
/// instance the number of named inputs of the sub-circuit it names.
pub open spec fn port_count(raw: RawObject, customs: Seq<CustomCircuit>) -> nat {
    let tag = raw.kind@;
    if input_type_of(tag) is Some {
        0
    } else if output_ports_of(tag) is Some {
        output_ports_of(tag)->0
    } else if is_label_kind(tag) {
        0
    } else if gate_type_of(tag) is Some {
        match raw.inputs {
            Some(ports) => ports as nat,
            None => 0,
        }
    } else {
        match find_custom(customs, tag) {
            Some(at) => count_named_inputs(customs[at].objects@),
            None => 0,
        }
    }
}

/// Whether the object that a record describes has input ports at all.
pub open spec fn takes_connections(raw: RawObject) -> bool {
    let tag = raw.kind@;
    if input_type_of(tag) is Some {
        false
    } else if output_ports_of(tag) is Some {
        true
    } else {
        !is_label_kind(tag)
    }
}

/// Whether `inner` is what an accepted record describes, with `slots` as
/// the sources of its input ports: the variant that its kind names, and
/// its attributes carried over.
pub open spec fn described_inner(
    raw: RawObject,
    customs: Seq<CustomCircuit>,
    slots: Seq<Connection>,
    inner: ObjectInner,
) -> bool {
    let tag = raw.kind@;
    if input_type_of(tag) is Some {
        &&& inner matches ObjectInner::Input { export_name, kind, value }
        &&& export_name == raw.export_name
        &&& Some(kind) == input_type_of(tag)
        &&& Ok::<bool, BuildError>(value) == initial_value(raw.outputs, kind)
    } else if output_ports_of(tag) is Some {
        &&& inner matches ObjectInner::Output { export_name, connections }
        &&& export_name == raw.export_name
        &&& connections@ == slots
    } else if is_label_kind(tag) {
        &&& inner matches ObjectInner::Label { text }
        &&& Some(text) == raw.text
    } else if gate_type_of(tag) is Some {
        &&& inner matches ObjectInner::SimpleGate { xor_type, kind, connections }
        &&& Some(kind) == gate_type_of(tag)
        &&& xor_type == if raw.function_index == Some(1u8) {
            XorType::One
        } else {
            XorType::Odd
        }
        &&& connections@ == slots
    } else {
        &&& inner matches ObjectInner::CustomGate { uuid, num_outputs, connections }
        &&& uuid == raw.kind
        &&& find_custom(customs, tag) matches Some(at)
        &&& num_outputs as nat == count_named_outputs(customs[at].objects@) % 0x1_0000_0000
        &&& connections@ == slots
    }
}

/// Whether `object` is what an accepted record describes, with `slots` as
/// the sources of its input ports.
pub open spec fn described(
    raw: RawObject,
    customs: Seq<CustomCircuit>,
    slots: Seq<Connection>,
    object: Object,
) -> bool {
    &&& object.uid == raw.uid
    &&& object.x == raw.x
    &&& object.y == raw.y
    &&& Some(object.rotation) == rotation_of(raw.rotation)
    &&& slots.len() == port_count(raw, customs)
    &&& described_inner(raw, customs, slots, object.inner)
}

/// Whether `object` is what an accepted record describes, with every
/// input port unconnected.
pub open spec fn classified(raw: RawObject, customs: Seq<CustomCircuit>, object: Object) -> bool {
    described(raw, customs, no_connections(port_count(raw, customs)), object)
}

/// Looks up the sub-circuit that carries a uid; the last one, where
/// several carry it.
pub fn lookup_custom(customs: &Vec<CustomCircuit>, uid: &str) -> (found: Option<usize>)
    ensures
        match found {
            Some(at) => find_custom(customs@, uid@) == Some(at as int) && at < customs.len(),
            None => find_custom(customs@, uid@) is None,
        },
{
    let mut at: usize = customs.len();
    proof {
        assert(customs@.take(at as int) =~= customs@);
    }
    while at > 0
        invariant
            at <= customs.len(),
            find_custom(customs@, uid@) == find_custom(customs@.take(at as int), uid@),
        decreases at,
    {
        proof {
            assert(customs@.take(at as int).drop_last() =~= customs@.take(at - 1));
        }
        if customs[at - 1].uid.as_str().eq(uid) {
            return Some(at - 1);
        }
        at = at - 1;
    }
    None
}

fn read_initial_value(flag: Option<String>, kind: InputType) -> (res: Result<bool, BuildError>)
    ensures
        res == initial_value(flag, kind),
{
    match flag {
        Some(text) => {
            if text.as_str().eq("false") {
                Ok(false)
            } else if text.as_str().eq("true") {
                Ok(true)
            } else {
                Err(BuildError::UnsupportedOutputFlag(text))
            }
        },
        None => match kind {
            InputType::True => Ok(true),
            InputType::False => Ok(false),
            _ => Err(BuildError::MissingInitialValue),
        },
    }
}

impl Object {
    /// Builds the object that a record describes, given whether its kind
    /// tag has the syntax of a UUID. A tag that is not one of the fixed
    /// names and has that syntax is taken as the uid of one of `customs`.
    pub fn classify(raw: RawObject, is_uuid: bool, customs: &Vec<CustomCircuit>) -> (res: Result<
        Object,
        BuildError,
    >)
        ensures
            match res {
                Ok(object) => classify_failure(raw, is_uuid, customs@) is None && classified(
                    raw,
                    customs@,
                    object,
                ),
                Err(e) => classify_failure(raw, is_uuid, customs@) == Some(e),
            },
    {
        let RawObject { kind, uid, x, y, rotation, export_name, outputs, inputs, text, function_index } =
            raw;
        if let Some(input_type) = InputType::parse(kind.as_str()) {
            if inputs.is_some() || text.is_some() || function_index.is_some() {
                return Err(BuildError::InvalidInput);
            }
            let rotation = match Rotation::try_from(rotation) {
                Ok(rotation) => rotation,
                Err(e) => return Err(e),
            };
            let value = match read_initial_value(outputs, input_type) {
                Ok(value) => value,
                Err(e) => return Err(e),
            };
            Ok(Object { uid, x, y, rotation, inner: ObjectInner::Input { export_name, kind: input_type, value } })
        } else if kind.as_str().eq("light_bulb@logic.ly") || kind.as_str().eq("digit@logic.ly") {
            if outputs.is_some() || inputs.is_some() || text.is_some() || function_index.is_some() {
                return Err(BuildError::InvalidOutput);
            }
            let rotation = match Rotation::try_from(rotation) {
                Ok(rotation) => rotation,
                Err(e) => return Err(e),
            };
            let ports: usize = if kind.as_str().eq("light_bulb@logic.ly") {
                1
            } else {
                4
            };
            Ok(Object { uid, x, y, rotation, inner: ObjectInner::Output { export_name, connections: unconnected(ports) } })
        } else if kind.as_str().eq("label@logic.ly") {
            if export_name.is_some() || outputs.is_some() || inputs.is_some()
                || function_index.is_some() {
                return Err(BuildError::InvalidLabel);
            }
            let text = match text {
                Some(text) => text,
                None => return Err(BuildError::InvalidLabel),
            };
            let rotation = match Rotation::try_from(rotation) {
                Ok(rotation) => rotation,
                Err(e) => return Err(e),
            };
            Ok(Object { uid, x, y, rotation, inner: ObjectInner::Label { text } })
        } else if let Some(gate_type) = SimpleGateType::parse(kind.as_str()) {
            if export_name.is_some() || outputs.is_some() || text.is_some() {
                return Err(BuildError::InvalidGate);
            }
            let ports = match inputs {
                Some(ports) => ports,
                None => return Err(BuildError::InvalidGate),
            };
            let rotation = match Rotation::try_from(rotation) {
                Ok(rotation) => rotation,
                Err(e) => return Err(e),
            };
            let xor_type = match function_index {
                Some(1) => XorType::One,
                _ => XorType::Odd,
            };
            Ok(
                Object {
                    uid,
                    x,
                    y,
                    rotation,
                    inner: ObjectInner::SimpleGate {
                        xor_type,
                        kind: gate_type,
                        connections: unconnected(ports as usize),
                    },
                },
            )
        } else if is_uuid {
            if export_name.is_some() || outputs.is_some() || inputs.is_some() || text.is_some() {
                return Err(BuildError::InvalidCustomGate);
            }
            let at = match lookup_custom(customs, kind.as_str()) {
                Some(at) => at,
                None => return Err(BuildError::UnknownCustomCircuit(uid)),
            };
            let num_inputs = named_input_count(&customs[at].objects);
            let outputs_wide: u64 = named_output_count(&customs[at].objects) as u64;
            let num_outputs: u32 = (outputs_wide % 0x1_0000_0000) as u32;
            let rotation = match Rotation::try_from(rotation) {
                Ok(rotation) => rotation,
                Err(e) => return Err(e),
            };
            Ok(
                Object {
                    uid,
                    x,
                    y,
                    rotation,
                    inner: ObjectInner::CustomGate {
                        uuid: kind,
                        num_outputs,
                        connections: unconnected(num_inputs),
                    },
                },
            )
        } else {
            Err(BuildError::UnsupportedKind(kind))
        }
    }

    /// Builds the object that a record describes. A kind tag that is not
    /// one of the fixed names is taken as the uid of one of `customs` if
    /// it has the syntax of a UUID, and refused otherwise.
    pub fn try_from(raw: RawObject, customs: &Vec<CustomCircuit>) -> (res: Result<
        Object,
        BuildError,
    >)
        ensures
            match res {
                Ok(object) => classify_failure(raw, uuid_format(raw.kind@), customs@) is None
                    && classified(raw, customs@, object),
                Err(e) => classify_failure(raw, uuid_format(raw.kind@), customs@) == Some(e),
            },
    {
        let fixed = InputType::parse(raw.kind.as_str()).is_some() || raw.kind.as_str().eq(
            "light_bulb@logic.ly",
        ) || raw.kind.as_str().eq("digit@logic.ly") || raw.kind.as_str().eq("label@logic.ly")
            || SimpleGateType::parse(raw.kind.as_str()).is_some();
        let shaped = if fixed {
            false
        } else {
            is_uuid(raw.kind.as_str())
        };
        Object::classify(raw, shaped, customs)
    }
}

} // verus!
