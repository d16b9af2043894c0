//! The validated netlist: objects with resolved connections.

use super::raw::Location;
use vstd::prelude::*;

verus! {

/// The four directions an object can face.
#[derive(Debug, Clone, Copy, PartialEq, Eq, Structural)]
pub enum Rotation {
    Right,
    Down,
    Left,
    Up,
}

/// How an input gets its value.
#[derive(Clone, Copy, Debug, PartialEq, Eq, Structural)]
pub enum InputType {
    Switch,
    Button,
    True,
    False,
}

/// The gates with a single output and a fixed function.
#[derive(Clone, Copy, Debug, PartialEq, Eq, Structural)]
pub enum SimpleGateType {
    Buffer,
    Not,
    And,
    Nand,
    Or,
    Nor,
    Xor,
    Xnor,
}

/// What an exclusive-or gate asks of its inputs: an odd number of them
/// true, or exactly one.
#[derive(Clone, Copy, Debug, PartialEq, Eq, Structural)]
pub enum XorType {
    Odd,
    One,
}

/// The source of an input port: the output port of the object at an index
/// of the object list, or nothing.
pub type Connection = Option<(u32, usize)>;

/// What an object is, with the sources of its input ports.
#[derive(Clone, Debug, PartialEq)]
#[allow(inconsistent_fields)]
pub enum ObjectInner {
    SimpleGate { xor_type: XorType, kind: SimpleGateType, connections: Vec<Connection> },
    CustomGate { uuid: String, num_outputs: u32, connections: Vec<Connection> },
    Output { export_name: Option<String>, connections: Vec<Connection> },
    Input { export_name: Option<String>, kind: InputType, value: bool },
    Label { text: String },
}

/// A node of the netlist.
#[derive(Debug, Clone, PartialEq)]
pub struct Object {
    pub uid: String,
    /// Horizontal position, as the bit pattern of a binary64 number.
    pub x: u64,
    /// Vertical position, as the bit pattern of a binary64 number.
    pub y: u64,
    pub rotation: Rotation,
    pub inner: ObjectInner,
}

/// A reusable sub-circuit with its own object list.
#[derive(Debug, PartialEq)]
pub struct CustomCircuit {
    pub objects: Vec<Object>,
    pub name: String,
    pub uid: String,
    pub label: String,
    pub locations: Vec<Location>,
}

/// A circuit and the sub-circuits it may instantiate.
#[derive(Debug, PartialEq)]
pub struct Circuit {
    pub objects: Vec<Object>,
    /// If present, every sub-circuit comes after those it instantiates.
    pub customs: Option<Vec<CustomCircuit>>,
}

impl InputType {
    /// The name of this input type.
    pub open spec fn name_text(self) -> Seq<char> {
        match self {
            InputType::Switch => "Switch"@,
            InputType::Button => "Button"@,
            InputType::True => "True"@,
            InputType::False => "False"@,
        }
    }

    /// The name of this input type.
    pub fn name(&self) -> (name: &'static str)
        ensures
            name@ == self.name_text(),
    {
        match self {
            InputType::Switch => "Switch",
            InputType::Button => "Button",
            InputType::True => "True",
            InputType::False => "False",
        }
    }
}

impl SimpleGateType {
    /// The name of this gate type.
    pub open spec fn name_text(self) -> Seq<char> {
        match self {
            SimpleGateType::Buffer => "Buffer"@,
            SimpleGateType::Not => "Not"@,
            SimpleGateType::And => "And"@,
            SimpleGateType::Nand => "Nand"@,
            SimpleGateType::Or => "Or"@,
            SimpleGateType::Nor => "Nor"@,
            SimpleGateType::Xor => "Xor"@,
            SimpleGateType::Xnor => "Xnor"@,
        }
    }

    /// The name of this gate type.
    pub fn name(&self) -> (name: &'static str)
        ensures
            name@ == self.name_text(),
    {
        match self {
            SimpleGateType::Buffer => "Buffer",
            SimpleGateType::Not => "Not",
            SimpleGateType::And => "And",
            SimpleGateType::Nand => "Nand",
            SimpleGateType::Or => "Or",
            SimpleGateType::Nor => "Nor",
            SimpleGateType::Xor => "Xor",
            SimpleGateType::Xnor => "Xnor",
        }
    }
}

impl ObjectInner {
    /// The sources of the input ports; none for inputs and labels.
    pub open spec fn slots(self) -> Seq<Connection> {
        match self {
            ObjectInner::SimpleGate { connections, .. } => connections@,
            ObjectInner::CustomGate { connections, .. } => connections@,
            ObjectInner::Output { connections, .. } => connections@,
            ObjectInner::Input { .. } => Seq::empty(),
            ObjectInner::Label { .. } => Seq::empty(),
        }
    }

    /// Whether connections may end on this object.
    pub open spec fn has_input_ports(self) -> bool {
        self is SimpleGate || self is CustomGate || self is Output
    }
}

impl Object {
    pub open spec fn spec_is_output(&self) -> bool {
        self.inner is Output
    }

    pub open spec fn spec_is_named_output(&self) -> bool {
        self.inner matches ObjectInner::Output { export_name: Some(_), .. }
    }

    pub open spec fn spec_is_named_input(&self) -> bool {
        self.inner matches ObjectInner::Input { export_name: Some(_), .. }
    }

    /// Whether this object is an output.
    #[verifier::when_used_as_spec(spec_is_output)]
    pub fn is_output(&self) -> (yes: bool)
        ensures
            yes == self.spec_is_output(),
    {
        match &self.inner {
            ObjectInner::Output { .. } => true,
            _ => false,
        }
    }

    /// Whether this object is an output with an export name.
    #[verifier::when_used_as_spec(spec_is_named_output)]
    pub fn is_named_output(&self) -> (yes: bool)
        ensures
            yes == self.spec_is_named_output(),
    {
        match &self.inner {
            ObjectInner::Output { export_name: Some(_), .. } => true,
            _ => false,
        }
    }

    /// Whether this object is an input with an export name.
    #[verifier::when_used_as_spec(spec_is_named_input)]
    pub fn is_named_input(&self) -> (yes: bool)
        ensures
            yes == self.spec_is_named_input(),
    {
        match &self.inner {
            ObjectInner::Input { export_name: Some(_), .. } => true,
            _ => false,
        }
    }

    /// The name under which an input or output is known: its export name,
    /// or its uid if it has none.
    pub open spec fn spec_export_name_or_uid(&self) -> Seq<char> {
        match self.inner {
            ObjectInner::Output { export_name: Some(name), .. } => name@,
            ObjectInner::Input { export_name: Some(name), .. } => name@,
            _ => self.uid@,
        }
    }

    /// The export name of an input or output, or its uid if it has none.
    pub fn export_name_or_uid(&self) -> (name: &str)
        requires
            self.inner is Output || self.inner is Input,
        ensures
            name@ == self.spec_export_name_or_uid(),
    {
        match &self.inner {
            ObjectInner::Output { export_name: Some(name), .. } => name.as_str(),
            ObjectInner::Input { export_name: Some(name), .. } => name.as_str(),
            _ => self.uid.as_str(),
        }
    }
}

/// How many of the objects are inputs with an export name.
pub open spec fn count_named_inputs(objects: Seq<Object>) -> nat
    decreases objects.len(),
{
    if objects.len() == 0 {
        0
    } else {
        count_named_inputs(objects.drop_last()) + if objects.last().is_named_input() {
            1nat
        } else {
            0nat
        }
    }
}

/// How many of the objects are outputs with an export name.
pub open spec fn count_named_outputs(objects: Seq<Object>) -> nat
    decreases objects.len(),
{
    if objects.len() == 0 {
        0
    } else {
        count_named_outputs(objects.drop_last()) + if objects.last().is_named_output() {
            1nat
        } else {
            0nat
        }
    }
}

/// A longer part of an object list has no fewer named inputs.
pub proof fn lemma_count_named_inputs_grows(objects: Seq<Object>, upto: int)
    requires
        0 <= upto <= objects.len(),
    ensures
        count_named_inputs(objects.take(upto)) <= count_named_inputs(objects),
    decreases objects.len() - upto,
{
    if upto < objects.len() {
        assert(objects.take(upto + 1).drop_last() =~= objects.take(upto));
        lemma_count_named_inputs_grows(objects, upto + 1);
    } else {
        assert(objects.take(upto) =~= objects);
    }
}

/// Counts the inputs with an export name.
pub fn named_input_count(objects: &Vec<Object>) -> (count: usize)
    ensures
        count == count_named_inputs(objects@),
{
    let mut count: usize = 0;
    let mut i: usize = 0;
    while i < objects.len()
        invariant
            i <= objects.len(),
            count <= i,
            count == count_named_inputs(objects@.take(i as int)),
        decreases objects.len() - i,
    {
        proof {
            assert(objects@.take(i + 1).drop_last() =~= objects@.take(i as int));
        }
        if objects[i].is_named_input() {
            count = count + 1;
        }
        i = i + 1;
    }
    proof {
        assert(objects@.take(i as int) =~= objects@);
    }
    count
}

/// Counts the outputs with an export name.
pub fn named_output_count(objects: &Vec<Object>) -> (count: usize)
    ensures
        count == count_named_outputs(objects@),
{
    let mut count: usize = 0;
    let mut i: usize = 0;
    while i < objects.len()
        invariant
            i <= objects.len(),
            count <= i,
            count == count_named_outputs(objects@.take(i as int)),
        decreases objects.len() - i,
    {
        proof {
            assert(objects@.take(i + 1).drop_last() =~= objects@.take(i as int));
        }
        if objects[i].is_named_output() {
            count = count + 1;
        }
        i = i + 1;
    }
    proof {
        assert(objects@.take(i as int) =~= objects@);
    }
    count
}

/// A list of `len` unconnected input ports.
pub fn unconnected(len: usize) -> (slots: Vec<Connection>)
    ensures
        slots@ == Seq::new(len as nat, |i: int| None::<(u32, usize)>),
{
    let mut slots: Vec<Connection> = Vec::new();
    let mut i: usize = 0;
    while i < len
        invariant
            i <= len,
            slots@ =~= Seq::new(i as nat, |i: int| None::<(u32, usize)>),
        decreases len - i,
    {
        slots.push(None);
        i = i + 1;
    }
    slots
}

} // verus!
