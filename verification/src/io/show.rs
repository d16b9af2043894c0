//! Objects and circuits in words.

use super::netlist::{Circuit, Connection, Object, ObjectInner};
use crate::boundary::{join, joined, texts};
use crate::text::{decimal, decimal_text, truth, truth_text};
use vstd::prelude::*;
use vstd::string::*;

verus! {

/// A connection in words: the index of its source, with `#` and the port
/// of the source unless that is port 0; `NUL` for no connection.
pub open spec fn connection_text(connection: Connection) -> Seq<char> {
    match connection {
        Some((port, at)) => if port == 0 {
            decimal(at as nat)
        } else {
            decimal(at as nat) + "#"@ + decimal(port as nat)
        },
        None => "NUL"@,
    }
}

/// A list of connections in words, with commas between them.
pub open spec fn connections_text(slots: Seq<Connection>) -> Seq<char> {
    joined(slots.map_values(|c: Connection| connection_text(c)), ", "@)
}

/// An export name, or a question mark for none.
pub open spec fn name_text(name: Option<String>) -> Seq<char> {
    match name {
        Some(name) => name@,
        None => "?"@,
    }
}

/// An object in words: what it is and where its input ports lead.
pub open spec fn object_text(object: Object) -> Seq<char> {
    match object.inner {
        ObjectInner::SimpleGate { kind, connections, .. } => "Gate "@ + kind.name_text() + " ["@
            + connections_text(connections@) + "]"@,
        ObjectInner::CustomGate { uuid, connections, .. } => "CustomGate "@ + uuid@ + " ["@
            + connections_text(connections@) + "]"@,
        ObjectInner::Output { export_name, connections } => "Output("@ + name_text(export_name)
            + ") "@ + connections_text(connections@),
        ObjectInner::Input { export_name, kind, value } => "Input("@ + name_text(export_name)
            + ") "@ + kind.name_text() + " "@ + truth_text(value),
        ObjectInner::Label { text } => "Label: "@ + text@,
    }
}

/// The first `upto` objects in words, one to a line, each after its index
/// in parentheses.
pub open spec fn listing(objects: Seq<Object>, upto: nat) -> Seq<char>
    decreases upto,
{
    if upto == 0 {
        Seq::empty()
    } else {
        listing(objects, (upto - 1) as nat) + "("@ + decimal((upto - 1) as nat) + ") "@
            + object_text(objects[upto - 1]) + "\n"@
    }
}

fn write_connection(connection: &Connection) -> (text: String)
    ensures
        text@ == connection_text(*connection),
{
    match connection {
        Some((port, at)) => {
            let text = decimal_text(*at as u64);
            if *port == 0 {
                text
            } else {
                let port_text = decimal_text(*port as u64);
                text.concat("#").concat(port_text.as_str())
            }
        },
        None => String::from_str("NUL"),
    }
}

fn write_connections(slots: &Vec<Connection>) -> (text: String)
    ensures
        text@ == connections_text(slots@),
{
    let mut pieces: Vec<String> = Vec::new();
    let mut p: usize = 0;
    while p < slots.len()
        invariant
            p <= slots.len(),
            texts(pieces@) =~= slots@.take(p as int).map_values(|c: Connection| connection_text(c)),
        decreases slots.len() - p,
    {
        let ghost before = pieces@;
        let piece = write_connection(&slots[p]);
        pieces.push(piece);
        proof {
            assert(texts(pieces@) =~= texts(before).push(connection_text(slots@[p as int])));
        }
        p = p + 1;
    }
    proof {
        assert(slots@.take(p as int) =~= slots@);
    }
    join(&pieces, ", ")
}

fn write_name(name: &Option<String>) -> (text: &str)
    ensures
        text@ == name_text(*name),
{
    match name {
        Some(name) => name.as_str(),
        None => "?",
    }
}

impl Object {
    /// Describes this object in words.
    pub fn to_text(&self) -> (text: String)
        ensures
            text@ == object_text(*self),
    {
        match &self.inner {
            ObjectInner::SimpleGate { kind, connections, .. } => {
                let wires = write_connections(connections);
                String::from_str("Gate ").concat(kind.name()).concat(" [").concat(
                    wires.as_str(),
                ).concat("]")
            },
            ObjectInner::CustomGate { uuid, connections, .. } => {
                let wires = write_connections(connections);
                String::from_str("CustomGate ").concat(uuid.as_str()).concat(" [").concat(
                    wires.as_str(),
                ).concat("]")
            },
            ObjectInner::Output { export_name, connections } => {
                let wires = write_connections(connections);
                String::from_str("Output(").concat(write_name(export_name)).concat(") ").concat(
                    wires.as_str(),
                )
            },
            ObjectInner::Input { export_name, kind, value } => String::from_str("Input(").concat(
                write_name(export_name),
            ).concat(") ").concat(kind.name()).concat(" ").concat(truth(*value)),
            ObjectInner::Label { text } => String::from_str("Label: ").concat(text.as_str()),
        }
    }
}

impl Circuit {
    /// Lists the top-level objects in words, one to a line, each after
    /// its index in parentheses.
    pub fn to_text(&self) -> (text: String)
        ensures
            text@ == listing(self.objects@, self.objects@.len()),
    {
        let mut text = String::new();
        let mut i: usize = 0;
        proof {
            assert(text@ =~= listing(self.objects@, 0));
        }
        while i < self.objects.len()
            invariant
                i <= self.objects.len(),
                text@ == listing(self.objects@, i as nat),
            decreases self.objects.len() - i,
        {
            let index = decimal_text(i as u64);
            let object = self.objects[i].to_text();
            text.append("(");
            text.append(index.as_str());
            text.append(") ");
            text.append(object.as_str());
            text.append("\n");
            i = i + 1;
        }
        text
    }
}

} // verus!
