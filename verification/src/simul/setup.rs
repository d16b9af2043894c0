//! What a simulation is made of when it is built from a circuit: the
//! truth tables of the sub-circuits, each computed with the tables of
//! those before it.

use super::model::{initial_state, truth_table, Rows, Table};
use super::sound::{netlist_fault, SimulationError};
use crate::io::netlist::{count_named_inputs, Circuit, CustomCircuit, Object};
use vstd::prelude::*;

verus! {

/// The largest number of named inputs with which a sub-circuit still gets
/// a truth table.
pub const TRUTH_TABLE_MAX_INPUTS: usize = 24;

/// The number of sweeps within which every row of the truth table of a
/// sub-circuit has to become stable.
pub const TRUTH_TABLE_MAX_SWEEPS: u128 = 1000;

/// Whether a sub-circuit is small enough to get a truth table.
pub open spec fn is_tabled(objects: Seq<Object>) -> bool {
    count_named_inputs(objects) <= TRUTH_TABLE_MAX_INPUTS
}

/// The truth table that a sub-circuit gets, if it gets one: none if it
/// has too many named inputs or some row does not become stable.
pub open spec fn custom_rows(objects: Seq<Object>, tables: Seq<Table>) -> Option<Rows> {
    if is_tabled(objects) {
        truth_table(objects, tables, initial_state(objects), TRUTH_TABLE_MAX_SWEEPS as nat)
    } else {
        None
    }
}

/// The tables of the first `upto` sub-circuits, each computed with the
/// tables of those before it.
pub open spec fn custom_tables(customs: Seq<CustomCircuit>, upto: int) -> Seq<Table>
    decreases upto,
{
    if upto <= 0 {
        Seq::empty()
    } else {
        let before = custom_tables(customs, upto - 1);
        before.push(
            Table {
                uid: customs[upto - 1].uid@,
                rows: custom_rows(customs[upto - 1].objects@, before),
            },
        )
    }
}

/// What is wrong with the first sub-circuit from index `from` on that is
/// small enough to get a truth table and cannot be evaluated.
pub open spec fn customs_fault(customs: Seq<CustomCircuit>, from: int) -> Option<SimulationError>
    decreases customs.len() - from,
{
    if from < 0 || from >= customs.len() {
        None
    } else {
        let fault = netlist_fault(customs[from].objects@, custom_tables(customs, from), 0);
        if is_tabled(customs[from].objects@) && fault is Some {
            fault
        } else {
            customs_fault(customs, from + 1)
        }
    }
}

/// The sub-circuits of a circuit; none if it names none.
pub open spec fn customs_of(circuit: Circuit) -> Seq<CustomCircuit> {
    match circuit.customs {
        Some(customs) => customs@,
        None => Seq::empty(),
    }
}

/// The tables of all sub-circuits of a circuit.
pub open spec fn circuit_tables(circuit: Circuit) -> Seq<Table> {
    custom_tables(customs_of(circuit), customs_of(circuit).len() as int)
}

/// Why a circuit cannot be simulated, or `None` if it can: what is wrong
/// with the first sub-circuit that gets a truth table and cannot be
/// evaluated, or else with the top-level objects.
pub open spec fn circuit_fault(circuit: Circuit) -> Option<SimulationError> {
    match customs_fault(customs_of(circuit), 0) {
        Some(e) => Some(e),
        None => netlist_fault(circuit.objects@, circuit_tables(circuit), 0),
    }
}

} // verus!
