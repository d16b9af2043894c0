//! Which netlists can be evaluated, and what every sweep keeps.

use super::model::{
    drive_by_name, drive_by_rank, evaluated, find_table, input_values, is_constant, next_value,
    output_bits, reset, row_count, row_evaluated, settle, step, sweep, sweep_from, table_data,
    truth_table, value_count, State, Table,
};
use crate::io::netlist::{
    count_named_inputs, count_named_outputs, Connection, Object, ObjectInner, SimpleGateType,
};
use crate::util::{bits_of, bits_value, lemma_bits_value_bound};
use vstd::arithmetic::power2::pow2;
use vstd::prelude::*;

verus! {

/// Why a circuit cannot be simulated.
#[derive(Debug, Clone, Copy, PartialEq, Eq, Structural)]
pub enum SimulationError {
    /// A connection names a source or port that does not exist, a buffer
    /// or inverter has no input port, a named output has no port, or an
    /// instance does not fit the sub-circuit it names.
    MalformedNetlist,
    /// An instance names a sub-circuit that has no truth table: one with
    /// too many named inputs, or one that did not become stable.
    UnsupportedCustomGate,
}

/// Whether a connection names an existing value of an existing object.
pub open spec fn slot_sound(objects: Seq<Object>, connection: Connection) -> bool {
    match connection {
        Some((port, at)) => at < objects.len() && port < value_count(objects[at as int]),
        None => true,
    }
}

/// Whether every connection of a list names an existing value.
pub open spec fn slots_sound(objects: Seq<Object>, slots: Seq<Connection>) -> bool {
    forall|p: int| 0 <= p < slots.len() ==> slot_sound(objects, #[trigger] slots[p])
}

/// What is wrong with an object by itself, if anything.
pub open spec fn head_fault(object: Object, tables: Seq<Table>) -> Option<SimulationError> {
    match object.inner {
        ObjectInner::SimpleGate { kind, connections, .. } => if (kind == SimpleGateType::Buffer
            || kind == SimpleGateType::Not) && connections@.len() == 0 {
            Some(SimulationError::MalformedNetlist)
        } else {
            None
        },
        ObjectInner::CustomGate { uuid, num_outputs, connections } => match find_table(
            tables,
            uuid@,
        ) {
            None => Some(SimulationError::MalformedNetlist),
            Some(at) => match tables[at].rows {
                None => Some(SimulationError::UnsupportedCustomGate),
                Some(rows) => if rows.row_size != num_outputs || !rows.covers(connections@.len()) {
                    Some(SimulationError::MalformedNetlist)
                } else {
                    None
                },
            },
        },
        ObjectInner::Output { export_name, connections } => if export_name is Some
            && connections@.len() == 0 {
            Some(SimulationError::MalformedNetlist)
        } else {
            None
        },
        ObjectInner::Input { .. } => None,
        ObjectInner::Label { .. } => None,
    }
}

/// What is wrong with the object at index `at`, if anything: first what
/// is wrong with it by itself, then its connections.
pub open spec fn object_fault(objects: Seq<Object>, tables: Seq<Table>, at: int) -> Option<
    SimulationError,
> {
    if head_fault(objects[at], tables) is Some {
        head_fault(objects[at], tables)
    } else if !slots_sound(objects, objects[at].inner.slots()) {
        Some(SimulationError::MalformedNetlist)
    } else {
        None
    }
}

/// What is wrong with the first faulty object from index `from` on.
pub open spec fn netlist_fault(objects: Seq<Object>, tables: Seq<Table>, from: int) -> Option<
    SimulationError,
>
    decreases objects.len() - from,
{
    if from < 0 || from >= objects.len() {
        None
    } else if object_fault(objects, tables, from) is Some {
        object_fault(objects, tables, from)
    } else {
        netlist_fault(objects, tables, from + 1)
    }
}

/// Whether every object of a netlist can be evaluated.
pub open spec fn sound(objects: Seq<Object>, tables: Seq<Table>) -> bool {
    forall|i: int| 0 <= i < objects.len() ==> object_fault(objects, tables, i) is None
}

/// Whether a state holds, for every object, as many values as it has.
pub open spec fn shaped(objects: Seq<Object>, state: State) -> bool {
    &&& state.len() == objects.len()
    &&& forall|i: int| 0 <= i < objects.len() ==> (#[trigger] state[i]).len() == value_count(objects[i])
}

/// Whether an object never updates itself: an input or a label.
pub open spec fn keeps_its_values(object: Object) -> bool {
    object.inner is Input || object.inner is Label
}

/// Whether two states of one netlist have the same shape and agree on
/// every constant input without an export name.
pub open spec fn same_fixed(objects: Seq<Object>, a: State, b: State) -> bool {
    &&& a.len() == b.len()
    &&& forall|i: int| 0 <= i < a.len() ==> (#[trigger] a[i]).len() == b[i].len()
    &&& forall|i: int|
        0 <= i < a.len() && is_constant(objects[i]) && !objects[i].is_named_input()
            ==> #[trigger] a[i] == b[i]
}

/// Whether two states of one netlist have the same shape and agree on
/// every constant input.
pub open spec fn same_constants(objects: Seq<Object>, a: State, b: State) -> bool {
    &&& a.len() == b.len()
    &&& forall|i: int| 0 <= i < a.len() ==> (#[trigger] a[i]).len() == b[i].len()
    &&& forall|i: int| 0 <= i < a.len() && is_constant(objects[i]) ==> #[trigger] a[i] == b[i]
}

/// Whether two states of one netlist have the same shape and agree on
/// every object that never updates itself.
pub open spec fn same_inputs(objects: Seq<Object>, a: State, b: State) -> bool {
    &&& a.len() == b.len()
    &&& forall|i: int| 0 <= i < a.len() ==> (#[trigger] a[i]).len() == b[i].len()
    &&& forall|i: int|
        0 <= i < a.len() && keeps_its_values(objects[i]) ==> #[trigger] a[i] == b[i]
}

/// A netlist has no fault exactly when each of its objects has none.
pub proof fn lemma_netlist_fault(objects: Seq<Object>, tables: Seq<Table>, from: int)
    requires
        0 <= from,
    ensures
        netlist_fault(objects, tables, from) is None <==> forall|i: int|
            from <= i < objects.len() ==> object_fault(objects, tables, i) is None,
    decreases objects.len() - from,
{
    if from < objects.len() {
        lemma_netlist_fault(objects, tables, from + 1);
    }
}

/// In a sound netlist the new values of an object are as many as it has.
pub proof fn lemma_next_value_shaped(
    objects: Seq<Object>,
    tables: Seq<Table>,
    state: State,
    at: int,
)
    requires
        0 <= at < objects.len(),
        object_fault(objects, tables, at) is None,
    ensures
        next_value(objects[at], tables, state) matches Some(value) ==> value.len() == value_count(
            objects[at],
        ),
{
    match objects[at].inner {
        ObjectInner::CustomGate { uuid, num_outputs, connections } => {
            let rows = tables[find_table(tables, uuid@)->0].rows->0;
            let inputs = input_values(connections@, state);
            let row = bits_value(inputs) as int;
            lemma_bits_value_bound(inputs);
            assert(row * rows.row_size + rows.row_size <= pow2(inputs.len()) * rows.row_size)
                by (nonlinear_arith)
                requires
                    0 <= row < pow2(inputs.len()),
            ;
            assert(0 <= row * rows.row_size) by (nonlinear_arith)
                requires
                    0 <= row,
            ;
        },
        _ => {},
    }
}

/// Updating one object of a sound netlist keeps the shape of the state
/// and the values of all other objects.
pub proof fn lemma_step(objects: Seq<Object>, tables: Seq<Table>, state: State, at: int)
    requires
        0 <= at < objects.len(),
        object_fault(objects, tables, at) is None,
        shaped(objects, state),
    ensures
        shaped(objects, step(objects, tables, state, at)),
        forall|i: int|
            0 <= i < objects.len() && i != at ==> step(objects, tables, state, at)[i] == state[i],
        next_value(objects[at], tables, state) is None ==> step(objects, tables, state, at)
            == state,
{
    lemma_next_value_shaped(objects, tables, state, at);
}

/// A sweep over a sound netlist keeps the shape of the state and the
/// values of the objects that never update themselves.
pub proof fn lemma_sweep_from(objects: Seq<Object>, tables: Seq<Table>, state: State, from: int)
    requires
        0 <= from,
        sound(objects, tables),
        shaped(objects, state),
    ensures
        shaped(objects, sweep_from(objects, tables, state, from)),
        same_inputs(objects, state, sweep_from(objects, tables, state, from)),
        forall|i: int| 0 <= i < from && i < objects.len() ==> sweep_from(objects, tables, state, from)[i] == state[i],
    decreases objects.len() - from,
{
    if from < objects.len() {
        let next = step(objects, tables, state, from);
        lemma_step(objects, tables, state, from);
        lemma_sweep_from(objects, tables, next, from + 1);
        let end = sweep_from(objects, tables, next, from + 1);
        assert forall|i: int|
            0 <= i < state.len() && keeps_its_values(objects[i]) implies #[trigger] state[i]
            == end[i] by {
            assert(next_value(objects[i], tables, state) is None);
            assert(next[i] == state[i]);
        }
    }
}

/// Sweeping until stable keeps the shape of the state and the values of
/// the objects that never update themselves.
pub proof fn lemma_settle(objects: Seq<Object>, tables: Seq<Table>, state: State, limit: nat)
    requires
        sound(objects, tables),
        shaped(objects, state),
    ensures
        shaped(objects, settle(objects, tables, state, limit).0),
        same_inputs(objects, state, settle(objects, tables, state, limit).0),
    decreases limit,
{
    if limit > 0 {
        let next = sweep(objects, tables, state);
        lemma_sweep_from(objects, tables, state, 0);
        if next != state {
            lemma_settle(objects, tables, next, (limit - 1) as nat);
            let end = settle(objects, tables, next, (limit - 1) as nat).0;
            assert forall|i: int|
                0 <= i < state.len() && keeps_its_values(objects[i]) implies #[trigger] state[i]
                == end[i] by {
                assert(state[i] == next[i]);
            }
        }
    }
}

/// A reset keeps the shape of the state.
pub proof fn lemma_reset(objects: Seq<Object>, state: State)
    requires
        shaped(objects, state),
    ensures
        shaped(objects, reset(objects, state)),
{
}

/// Driving inputs keeps the shape of the state.
pub proof fn lemma_drive(
    objects: Seq<Object>,
    state: State,
    inputs: Seq<(Seq<char>, bool)>,
    bits: Seq<bool>,
)
    requires
        shaped(objects, state),
    ensures
        shaped(objects, drive_by_name(objects, state, inputs)),
        shaped(objects, drive_by_rank(objects, state, bits)),
{
}

/// A reset followed by driving every named input forgets everything of
/// the state but its shape and the constant inputs without an export
/// name.
pub proof fn lemma_drive_by_rank_forgets(
    objects: Seq<Object>,
    a: State,
    b: State,
    bits: Seq<bool>,
)
    requires
        shaped(objects, a),
        same_fixed(objects, a, b),
    ensures
        drive_by_rank(objects, reset(objects, a), bits) == drive_by_rank(
            objects,
            reset(objects, b),
            bits,
        ),
{
    let left = drive_by_rank(objects, reset(objects, a), bits);
    let right = drive_by_rank(objects, reset(objects, b), bits);
    assert forall|i: int| 0 <= i < a.len() implies left[i] == right[i] by {
        assert(a[i].len() == b[i].len());
        assert(a[i].len() == value_count(objects[i]));
        if objects[i].is_named_input() {
            assert(left[i] =~= right[i]);
        } else if is_constant(objects[i]) {
            assert(a[i] == b[i]);
        }
    }
    assert(left =~= right);
}

/// A reset followed by driving named inputs by name forgets everything
/// of the state but its shape and the constant inputs.
pub proof fn lemma_drive_by_name_forgets(
    objects: Seq<Object>,
    a: State,
    b: State,
    inputs: Seq<(Seq<char>, bool)>,
)
    requires
        same_constants(objects, a, b),
    ensures
        drive_by_name(objects, reset(objects, a), inputs) == drive_by_name(
            objects,
            reset(objects, b),
            inputs,
        ),
{
    let left = drive_by_name(objects, reset(objects, a), inputs);
    let right = drive_by_name(objects, reset(objects, b), inputs);
    assert forall|i: int| 0 <= i < a.len() implies left[i] == right[i] by {
        assert(a[i].len() == b[i].len());
        if is_constant(objects[i]) {
            assert(a[i] == b[i]);
        }
    }
    assert(left =~= right);
}

/// The evaluation of a row keeps the shape of the state and the constant
/// inputs without an export name.
pub proof fn lemma_row_evaluated(
    objects: Seq<Object>,
    tables: Seq<Table>,
    state: State,
    row: nat,
    limit: nat,
)
    requires
        sound(objects, tables),
        shaped(objects, state),
    ensures
        shaped(objects, row_evaluated(objects, tables, state, row, limit).0),
        same_fixed(objects, state, row_evaluated(objects, tables, state, row, limit).0),
{
    let cleared = reset(objects, state);
    let driven = drive_by_rank(objects, cleared, bits_of(row, count_named_inputs(objects)));
    lemma_settle(objects, tables, driven, limit);
    let end = settle(objects, tables, driven, limit).0;
    assert forall|i: int|
        0 <= i < state.len() && is_constant(objects[i])
            && !objects[i].is_named_input() implies #[trigger] state[i] == end[i] by {
        assert(keeps_its_values(objects[i]));
        assert(driven[i] == end[i]);
    }
    assert forall|i: int| 0 <= i < state.len() implies (#[trigger] state[i]).len()
        == end[i].len() by {
        assert(end[i].len() == value_count(objects[i]));
    }
}

/// The evaluation of named values keeps the shape of the state and the
/// constant inputs.
pub proof fn lemma_evaluated(
    objects: Seq<Object>,
    tables: Seq<Table>,
    state: State,
    inputs: Seq<(Seq<char>, bool)>,
    limit: nat,
)
    requires
        sound(objects, tables),
        shaped(objects, state),
    ensures
        shaped(objects, evaluated(objects, tables, state, inputs, limit).0),
        same_constants(objects, state, evaluated(objects, tables, state, inputs, limit).0),
{
    let cleared = reset(objects, state);
    let driven = drive_by_name(objects, cleared, inputs);
    lemma_settle(objects, tables, driven, limit);
    let end = settle(objects, tables, driven, limit).0;
    assert forall|i: int| 0 <= i < state.len() && is_constant(objects[i]) implies #[trigger] state[i]
        == end[i] by {
        assert(keeps_its_values(objects[i]));
        assert(driven[i] == end[i]);
    }
    assert forall|i: int| 0 <= i < state.len() implies (#[trigger] state[i]).len()
        == end[i].len() by {
        assert(end[i].len() == value_count(objects[i]));
    }
}

/// There is one output bit for each named output.
pub proof fn lemma_output_bits_len(objects: Seq<Object>, state: State)
    ensures
        output_bits(objects, state).len() == count_named_outputs(objects),
    decreases objects.len(),
{
    if objects.len() > 0 {
        lemma_output_bits_len(objects.drop_last(), state);
    }
}

/// The first `rows` rows of a truth table hold `rows` times as many bits
/// as there are named outputs.
pub proof fn lemma_table_data_len(
    objects: Seq<Object>,
    tables: Seq<Table>,
    state: State,
    limit: nat,
    rows: nat,
)
    ensures
        table_data(objects, tables, state, limit, rows).len() == rows * count_named_outputs(
            objects,
        ),
    decreases rows,
{
    if rows > 0 {
        lemma_table_data_len(objects, tables, state, limit, (rows - 1) as nat);
        lemma_output_bits_len(
            objects,
            row_evaluated(objects, tables, state, (rows - 1) as nat, limit).0,
        );
        assert((rows - 1) * count_named_outputs(objects) + count_named_outputs(objects) == rows
            * count_named_outputs(objects)) by (nonlinear_arith);
    } else {
        assert(0 * count_named_outputs(objects) == 0) by (nonlinear_arith);
    }
}

/// A truth table has a row for every assignment of the named inputs, and
/// in each row a bit for every named output.
pub proof fn lemma_truth_table_shape(
    objects: Seq<Object>,
    tables: Seq<Table>,
    state: State,
    limit: nat,
)
    ensures
        truth_table(objects, tables, state, limit) matches Some(rows) ==> rows.covers(
            count_named_inputs(objects),
        ) && rows.row_size == count_named_outputs(objects),
{
    lemma_table_data_len(objects, tables, state, limit, row_count(objects));
}

} // verus!
