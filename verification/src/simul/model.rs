//! What a simulation computes, as mathematics: the values of all objects
//! as a sequence of bit sequences, and the sweeps that take one such state
//! to the next.

use crate::io::netlist::{
    count_named_inputs, count_named_outputs, Connection, InputType, Object, ObjectInner,
    SimpleGateType, XorType,
};
use crate::util::{bits_of, bits_value};
use vstd::arithmetic::power2::pow2;
use vstd::prelude::*;

verus! {

/// The rows of a truth table laid end to end, each `row_size` long.
pub struct Rows {
    pub data: Seq<bool>,
    pub row_size: nat,
}

/// What is known of a sub-circuit while simulating its instances: its
/// uid, and its truth table if it has one.
pub struct Table {
    pub uid: Seq<char>,
    pub rows: Option<Rows>,
}

/// The values of all objects, one sequence of bits for each.
pub type State = Seq<Seq<bool>>;

impl Rows {
    /// Row `row` of the table.
    pub open spec fn row(self, row: int) -> Seq<bool> {
        self.data.subrange(row * self.row_size, row * self.row_size + self.row_size)
    }

    /// Whether the table has a row for every assignment of `inputs` bits.
    pub open spec fn covers(self, inputs: nat) -> bool {
        self.data.len() == pow2(inputs) * self.row_size
    }
}

/// The index of the table of the sub-circuit that carries a uid. Where
/// several carry it, the last one counts.
pub open spec fn find_table(tables: Seq<Table>, uid: Seq<char>) -> Option<int>
    decreases tables.len(),
{
    if tables.len() == 0 {
        None
    } else if tables.last().uid == uid {
        Some(tables.len() - 1)
    } else {
        find_table(tables.drop_last(), uid)
    }
}

/// The number of values that an object holds: one for an input or a
/// gate, one for each port of an output, one for each named output of the
/// sub-circuit of an instance, none for a label.
pub open spec fn value_count(object: Object) -> nat {
    match object.inner {
        ObjectInner::SimpleGate { .. } => 1,
        ObjectInner::CustomGate { num_outputs, .. } => num_outputs as nat,
        ObjectInner::Output { connections, .. } => connections@.len(),
        ObjectInner::Input { .. } => 1,
        ObjectInner::Label { .. } => 0,
    }
}

/// The value that an input port sees: that of its source, or `false` if
/// nothing is connected.
pub open spec fn source_value(state: State, connection: Connection) -> bool {
    match connection {
        Some((port, at)) => state[at as int][port as int],
        None => false,
    }
}

/// The values that the input ports of an object see.
pub open spec fn input_values(slots: Seq<Connection>, state: State) -> Seq<bool> {
    Seq::new(slots.len(), |p: int| source_value(state, slots[p]))
}

/// How many of the bits are true.
pub open spec fn count_true(bits: Seq<bool>) -> nat
    decreases bits.len(),
{
    if bits.len() == 0 {
        0
    } else {
        count_true(bits.drop_last()) + if bits.last() {
            1nat
        } else {
            0nat
        }
    }
}

/// Whether every bit is true.
pub open spec fn all_true(bits: Seq<bool>) -> bool {
    forall|i: int| 0 <= i < bits.len() ==> bits[i]
}

/// Whether some bit is true.
pub open spec fn any_true(bits: Seq<bool>) -> bool {
    exists|i: int| 0 <= i < bits.len() && bits[i]
}

/// What an exclusive-or gate asks of its inputs.
pub open spec fn parity(xor_type: XorType, inputs: Seq<bool>) -> bool {
    match xor_type {
        XorType::Odd => count_true(inputs) % 2 == 1,
        XorType::One => count_true(inputs) == 1,
    }
}

/// The output of a gate for given inputs.
pub open spec fn gate_output(kind: SimpleGateType, xor_type: XorType, inputs: Seq<bool>) -> bool {
    match kind {
        SimpleGateType::Buffer => inputs[0],
        SimpleGateType::Not => !inputs[0],
        SimpleGateType::And => all_true(inputs),
        SimpleGateType::Nand => !all_true(inputs),
        SimpleGateType::Or => any_true(inputs),
        SimpleGateType::Nor => !any_true(inputs),
        SimpleGateType::Xor => parity(xor_type, inputs),
        SimpleGateType::Xnor => !parity(xor_type, inputs),
    }
}

/// The new values of an object, computed from the current state; `None`
/// for an object that never updates itself. An instance looks up the row
/// of its sub-circuit's table that its inputs spell, most significant
/// first.
pub open spec fn next_value(object: Object, tables: Seq<Table>, state: State) -> Option<Seq<bool>> {
    match object.inner {
        ObjectInner::SimpleGate { xor_type, kind, connections } => Some(
            seq![gate_output(kind, xor_type, input_values(connections@, state))],
        ),
        ObjectInner::CustomGate { uuid, connections, .. } => Some(
            tables[find_table(tables, uuid@)->0].rows->0.row(
                bits_value(input_values(connections@, state)) as int,
            ),
        ),
        ObjectInner::Output { connections, .. } => Some(input_values(connections@, state)),
        ObjectInner::Input { .. } => None,
        ObjectInner::Label { .. } => None,
    }
}

/// The state after the object at index `at` has been updated.
pub open spec fn step(objects: Seq<Object>, tables: Seq<Table>, state: State, at: int) -> State {
    match next_value(objects[at], tables, state) {
        Some(value) => state.update(at, value),
        None => state,
    }
}

/// The state after the objects from index `from` on have been updated one
/// after another, each seeing the values that those before it just got.
pub open spec fn sweep_from(
    objects: Seq<Object>,
    tables: Seq<Table>,
    state: State,
    from: int,
) -> State
    decreases objects.len() - from,
{
    if from < 0 || from >= objects.len() {
        state
    } else {
        sweep_from(objects, tables, step(objects, tables, state, from), from + 1)
    }
}

/// The state after one sweep over all objects.
pub open spec fn sweep(objects: Seq<Object>, tables: Seq<Table>, state: State) -> State {
    sweep_from(objects, tables, state, 0)
}

/// The state after sweeps are repeated until one changes nothing or
/// `limit` of them are made, and whether a sweep that changes nothing was
/// among them.
pub open spec fn settle(objects: Seq<Object>, tables: Seq<Table>, state: State, limit: nat) -> (
    State,
    bool,
)
    decreases limit,
{
    if limit == 0 {
        (state, false)
    } else {
        let next = sweep(objects, tables, state);
        if next == state {
            (next, true)
        } else {
            settle(objects, tables, next, (limit - 1) as nat)
        }
    }
}

/// Whether a reset leaves the values of an object alone: a constant input
/// keeps its value. (A label has no values.)
pub open spec fn is_constant(object: Object) -> bool {
    match object.inner {
        ObjectInner::Input { kind, .. } => kind == InputType::True || kind == InputType::False,
        _ => false,
    }
}

/// `len` bits, all false.
pub open spec fn all_false(len: nat) -> Seq<bool> {
    Seq::new(len, |i: int| false)
}

/// The state after a reset: every value that is not that of a constant
/// input is false.
pub open spec fn reset(objects: Seq<Object>, state: State) -> State {
    Seq::new(
        state.len(),
        |i: int|
            if is_constant(objects[i]) {
                state[i]
            } else {
                all_false(state[i].len())
            },
    )
}

/// The values with which an object starts: an input has its initial
/// value, everything else is false.
pub open spec fn initial_values(object: Object) -> Seq<bool> {
    match object.inner {
        ObjectInner::Input { value, .. } => seq![value],
        _ => all_false(value_count(object)),
    }
}

/// The state with which a simulation starts.
pub open spec fn initial_state(objects: Seq<Object>) -> State {
    Seq::new(objects.len(), |i: int| initial_values(objects[i]))
}

/// Whether an object is an input that a caller may drive by name: a
/// switch or a push button with an export name.
pub open spec fn is_driven_by_name(object: Object) -> bool {
    object.inner matches ObjectInner::Input { export_name: Some(_), kind, .. } && (kind
        == InputType::Switch || kind == InputType::Button)
}

/// The export name of an input or output, if it has one.
pub open spec fn export_name(object: Object) -> Option<Seq<char>> {
    match object.inner {
        ObjectInner::Input { export_name: Some(name), .. } => Some(name@),
        ObjectInner::Output { export_name: Some(name), .. } => Some(name@),
        _ => None,
    }
}

/// The characters of the names of a list of named values.
pub open spec fn named_values(pairs: Seq<(String, bool)>) -> Seq<(Seq<char>, bool)> {
    pairs.map_values(|pair: (String, bool)| (pair.0@, pair.1))
}

/// The row at which the computation of a truth table ends: the first row
/// from `from` on that is not stable, or else the last row.
pub open spec fn final_row(
    objects: Seq<Object>,
    tables: Seq<Table>,
    state: State,
    limit: nat,
    from: nat,
) -> nat
    decreases row_count(objects) - from,
{
    if from + 1 >= row_count(objects) {
        from
    } else if !row_evaluated(objects, tables, state, from, limit).1 {
        from
    } else {
        final_row(objects, tables, state, limit, from + 1)
    }
}

/// The value that a list of named values gives to a name: that of the
/// last pair with the name.
pub open spec fn assigned(inputs: Seq<(Seq<char>, bool)>, name: Seq<char>) -> Option<bool>
    decreases inputs.len(),
{
    if inputs.len() == 0 {
        None
    } else if inputs.last().0 == name {
        Some(inputs.last().1)
    } else {
        assigned(inputs.drop_last(), name)
    }
}

/// The state after the named switches and push buttons have been given
/// the values that `inputs` assigns to their names.
pub open spec fn drive_by_name(
    objects: Seq<Object>,
    state: State,
    inputs: Seq<(Seq<char>, bool)>,
) -> State {
    Seq::new(
        state.len(),
        |i: int|
            if is_driven_by_name(objects[i]) && assigned(inputs, export_name(objects[i])->0)
                is Some {
                state[i].update(0, assigned(inputs, export_name(objects[i])->0)->0)
            } else {
                state[i]
            },
    )
}

/// The state after the named inputs have been given the bits of `bits`,
/// the first named input in the object list the first bit.
pub open spec fn drive_by_rank(objects: Seq<Object>, state: State, bits: Seq<bool>) -> State {
    Seq::new(
        state.len(),
        |i: int|
            if objects[i].is_named_input() {
                state[i].update(0, bits[count_named_inputs(objects.take(i)) as int])
            } else {
                state[i]
            },
    )
}

/// The indices of the inputs with an export name, in the order of the
/// object list. The place of an index in this list is the port of a
/// sub-circuit that the input stands for.
pub open spec fn named_input_indices(objects: Seq<Object>) -> Seq<int>
    decreases objects.len(),
{
    if objects.len() == 0 {
        Seq::empty()
    } else {
        let before = named_input_indices(objects.drop_last());
        if objects.last().is_named_input() {
            before.push(objects.len() - 1)
        } else {
            before
        }
    }
}

/// The indices of the outputs with an export name, in the order of the
/// object list.
pub open spec fn named_output_indices(objects: Seq<Object>) -> Seq<int>
    decreases objects.len(),
{
    if objects.len() == 0 {
        Seq::empty()
    } else {
        let before = named_output_indices(objects.drop_last());
        if objects.last().is_named_output() {
            before.push(objects.len() - 1)
        } else {
            before
        }
    }
}

/// The switches and push buttons with an export name: their names and
/// indices, in the order of the object list.
pub open spec fn driven_inputs(objects: Seq<Object>) -> Seq<(Seq<char>, int)>
    decreases objects.len(),
{
    if objects.len() == 0 {
        Seq::empty()
    } else {
        let before = driven_inputs(objects.drop_last());
        if is_driven_by_name(objects.last()) {
            before.push((export_name(objects.last())->0, objects.len() - 1))
        } else {
            before
        }
    }
}

/// The first value of every named output, with its name, in the order of
/// the object list.
pub open spec fn named_outputs(objects: Seq<Object>, state: State) -> Seq<(Seq<char>, bool)>
    decreases objects.len(),
{
    if objects.len() == 0 {
        Seq::empty()
    } else {
        let before = named_outputs(objects.drop_last(), state);
        if objects.last().is_named_output() {
            before.push((export_name(objects.last())->0, state[objects.len() - 1][0]))
        } else {
            before
        }
    }
}

/// The first value of every named output, in the order of the object list.
pub open spec fn output_bits(objects: Seq<Object>, state: State) -> Seq<bool>
    decreases objects.len(),
{
    if objects.len() == 0 {
        Seq::empty()
    } else {
        let before = output_bits(objects.drop_last(), state);
        if objects.last().is_named_output() {
            before.push(state[objects.len() - 1][0])
        } else {
            before
        }
    }
}

/// The state in which the evaluation of the named values `inputs` ends:
/// reset, drive, then sweep until stable or `limit` sweeps are made.
pub open spec fn evaluated(
    objects: Seq<Object>,
    tables: Seq<Table>,
    state: State,
    inputs: Seq<(Seq<char>, bool)>,
    limit: nat,
) -> (State, bool) {
    settle(objects, tables, drive_by_name(objects, reset(objects, state), inputs), limit)
}

/// The state in which the evaluation of row `row` of the truth table
/// ends, and whether it is stable.
pub open spec fn row_evaluated(
    objects: Seq<Object>,
    tables: Seq<Table>,
    state: State,
    row: nat,
    limit: nat,
) -> (State, bool) {
    settle(
        objects,
        tables,
        drive_by_rank(
            objects,
            reset(objects, state),
            bits_of(row, count_named_inputs(objects)),
        ),
        limit,
    )
}

/// The number of rows of the truth table of a circuit.
pub open spec fn row_count(objects: Seq<Object>) -> nat {
    pow2(count_named_inputs(objects))
}

/// Whether the first `rows` rows of the truth table are all stable.
pub open spec fn rows_stable(
    objects: Seq<Object>,
    tables: Seq<Table>,
    state: State,
    limit: nat,
    rows: nat,
) -> bool {
    forall|row: nat|
        row < rows ==> (#[trigger] row_evaluated(objects, tables, state, row, limit)).1
}

/// The first `rows` rows of the truth table laid end to end.
pub open spec fn table_data(
    objects: Seq<Object>,
    tables: Seq<Table>,
    state: State,
    limit: nat,
    rows: nat,
) -> Seq<bool>
    decreases rows,
{
    if rows == 0 {
        Seq::empty()
    } else {
        table_data(objects, tables, state, limit, (rows - 1) as nat) + output_bits(
            objects,
            row_evaluated(objects, tables, state, (rows - 1) as nat, limit).0,
        )
    }
}

/// The truth table of a circuit: for every assignment of its named
/// inputs, the first value of every named output once the circuit is
/// stable; or `None` if some row is not stable within `limit` sweeps.
pub open spec fn truth_table(
    objects: Seq<Object>,
    tables: Seq<Table>,
    state: State,
    limit: nat,
) -> Option<Rows> {
    if rows_stable(objects, tables, state, limit, row_count(objects)) {
        Some(
            Rows {
                data: table_data(objects, tables, state, limit, row_count(objects)),
                row_size: count_named_outputs(objects),
            },
        )
    } else {
        None
    }
}

} // verus!
