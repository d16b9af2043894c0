//! The simulation: a netlist with the current values of its objects.

use super::gate::evaluate_gate;
use super::model::{
    all_false, assigned, drive_by_name, drive_by_rank, driven_inputs, evaluated, final_row,
    find_table, gate_output, initial_state, initial_values, input_values, is_constant, named_input_indices,
    named_output_indices, named_outputs, named_values, next_value, output_bits, reset, row_count,
    row_evaluated, rows_stable, settle, step, sweep, sweep_from, table_data, truth_table,
    value_count, State, Table,
};
use super::setup::{
    circuit_fault, circuit_tables, custom_rows, custom_tables, customs_fault, customs_of,
    TRUTH_TABLE_MAX_INPUTS, TRUTH_TABLE_MAX_SWEEPS,
};
use super::sound::{
    head_fault, lemma_drive, lemma_drive_by_rank_forgets, lemma_evaluated, lemma_netlist_fault,
    lemma_reset, lemma_row_evaluated, lemma_step, netlist_fault, object_fault, same_constants,
    same_fixed, shaped, slot_sound, slots_sound, sound, SimulationError,
};
use super::table::TruthTable;
use crate::boundary::texts;
use crate::io::netlist::{
    count_named_inputs, count_named_outputs, lemma_count_named_inputs_grows, Circuit,
    Connection, CustomCircuit, InputType, Object, ObjectInner, SimpleGateType,
};
use crate::util::{
    bit_at, bits_of, bits_to_int, bits_value, digits, int_to_bits, lemma_bits_value_bound,
    lemma_exponent_fits, power_of_two, word_modulus,
};
use crate::vecs::{indices, reversed};
use vstd::arithmetic::div_mod::{
    lemma_div_by_multiple, lemma_fundamental_div_mod, lemma_mod_multiples_basic, lemma_small_mod,
};
use vstd::arithmetic::power2::{
    lemma2_to64, lemma_pow2_pos, lemma_pow2_strictly_increases, lemma_pow2_unfold, pow2,
};
use vstd::prelude::*;
use vstd::slice::slice_to_vec;

verus! {

/// An object of the netlist with its current values.
#[derive(Debug, Clone, PartialEq)]
pub struct SObject {
    object: Object,
    values: Vec<bool>,
}

/// What a simulation keeps of a sub-circuit: its uid, and its truth table
/// if it has one.
#[derive(Debug, Clone, PartialEq)]
pub struct CustomTable {
    uid: String,
    table: Option<TruthTable>,
}

/// A netlist with the current values of its objects and the truth tables
/// of the sub-circuits that it may instantiate.
#[derive(Debug, Clone, PartialEq)]
pub struct Simulation {
    objects: Vec<SObject>,
    customs: Vec<CustomTable>,
}

impl CustomTable {
    spec fn entry(self) -> Table {
        Table {
            uid: self.uid@,
            rows: match self.table {
                Some(table) => Some(table@),
                None => None,
            },
        }
    }
}

spec fn netlist_of(objects: Seq<SObject>) -> Seq<Object> {
    objects.map_values(|o: SObject| o.object)
}

spec fn state_of(objects: Seq<SObject>) -> State {
    objects.map_values(|o: SObject| o.values@)
}

spec fn tables_of(customs: Seq<CustomTable>) -> Seq<Table> {
    customs.map_values(|c: CustomTable| c.entry())
}

/// Whether the objects can be evaluated and hold as many values as they
/// have.
spec fn runnable(objects: Seq<SObject>, customs: Seq<CustomTable>) -> bool {
    sound(netlist_of(objects), tables_of(customs)) && shaped(netlist_of(objects), state_of(objects))
}

fn falses(len: usize) -> (bits: Vec<bool>)
    ensures
        bits@ == all_false(len as nat),
{
    let mut bits: Vec<bool> = Vec::new();
    let mut i: usize = 0;
    while i < len
        invariant
            i <= len,
            bits@ =~= all_false(i as nat),
        decreases len - i,
    {
        bits.push(false);
        i = i + 1;
    }
    bits
}

fn same_bits(left: &Vec<bool>, right: &Vec<bool>) -> (same: bool)
    ensures
        same == (left@ == right@),
{
    if left.len() != right.len() {
        return false;
    }
    let mut i: usize = 0;
    while i < left.len()
        invariant
            i <= left.len(),
            left.len() == right.len(),
            forall|k: int| 0 <= k < i ==> left@[k] == right@[k],
        decreases left.len() - i,
    {
        if left[i] != right[i] {
            return false;
        }
        i = i + 1;
    }
    proof {
        assert(left@ =~= right@);
    }
    true
}

/// Reads the values that a list of input ports sees.
fn get_values(connections: &Vec<Connection>, objects: &Vec<SObject>) -> (values: Vec<bool>)
    requires
        slots_sound(netlist_of(objects@), connections@),
        shaped(netlist_of(objects@), state_of(objects@)),
    ensures
        values@ == input_values(connections@, state_of(objects@)),
{
    let mut values: Vec<bool> = Vec::new();
    let mut p: usize = 0;
    while p < connections.len()
        invariant
            p <= connections.len(),
            slots_sound(netlist_of(objects@), connections@),
            shaped(netlist_of(objects@), state_of(objects@)),
            values@ =~= input_values(connections@.take(p as int), state_of(objects@)),
        decreases connections.len() - p,
    {
        let value = match connections[p] {
            Some((port, at)) => {
                proof {
                    assert(slot_sound(netlist_of(objects@), connections@[p as int]));
                    assert(state_of(objects@)[at as int].len() == value_count(
                        netlist_of(objects@)[at as int],
                    ));
                }
                objects[at].values[port as usize]
            },
            None => false,
        };
        values.push(value);
        p = p + 1;
    }
    proof {
        assert(connections@.take(p as int) =~= connections@);
    }
    values
}

fn lookup_table(customs: &Vec<CustomTable>, uid: &str) -> (found: Option<usize>)
    ensures
        match found {
            Some(at) => find_table(tables_of(customs@), uid@) == Some(at as int) && at
                < customs.len(),
            None => find_table(tables_of(customs@), uid@) is None,
        },
{
    let mut at: usize = customs.len();
    proof {
        assert(tables_of(customs@).take(at as int) =~= tables_of(customs@));
    }
    while at > 0
        invariant
            at <= customs.len(),
            find_table(tables_of(customs@), uid@) == find_table(
                tables_of(customs@).take(at as int),
                uid@,
            ),
        decreases at,
    {
        proof {
            assert(tables_of(customs@).take(at as int).drop_last() =~= tables_of(customs@).take(
                at - 1,
            ));
        }
        if customs[at - 1].uid.as_str().eq(uid) {
            return Some(at - 1);
        }
        at = at - 1;
    }
    None
}

impl SObject {
    /// The object.
    pub closed spec fn spec_object(&self) -> Object {
        self.object
    }

    /// Its current values.
    pub closed spec fn spec_values(&self) -> Seq<bool> {
        self.values@
    }

    /// Pairs an object with the values it starts with: an input with its
    /// initial value, everything else with `false` throughout.
    pub fn from(object: Object) -> (paired: SObject)
        ensures
            paired.spec_object() == object,
            paired.spec_values() == initial_values(object),
    {
        let values = match &object.inner {
            ObjectInner::SimpleGate { .. } => falses(1),
            ObjectInner::CustomGate { num_outputs, .. } => falses(*num_outputs as usize),
            ObjectInner::Output { connections, .. } => falses(connections.len()),
            ObjectInner::Input { value, .. } => {
                let mut values: Vec<bool> = Vec::new();
                values.push(*value);
                values
            },
            ObjectInner::Label { .. } => falses(0),
        };
        SObject { object, values }
    }

    /// The object.
    pub fn object(&self) -> (object: &Object)
        ensures
            *object == self.spec_object(),
    {
        &self.object
    }

    /// Its current values.
    pub fn values(&self) -> (values: &Vec<bool>)
        ensures
            values@ == self.spec_values(),
    {
        &self.values
    }

    /// Computes the new values of this object from the current values of
    /// all objects; `None` for an object that never updates itself.
    fn get_new_value(&self, objects: &Vec<SObject>, customs: &Vec<CustomTable>) -> (value: Option<
        Vec<bool>,
    >)
        requires
            head_fault(self.object, tables_of(customs@)) is None,
            slots_sound(netlist_of(objects@), self.object.inner.slots()),
            shaped(netlist_of(objects@), state_of(objects@)),
        ensures
            match value {
                Some(bits) => next_value(self.object, tables_of(customs@), state_of(objects@))
                    == Some(bits@),
                None => next_value(self.object, tables_of(customs@), state_of(objects@)) is None,
            },
    {
        match &self.object.inner {
            ObjectInner::SimpleGate { xor_type, kind, connections } => {
                let inputs = get_values(connections, objects);
                let mut bits: Vec<bool> = Vec::new();
                bits.push(evaluate_gate(*kind, *xor_type, inputs.as_slice()));
                proof {
                    assert(bits@ =~= seq![
                        gate_output(*kind, *xor_type, input_values(connections@, state_of(objects@))),
                    ]);
                }
                Some(bits)
            },
            ObjectInner::CustomGate { uuid, connections, .. } => {
                let inputs = get_values(connections, objects);
                let at = lookup_table(customs, uuid.as_str()).unwrap();
                proof {
                    assert(tables_of(customs@)[at as int] == customs[at as int].entry());
                }
                let table = customs[at].table.as_ref().unwrap();
                let packed = bits_to_int(inputs.as_slice());
                let total = table.len();
                proof {
                    let rows = table@;
                    let row = bits_value(inputs@) as int;
                    lemma_bits_value_bound(inputs@);
                    lemma_pow2_pos(inputs@.len());
                    if rows.row_size == 0 {
                        assert(row * rows.row_size == 0) by (nonlinear_arith)
                            requires
                                rows.row_size == 0,
                        ;
                        assert(packed * rows.row_size == 0) by (nonlinear_arith)
                            requires
                                rows.row_size == 0,
                        ;
                        assert(rows.row(row) =~= rows.row(packed as int));
                    } else {
                        assert(pow2(inputs@.len()) <= pow2(inputs@.len()) * rows.row_size)
                            by (nonlinear_arith)
                            requires
                                rows.row_size >= 1,
                                pow2(inputs@.len()) > 0,
                        ;
                        assert(total == pow2(inputs@.len()) * rows.row_size);
                        lemma_small_mod(bits_value(inputs@), word_modulus());
                        assert(row * rows.row_size + rows.row_size <= pow2(inputs@.len())
                            * rows.row_size) by (nonlinear_arith)
                            requires
                                0 <= row < pow2(inputs@.len()),
                        ;
                    }
                }
                Some(slice_to_vec(table.get_row(packed)))
            },
            ObjectInner::Output { connections, .. } => Some(get_values(connections, objects)),
            ObjectInner::Input { .. } => None,
            ObjectInner::Label { .. } => None,
        }
    }
}

/// Updates every object once, in the order of the object list, each from
/// the values that the objects hold at that moment. Says whether any value
/// changed.
fn sweep_once(objects: &mut Vec<SObject>, customs: &Vec<CustomTable>) -> (changed: bool)
    requires
        runnable(old(objects)@, customs@),
    ensures
        netlist_of(final(objects)@) == netlist_of(old(objects)@),
        runnable(final(objects)@, customs@),
        state_of(final(objects)@) == sweep(
            netlist_of(old(objects)@),
            tables_of(customs@),
            state_of(old(objects)@),
        ),
        changed == (state_of(final(objects)@) != state_of(old(objects)@)),
{
    let ghost netlist = netlist_of(objects@);
    let ghost tables = tables_of(customs@);
    let ghost start = state_of(objects@);
    let mut changed = false;
    let mut i: usize = 0;
    while i < objects.len()
        invariant
            i <= objects.len(),
            tables == tables_of(customs@),
            netlist_of(objects@) == netlist,
            sound(netlist, tables),
            shaped(netlist, state_of(objects@)),
            start.len() == netlist.len(),
            sweep_from(netlist, tables, state_of(objects@), i as int) == sweep(
                netlist,
                tables,
                start,
            ),
            forall|j: int| i <= j < netlist.len() ==> state_of(objects@)[j] == start[j],
            changed <==> exists|j: int| 0 <= j < i && #[trigger] state_of(objects@)[j] != start[j],
        decreases objects.len() - i,
    {
        let ghost before = objects@;
        proof {
            assert(object_fault(netlist, tables, i as int) is None);
            assert(netlist[i as int] == objects@[i as int].object);
            lemma_step(netlist, tables, state_of(before), i as int);
        }
        let value = objects[i].get_new_value(objects, customs);
        match value {
            Some(bits) => {
                if !same_bits(&bits, &objects[i].values) {
                    changed = true;
                }
                objects[i].values = bits;
                proof {
                    assert(netlist_of(objects@) =~= netlist);
                    assert(state_of(objects@) =~= step(netlist, tables, state_of(before), i as int));
                }
            },
            None => {},
        }
        proof {
            let now = state_of(objects@);
            assert(now == step(netlist, tables, state_of(before), i as int));
            if changed {
                if now[i as int] != start[i as int] {
                } else {
                    let j = choose|j: int| 0 <= j < i && #[trigger] state_of(before)[j] != start[j];
                    assert(now[j] == state_of(before)[j]);
                }
            } else {
                assert forall|j: int| 0 <= j < i + 1 implies #[trigger] now[j] == start[j] by {
                    if j < i {
                        assert(state_of(before)[j] == start[j]);
                    }
                }
            }
        }
        i = i + 1;
    }
    proof {
        let now = state_of(objects@);
        if changed {
            let j = choose|j: int| 0 <= j < i && #[trigger] now[j] != start[j];
        } else {
            assert(now =~= start);
        }
    }
    changed
}

/// Sweeps until a sweep changes nothing, at most `limit` times. Says
/// whether a sweep that changed nothing was among them.
fn settle_down(objects: &mut Vec<SObject>, customs: &Vec<CustomTable>, limit: u128) -> (stable:
    bool)
    requires
        runnable(old(objects)@, customs@),
    ensures
        netlist_of(final(objects)@) == netlist_of(old(objects)@),
        runnable(final(objects)@, customs@),
        (state_of(final(objects)@), stable) == settle(
            netlist_of(old(objects)@),
            tables_of(customs@),
            state_of(old(objects)@),
            limit as nat,
        ),
{
    let ghost netlist = netlist_of(objects@);
    let ghost tables = tables_of(customs@);
    let ghost start = state_of(objects@);
    let mut made: u128 = 0;
    while made < limit
        invariant
            made <= limit,
            tables == tables_of(customs@),
            netlist == netlist_of(old(objects)@),
            start == state_of(old(objects)@),
            netlist_of(objects@) == netlist,
            runnable(objects@, customs@),
            settle(netlist, tables, state_of(objects@), (limit - made) as nat) == settle(
                netlist,
                tables,
                start,
                limit as nat,
            ),
        decreases limit - made,
    {
        if !sweep_once(objects, customs) {
            return true;
        }
        made = made + 1;
    }
    false
}

/// Sets every value to false but those of the constant inputs.
fn reset_all(objects: &mut Vec<SObject>)
    ensures
        netlist_of(final(objects)@) == netlist_of(old(objects)@),
        state_of(final(objects)@) == reset(netlist_of(old(objects)@), state_of(old(objects)@)),
{
    let ghost netlist = netlist_of(objects@);
    let ghost start = state_of(objects@);
    let mut i: usize = 0;
    while i < objects.len()
        invariant
            i <= objects.len(),
            objects.len() == start.len(),
            netlist_of(objects@) == netlist,
            forall|j: int| 0 <= j < i ==> state_of(objects@)[j] == reset(netlist, start)[j],
            forall|j: int| i <= j < start.len() ==> state_of(objects@)[j] == start[j],
        decreases objects.len() - i,
    {
        let constant = match &objects[i].object.inner {
            ObjectInner::Input { kind: InputType::True, .. } => true,
            ObjectInner::Input { kind: InputType::False, .. } => true,
            _ => false,
        };
        proof {
            assert(netlist[i as int] == objects@[i as int].object);
            assert(constant == is_constant(netlist[i as int]));
        }
        if !constant {
            let ghost before = objects@;
            let cleared = falses(objects[i].values.len());
            objects[i].values = cleared;
            proof {
                assert(netlist_of(objects@) =~= netlist);
                assert(state_of(objects@) =~= state_of(before).update(i as int, cleared@));
            }
        }
        i = i + 1;
    }
    proof {
        assert(state_of(objects@) =~= reset(netlist, start));
    }
}

/// The value that a list of named values gives to a name: that of the
/// last pair with the name.
pub fn lookup_assigned(inputs: &Vec<(String, bool)>, name: &str) -> (found: Option<bool>)
    ensures
        found == assigned(named_values(inputs@), name@),
{
    let mut at: usize = inputs.len();
    proof {
        assert(named_values(inputs@).take(at as int) =~= named_values(inputs@));
    }
    while at > 0
        invariant
            at <= inputs.len(),
            assigned(named_values(inputs@), name@) == assigned(
                named_values(inputs@).take(at as int),
                name@,
            ),
        decreases at,
    {
        proof {
            assert(named_values(inputs@).take(at as int).drop_last() =~= named_values(
                inputs@,
            ).take(at - 1));
        }
        if inputs[at - 1].0.as_str().eq(name) {
            return Some(inputs[at - 1].1);
        }
        at = at - 1;
    }
    None
}

fn single(bit: bool) -> (bits: Vec<bool>)
    ensures
        bits@ == seq![bit],
{
    let mut bits: Vec<bool> = Vec::new();
    bits.push(bit);
    bits
}

/// Gives the named switches and push buttons the values that `inputs`
/// assigns to their names.
fn drive_named(objects: &mut Vec<SObject>, inputs: &Vec<(String, bool)>)
    requires
        shaped(netlist_of(old(objects)@), state_of(old(objects)@)),
    ensures
        netlist_of(final(objects)@) == netlist_of(old(objects)@),
        state_of(final(objects)@) == drive_by_name(
            netlist_of(old(objects)@),
            state_of(old(objects)@),
            named_values(inputs@),
        ),
{
    let ghost netlist = netlist_of(objects@);
    let ghost start = state_of(objects@);
    let ghost driven = drive_by_name(netlist, start, named_values(inputs@));
    let mut i: usize = 0;
    while i < objects.len()
        invariant
            i <= objects.len(),
            objects.len() == start.len(),
            shaped(netlist, start),
            driven == drive_by_name(netlist, start, named_values(inputs@)),
            netlist_of(objects@) == netlist,
            forall|j: int| 0 <= j < i ==> state_of(objects@)[j] == driven[j],
            forall|j: int| i <= j < start.len() ==> state_of(objects@)[j] == start[j],
        decreases objects.len() - i,
    {
        proof {
            assert(netlist[i as int] == objects@[i as int].object);
            assert(start[i as int].len() == value_count(netlist[i as int]));
        }
        let value = match &objects[i].object.inner {
            ObjectInner::Input { export_name: Some(name), kind, .. } => {
                match kind {
                    InputType::Switch => lookup_assigned(inputs, name.as_str()),
                    InputType::Button => lookup_assigned(inputs, name.as_str()),
                    _ => None,
                }
            },
            _ => None,
        };
        match value {
            Some(bit) => {
                let ghost before = objects@;
                let bits = single(bit);
                objects[i].values = bits;
                proof {
                    assert(netlist_of(objects@) =~= netlist);
                    assert(state_of(objects@) =~= state_of(before).update(i as int, bits@));
                    assert(start[i as int].update(0, bit) =~= seq![bit]);
                }
            },
            None => {},
        }
        i = i + 1;
    }
    proof {
        assert(state_of(objects@) =~= driven);
    }
}

/// Gives the named inputs the bits of `bits`, the first named input in
/// the object list the first bit.
fn drive_ranked(objects: &mut Vec<SObject>, bits: &Vec<bool>)
    requires
        shaped(netlist_of(old(objects)@), state_of(old(objects)@)),
        bits.len() == count_named_inputs(netlist_of(old(objects)@)),
    ensures
        netlist_of(final(objects)@) == netlist_of(old(objects)@),
        state_of(final(objects)@) == drive_by_rank(
            netlist_of(old(objects)@),
            state_of(old(objects)@),
            bits@,
        ),
{
    let ghost netlist = netlist_of(objects@);
    let ghost start = state_of(objects@);
    let ghost driven = drive_by_rank(netlist, start, bits@);
    let mut rank: usize = 0;
    let mut i: usize = 0;
    while i < objects.len()
        invariant
            i <= objects.len(),
            objects.len() == start.len(),
            shaped(netlist, start),
            bits.len() == count_named_inputs(netlist),
            driven == drive_by_rank(netlist, start, bits@),
            netlist_of(objects@) == netlist,
            rank == count_named_inputs(netlist.take(i as int)),
            forall|j: int| 0 <= j < i ==> state_of(objects@)[j] == driven[j],
            forall|j: int| i <= j < start.len() ==> state_of(objects@)[j] == start[j],
        decreases objects.len() - i,
    {
        proof {
            assert(netlist[i as int] == objects@[i as int].object);
            assert(start[i as int].len() == value_count(netlist[i as int]));
            assert(netlist.take(i + 1).drop_last() =~= netlist.take(i as int));
            lemma_count_named_inputs_grows(netlist, i + 1);
        }
        if objects[i].object.is_named_input() {
            let ghost before = objects@;
            let value = single(bits[rank]);
            objects[i].values = value;
            proof {
                assert(netlist_of(objects@) =~= netlist);
                assert(state_of(objects@) =~= state_of(before).update(i as int, value@));
                assert(start[i as int].update(0, bits@[rank as int]) =~= seq![bits@[rank as int]]);
            }
            rank = rank + 1;
        }
        i = i + 1;
    }
    proof {
        assert(state_of(objects@) =~= driven);
    }
}

/// Reads the first value of every named output, with its name.
fn read_outputs(objects: &Vec<SObject>, customs: Ghost<Seq<CustomTable>>) -> (outputs: Vec<
    (String, bool),
>)
    requires
        runnable(objects@, customs@),
    ensures
        named_values(outputs@) == named_outputs(netlist_of(objects@), state_of(objects@)),
{
    let ghost netlist = netlist_of(objects@);
    let ghost state = state_of(objects@);
    let mut outputs: Vec<(String, bool)> = Vec::new();
    let mut i: usize = 0;
    proof {
        assert(named_values(outputs@) =~= named_outputs(netlist.take(0), state));
    }
    while i < objects.len()
        invariant
            i <= objects.len(),
            netlist == netlist_of(objects@),
            state == state_of(objects@),
            runnable(objects@, customs@),
            named_values(outputs@) == named_outputs(netlist.take(i as int), state),
        decreases objects.len() - i,
    {
        proof {
            assert(netlist[i as int] == objects@[i as int].object);
            assert(state[i as int].len() == value_count(netlist[i as int]));
            assert(object_fault(netlist, tables_of(customs@), i as int) is None);
            assert(netlist.take(i + 1).drop_last() =~= netlist.take(i as int));
            assert(netlist.take(i + 1).last() == netlist[i as int]);
        }
        match &objects[i].object.inner {
            ObjectInner::Output { export_name: Some(name), .. } => {
                let ghost before = outputs@;
                outputs.push((name.clone(), objects[i].values[0]));
                proof {
                    assert(named_values(outputs@) =~= named_values(before).push(
                        (name@, state[i as int][0]),
                    ));
                }
            },
            _ => {},
        }
        i = i + 1;
    }
    proof {
        assert(netlist.take(i as int) =~= netlist);
    }
    outputs
}

/// Appends the first value of every named output to `bits`.
fn append_output_bits(
    objects: &Vec<SObject>,
    customs: Ghost<Seq<CustomTable>>,
    bits: &mut Vec<bool>,
)
    requires
        runnable(objects@, customs@),
    ensures
        final(bits)@ == old(bits)@ + output_bits(netlist_of(objects@), state_of(objects@)),
{
    let ghost netlist = netlist_of(objects@);
    let ghost state = state_of(objects@);
    let ghost start = bits@;
    let mut i: usize = 0;
    proof {
        assert(bits@ =~= start + output_bits(netlist.take(0), state));
    }
    while i < objects.len()
        invariant
            i <= objects.len(),
            netlist == netlist_of(objects@),
            state == state_of(objects@),
            runnable(objects@, customs@),
            bits@ == start + output_bits(netlist.take(i as int), state),
        decreases objects.len() - i,
    {
        proof {
            assert(netlist[i as int] == objects@[i as int].object);
            assert(state[i as int].len() == value_count(netlist[i as int]));
            assert(object_fault(netlist, tables_of(customs@), i as int) is None);
            assert(netlist.take(i + 1).drop_last() =~= netlist.take(i as int));
            assert(netlist.take(i + 1).last() == netlist[i as int]);
        }
        if objects[i].object.is_named_output() {
            let ghost before = bits@;
            bits.push(objects[i].values[0]);
            proof {
                assert(bits@ =~= start + output_bits(netlist.take(i as int), state).push(
                    state[i as int][0],
                ));
            }
        }
        i = i + 1;
    }
    proof {
        assert(netlist.take(i as int) =~= netlist);
    }
}

fn count_inputs(objects: &Vec<SObject>) -> (count: usize)
    ensures
        count == count_named_inputs(netlist_of(objects@)),
{
    let ghost netlist = netlist_of(objects@);
    let mut count: usize = 0;
    let mut i: usize = 0;
    while i < objects.len()
        invariant
            i <= objects.len(),
            netlist == netlist_of(objects@),
            count <= i,
            count == count_named_inputs(netlist.take(i as int)),
        decreases objects.len() - i,
    {
        proof {
            assert(netlist.take(i + 1).drop_last() =~= netlist.take(i as int));
            assert(netlist[i as int] == objects@[i as int].object);
        }
        if objects[i].object.is_named_input() {
            count = count + 1;
        }
        i = i + 1;
    }
    proof {
        assert(netlist.take(i as int) =~= netlist);
    }
    count
}

fn count_outputs(objects: &Vec<SObject>) -> (count: usize)
    ensures
        count == count_named_outputs(netlist_of(objects@)),
{
    let ghost netlist = netlist_of(objects@);
    let mut count: usize = 0;
    let mut i: usize = 0;
    while i < objects.len()
        invariant
            i <= objects.len(),
            netlist == netlist_of(objects@),
            count <= i,
            count == count_named_outputs(netlist.take(i as int)),
        decreases objects.len() - i,
    {
        proof {
            assert(netlist.take(i + 1).drop_last() =~= netlist.take(i as int));
            assert(netlist[i as int] == objects@[i as int].object);
        }
        if objects[i].object.is_named_output() {
            count = count + 1;
        }
        i = i + 1;
    }
    proof {
        assert(netlist.take(i as int) =~= netlist);
    }
    count
}

/// Computes the truth table of the objects: every assignment of the named
/// inputs is evaluated after a reset; if one of them is not stable within
/// `limit` sweeps, there is no table.
fn tabulate(objects: &mut Vec<SObject>, customs: &Vec<CustomTable>, limit: u128) -> (table:
    Option<TruthTable>)
    requires
        runnable(old(objects)@, customs@),
        row_count(netlist_of(old(objects)@)) <= usize::MAX,
    ensures
        netlist_of(final(objects)@) == netlist_of(old(objects)@),
        runnable(final(objects)@, customs@),
        match table {
            Some(table) => truth_table(
                netlist_of(old(objects)@),
                tables_of(customs@),
                state_of(old(objects)@),
                limit as nat,
            ) == Some(table@),
            None => truth_table(
                netlist_of(old(objects)@),
                tables_of(customs@),
                state_of(old(objects)@),
                limit as nat,
            ) is None,
        },
        state_of(final(objects)@) == row_evaluated(
            netlist_of(old(objects)@),
            tables_of(customs@),
            state_of(old(objects)@),
            final_row(
                netlist_of(old(objects)@),
                tables_of(customs@),
                state_of(old(objects)@),
                limit as nat,
                0,
            ),
            limit as nat,
        ).0,
{
    let ghost netlist = netlist_of(objects@);
    let ghost tables = tables_of(customs@);
    let ghost start = state_of(objects@);
    let inputs = count_inputs(objects);
    let row_size = count_outputs(objects);
    proof {
        lemma_exponent_fits(inputs as nat);
        lemma_pow2_pos(inputs as nat);
    }
    let rows = power_of_two(inputs);
    let mut data: Vec<bool> = Vec::new();
    let mut row: usize = 0;
    while row < rows
        invariant
            row <= rows,
            0 < rows,
            rows == row_count(netlist),
            inputs == count_named_inputs(netlist),
            inputs < 64,
            netlist == netlist_of(old(objects)@),
            tables == tables_of(customs@),
            start == state_of(old(objects)@),
            netlist_of(objects@) == netlist,
            runnable(objects@, customs@),
            shaped(netlist, start),
            same_fixed(netlist, start, state_of(objects@)),
            rows_stable(netlist, tables, start, limit as nat, row as nat),
            data@ == table_data(netlist, tables, start, limit as nat, row as nat),
            row < rows ==> final_row(netlist, tables, start, limit as nat, 0) == final_row(
                netlist,
                tables,
                start,
                limit as nat,
                row as nat,
            ),
            row == rows ==> state_of(objects@) == row_evaluated(
                netlist,
                tables,
                start,
                final_row(netlist, tables, start, limit as nat, 0),
                limit as nat,
            ).0,
        decreases rows - row,
    {
        let ghost before = state_of(objects@);
        reset_all(objects);
        let bits = int_to_bits(row, inputs as u8);
        proof {
            lemma_reset(netlist, before);
        }
        drive_ranked(objects, &bits);
        proof {
            lemma_drive(netlist, reset(netlist, before), Seq::empty(), bits@);
            lemma_drive_by_rank_forgets(netlist, start, before, bits@);
            lemma_row_evaluated(netlist, tables, start, row as nat, limit as nat);
        }
        let stable = settle_down(objects, customs, limit);
        proof {
            assert((state_of(objects@), stable) == row_evaluated(
                netlist,
                tables,
                start,
                row as nat,
                limit as nat,
            ));
        }
        if !stable {
            proof {
                assert(!row_evaluated(netlist, tables, start, row as nat, limit as nat).1);
            }
            return None;
        }
        append_output_bits(objects, Ghost(customs@), &mut data);
        proof {
            assert forall|r: nat| r < row + 1 implies (#[trigger] row_evaluated(
                netlist,
                tables,
                start,
                r,
                limit as nat,
            )).1 by {
                if r < row {
                } else {
                    assert(r == row as nat);
                }
            }
        }
        row = row + 1;
    }
    Some(TruthTable::new(data, row_size))
}

fn exact_power(value: usize, exponent: usize) -> (yes: bool)
    ensures
        yes == (value == pow2(exponent as nat)),
{
    let mut power: usize = 1;
    let mut k: usize = 0;
    proof {
        lemma2_to64();
    }
    while k < exponent
        invariant
            k <= exponent,
            power == pow2(k as nat),
        decreases exponent - k,
    {
        proof {
            lemma_pow2_unfold(k as nat + 1);
        }
        if power > usize::MAX / 2 {
            proof {
                if k + 1 < exponent {
                    lemma_pow2_strictly_increases(k as nat + 1, exponent as nat);
                }
            }
            return false;
        }
        power = power * 2;
        k = k + 1;
    }
    power == value
}

fn table_covers(table: &TruthTable, inputs: usize) -> (yes: bool)
    ensures
        yes == table@.covers(inputs as nat),
{
    let size = table.row_size();
    let total = table.len();
    let ghost rows = pow2(inputs as nat);
    if size == 0 {
        proof {
            assert(rows * size == 0) by (nonlinear_arith)
                requires
                    size == 0,
            ;
        }
        return total == 0;
    }
    proof {
        if total == rows * size {
            lemma_mod_multiples_basic(rows as int, size as int);
            lemma_div_by_multiple(rows as int, size as int);
        }
        lemma_fundamental_div_mod(total as int, size as int);
        if total % size == 0 && total / size == rows {
            assert(total == rows * size) by (nonlinear_arith)
                requires
                    total == size * (total / size) + total % size,
                    total % size == 0,
                    total / size == rows,
            ;
        }
    }
    if total % size != 0 {
        return false;
    }
    exact_power(total / size, inputs)
}

/// Looks for what is wrong with one object.
fn check_object(objects: &Vec<SObject>, customs: &Vec<CustomTable>, at: usize) -> (res: Result<
    (),
    SimulationError,
>)
    requires
        at < objects.len(),
    ensures
        match res {
            Ok(_) => object_fault(netlist_of(objects@), tables_of(customs@), at as int) is None,
            Err(e) => object_fault(netlist_of(objects@), tables_of(customs@), at as int) == Some(e),
        },
{
    let ghost netlist = netlist_of(objects@);
    proof {
        assert(netlist[at as int] == objects@[at as int].object);
    }
    let connections = match &objects[at].object.inner {
        ObjectInner::SimpleGate { kind, connections, .. } => {
            let needs_input = match kind {
                SimpleGateType::Buffer => true,
                SimpleGateType::Not => true,
                _ => false,
            };
            if needs_input && connections.len() == 0 {
                return Err(SimulationError::MalformedNetlist);
            }
            connections
        },
        ObjectInner::CustomGate { uuid, num_outputs, connections } => {
            let found = match lookup_table(customs, uuid.as_str()) {
                Some(found) => found,
                None => {
                    return Err(SimulationError::MalformedNetlist);
                },
            };
            proof {
                assert(tables_of(customs@)[found as int] == customs[found as int].entry());
            }
            match &customs[found].table {
                None => {
                    return Err(SimulationError::UnsupportedCustomGate);
                },
                Some(table) => {
                    if table.row_size() != *num_outputs as usize || !table_covers(
                        table,
                        connections.len(),
                    ) {
                        return Err(SimulationError::MalformedNetlist);
                    }
                },
            }
            connections
        },
        ObjectInner::Output { export_name, connections } => {
            if export_name.is_some() && connections.len() == 0 {
                return Err(SimulationError::MalformedNetlist);
            }
            connections
        },
        ObjectInner::Input { .. } => {
            proof {
                assert(slots_sound(netlist, netlist[at as int].inner.slots()));
            }
            return Ok(());
        },
        ObjectInner::Label { .. } => {
            proof {
                assert(slots_sound(netlist, netlist[at as int].inner.slots()));
            }
            return Ok(());
        },
    };
    let mut p: usize = 0;
    while p < connections.len()
        invariant
            p <= connections.len(),
            at < objects.len(),
            netlist == netlist_of(objects@),
            head_fault(netlist[at as int], tables_of(customs@)) is None,
            connections@ == netlist[at as int].inner.slots(),
            forall|q: int| 0 <= q < p ==> slot_sound(netlist, #[trigger] connections@[q]),
        decreases connections.len() - p,
    {
        match connections[p] {
            Some((port, source)) => {
                if source >= objects.len() {
                    proof {
                        assert(!slot_sound(netlist, connections@[p as int]));
                    }
                    return Err(SimulationError::MalformedNetlist);
                }
                proof {
                    assert(netlist[source as int] == objects@[source as int].object);
                }
                let count: usize = match &objects[source].object.inner {
                    ObjectInner::SimpleGate { .. } => 1,
                    ObjectInner::CustomGate { num_outputs, .. } => *num_outputs as usize,
                    ObjectInner::Output { connections, .. } => connections.len(),
                    ObjectInner::Input { .. } => 1,
                    ObjectInner::Label { .. } => 0,
                };
                if port as usize >= count {
                    proof {
                        assert(!slot_sound(netlist, connections@[p as int]));
                    }
                    return Err(SimulationError::MalformedNetlist);
                }
            },
            None => {},
        }
        p = p + 1;
    }
    Ok(())
}

/// Looks for the first object that cannot be evaluated.
fn check_netlist(objects: &Vec<SObject>, customs: &Vec<CustomTable>) -> (res: Result<
    (),
    SimulationError,
>)
    ensures
        match res {
            Ok(_) => netlist_fault(netlist_of(objects@), tables_of(customs@), 0) is None && sound(
                netlist_of(objects@),
                tables_of(customs@),
            ),
            Err(e) => netlist_fault(netlist_of(objects@), tables_of(customs@), 0) == Some(e),
        },
{
    let mut at: usize = 0;
    while at < objects.len()
        invariant
            at <= objects.len(),
            netlist_fault(netlist_of(objects@), tables_of(customs@), 0) == netlist_fault(
                netlist_of(objects@),
                tables_of(customs@),
                at as int,
            ),
        decreases objects.len() - at,
    {
        match check_object(objects, customs, at) {
            Ok(_) => {},
            Err(e) => {
                return Err(e);
            },
        }
        at = at + 1;
    }
    proof {
        lemma_netlist_fault(netlist_of(objects@), tables_of(customs@), 0);
    }
    Ok(())
}

/// Pairs every object with the values it starts with.
fn paired(objects: Vec<Object>) -> (pairs: Vec<SObject>)
    ensures
        netlist_of(pairs@) == objects@,
        state_of(pairs@) == initial_state(objects@),
        shaped(objects@, initial_state(objects@)),
{
    let ghost netlist = objects@;
    let total = objects.len();
    let mut pending = reversed(objects);
    let mut pairs: Vec<SObject> = Vec::new();
    while pairs.len() < total
        invariant
            total == netlist.len(),
            pairs.len() + pending.len() == total,
            pending@ == netlist.reverse().take(pending.len() as int),
            netlist_of(pairs@) =~= netlist.take(pairs.len() as int),
            state_of(pairs@) =~= initial_state(netlist).take(pairs.len() as int),
        decreases total - pairs.len(),
    {
        let object = pending.pop().unwrap();
        let ghost done = pairs@;
        proof {
            assert(object == netlist[pairs.len() as int]);
            assert(pending@ =~= netlist.reverse().take(pending.len() as int));
        }
        let pair = SObject::from(object);
        pairs.push(pair);
        proof {
            assert(netlist_of(pairs@) =~= netlist_of(done).push(object));
            assert(state_of(pairs@) =~= state_of(done).push(pair.values@));
        }
    }
    proof {
        assert(netlist.take(total as int) =~= netlist);
        assert(initial_state(netlist).take(total as int) =~= initial_state(netlist));
    }
    pairs
}

/// The named values of row `row` of a table over `names`: every name
/// with its bit of `row`, the first name being the most significant bit.
pub open spec fn row_assignment(names: Seq<Seq<char>>, row: nat) -> Seq<(Seq<char>, bool)> {
    Seq::new(names.len(), |k: int| (names[k], bit_at(row, names.len(), k)))
}

/// Pairs every name with its bit of `row`, the first name being the most
/// significant bit.
pub fn assignment(names: &Vec<String>, row: usize) -> (pairs: Vec<(String, bool)>)
    ensures
        named_values(pairs@) == row_assignment(texts(names@), row as nat),
{
    let bits = digits(row, names.len());
    let mut pairs: Vec<(String, bool)> = Vec::new();
    let mut k: usize = 0;
    while k < names.len()
        invariant
            k <= names.len(),
            bits@ == bits_of(row as nat, names.len() as nat),
            named_values(pairs@) =~= row_assignment(texts(names@), row as nat).take(
                k as int,
            ),
        decreases names.len() - k,
    {
        let ghost before = pairs@;
        pairs.push((names[k].clone(), bits[k]));
        proof {
            assert(named_values(pairs@) =~= named_values(before).push((names[k as int]@, bits@[k as int])));
        }
        k = k + 1;
    }
    proof {
        let all = row_assignment(texts(names@), row as nat);
        assert(all.take(k as int) =~= all);
    }
    pairs
}

/// The indices of a list of names with indices.
pub open spec fn named_indices(pairs: Seq<(String, usize)>) -> Seq<(Seq<char>, int)> {
    pairs.map_values(|pair: (String, usize)| (pair.0@, pair.1 as int))
}

impl Simulation {
    /// The objects of the netlist.
    pub closed spec fn netlist(&self) -> Seq<Object> {
        netlist_of(self.objects@)
    }

    /// The current values of the objects.
    pub closed spec fn state(&self) -> State {
        state_of(self.objects@)
    }

    /// The truth tables of the sub-circuits that the netlist may
    /// instantiate.
    pub closed spec fn tables(&self) -> Seq<Table> {
        tables_of(self.customs@)
    }

    /// Whether every object can be evaluated and holds as many values as
    /// it has. Every simulation that this library hands out is so.
    pub open spec fn wf(&self) -> bool {
        sound(self.netlist(), self.tables()) && shaped(self.netlist(), self.state())
    }

    /// Builds the simulation of a circuit. The sub-circuits are taken in
    /// the order given; each with at most `TRUTH_TABLE_MAX_INPUTS` named
    /// inputs is checked and gets its truth table, computed with
    /// `TRUTH_TABLE_MAX_SWEEPS` sweeps for each row at most, or no table
    /// if a row does not become stable. Then the top-level objects are
    /// checked. Every input starts with its initial value, every other
    /// value with `false`.
    pub fn try_from(circuit: Circuit) -> (res: Result<Simulation, SimulationError>)
        ensures
            match res {
                Ok(simulation) => {
                    &&& circuit_fault(circuit) is None
                    &&& simulation.wf()
                    &&& simulation.netlist() == circuit.objects@
                    &&& simulation.state() == initial_state(circuit.objects@)
                    &&& simulation.tables() == circuit_tables(circuit)
                },
                Err(e) => circuit_fault(circuit) == Some(e),
            },
    {
        let Circuit { objects, customs } = circuit;
        let list = match customs {
            Some(list) => list,
            None => Vec::new(),
        };
        let ghost definitions = list@;
        let total = list.len();
        let mut pending = reversed(list);
        let mut tables: Vec<CustomTable> = Vec::new();
        proof {
            assert(tables_of(tables@) =~= custom_tables(definitions, 0));
        }
        while tables.len() < total
            invariant
                definitions == customs_of(circuit),
                total == definitions.len(),
                tables.len() + pending.len() == total,
                pending@ == definitions.reverse().take(pending.len() as int),
                tables_of(tables@) == custom_tables(definitions, tables.len() as int),
                customs_fault(definitions, 0) == customs_fault(definitions, tables.len() as int),
            decreases total - tables.len(),
        {
            let custom = pending.pop().unwrap();
            let ghost known = tables@;
            proof {
                assert(custom == definitions[tables.len() as int]);
                assert(pending@ =~= definitions.reverse().take(pending.len() as int));
            }
            let CustomCircuit { objects, uid, .. } = custom;
            let mut pairs = paired(objects);
            let table = if count_inputs(&pairs) <= TRUTH_TABLE_MAX_INPUTS {
                match check_netlist(&pairs, &tables) {
                    Ok(_) => {},
                    Err(e) => {
                        return Err(e);
                    },
                }
                proof {
                    lemma2_to64();
                    if count_named_inputs(netlist_of(pairs@)) < 24 {
                        lemma_pow2_strictly_increases(count_named_inputs(netlist_of(pairs@)), 24);
                    }
                }
                tabulate(&mut pairs, &tables, TRUTH_TABLE_MAX_SWEEPS)
            } else {
                None
            };
            tables.push(CustomTable { uid, table });
            proof {
                assert(tables_of(tables@) =~= tables_of(known).push(tables@.last().entry()));
                assert(tables@.last().entry().rows == custom_rows(
                    custom.objects@,
                    tables_of(known),
                ));
            }
        }
        let pairs = paired(objects);
        match check_netlist(&pairs, &tables) {
            Ok(_) => Ok(Simulation { objects: pairs, customs: tables }),
            Err(e) => Err(e),
        }
    }

    /// The number of objects.
    pub fn len(&self) -> (len: usize)
        ensures
            len == self.netlist().len(),
            len == self.state().len(),
    {
        self.objects.len()
    }

    /// The object at an index of the object list.
    pub fn object(&self, index: usize) -> (object: &Object)
        requires
            index < self.netlist().len(),
        ensures
            *object == self.netlist()[index as int],
    {
        &self.objects[index].object
    }

    /// The current values of the object at an index of the object list.
    pub fn values(&self, index: usize) -> (values: &Vec<bool>)
        requires
            index < self.state().len(),
        ensures
            values@ == self.state()[index as int],
    {
        &self.objects[index].values
    }

    /// The indices of all inputs with an export name, in the order of the
    /// object list: the handles through which `set_input` drives them.
    pub fn inputs_mut(&self) -> (handles: Vec<usize>)
        ensures
            indices(handles@) == named_input_indices(self.netlist()),
    {
        let ghost netlist = self.netlist();
        let mut handles: Vec<usize> = Vec::new();
        let mut i: usize = 0;
        proof {
            assert(indices(handles@) =~= named_input_indices(
                netlist.take(0),
            ));
        }
        while i < self.objects.len()
            invariant
                i <= self.objects.len(),
                netlist == netlist_of(self.objects@),
                indices(handles@) == named_input_indices(
                    netlist.take(i as int),
                ),
            decreases self.objects.len() - i,
        {
            proof {
                assert(netlist.take(i + 1).drop_last() =~= netlist.take(i as int));
                assert(netlist.take(i + 1).last() == self.objects@[i as int].object);
            }
            if self.objects[i].object.is_named_input() {
                let ghost before = handles@;
                handles.push(i);
                proof {
                    assert(indices(handles@) =~= indices(before).push(i as int));
                }
            }
            i = i + 1;
        }
        proof {
            assert(netlist.take(i as int) =~= netlist);
        }
        handles
    }

    /// The names and indices of all switches and push buttons with an
    /// export name, in the order of the object list.
    pub fn get_inputs_mut(&self) -> (handles: Vec<(String, usize)>)
        ensures
            named_indices(handles@) == driven_inputs(self.netlist()),
    {
        let ghost netlist = self.netlist();
        let mut handles: Vec<(String, usize)> = Vec::new();
        let mut i: usize = 0;
        proof {
            assert(named_indices(handles@) =~= driven_inputs(netlist.take(0)));
        }
        while i < self.objects.len()
            invariant
                i <= self.objects.len(),
                netlist == netlist_of(self.objects@),
                named_indices(handles@) == driven_inputs(netlist.take(i as int)),
            decreases self.objects.len() - i,
        {
            proof {
                assert(netlist.take(i + 1).drop_last() =~= netlist.take(i as int));
                assert(netlist.take(i + 1).last() == self.objects@[i as int].object);
            }
            match &self.objects[i].object.inner {
                ObjectInner::Input { export_name: Some(name), kind, .. } => {
                    let driven = match kind {
                        InputType::Switch => true,
                        InputType::Button => true,
                        _ => false,
                    };
                    if driven {
                        let ghost before = handles@;
                        handles.push((name.clone(), i));
                        proof {
                            assert(named_indices(handles@) =~= named_indices(before).push(
                                (name@, i as int),
                            ));
                        }
                    }
                },
                _ => {},
            }
            i = i + 1;
        }
        proof {
            assert(netlist.take(i as int) =~= netlist);
        }
        handles
    }

    /// The indices of all outputs with an export name, in the order of
    /// the object list.
    pub fn outputs(&self) -> (handles: Vec<usize>)
        ensures
            indices(handles@) == named_output_indices(self.netlist()),
    {
        let ghost netlist = self.netlist();
        let mut handles: Vec<usize> = Vec::new();
        let mut i: usize = 0;
        proof {
            assert(indices(handles@) =~= named_output_indices(
                netlist.take(0),
            ));
        }
        while i < self.objects.len()
            invariant
                i <= self.objects.len(),
                netlist == netlist_of(self.objects@),
                indices(handles@) == named_output_indices(
                    netlist.take(i as int),
                ),
            decreases self.objects.len() - i,
        {
            proof {
                assert(netlist.take(i + 1).drop_last() =~= netlist.take(i as int));
                assert(netlist.take(i + 1).last() == self.objects@[i as int].object);
            }
            if self.objects[i].object.is_named_output() {
                let ghost before = handles@;
                handles.push(i);
                proof {
                    assert(indices(handles@) =~= indices(before).push(i as int));
                }
            }
            i = i + 1;
        }
        proof {
            assert(netlist.take(i as int) =~= netlist);
        }
        handles
    }

    /// Gives the input at `index` a value.
    pub fn set_input(&mut self, index: usize, value: bool)
        requires
            old(self).wf(),
            index < old(self).netlist().len(),
            old(self).netlist()[index as int].inner is Input,
        ensures
            final(self).wf(),
            final(self).netlist() == old(self).netlist(),
            final(self).tables() == old(self).tables(),
            final(self).state() == old(self).state().update(index as int, seq![value]),
    {
        let ghost before = self.objects@;
        let bits = single(value);
        self.objects[index].values = bits;
        proof {
            assert(netlist_of(self.objects@) =~= netlist_of(before));
            assert(state_of(self.objects@) =~= state_of(before).update(index as int, seq![value]));
            assert(netlist_of(before)[index as int] == before[index as int].object);
        }
    }

    /// Updates every object once, in the order of the object list. Each
    /// object is computed from the values that the objects hold at that
    /// moment, so that it sees the new values of the objects before it
    /// and the old values of those after it. Says whether any value
    /// changed.
    pub fn update_all_once(&mut self) -> (changed: bool)
        requires
            old(self).wf(),
        ensures
            final(self).wf(),
            final(self).netlist() == old(self).netlist(),
            final(self).tables() == old(self).tables(),
            final(self).state() == sweep(old(self).netlist(), old(self).tables(), old(self).state()),
            changed == (final(self).state() != old(self).state()),
    {
        sweep_once(&mut self.objects, &self.customs)
    }

    /// Sweeps until a sweep changes nothing, at most `limit` times. Says
    /// whether the values are stable: whether a sweep that changed
    /// nothing was among them.
    pub fn update_until_done(&mut self, limit: u128) -> (stable: bool)
        requires
            old(self).wf(),
        ensures
            final(self).wf(),
            final(self).netlist() == old(self).netlist(),
            final(self).tables() == old(self).tables(),
            (final(self).state(), stable) == settle(
                old(self).netlist(),
                old(self).tables(),
                old(self).state(),
                limit as nat,
            ),
    {
        settle_down(&mut self.objects, &self.customs, limit)
    }

    /// Sets every value to false but those of the constant inputs.
    pub fn reset_state(&mut self)
        requires
            old(self).wf(),
        ensures
            final(self).wf(),
            final(self).netlist() == old(self).netlist(),
            final(self).tables() == old(self).tables(),
            final(self).state() == reset(old(self).netlist(), old(self).state()),
    {
        proof {
            lemma_reset(self.netlist(), self.state());
        }
        reset_all(&mut self.objects);
    }

    /// Evaluates the circuit for given values of its named switches and
    /// push buttons: resets, gives each of them the value that `inputs`
    /// assigns to its name (the last pair with the name counts; one
    /// without a pair stays false), and sweeps until the values are stable
    /// or `limit` sweeps are made. Returns the first value of every named
    /// output with its name, in the order of the object list, whether the
    /// values became stable or not; `update_until_done` tells which.
    pub fn get_outputs(&mut self, inputs: &Vec<(String, bool)>, limit: u128) -> (outputs: Vec<
        (String, bool),
    >)
        requires
            old(self).wf(),
        ensures
            final(self).wf(),
            final(self).netlist() == old(self).netlist(),
            final(self).tables() == old(self).tables(),
            final(self).state() == evaluated(
                old(self).netlist(),
                old(self).tables(),
                old(self).state(),
                named_values(inputs@),
                limit as nat,
            ).0,
            named_values(outputs@) == named_outputs(final(self).netlist(), final(self).state()),
            same_constants(old(self).netlist(), old(self).state(), final(self).state()),
    {
        proof {
            lemma_reset(self.netlist(), self.state());
            lemma_drive(
                self.netlist(),
                reset(self.netlist(), self.state()),
                named_values(inputs@),
                Seq::empty(),
            );
            lemma_evaluated(
                self.netlist(),
                self.tables(),
                self.state(),
                named_values(inputs@),
                limit as nat,
            );
        }
        reset_all(&mut self.objects);
        drive_named(&mut self.objects, inputs);
        settle_down(&mut self.objects, &self.customs, limit);
        read_outputs(&self.objects, Ghost(self.customs@))
    }

    /// Computes the truth table of the circuit: every assignment of the
    /// named inputs is evaluated after a reset, with at most `cycle_limit`
    /// sweeps. Row `r` belongs to the assignment whose bits spell `r`,
    /// the first named input in the object list being the most
    /// significant bit, and holds the first value of every named output
    /// in the order of the object list. Returns `None` if some row is not
    /// stable. The values are left as the last evaluated row left them.
    pub fn get_truth_table(&mut self, cycle_limit: u128) -> (table: Option<TruthTable>)
        requires
            old(self).wf(),
            row_count(old(self).netlist()) <= usize::MAX,
        ensures
            final(self).wf(),
            final(self).netlist() == old(self).netlist(),
            final(self).tables() == old(self).tables(),
            match table {
                Some(table) => truth_table(
                    old(self).netlist(),
                    old(self).tables(),
                    old(self).state(),
                    cycle_limit as nat,
                ) == Some(table@),
                None => truth_table(
                    old(self).netlist(),
                    old(self).tables(),
                    old(self).state(),
                    cycle_limit as nat,
                ) is None,
            },
            final(self).state() == row_evaluated(
                old(self).netlist(),
                old(self).tables(),
                old(self).state(),
                final_row(
                    old(self).netlist(),
                    old(self).tables(),
                    old(self).state(),
                    cycle_limit as nat,
                    0,
                ),
                cycle_limit as nat,
            ).0,
    {
        tabulate(&mut self.objects, &self.customs, cycle_limit)
    }
}

} // verus!
