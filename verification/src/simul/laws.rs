//! What holds of every evaluation.

use super::model::{
    assigned, drive_by_name, drive_by_rank, evaluated, export_name, is_driven_by_name,
    named_outputs, output_bits, reset, row_count, row_evaluated, rows_stable, table_data,
    truth_table, Rows, State, Table,
};
use super::sound::{
    lemma_drive_by_name_forgets, lemma_evaluated, lemma_output_bits_len, lemma_table_data_len,
    shaped, sound,
};
use crate::io::netlist::{count_named_inputs, count_named_outputs, Object};
use crate::util::{bits_value, lemma_bits_of_value, lemma_bits_value_bound};
use vstd::prelude::*;

verus! {

/// An evaluation gives the same whatever was evaluated before it: it
/// starts with a reset, and no evaluation changes a constant input.
pub proof fn lemma_evaluation_repeats(
    objects: Seq<Object>,
    tables: Seq<Table>,
    state: State,
    earlier: Seq<(Seq<char>, bool)>,
    earlier_limit: nat,
    inputs: Seq<(Seq<char>, bool)>,
    limit: nat,
)
    requires
        sound(objects, tables),
        shaped(objects, state),
    ensures
        evaluated(
            objects,
            tables,
            evaluated(objects, tables, state, earlier, earlier_limit).0,
            inputs,
            limit,
        ) == evaluated(objects, tables, state, inputs, limit),
{
    lemma_evaluated(objects, tables, state, earlier, earlier_limit);
    lemma_drive_by_name_forgets(
        objects,
        state,
        evaluated(objects, tables, state, earlier, earlier_limit).0,
        inputs,
    );
}

/// The bits of the named outputs are the values that go with their names.
pub proof fn lemma_named_outputs_bits(objects: Seq<Object>, state: State)
    ensures
        named_outputs(objects, state).map_values(|pair: (Seq<char>, bool)| pair.1) == output_bits(
            objects,
            state,
        ),
    decreases objects.len(),
{
    let values = |pair: (Seq<char>, bool)| pair.1;
    if objects.len() > 0 {
        lemma_named_outputs_bits(objects.drop_last(), state);
        let before = named_outputs(objects.drop_last(), state);
        if objects.last().is_named_output() {
            let pair = (export_name(objects.last())->0, state[objects.len() - 1][0]);
            assert(before.push(pair).map_values(values) =~= before.map_values(values).push(pair.1));
        }
    } else {
        assert(named_outputs(objects, state).map_values(values) =~= output_bits(objects, state));
    }
}

/// Row `row` of the data of a truth table holds the output bits of the
/// evaluation of that row.
pub proof fn lemma_table_data_row(
    objects: Seq<Object>,
    tables: Seq<Table>,
    state: State,
    limit: nat,
    rows: nat,
    row: nat,
)
    requires
        row < rows,
    ensures
        (Rows {
            data: table_data(objects, tables, state, limit, rows),
            row_size: count_named_outputs(objects),
        }).row(row as int) == output_bits(
            objects,
            row_evaluated(objects, tables, state, row, limit).0,
        ),
    decreases rows,
{
    let width = count_named_outputs(objects);
    let shorter = (rows - 1) as nat;
    let front = table_data(objects, tables, state, limit, shorter);
    let last = output_bits(objects, row_evaluated(objects, tables, state, shorter, limit).0);
    lemma_table_data_len(objects, tables, state, limit, shorter);
    lemma_output_bits_len(objects, row_evaluated(objects, tables, state, shorter, limit).0);
    let low = row as int * width;
    if row == shorter {
        assert((front + last).subrange(low, low + width) =~= last);
    } else {
        lemma_table_data_row(objects, tables, state, limit, shorter, row);
        assert(low + width <= shorter * width) by (nonlinear_arith)
            requires
                low == row * width,
                row < shorter,
        ;
        assert(0 <= low) by (nonlinear_arith)
            requires
                low == row * width,
        ;
        assert((front + last).subrange(low, low + width) =~= front.subrange(low, low + width));
    }
}

/// The truth table of a circuit is faithful to its evaluation: where
/// every named input is a switch or push button and `inputs` assigns to
/// the name of each the bit at its place in `bits`, the evaluation of
/// `inputs` is stable and its named outputs are, in order, the row of the
/// table that `bits` spells.
pub proof fn lemma_truth_table_faithful(
    objects: Seq<Object>,
    tables: Seq<Table>,
    state: State,
    inputs: Seq<(Seq<char>, bool)>,
    bits: Seq<bool>,
    limit: nat,
)
    requires
        sound(objects, tables),
        shaped(objects, state),
        bits.len() == count_named_inputs(objects),
        forall|i: int|
            0 <= i < objects.len() && (#[trigger] objects[i]).is_named_input()
                ==> is_driven_by_name(objects[i]) && assigned(inputs, export_name(objects[i])->0)
                == Some(bits[count_named_inputs(objects.take(i)) as int]),
        truth_table(objects, tables, state, limit) is Some,
    ensures
        evaluated(objects, tables, state, inputs, limit).1,
        named_outputs(objects, evaluated(objects, tables, state, inputs, limit).0).map_values(
            |pair: (Seq<char>, bool)| pair.1,
        ) == truth_table(objects, tables, state, limit)->0.row(bits_value(bits) as int),
{
    let row = bits_value(bits);
    let cleared = reset(objects, state);
    lemma_bits_of_value(bits);
    lemma_bits_value_bound(bits);
    assert(drive_by_name(objects, cleared, inputs) =~= drive_by_rank(objects, cleared, bits)) by {
        assert forall|i: int| 0 <= i < cleared.len() implies drive_by_name(
            objects,
            cleared,
            inputs,
        )[i] == drive_by_rank(objects, cleared, bits)[i] by {
            if objects[i].is_named_input() {
                assert(is_driven_by_name(objects[i]));
            }
        }
    }
    assert(evaluated(objects, tables, state, inputs, limit) == row_evaluated(
        objects,
        tables,
        state,
        row,
        limit,
    ));
    assert(row < row_count(objects));
    assert(rows_stable(objects, tables, state, limit, row_count(objects)));
    lemma_table_data_row(objects, tables, state, limit, row_count(objects), row);
    lemma_named_outputs_bits(objects, evaluated(objects, tables, state, inputs, limit).0);
}

} // verus!
