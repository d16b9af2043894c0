//! Simulations and truth tables in words.

use super::engine::{assignment, lookup_assigned, row_assignment, Simulation};
use super::model::{
    assigned, evaluated, export_name, named_outputs, named_values, row_count, State, Table,
};
use super::sound::{lemma_drive_by_name_forgets, same_constants};
use crate::boundary::{join, joined, texts};
use crate::io::netlist::{count_named_inputs, Object, ObjectInner};
use crate::io::show::object_text;
use crate::text::{
    byte_len, cell, cell_text, decimal, decimal_text, descending, repeat, repeated,
    sort_descending, truth, truth_text,
};
use crate::util::power_of_two;
use crate::vecs::reversed;
use vstd::arithmetic::power2::pow2;
use vstd::prelude::*;
use vstd::string::*;

verus! {

/// A list of values in words, in brackets and with commas between them.
pub open spec fn values_text(values: Seq<bool>) -> Seq<char> {
    "["@ + joined(values.map_values(|v: bool| truth_text(v)), ", "@) + "]"@
}

/// The first `upto` objects with their values in words, one to a line,
/// each after its index in parentheses.
pub open spec fn state_listing(objects: Seq<Object>, state: State, upto: nat) -> Seq<char>
    decreases upto,
{
    if upto == 0 {
        Seq::empty()
    } else {
        state_listing(objects, state, (upto - 1) as nat) + "("@ + decimal((upto - 1) as nat)
            + ") "@ + object_text(objects[upto - 1]) + " | "@ + values_text(state[upto - 1])
            + "\n"@
    }
}

/// The inputs and outputs among the first `upto` objects with their
/// values: for each its export name, or its uid if it has none, a colon
/// and its values.
pub open spec fn value_lines(objects: Seq<Object>, state: State, upto: nat) -> Seq<Seq<char>>
    decreases upto,
{
    if upto == 0 {
        Seq::empty()
    } else {
        let before = value_lines(objects, state, (upto - 1) as nat);
        let object = objects[upto - 1];
        if object.inner is Input || object.inner is Output {
            before.push(object.spec_export_name_or_uid() + ": "@ + values_text(state[upto - 1]))
        } else {
            before
        }
    }
}

/// The export names of the inputs that have one, in the order of the
/// object list.
pub open spec fn input_names(objects: Seq<Object>) -> Seq<Seq<char>>
    decreases objects.len(),
{
    if objects.len() == 0 {
        Seq::empty()
    } else if objects.last().is_named_input() {
        input_names(objects.drop_last()).push(export_name(objects.last())->0)
    } else {
        input_names(objects.drop_last())
    }
}

/// The export names of the outputs that have one, in the order of the
/// object list.
pub open spec fn output_names(objects: Seq<Object>) -> Seq<Seq<char>>
    decreases objects.len(),
{
    if objects.len() == 0 {
        Seq::empty()
    } else if objects.last().is_named_output() {
        output_names(objects.drop_last()).push(export_name(objects.last())->0)
    } else {
        output_names(objects.drop_last())
    }
}

/// There is one input name for each named input.
proof fn lemma_input_names_len(objects: Seq<Object>)
    ensures
        input_names(objects).len() == count_named_inputs(objects),
    decreases objects.len(),
{
    if objects.len() > 0 {
        lemma_input_names_len(objects.drop_last());
    }
}

/// Every output name is the export name of an output.
proof fn lemma_output_names(objects: Seq<Object>, name: Seq<char>)
    requires
        output_names(objects).contains(name),
    ensures
        is_output_name(objects, name),
    decreases objects.len(),
{
    if objects.len() > 0 {
        let front = objects.drop_last();
        if objects.last().is_named_output() && export_name(objects.last()) == Some(name) {
            assert(objects[objects.len() - 1].is_named_output());
        } else {
            let k = choose|k: int|
                0 <= k < output_names(objects).len() && output_names(objects)[k] == name;
            assert(output_names(front)[k] == name);
            lemma_output_names(front, name);
            let i = choose|i: int|
                0 <= i < front.len() && (#[trigger] front[i]).is_named_output() && export_name(
                    front[i],
                ) == Some(name);
            assert(objects[i] == front[i]);
        }
    }
}

/// Whether some output carries an export name.
pub open spec fn is_output_name(objects: Seq<Object>, name: Seq<char>) -> bool {
    exists|i: int|
        0 <= i < objects.len() && (#[trigger] objects[i]).is_named_output() && export_name(
            objects[i],
        ) == Some(name)
}

/// The head of a printed table: the names of the inputs and, after a
/// double bar, those of the outputs.
pub open spec fn header_text(inputs: Seq<Seq<char>>, outputs: Seq<Seq<char>>) -> Seq<char> {
    joined(inputs, "|"@) + "||"@ + joined(outputs, "|"@)
}

/// The rule under the head of a printed table: as many dashes as the head
/// takes bytes.
pub open spec fn rule_text(inputs: Seq<Seq<char>>, outputs: Seq<Seq<char>>) -> Seq<char> {
    repeated(
        "-"@,
        (byte_len(joined(inputs, "|"@)) + 2 + byte_len(joined(outputs, "|"@))) as nat,
    )
}

/// The cells for a list of names: for each the value that `values` gives
/// it, in a cell as wide as the name takes bytes.
pub open spec fn cells(names: Seq<Seq<char>>, values: Seq<(Seq<char>, bool)>) -> Seq<Seq<char>> {
    Seq::new(
        names.len(),
        |k: int| cell_text(assigned(values, names[k])->0, byte_len(names[k]) as nat),
    )
}

/// The values that row `row` of a printed table gives to the input
/// names: every name its bit of `row`, the first name being the most
/// significant bit; of a name that occurs twice the first occurrence
/// counts.
pub open spec fn row_inputs(inputs: Seq<Seq<char>>, row: nat) -> Seq<(Seq<char>, bool)> {
    row_assignment(inputs, row).reverse()
}

/// Row `row` of a printed table: the cells of the inputs and, after a
/// double bar, the cells of the outputs once the inputs are evaluated.
pub open spec fn row_text(
    objects: Seq<Object>,
    tables: Seq<Table>,
    state: State,
    inputs: Seq<Seq<char>>,
    outputs: Seq<Seq<char>>,
    row: nat,
    limit: nat,
) -> Seq<char> {
    let given = row_inputs(inputs, row);
    let found = named_outputs(objects, evaluated(objects, tables, state, given, limit).0);
    joined(cells(inputs, given), "|"@) + "||"@ + joined(cells(outputs, found), "|"@)
}

/// The lines of a printed table: the head, the rule, and a row for every
/// assignment of the input names.
pub open spec fn table_text(
    objects: Seq<Object>,
    tables: Seq<Table>,
    state: State,
    inputs: Seq<Seq<char>>,
    outputs: Seq<Seq<char>>,
    limit: nat,
) -> Seq<Seq<char>> {
    seq![header_text(inputs, outputs), rule_text(inputs, outputs)] + Seq::new(
        pow2(inputs.len()),
        |row: int| row_text(objects, tables, state, inputs, outputs, row as nat, limit),
    )
}

/// A name that occurs in a list of named values is given a value by it.
proof fn lemma_assigned_some(values: Seq<(Seq<char>, bool)>, at: int)
    requires
        0 <= at < values.len(),
    ensures
        assigned(values, values[at].0) is Some,
    decreases values.len(),
{
    if values.last().0 != values[at].0 {
        assert(values.drop_last()[at] == values[at]);
        lemma_assigned_some(values.drop_last(), at);
    }
}

/// The name of every named output is given a value by the named outputs.
proof fn lemma_output_named(objects: Seq<Object>, state: State, name: Seq<char>)
    requires
        is_output_name(objects, name),
    ensures
        assigned(named_outputs(objects, state), name) is Some,
    decreases objects.len(),
{
    let at = choose|i: int|
        0 <= i < objects.len() && (#[trigger] objects[i]).is_named_output() && export_name(
            objects[i],
        ) == Some(name);
    let before = named_outputs(objects.drop_last(), state);
    if objects.last().is_named_output() && export_name(objects.last()) == Some(name) {
        let pair = (name, state[objects.len() - 1][0]);
        assert(before.push(pair).last() == pair);
    } else {
        assert(objects.drop_last()[at] == objects[at]);
        assert(is_output_name(objects.drop_last(), name));
        lemma_output_named(objects.drop_last(), state, name);
        if objects.last().is_named_output() {
            let pair = (export_name(objects.last())->0, state[objects.len() - 1][0]);
            assert(before.push(pair).drop_last() =~= before);
        }
    }
}

fn write_values(values: &Vec<bool>) -> (text: String)
    ensures
        text@ == values_text(values@),
{
    let mut pieces: Vec<String> = Vec::new();
    let mut k: usize = 0;
    while k < values.len()
        invariant
            k <= values.len(),
            texts(pieces@) =~= values@.take(k as int).map_values(|v: bool| truth_text(v)),
        decreases values.len() - k,
    {
        let ghost before = pieces@;
        pieces.push(String::from_str(truth(values[k])));
        proof {
            assert(texts(pieces@) =~= texts(before).push(truth_text(values@[k as int])));
        }
        k = k + 1;
    }
    proof {
        assert(values@.take(k as int) =~= values@);
    }
    let inner = join(&pieces, ", ");
    String::from_str("[").concat(inner.as_str()).concat("]")
}

fn write_cells(names: &Vec<String>, values: &Vec<(String, bool)>) -> (text: String)
    requires
        forall|k: int|
            0 <= k < names.len() ==> assigned(named_values(values@), #[trigger] names[k]@) is Some,
    ensures
        text@ == joined(cells(texts(names@), named_values(values@)), "|"@),
{
    let mut pieces: Vec<String> = Vec::new();
    let mut k: usize = 0;
    while k < names.len()
        invariant
            k <= names.len(),
            forall|k: int|
                0 <= k < names.len() ==> assigned(named_values(values@), #[trigger] names[k]@)
                    is Some,
            texts(pieces@) =~= cells(texts(names@), named_values(values@)).take(k as int),
        decreases names.len() - k,
    {
        let ghost before = pieces@;
        proof {
            assert(assigned(named_values(values@), names[k as int]@) is Some);
        }
        let value = lookup_assigned(values, names[k].as_str()).unwrap();
        let width = names[k].as_str().len();
        pieces.push(cell(value, width));
        proof {
            assert(texts(names@)[k as int] == names[k as int]@);
            assert(width == byte_len(names[k as int]@));
            assert(texts(pieces@) =~= texts(before).push(
                cells(texts(names@), named_values(values@))[k as int],
            ));
        }
        k = k + 1;
    }
    proof {
        let all = cells(texts(names@), named_values(values@));
        assert(all.take(k as int) =~= all);
    }
    join(&pieces, "|")
}

impl Simulation {
    /// Lists the objects with their current values in words, one to a
    /// line, each after its index in parentheses.
    pub fn to_text(&self) -> (text: String)
        ensures
            text@ == state_listing(self.netlist(), self.state(), self.netlist().len()),
    {
        let mut text = String::new();
        let total = self.len();
        let mut i: usize = 0;
        proof {
            assert(text@ =~= state_listing(self.netlist(), self.state(), 0));
        }
        while i < total
            invariant
                i <= total,
                total == self.netlist().len(),
                total == self.state().len(),
                text@ == state_listing(self.netlist(), self.state(), i as nat),
            decreases total - i,
        {
            let index = decimal_text(i as u64);
            let object = self.object(i).to_text();
            let values = write_values(self.values(i));
            text.append("(");
            text.append(index.as_str());
            text.append(") ");
            text.append(object.as_str());
            text.append(" | ");
            text.append(values.as_str());
            text.append("\n");
            i = i + 1;
        }
        text
    }

    /// Writes a line for every input and output: its export name, or its
    /// uid if it has none, a colon and its current values.
    pub fn print_outputs(&self) -> (lines: Vec<String>)
        ensures
            texts(lines@) == value_lines(self.netlist(), self.state(), self.netlist().len()),
    {
        let mut lines: Vec<String> = Vec::new();
        let total = self.len();
        let mut i: usize = 0;
        proof {
            assert(texts(lines@) =~= value_lines(self.netlist(), self.state(), 0));
        }
        while i < total
            invariant
                i <= total,
                total == self.netlist().len(),
                total == self.state().len(),
                texts(lines@) == value_lines(self.netlist(), self.state(), i as nat),
            decreases total - i,
        {
            let object = self.object(i);
            let shown = match &object.inner {
                ObjectInner::Input { .. } => true,
                ObjectInner::Output { .. } => true,
                _ => false,
            };
            if shown {
                let ghost before = lines@;
                let values = write_values(self.values(i));
                let line = String::from_str(object.export_name_or_uid()).concat(": ").concat(
                    values.as_str(),
                );
                lines.push(line);
                proof {
                    assert(texts(lines@) =~= texts(before).push(line@));
                }
            }
            i = i + 1;
        }
        lines
    }

    /// Writes the lines of a table of the named outputs for every
    /// assignment of the named inputs: the head with the names, each group
    /// in descending order, a rule, and a row for each assignment, in
    /// which `T` stands for true and `F` for false. Each row is evaluated
    /// by name, as `get_outputs` does, with at most `limit` sweeps,
    /// whether it becomes stable or not.
    pub fn print_truth_table(&mut self, limit: u128) -> (lines: Vec<String>)
        requires
            old(self).wf(),
            row_count(old(self).netlist()) <= usize::MAX,
        ensures
            final(self).wf(),
            final(self).netlist() == old(self).netlist(),
            final(self).tables() == old(self).tables(),
            same_constants(old(self).netlist(), old(self).state(), final(self).state()),
            texts(lines@) == table_text(
                old(self).netlist(),
                old(self).tables(),
                old(self).state(),
                descending(input_names(old(self).netlist())),
                descending(output_names(old(self).netlist())),
                limit as nat,
            ),
    {
        let ghost objects = self.netlist();
        let total = self.len();
        let mut inputs: Vec<String> = Vec::new();
        let mut outputs: Vec<String> = Vec::new();
        let mut i: usize = 0;
        proof {
            assert(texts(inputs@) =~= input_names(objects.take(0)));
            assert(texts(outputs@) =~= output_names(objects.take(0)));
        }
        while i < total
            invariant
                i <= total,
                objects == self.netlist(),
                total == objects.len(),
                texts(inputs@) == input_names(objects.take(i as int)),
                texts(outputs@) == output_names(objects.take(i as int)),
            decreases total - i,
        {
            proof {
                assert(objects.take(i + 1).drop_last() =~= objects.take(i as int));
                assert(objects.take(i + 1).last() == objects[i as int]);
            }
            match &self.object(i).inner {
                ObjectInner::Input { export_name: Some(name), .. } => {
                    let ghost before = inputs@;
                    inputs.push(name.clone());
                    proof {
                        assert(texts(inputs@) =~= texts(before).push(name@));
                    }
                },
                ObjectInner::Output { export_name: Some(name), .. } => {
                    let ghost before = outputs@;
                    outputs.push(name.clone());
                    proof {
                        assert(texts(outputs@) =~= texts(before).push(name@));
                    }
                },
                _ => {},
            }
            i = i + 1;
        }
        proof {
            assert(objects.take(i as int) =~= objects);
            lemma_input_names_len(objects);
        }
        let inputs = sort_descending(&inputs);
        let outputs = sort_descending(&outputs);
        proof {
            broadcast use vstd::seq_lib::group_to_multiset_ensures;

            assert forall|k: int| 0 <= k < outputs.len() implies is_output_name(
                objects,
                #[trigger] outputs[k]@,
            ) by {
                let name = texts(outputs@)[k];
                assert(texts(outputs@).to_multiset().count(name) > 0);
                assert(output_names(objects).to_multiset().count(name) > 0);
                lemma_output_names(objects, name);
            }
        }
        self.table_lines(&inputs, &outputs, limit)
    }

    /// Writes the lines of a table of the outputs `output_names` for
    /// every assignment of the inputs `input_names`: the head, a rule, and
    /// a row for each assignment, in which `T` stands for true and `F` for
    /// false. Each row is evaluated by name, as `get_outputs` does, with
    /// at most `limit` sweeps, whether it becomes stable or not.
    pub fn table_lines(
        &mut self,
        input_names: &Vec<String>,
        output_names: &Vec<String>,
        limit: u128,
    ) -> (lines: Vec<String>)
        requires
            old(self).wf(),
            pow2(input_names.len() as nat) <= usize::MAX,
            forall|k: int|
                0 <= k < output_names.len() ==> is_output_name(
                    old(self).netlist(),
                    #[trigger] output_names[k]@,
                ),
        ensures
            final(self).wf(),
            final(self).netlist() == old(self).netlist(),
            final(self).tables() == old(self).tables(),
            same_constants(old(self).netlist(), old(self).state(), final(self).state()),
            texts(lines@) == table_text(
                old(self).netlist(),
                old(self).tables(),
                old(self).state(),
                texts(input_names@),
                texts(output_names@),
                limit as nat,
            ),
    {
        let ghost objects = self.netlist();
        let ghost tables = self.tables();
        let ghost start = self.state();
        let ghost inputs = texts(input_names@);
        let ghost outputs = texts(output_names@);
        let ghost expected = table_text(objects, tables, start, inputs, outputs, limit as nat);
        let head_in = join(input_names, "|");
        let head_out = join(output_names, "|");
        let width = head_in.as_str().len() as u128 + 2 + head_out.as_str().len() as u128;
        let mut lines: Vec<String> = Vec::new();
        let head = String::from_str(head_in.as_str()).concat("||").concat(head_out.as_str());
        let rule = repeat("-", width);
        proof {
            assert(head@ == header_text(inputs, outputs));
            assert(rule@ == rule_text(inputs, outputs));
        }
        lines.push(head);
        lines.push(rule);
        let rows = power_of_two(input_names.len());
        let mut row: usize = 0;
        proof {
            assert(texts(lines@) =~= expected.take(2));
        }
        while row < rows
            invariant
                row <= rows,
                rows == pow2(input_names.len() as nat),
                objects == old(self).netlist(),
                tables == old(self).tables(),
                start == old(self).state(),
                inputs == texts(input_names@),
                outputs == texts(output_names@),
                expected == table_text(objects, tables, start, inputs, outputs, limit as nat),
                self.wf(),
                self.netlist() == objects,
                self.tables() == tables,
                same_constants(objects, start, self.state()),
                forall|k: int|
                    0 <= k < output_names.len() ==> is_output_name(
                        objects,
                        #[trigger] output_names[k]@,
                    ),
                texts(lines@) =~= expected.take(2 + row),
            decreases rows - row,
        {
            let ghost before = self.state();
            let ghost written = lines@;
            let given = reversed(assignment(input_names, row));
            proof {
                assert(named_values(given@) =~= row_inputs(inputs, row as nat));
                lemma_drive_by_name_forgets(objects, start, before, named_values(given@));
            }
            let found = self.get_outputs(&given, limit);
            proof {
                assert forall|k: int| 0 <= k < input_names.len() implies assigned(
                    named_values(given@),
                    #[trigger] input_names[k]@,
                ) is Some by {
                    let at = input_names.len() - 1 - k;
                    assert(named_values(given@)[at].0 == input_names[k]@);
                    lemma_assigned_some(named_values(given@), at);
                }
                assert forall|k: int| 0 <= k < output_names.len() implies assigned(
                    named_values(found@),
                    #[trigger] output_names[k]@,
                ) is Some by {
                    lemma_output_named(objects, self.state(), output_names[k]@);
                }
            }
            let left = write_cells(input_names, &given);
            let right = write_cells(output_names, &found);
            lines.push(left.concat("||").concat(right.as_str()));
            proof {
                assert(texts(lines@) =~= texts(written).push(
                    row_text(objects, tables, start, inputs, outputs, row as nat, limit as nat),
                ));
                assert(expected[2 + row] == row_text(
                    objects,
                    tables,
                    start,
                    inputs,
                    outputs,
                    row as nat,
                    limit as nat,
                ));
            }
            row = row + 1;
        }
        proof {
            assert(expected.take(2 + rows) =~= expected);
        }
        lines
    }
}

} // verus!
