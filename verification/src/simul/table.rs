//! Truth tables of sub-circuits.

use super::model::Rows;
use vstd::prelude::*;
use vstd::slice::slice_subrange;

verus! {

/// For every assignment of the named inputs of a circuit, the values of
/// its named outputs. Row `r` belongs to the assignment whose bits spell
/// `r`, the first named input being the most significant bit.
#[derive(Clone, Debug, PartialEq, Eq)]
pub struct TruthTable {
    data: Vec<bool>,
    row_size: usize,
}

impl View for TruthTable {
    type V = Rows;

    closed spec fn view(&self) -> Rows {
        Rows { data: self.data@, row_size: self.row_size as nat }
    }
}

impl TruthTable {
    /// Makes a table from its rows laid end to end.
    pub fn new(data: Vec<bool>, row_size: usize) -> (table: TruthTable)
        ensures
            table@ == (Rows { data: data@, row_size: row_size as nat }),
    {
        TruthTable { data, row_size }
    }

    /// The values of the named outputs for the assignment that spells
    /// `row`.
    pub fn get_row(&self, row: usize) -> (bits: &[bool])
        requires
            row * self@.row_size + self@.row_size <= self@.data.len(),
        ensures
            bits@ == self@.row(row as int),
    {
        let total = self.data.len();
        proof {
            assert(0 <= row * self.row_size) by (nonlinear_arith);
            assert(row * self.row_size + self.row_size <= total);
        }
        let start = row * self.row_size;
        slice_subrange(self.data.as_slice(), start, start + self.row_size)
    }

    /// The number of values in each row.
    pub fn row_size(&self) -> (size: usize)
        ensures
            size == self@.row_size,
    {
        self.row_size
    }

    /// The number of values in all rows together.
    pub fn len(&self) -> (len: usize)
        ensures
            len == self@.data.len(),
    {
        self.data.len()
    }
}

} // verus!
