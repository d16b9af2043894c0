//! The functions of the simple gates.

use super::model::{all_true, any_true, count_true, gate_output};
use crate::io::netlist::{SimpleGateType, XorType};
use vstd::prelude::*;

verus! {

/// A count of true bits grows by at most one with each bit.
pub proof fn lemma_count_true_bound(bits: Seq<bool>)
    ensures
        count_true(bits) <= bits.len(),
    decreases bits.len(),
{
    if bits.len() > 0 {
        lemma_count_true_bound(bits.drop_last());
    }
}

fn every(bits: &[bool]) -> (yes: bool)
    ensures
        yes == all_true(bits@),
{
    let mut i: usize = 0;
    while i < bits.len()
        invariant
            i <= bits.len(),
            forall|k: int| 0 <= k < i ==> bits@[k],
        decreases bits.len() - i,
    {
        if !bits[i] {
            return false;
        }
        i = i + 1;
    }
    true
}

fn some(bits: &[bool]) -> (yes: bool)
    ensures
        yes == any_true(bits@),
{
    let mut i: usize = 0;
    while i < bits.len()
        invariant
            i <= bits.len(),
            forall|k: int| 0 <= k < i ==> !bits@[k],
        decreases bits.len() - i,
    {
        if bits[i] {
            return true;
        }
        i = i + 1;
    }
    false
}

fn how_many(bits: &[bool]) -> (count: usize)
    ensures
        count == count_true(bits@),
{
    let mut count: usize = 0;
    let mut i: usize = 0;
    while i < bits.len()
        invariant
            i <= bits.len(),
            count <= i,
            count == count_true(bits@.take(i as int)),
        decreases bits.len() - i,
    {
        proof {
            assert(bits@.take(i + 1).drop_last() =~= bits@.take(i as int));
        }
        if bits[i] {
            count = count + 1;
        }
        i = i + 1;
    }
    proof {
        assert(bits@.take(i as int) =~= bits@);
    }
    count
}

/// Computes the output of a simple gate from the values at its input
/// ports. An exclusive-or gate asks for an odd number of true inputs, or,
/// where `xor_type` says so, for exactly one.
pub fn evaluate_gate(kind: SimpleGateType, xor_type: XorType, inputs: &[bool]) -> (output: bool)
    requires
        kind == SimpleGateType::Buffer || kind == SimpleGateType::Not ==> inputs@.len() >= 1,
    ensures
        output == gate_output(kind, xor_type, inputs@),
{
    match kind {
        SimpleGateType::Buffer => inputs[0],
        SimpleGateType::Not => !inputs[0],
        SimpleGateType::And => every(inputs),
        SimpleGateType::Nand => !every(inputs),
        SimpleGateType::Or => some(inputs),
        SimpleGateType::Nor => !some(inputs),
        SimpleGateType::Xor | SimpleGateType::Xnor => {
            let count = how_many(inputs);
            let met = match xor_type {
                XorType::Odd => count % 2 == 1,
                XorType::One => count == 1,
            };
            match kind {
                SimpleGateType::Xor => met,
                _ => !met,
            }
        },
    }
}

} // verus!
