//! Two-input boolean gates stored as four-bit truth tables.

use vstd::prelude::*;

verus! {

/// Row index of a two-input truth table: `(first << 1) | second`.
pub open spec fn table_row(first: bool, second: bool) -> int {
    (if first { 2int } else { 0int }) + (if second { 1int } else { 0int })
}

/// Bit `row` of a truth table.
pub open spec fn table_bit(truth_table: u8, row: int) -> bool {
    (truth_table >> (row as u8)) & 1u8 == 1u8
}

/// Output of truth table `truth_table` on inputs `(first, second)`.
pub open spec fn gate_output(truth_table: u8, first: bool, second: bool) -> bool {
    table_bit(truth_table, table_row(first, second))
}

pub proof fn lemma_mask_bit(truth_table: u8, row: u8)
    requires
        row < 8,
    ensures
        (truth_table & (1u8 << row) != 0u8) == ((truth_table >> row) & 1u8 == 1u8),
{
    assert((truth_table & (1u8 << row) != 0u8) == ((truth_table >> row) & 1u8 == 1u8))
        by (bit_vector)
        requires
            row < 8,
    ;
}

/// `1` for `true`, `0` for `false`.
pub fn bit_of(value: bool) -> (r: u8)
    ensures
        r == (if value { 1u8 } else { 0u8 }),
{
    if value {
        1
    } else {
        0
    }
}

/// Shared truth-table lookup for two-input boolean gates.
pub fn evaluate_truth_table(truth_table: u8, first: bool, second: bool) -> (r: bool)
    ensures
        r == gate_output(truth_table, first, second),
{
    let row: u8 = 2 * bit_of(first) + bit_of(second);
    proof {
        lemma_mask_bit(truth_table, row);
    }
    truth_table & (1u8 << row) != 0
}

} // verus!
