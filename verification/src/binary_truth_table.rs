//! Eight-slot majority counter for learning a two-input truth table.

use vstd::prelude::*;
use crate::boolean_circuit::{bit_of, gate_output, table_bit, table_row};
use crate::association::{count_and_upto, count_eq_upto, count_true_upto};

verus! {

/// Largest batch a counter accepts: no slot can exceed `u8::MAX`.
pub const MAX_COUNTER_BATCH_SIZE: usize = 255;

/// Slot of an observation `(x0, x1, output)`: `(x0 << 2) | (x1 << 1) | output`.
pub open spec fn slot_of(x0: bool, x1: bool, output: bool) -> int {
    (if x0 { 4int } else { 0int }) + (if x1 { 2int } else { 0int }) + (if output {
        1int
    } else {
        0int
    })
}

/// Number of the first `n` observations of `batch` that fall in `slot`.
pub open spec fn count_slot_upto(batch: Seq<(bool, bool, bool)>, slot: int, n: int) -> nat
    decreases n,
{
    if n <= 0 {
        0
    } else {
        count_slot_upto(batch, slot, n - 1) + if slot_of(batch[n - 1].0, batch[n - 1].1, batch[n - 1].2)
            == slot {
            1nat
        } else {
            0nat
        }
    }
}

/// The observations read from three columns, up to the shortest of them.
pub open spec fn zip_columns(first: Seq<bool>, second: Seq<bool>, signs: Seq<bool>) -> Seq<
    (bool, bool, bool),
> {
    let n = if first.len() <= second.len() {
        if first.len() <= signs.len() { first.len() } else { signs.len() }
    } else {
        if second.len() <= signs.len() { second.len() } else { signs.len() }
    };
    Seq::new(n, |i: int| (first[i], second[i], signs[i]))
}

/// Whether the majority output of partition `p` is `true`: ties go to `false`.
pub open spec fn majority_bit(counts: Seq<u8>, p: int) -> bool {
    counts[2 * p + 1] > counts[2 * p]
}

/// The error-minimizing truth table: bit `p` is the majority output of partition
/// `p = (x0 << 1) | x1`.
pub open spec fn majority_table(counts: Seq<u8>) -> int {
    (if majority_bit(counts, 0) { 1int } else { 0int }) + (if majority_bit(counts, 1) {
        2int
    } else {
        0int
    }) + (if majority_bit(counts, 2) { 4int } else { 0int }) + (if majority_bit(counts, 3) {
        8int
    } else {
        0int
    })
}

/// Count of observations in partition `p` with output `true` if the majority
/// bit is set (else 0): the rows where the learned table outputs `true`.
pub open spec fn set_rows(counts: Seq<u8>, p: int) -> int {
    if majority_bit(counts, p) { counts[2 * p] + counts[2 * p + 1] } else { 0 }
}

pub open spec fn set_rows_positive(counts: Seq<u8>, p: int) -> int {
    if majority_bit(counts, p) { counts[2 * p + 1] as int } else { 0 }
}

pub open spec fn partition_matches(counts: Seq<u8>, p: int) -> int {
    if majority_bit(counts, p) { counts[2 * p + 1] as int } else { counts[2 * p] as int }
}

/// Observations where the learned table outputs `true`.
pub open spec fn table_nz(counts: Seq<u8>) -> int {
    set_rows(counts, 0) + set_rows(counts, 1) + set_rows(counts, 2) + set_rows(counts, 3)
}

/// Observations where the learned table and the label are both `true`.
pub open spec fn table_nzy(counts: Seq<u8>) -> int {
    set_rows_positive(counts, 0) + set_rows_positive(counts, 1) + set_rows_positive(counts, 2)
        + set_rows_positive(counts, 3)
}

/// Observations where the learned table agrees with the label.
pub open spec fn table_matches(counts: Seq<u8>) -> int {
    partition_matches(counts, 0) + partition_matches(counts, 1) + partition_matches(counts, 2)
        + partition_matches(counts, 3)
}

pub open spec fn abs_int(x: int) -> int {
    if x < 0 { -x } else { x }
}

pub open spec fn sum_counts(counts: Seq<u8>) -> int {
    counts[0] + counts[1] + counts[2] + counts[3] + counts[4] + counts[5] + counts[6] + counts[7]
}

/// Error returned when a batch is larger than one counter slot can hold.
#[derive(Debug, Clone, Copy, PartialEq, Eq, Structural)]
pub enum FeatureCounterError {
    BatchTooLarge,
}

/// Eight-slot majority counter for two-binary-feature truth-table learning.
///
/// Each of the eight `(x0, x1, output)` combinations has its own `u8` count.
/// The batch-size limit guarantees no slot can overflow.
#[derive(Debug, Clone, Copy, PartialEq, Eq)]
pub struct FeatureCounter {
    counts: [u8; 8],
}

pub proof fn lemma_count_slot_step(batch: Seq<(bool, bool, bool)>, slot: int, n: int)
    requires
        0 <= n,
    ensures
        count_slot_upto(batch, slot, n) <= n,
    decreases n,
{
    if n > 0 {
        lemma_count_slot_step(batch, slot, n - 1);
    }
}

pub proof fn lemma_count_slot_sum(batch: Seq<(bool, bool, bool)>, n: int)
    requires
        0 <= n,
    ensures
        count_slot_upto(batch, 0, n) + count_slot_upto(batch, 1, n) + count_slot_upto(batch, 2, n)
            + count_slot_upto(batch, 3, n) + count_slot_upto(batch, 4, n) + count_slot_upto(
            batch,
            5,
            n,
        ) + count_slot_upto(batch, 6, n) + count_slot_upto(batch, 7, n) == n,
    decreases n,
{
    if n > 0 {
        lemma_count_slot_sum(batch, n - 1);
    }
}

impl FeatureCounter {
    /// The eight slot counts.
    pub closed spec fn counts_view(self) -> Seq<u8> {
        self.counts@
    }

    /// Slot counts never sum to more than one full batch.
    pub closed spec fn wf(self) -> bool {
        sum_counts(self.counts@) <= 255
    }

    /// The counter's slots hold exactly the slot counts of `batch`.
    pub open spec fn counts_batch(self, batch: Seq<(bool, bool, bool)>) -> bool {
        &&& self.wf()
        &&& self.counts_view().len() == 8
        &&& forall|s: int|
            0 <= s < 8 ==> #[trigger] self.counts_view()[s] == count_slot_upto(
                batch,
                s,
                batch.len() as int,
            )
    }

    /// A counter with every slot empty.
    pub fn zeroed() -> (r: Self)
        ensures
            r.wf(),
            r.counts_view() == seq![0u8, 0u8, 0u8, 0u8, 0u8, 0u8, 0u8, 0u8],
    {
        let r = Self { counts: [0u8; 8] };
        assert(r.counts@ =~= seq![0u8, 0u8, 0u8, 0u8, 0u8, 0u8, 0u8, 0u8]);
        r
    }

    /// The eight slot counts, slot `(x0 << 2) | (x1 << 1) | output`.
    pub fn counts(&self) -> (r: [u8; 8])
        ensures
            r@ == self.counts_view(),
    {
        self.counts
    }

    fn count_observations(observations: &[(bool, bool, bool)]) -> (r: Self)
        requires
            observations.len() <= 255,
        ensures
            r.counts_batch(observations@),
    {
        let ghost batch = observations@;
        let mut counts = [0u8; 8];
        let mut i: usize = 0;
        while i < observations.len()
            invariant
                observations@ == batch,
                batch.len() <= 255,
                i <= observations.len(),
                forall|s: int| 0 <= s < 8 ==> #[trigger] counts@[s] == count_slot_upto(batch, s, i as int),
            decreases observations.len() - i,
        {
            let (x0, x1, output) = observations[i];
            let slot = (4 * bit_of(x0) + 2 * bit_of(x1) + bit_of(output)) as usize;
            proof {
                lemma_count_slot_step(batch, slot as int, i as int);
            }
            counts[slot] = counts[slot] + 1;
            i = i + 1;
        }
        proof {
            lemma_count_slot_sum(batch, batch.len() as int);
        }
        let r = Self { counts };
        assert(sum_counts(r.counts@) == batch.len());
        r
    }

    /// Learns the error-minimizing table for a bounded batch.
    ///
    /// Returns `BatchTooLarge` when the batch exceeds the capacity of one
    /// counter slot.
    pub fn from_batch(batch: &[(bool, bool, bool)]) -> (r: Result<Self, FeatureCounterError>)
        ensures
            r is Err <==> batch.len() > MAX_COUNTER_BATCH_SIZE,
            r is Err ==> r == Err::<Self, FeatureCounterError>(FeatureCounterError::BatchTooLarge),
            r matches Ok(counter) ==> counter.counts_batch(batch@),
    {
        if batch.len() > MAX_COUNTER_BATCH_SIZE {
            return Err(FeatureCounterError::BatchTooLarge);
        }
        Ok(Self::count_observations(batch))
    }

    /// Counts the observations `(first[i], second[i], signs[i])` over the
    /// common prefix of the three columns.
    pub fn from_columns(first: &[bool], second: &[bool], signs: &[bool]) -> (r: Result<
        Self,
        FeatureCounterError,
    >)
        ensures
            r is Err <==> first.len() > MAX_COUNTER_BATCH_SIZE,
            r is Err ==> r == Err::<Self, FeatureCounterError>(FeatureCounterError::BatchTooLarge),
            r matches Ok(counter) ==> counter.counts_batch(zip_columns(first@, second@, signs@)),
    {
        if first.len() > MAX_COUNTER_BATCH_SIZE {
            return Err(FeatureCounterError::BatchTooLarge);
        }
        let ghost batch = zip_columns(first@, second@, signs@);
        let mut counts = [0u8; 8];
        let mut i: usize = 0;
        while i < first.len() && i < second.len() && i < signs.len()
            invariant
                batch == zip_columns(first@, second@, signs@),
                first.len() <= 255,
                i <= batch.len(),
                forall|s: int| 0 <= s < 8 ==> #[trigger] counts@[s] == count_slot_upto(batch, s, i as int),
            decreases first.len() - i,
        {
            let slot = (4 * bit_of(first[i]) + 2 * bit_of(second[i]) + bit_of(signs[i])) as usize;
            proof {
                lemma_count_slot_step(batch, slot as int, i as int);
            }
            counts[slot] = counts[slot] + 1;
            i = i + 1;
        }
        proof {
            lemma_count_slot_sum(batch, batch.len() as int);
        }
        let r = Self { counts };
        assert(sum_counts(r.counts@) == batch.len());
        Ok(r)
    }

    /// Returns the learned table, the absolute association of the table's
    /// output column with the labels, and the number of observations where it
    /// matches the label, without materializing the column.
    pub fn truth_table_and_scores(&self, batch_size: i64, ny: i64) -> (r: (u8, i64, u8))
        requires
            self.wf(),
            -0x1_0000_0000 <= batch_size <= 0x1_0000_0000,
            -0x1_0000_0000 <= ny <= 0x1_0000_0000,
        ensures
            r.0 == majority_table(self.counts_view()),
            r.1 == abs_int(batch_size * table_nzy(self.counts_view()) - table_nz(self.counts_view()) * ny),
            r.2 == table_matches(self.counts_view()),
    {
        let mut table = 0u8;
        let mut nz: i64 = 0;
        let mut nzy: i64 = 0;
        let mut matches: u8 = 0;
        let mut partition: usize = 0;
        while partition < 4
            invariant
                self.wf(),
                partition <= 4,
                table == majority_table_upto(self.counts@, partition as int),
                table < pow2_small(partition as int),
                self.counts@.len() == 8,
                nz == table_nz_upto(self.counts@, partition as int),
                nzy == table_nzy_upto(self.counts@, partition as int),
                matches == table_matches_upto(self.counts@, partition as int),
                matches <= counts_upto(self.counts@, 2 * partition as int),
                0 <= nz <= counts_upto(self.counts@, 2 * partition as int),
                0 <= nzy <= nz,
            decreases 4 - partition,
        {
            let base = partition * 2;
            proof {
                reveal_with_fuel(counts_upto, 3);
                lemma_counts_upto_mono(self.counts@, 2 * partition + 2, 8);
                assert(counts_upto(self.counts@, 8) == sum_counts(self.counts@)) by {
                    reveal_with_fuel(counts_upto, 9);
                }
                assert(counts_upto(self.counts@, 2 * partition + 2) == counts_upto(self.counts@, 2 * partition as int) + self.counts@[2 * partition as int] + self.counts@[2 * partition + 1]);
                lemma_counts_upto_bound(self.counts@, 2 * partition + 2);
            }
            let output_bit = self.counts[base + 1] > self.counts[base];
            if output_bit {
                table = table + pow2_u8(partition);
                nz = nz + self.counts[base] as i64 + self.counts[base + 1] as i64;
                nzy = nzy + self.counts[base + 1] as i64;
                matches = matches + self.counts[base + 1];
            } else {
                matches = matches + self.counts[base];
            }
            partition = partition + 1;
        }
        proof {
            reveal_with_fuel(counts_upto, 9);
            reveal_with_fuel(majority_table_upto, 5);
            reveal_with_fuel(table_nz_upto, 5);
            reveal_with_fuel(table_nzy_upto, 5);
            reveal_with_fuel(table_matches_upto, 5);
            assert(0 <= nz <= 255 && 0 <= nzy <= 255);
            assert(-0x1_0000_0000 * 255 <= batch_size * nzy <= 0x1_0000_0000 * 255) by (nonlinear_arith)
                requires
                    -0x1_0000_0000 <= batch_size <= 0x1_0000_0000,
                    0 <= nzy <= 255;
            assert(-0x1_0000_0000 * 255 <= nz * ny <= 0x1_0000_0000 * 255) by (nonlinear_arith)
                requires
                    -0x1_0000_0000 <= ny <= 0x1_0000_0000,
                    0 <= nz <= 255;
        }
        let assoc = batch_size * nzy - nz * ny;
        let abs_assoc = if assoc < 0 { -assoc } else { assoc };
        (table, abs_assoc, matches)
    }

    /// Returns the packed four-entry, error-minimizing truth table.
    ///
    /// Bit `p` is the output for partition `p = (x0 << 1) | x1`. Ties resolve
    /// to zero.
    pub fn truth_table(&self) -> (r: u8)
        ensures
            r == majority_table(self.counts_view()),
    {
        let mut table = 0u8;
        let mut partition: usize = 0;
        while partition < 4
            invariant
                partition <= 4,
                table == majority_table_upto(self.counts@, partition as int),
                table < pow2_small(partition as int),
                self.counts@.len() == 8,
            decreases 4 - partition,
        {
            let base = partition * 2;
            if self.counts[base + 1] > self.counts[base] {
                table = table + pow2_u8(partition);
            }
            partition = partition + 1;
        }
        proof {
            reveal_with_fuel(majority_table_upto, 5);
        }
        table
    }
}

/// `2^p` for `p < 4`.
fn pow2_u8(p: usize) -> (r: u8)
    requires
        p < 4,
    ensures
        r == (if p == 0 { 1u8 } else if p == 1 { 2u8 } else if p == 2 { 4u8 } else { 8u8 }),
{
    if p == 0 {
        1
    } else if p == 1 {
        2
    } else if p == 2 {
        4
    } else {
        8
    }
}

pub open spec fn pow2_small(p: int) -> int {
    if p <= 0 { 1 } else if p == 1 { 2 } else if p == 2 { 4 } else if p == 3 { 8 } else { 16 }
}

pub proof fn lemma_counts_upto_bound(counts: Seq<u8>, n: int)
    requires
        0 <= n <= counts.len(),
    ensures
        0 <= counts_upto(counts, n),
    decreases n,
{
    if n > 0 {
        lemma_counts_upto_bound(counts, n - 1);
    }
}

pub proof fn lemma_counts_upto_mono(counts: Seq<u8>, n: int, m: int)
    requires
        0 <= n <= m <= counts.len(),
    ensures
        counts_upto(counts, n) <= counts_upto(counts, m),
    decreases m - n,
{
    if n < m {
        lemma_counts_upto_mono(counts, n, m - 1);
    }
}

pub open spec fn counts_upto(counts: Seq<u8>, n: int) -> int
    decreases n,
{
    if n <= 0 { 0 } else { counts_upto(counts, n - 1) + counts[n - 1] }
}

pub open spec fn majority_table_upto(counts: Seq<u8>, p: int) -> int
    decreases p,
{
    if p <= 0 {
        0
    } else {
        majority_table_upto(counts, p - 1) + if majority_bit(counts, p - 1) {
            if p - 1 == 0 { 1int } else if p - 1 == 1 { 2int } else if p - 1 == 2 { 4int } else { 8int }
        } else {
            0int
        }
    }
}

pub open spec fn table_nz_upto(counts: Seq<u8>, p: int) -> int
    decreases p,
{
    if p <= 0 { 0 } else { table_nz_upto(counts, p - 1) + set_rows(counts, p - 1) }
}

pub open spec fn table_nzy_upto(counts: Seq<u8>, p: int) -> int
    decreases p,
{
    if p <= 0 { 0 } else { table_nzy_upto(counts, p - 1) + set_rows_positive(counts, p - 1) }
}

pub open spec fn table_matches_upto(counts: Seq<u8>, p: int) -> int
    decreases p,
{
    if p <= 0 { 0 } else { table_matches_upto(counts, p - 1) + partition_matches(counts, p - 1) }
}

/// Rows among the first `n` where truth table `tt` reproduces the output.
pub open spec fn table_hits_upto(tt: u8, batch: Seq<(bool, bool, bool)>, n: int) -> nat
    decreases n,
{
    if n <= 0 {
        0
    } else {
        table_hits_upto(tt, batch, n - 1) + if gate_output(tt, batch[n - 1].0, batch[n - 1].1) == batch[n - 1].2 {
            1nat
        } else {
            0nat
        }
    }
}

/// Hits of partition `p` under truth table `tt`: its rows with output 1 when
/// bit `p` of the table is set, its rows with output 0 otherwise.
pub open spec fn partition_hits(tt: u8, batch: Seq<(bool, bool, bool)>, p: int, n: int) -> int {
    if table_bit(tt, p) { count_slot_upto(batch, 2 * p + 1, n) as int } else { count_slot_upto(batch, 2 * p, n) as int }
}

proof fn lemma_table_hits_by_partition(tt: u8, batch: Seq<(bool, bool, bool)>, n: int)
    requires
        0 <= n <= batch.len(),
    ensures
        table_hits_upto(tt, batch, n) == partition_hits(tt, batch, 0, n) + partition_hits(tt, batch, 1, n)
            + partition_hits(tt, batch, 2, n) + partition_hits(tt, batch, 3, n),
    decreases n,
{
    if n > 0 {
        lemma_table_hits_by_partition(tt, batch, n - 1);
        let row = batch[n - 1];
        assert(table_row(row.0, row.1) == 2 * table_row(row.0, row.1) / 2);
    }
}

/// Bit `p` of the majority table is the majority output of partition `p`.
proof fn lemma_majority_bits(counts: Seq<u8>, p: int)
    requires
        counts.len() == 8,
        0 <= p < 4,
    ensures
        table_bit(majority_table(counts) as u8, p) == majority_bit(counts, p),
{
    let b0: u8 = if majority_bit(counts, 0) { 1 } else { 0 };
    let b1: u8 = if majority_bit(counts, 1) { 1 } else { 0 };
    let b2: u8 = if majority_bit(counts, 2) { 1 } else { 0 };
    let b3: u8 = if majority_bit(counts, 3) { 1 } else { 0 };
    let t: u8 = (b0 + 2 * b1 + 4 * b2 + 8 * b3) as u8;
    assert(majority_table(counts) == t);
    let q = p as u8;
    assert(((t >> q) & 1u8 == 1u8) == (if q == 0 { b0 == 1 } else if q == 1 { b1 == 1 } else if q == 2 { b2 == 1 } else { b3 == 1 }))
        by (bit_vector)
        requires
            b0 <= 1, b1 <= 1, b2 <= 1, b3 <= 1, q < 4,
            t == b0 + 2 * b1 + 4 * b2 + 8 * b3;
}

/// The eight slot counts of the observations zipped from three columns.
pub open spec fn column_counts(first: Seq<bool>, second: Seq<bool>, signs: Seq<bool>) -> Seq<u8> {
    let batch = zip_columns(first, second, signs);
    Seq::new(8, |s: int| count_slot_upto(batch, s, batch.len() as int) as u8)
}

/// A counter that holds the slot counts of three zipped columns holds
/// `column_counts` of them.
pub proof fn lemma_counts_are_column_counts(counter: FeatureCounter, first: Seq<bool>, second: Seq<bool>, signs: Seq<bool>)
    requires
        counter.counts_batch(zip_columns(first, second, signs)),
    ensures
        counter.counts_view() == column_counts(first, second, signs),
{
    let batch = zip_columns(first, second, signs);
    assert forall|s: int| 0 <= s < 8 implies #[trigger] counter.counts_view()[s] == column_counts(first, second, signs)[s] by {
        assert(counter.counts_view()[s] == count_slot_upto(batch, s, batch.len() as int));
    }
    assert(counter.counts_view() =~= column_counts(first, second, signs));
}

/// The matches a counter reports for its majority table are the rows where
/// that table, applied to the two columns, reproduces the labels.
pub proof fn law_table_matches_are_column_hits(counter: FeatureCounter, first: Seq<bool>, second: Seq<bool>, signs: Seq<bool>)
    requires
        first.len() == second.len(),
        first.len() == signs.len(),
        counter.counts_batch(zip_columns(first, second, signs)),
    ensures
        table_matches(counter.counts_view()) == count_eq_upto(
            Seq::new(first.len(), |r: int| gate_output(majority_table(counter.counts_view()) as u8, first[r], second[r])),
            signs,
            first.len() as int,
        ),
{
    let batch = zip_columns(first, second, signs);
    let counts = counter.counts_view();
    let tt = majority_table(counts) as u8;
    let n = first.len() as int;
    lemma_table_hits_by_partition(tt, batch, n);
    assert forall|p: int| 0 <= p < 4 implies partition_hits(tt, batch, p, n) == #[trigger] partition_matches(counts, p) by {
        lemma_majority_bits(counts, p);
        assert(counts[2 * p] == count_slot_upto(batch, 2 * p, n));
        assert(counts[2 * p + 1] == count_slot_upto(batch, 2 * p + 1, n));
    }
    assert(partition_hits(tt, batch, 0, n) == partition_matches(counts, 0));
    assert(partition_hits(tt, batch, 1, n) == partition_matches(counts, 1));
    assert(partition_hits(tt, batch, 2, n) == partition_matches(counts, 2));
    assert(partition_hits(tt, batch, 3, n) == partition_matches(counts, 3));
    let column = Seq::new(first.len(), |r: int| gate_output(tt, first[r], second[r]));
    lemma_hits_are_eq(tt, first, second, signs, column, n);
}

/// No truth table reproduces more labels than the majority table: its
/// matches are at least those of any table `tt` over the same columns.
pub proof fn law_majority_table_minimizes_errors(
    counter: FeatureCounter, first: Seq<bool>, second: Seq<bool>, signs: Seq<bool>, tt: u8,
)
    requires
        first.len() == second.len(),
        first.len() == signs.len(),
        counter.counts_batch(zip_columns(first, second, signs)),
    ensures
        count_eq_upto(Seq::new(first.len(), |r: int| gate_output(tt, first[r], second[r])), signs, first.len() as int)
            <= table_matches(counter.counts_view()),
        count_eq_upto(Seq::new(first.len(), |r: int| gate_output(majority_table(counter.counts_view()) as u8, first[r], second[r])),
            signs, first.len() as int) == table_matches(counter.counts_view()),
{
    let batch = zip_columns(first, second, signs);
    let counts = counter.counts_view();
    let n = first.len() as int;
    law_table_matches_are_column_hits(counter, first, second, signs);
    lemma_table_hits_by_partition(tt, batch, n);
    assert forall|p: int| 0 <= p < 4 implies partition_hits(tt, batch, p, n) <= #[trigger] partition_matches(counts, p) by {
        assert(counts[2 * p] == count_slot_upto(batch, 2 * p, n));
        assert(counts[2 * p + 1] == count_slot_upto(batch, 2 * p + 1, n));
    }
    assert(partition_hits(tt, batch, 0, n) <= partition_matches(counts, 0));
    assert(partition_hits(tt, batch, 1, n) <= partition_matches(counts, 1));
    assert(partition_hits(tt, batch, 2, n) <= partition_matches(counts, 2));
    assert(partition_hits(tt, batch, 3, n) <= partition_matches(counts, 3));
    let column = Seq::new(first.len(), |r: int| gate_output(tt, first[r], second[r]));
    lemma_hits_are_eq(tt, first, second, signs, column, n);
}

/// Rows among the first `n` where truth table `tt` outputs `true`.
pub open spec fn table_true_upto(tt: u8, batch: Seq<(bool, bool, bool)>, n: int) -> nat
    decreases n,
{
    if n <= 0 {
        0
    } else {
        table_true_upto(tt, batch, n - 1) + if gate_output(tt, batch[n - 1].0, batch[n - 1].1) { 1nat } else { 0nat }
    }
}

/// Rows among the first `n` where truth table `tt` and the output are both `true`.
pub open spec fn table_both_upto(tt: u8, batch: Seq<(bool, bool, bool)>, n: int) -> nat
    decreases n,
{
    if n <= 0 {
        0
    } else {
        table_both_upto(tt, batch, n - 1) + if gate_output(tt, batch[n - 1].0, batch[n - 1].1) && batch[n - 1].2 {
            1nat
        } else {
            0nat
        }
    }
}

/// Rows of partition `p` where table `tt` outputs `true`, and those of them
/// with output `true`.
pub open spec fn partition_true(tt: u8, batch: Seq<(bool, bool, bool)>, p: int, n: int) -> int {
    if table_bit(tt, p) { (count_slot_upto(batch, 2 * p, n) + count_slot_upto(batch, 2 * p + 1, n)) as int } else { 0 }
}

pub open spec fn partition_both(tt: u8, batch: Seq<(bool, bool, bool)>, p: int, n: int) -> int {
    if table_bit(tt, p) { count_slot_upto(batch, 2 * p + 1, n) as int } else { 0 }
}

proof fn lemma_table_true_by_partition(tt: u8, batch: Seq<(bool, bool, bool)>, n: int)
    requires
        0 <= n <= batch.len(),
    ensures
        table_true_upto(tt, batch, n) == partition_true(tt, batch, 0, n) + partition_true(tt, batch, 1, n)
            + partition_true(tt, batch, 2, n) + partition_true(tt, batch, 3, n),
        table_both_upto(tt, batch, n) == partition_both(tt, batch, 0, n) + partition_both(tt, batch, 1, n)
            + partition_both(tt, batch, 2, n) + partition_both(tt, batch, 3, n),
    decreases n,
{
    if n > 0 {
        lemma_table_true_by_partition(tt, batch, n - 1);
        let row = batch[n - 1];
        assert(table_row(row.0, row.1) == 2 * table_row(row.0, row.1) / 2);
    }
}

proof fn lemma_true_counts_are_column_counts(tt: u8, first: Seq<bool>, second: Seq<bool>, signs: Seq<bool>, column: Seq<bool>, n: int)
    requires
        first.len() == second.len(),
        first.len() == signs.len(),
        column == Seq::new(first.len(), |r: int| gate_output(tt, first[r], second[r])),
        0 <= n <= first.len(),
    ensures
        table_true_upto(tt, zip_columns(first, second, signs), n) == count_true_upto(column, n),
        table_both_upto(tt, zip_columns(first, second, signs), n) == count_and_upto(column, signs, n),
    decreases n,
{
    if n > 0 {
        lemma_true_counts_are_column_counts(tt, first, second, signs, column, n - 1);
    }
}

/// The set rows and set-and-labelled rows a counter reports for its
/// majority table are those of that table's column.
pub proof fn law_table_scores_are_column_counts(counter: FeatureCounter, first: Seq<bool>, second: Seq<bool>, signs: Seq<bool>)
    requires
        first.len() == second.len(),
        first.len() == signs.len(),
        counter.counts_batch(zip_columns(first, second, signs)),
    ensures
        table_nz(counter.counts_view()) == count_true_upto(
            Seq::new(first.len(), |r: int| gate_output(majority_table(counter.counts_view()) as u8, first[r], second[r])),
            first.len() as int,
        ),
        table_nzy(counter.counts_view()) == count_and_upto(
            Seq::new(first.len(), |r: int| gate_output(majority_table(counter.counts_view()) as u8, first[r], second[r])),
            signs,
            first.len() as int,
        ),
{
    let batch = zip_columns(first, second, signs);
    let counts = counter.counts_view();
    let tt = majority_table(counts) as u8;
    let n = first.len() as int;
    lemma_table_true_by_partition(tt, batch, n);
    assert forall|p: int| 0 <= p < 4 implies partition_true(tt, batch, p, n) == #[trigger] set_rows(counts, p)
        && partition_both(tt, batch, p, n) == set_rows_positive(counts, p) by {
        lemma_majority_bits(counts, p);
        assert(counts[2 * p] == count_slot_upto(batch, 2 * p, n));
        assert(counts[2 * p + 1] == count_slot_upto(batch, 2 * p + 1, n));
    }
    assert(set_rows(counts, 0) == partition_true(tt, batch, 0, n));
    assert(set_rows(counts, 1) == partition_true(tt, batch, 1, n));
    assert(set_rows(counts, 2) == partition_true(tt, batch, 2, n));
    assert(set_rows(counts, 3) == partition_true(tt, batch, 3, n));
    let column = Seq::new(first.len(), |r: int| gate_output(tt, first[r], second[r]));
    lemma_true_counts_are_column_counts(tt, first, second, signs, column, n);
}

proof fn lemma_hits_are_eq(tt: u8, first: Seq<bool>, second: Seq<bool>, signs: Seq<bool>, column: Seq<bool>, n: int)
    requires
        first.len() == second.len(),
        first.len() == signs.len(),
        column == Seq::new(first.len(), |r: int| gate_output(tt, first[r], second[r])),
        0 <= n <= first.len(),
    ensures
        table_hits_upto(tt, zip_columns(first, second, signs), n) == count_eq_upto(column, signs, n),
    decreases n,
{
    if n > 0 {
        lemma_hits_are_eq(tt, first, second, signs, column, n - 1);
    }
}

} // verus!
