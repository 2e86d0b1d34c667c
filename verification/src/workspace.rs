//! Preallocated buffers of the conjunction beam search.

use vstd::prelude::*;
use crate::batch::SignBatch;
use crate::conjunction_build_common::{
    derive_conjunction_capacity, extension_capacity, key_words_for, BeamEntry,
    ConjunctionBuildConfig, ConjunctionKey, ExtensionCandidate, MAX_BATCH_SIZE,
};

verus! {

#[derive(Debug, Clone, Copy)]
pub struct ModelCapacity {
    pub source_feature_count: usize,
    pub batch_size: usize,
    pub max_conjunctions: usize,
    pub max_conjunction_length: usize,
    pub max_experts: usize,
    pub max_functions: usize,
    pub n_classes: usize,
    pub max_extensions: usize,
    pub key_words: usize,
}

#[derive(Debug, Clone, Copy, PartialEq, Eq, Structural)]
pub enum WorkspaceError {
    InvalidConfig,
}

impl ModelCapacity {
    pub fn new(
        source_feature_count: usize,
        batch_size: usize,
        max_conjunctions: usize,
        max_conjunction_length: usize,
        max_functions: usize,
        max_experts: usize,
        n_classes: usize,
    ) -> (r: Self)
        requires
            extension_capacity(source_feature_count as int, max_conjunctions as int) <= usize::MAX,
        ensures
            r.source_feature_count == source_feature_count,
            r.batch_size == batch_size,
            r.max_conjunctions == max_conjunctions,
            r.max_conjunction_length == max_conjunction_length,
            r.max_experts == max_experts,
            r.max_functions == max_functions,
            r.n_classes == n_classes,
            r.max_extensions == extension_capacity(source_feature_count as int, max_conjunctions as int),
            r.key_words == key_words_for(source_feature_count as int),
    {
        let derived = derive_conjunction_capacity(
            source_feature_count,
            ConjunctionBuildConfig {
                batch_size,
                max_conjunctions,
                max_conjunction_length,
                max_experts,
                stale_layers: 1,
            },
        );
        Self {
            source_feature_count,
            batch_size,
            max_conjunctions,
            max_conjunction_length,
            max_experts,
            max_functions,
            n_classes,
            max_extensions: derived.max_extensions,
            key_words: derived.key_words,
        }
    }

    /// Every size is positive and a batch fits a `u8` counter.
    pub open spec fn valid(self) -> bool {
        &&& self.source_feature_count != 0
        &&& self.batch_size != 0
        &&& self.max_conjunctions != 0
        &&& self.max_conjunction_length != 0
        &&& self.max_functions != 0
        &&& self.max_experts != 0
        &&& self.batch_size <= MAX_BATCH_SIZE
    }

    pub fn validate(&self) -> (r: Result<(), WorkspaceError>)
        ensures
            r is Ok <==> self.valid(),
            r is Err ==> r == Err::<(), WorkspaceError>(WorkspaceError::InvalidConfig),
    {
        if self.source_feature_count == 0 || self.batch_size == 0 || self.max_conjunctions == 0
            || self.max_conjunction_length == 0 || self.max_functions == 0 || self.max_experts == 0
            || self.batch_size > MAX_BATCH_SIZE {
            return Err(WorkspaceError::InvalidConfig);
        }
        Ok(())
    }

    /// Buffer sizes of a build workspace fit in memory.
    pub open spec fn fits(self) -> bool {
        &&& 2 * self.source_feature_count <= usize::MAX
        &&& 2 * self.source_feature_count * self.batch_size <= usize::MAX
        &&& self.max_conjunctions * self.batch_size <= usize::MAX
    }
}

/// Position of row `row` of column `l` in a column-major buffer.
pub open spec fn cell(l: int, row: int, batch_size: int) -> int {
    l * batch_size + row
}

/// One depth of the beam: conjunctions with exactly `depth + 1` literals.
#[derive(Debug)]
pub struct DepthLayer {
    pub entries: Vec<BeamEntry>,
    pub columns: Vec<bool>,
    pub len: usize,
}

fn blank_entry() -> (r: BeamEntry)
    ensures
        r.key.positive@ == seq![0u64, 0u64, 0u64, 0u64],
        r.key.negative@ == seq![0u64, 0u64, 0u64, 0u64],
        r.abs_assoc == 0 && r.accuracy == 0 && r.column_slot == 0,
{
    BeamEntry { key: ConjunctionKey::empty(), abs_assoc: 0, accuracy: 0, column_slot: 0 }
}

fn blank_extension() -> (r: ExtensionCandidate)
    ensures
        r.key.positive@ == seq![0u64, 0u64, 0u64, 0u64],
        r.key.negative@ == seq![0u64, 0u64, 0u64, 0u64],
        r.abs_assoc == 0 && r.accuracy == 0 && r.parent_slot == 0 && r.literal_index == 0,
{
    ExtensionCandidate {
        key: ConjunctionKey::empty(),
        abs_assoc: 0,
        accuracy: 0,
        parent_slot: 0,
        literal_index: 0,
    }
}

/// A vector holding `n` copies of `value`.
pub fn filled<T: Copy>(value: T, n: usize) -> (r: Vec<T>)
    ensures
        r@.len() == n,
        forall|i: int| 0 <= i < n ==> #[trigger] r@[i] == value,
{
    let mut v: Vec<T> = Vec::new();
    let mut i: usize = 0;
    while i < n
        invariant
            i <= n,
            v@.len() == i,
            forall|k: int| 0 <= k < i ==> #[trigger] v@[k] == value,
        decreases n - i,
    {
        v.push(value);
        i = i + 1;
    }
    v
}

impl DepthLayer {
    fn new(max_conjunctions: usize, batch_size: usize) -> (r: Self)
        requires
            max_conjunctions * batch_size <= usize::MAX,
        ensures
            r.entries@.len() == max_conjunctions,
            r.columns@.len() == max_conjunctions * batch_size,
            r.len == 0,
    {
        Self {
            entries: filled(blank_entry(), max_conjunctions),
            columns: filled(false, max_conjunctions * batch_size),
            len: 0,
        }
    }

    pub fn reset(&mut self)
        ensures
            final(self).len == 0,
            final(self).entries == old(self).entries,
            final(self).columns == old(self).columns,
    {
        self.len = 0;
    }
}

/// Buffers of one beam search: literal columns of the batch, one layer per
/// depth, extension scratch and sort scratch.
#[derive(Debug)]
pub struct ConjunctionBuildWorkspace {
    pub literal_columns: Vec<bool>,
    pub layers: Vec<DepthLayer>,
    pub extension_buf: Vec<ExtensionCandidate>,
    pub dedup_buf: Vec<ExtensionCandidate>,
    pub z_scratch: Vec<bool>,
    pub sort_scratch: Vec<usize>,
    pub batch_size: usize,
    pub feature_count: usize,
    pub key_words: usize,
    pub max_conjunction_length: usize,
}

impl ConjunctionBuildWorkspace {
    /// Buffer shapes for `feature_count` features, batches of `batch_size`
    /// rows and beams of width `max_conjunctions`.
    pub open spec fn shaped(self, max_conjunctions: int) -> bool {
        &&& self.literal_columns@.len() == 2 * self.feature_count * self.batch_size
        &&& self.layers@.len() == self.max_conjunction_length
        &&& forall|d: int|
            0 <= d < self.layers@.len() ==> (#[trigger] self.layers@[d]).entries@.len()
                == max_conjunctions && self.layers@[d].columns@.len() == max_conjunctions
                * self.batch_size && self.layers@[d].len <= max_conjunctions
        &&& self.extension_buf@.len() == extension_capacity(self.feature_count as int, max_conjunctions)
        &&& self.dedup_buf@.len() == self.extension_buf@.len()
        &&& self.sort_scratch@.len() == self.extension_buf@.len()
        &&& self.z_scratch@.len() == self.batch_size
        &&& self.key_words == key_words_for(self.feature_count as int)
    }

    pub fn new(capacity: ModelCapacity) -> (r: Self)
        requires
            capacity.fits(),
        ensures
            r.batch_size == capacity.batch_size,
            r.feature_count == capacity.source_feature_count,
            r.key_words == capacity.key_words,
            r.max_conjunction_length == capacity.max_conjunction_length,
            r.literal_columns@.len() == 2 * capacity.source_feature_count * capacity.batch_size,
            r.layers@.len() == capacity.max_conjunction_length,
            forall|d: int|
                0 <= d < r.layers@.len() ==> (#[trigger] r.layers@[d]).entries@.len()
                    == capacity.max_conjunctions && r.layers@[d].columns@.len()
                    == capacity.max_conjunctions * capacity.batch_size && r.layers@[d].len == 0,
            r.extension_buf@.len() == capacity.max_extensions,
            r.dedup_buf@.len() == capacity.max_extensions,
            r.sort_scratch@.len() == capacity.max_extensions,
            forall|i: int| 0 <= i < capacity.max_extensions ==> #[trigger] r.sort_scratch@[i] == i,
            r.z_scratch@.len() == capacity.batch_size,
    {
        let d = capacity.source_feature_count;
        let b = capacity.batch_size;
        let k_c = capacity.max_conjunctions;
        let l_max = capacity.max_conjunction_length;
        let max_extensions = capacity.max_extensions;
        let mut layers: Vec<DepthLayer> = Vec::new();
        let mut i: usize = 0;
        while i < l_max
            invariant
                i <= l_max,
                k_c * b <= usize::MAX,
                layers@.len() == i,
                forall|k: int|
                    0 <= k < i ==> (#[trigger] layers@[k]).entries@.len() == k_c
                        && layers@[k].columns@.len() == k_c * b && layers@[k].len == 0,
            decreases l_max - i,
        {
            layers.push(DepthLayer::new(k_c, b));
            i = i + 1;
        }
        let mut sort_scratch: Vec<usize> = Vec::new();
        let mut j: usize = 0;
        while j < max_extensions
            invariant
                j <= max_extensions,
                sort_scratch@.len() == j,
                forall|k: int| 0 <= k < j ==> #[trigger] sort_scratch@[k] == k,
            decreases max_extensions - j,
        {
            sort_scratch.push(j);
            j = j + 1;
        }
        Self {
            literal_columns: filled(false, 2 * d * b),
            layers,
            extension_buf: filled(blank_extension(), max_extensions),
            dedup_buf: filled(blank_extension(), max_extensions),
            z_scratch: filled(false, b),
            sort_scratch,
            batch_size: b,
            feature_count: d,
            key_words: capacity.key_words,
            max_conjunction_length: l_max,
        }
    }

    pub fn reset(&mut self)
        ensures
            final(self).layers@.len() == old(self).layers@.len(),
            forall|d: int|
                0 <= d < final(self).layers@.len() ==> (#[trigger] final(self).layers@[d]).len == 0
                    && final(self).layers@[d].entries == old(self).layers@[d].entries
                    && final(self).layers@[d].columns == old(self).layers@[d].columns,
            final(self).literal_columns == old(self).literal_columns,
            final(self).extension_buf == old(self).extension_buf,
            final(self).dedup_buf == old(self).dedup_buf,
            final(self).z_scratch == old(self).z_scratch,
            final(self).sort_scratch == old(self).sort_scratch,
            final(self).batch_size == old(self).batch_size,
            final(self).feature_count == old(self).feature_count,
            final(self).key_words == old(self).key_words,
            final(self).max_conjunction_length == old(self).max_conjunction_length,
    {
        let n = self.layers.len();
        let mut i: usize = 0;
        while i < n
            invariant
                n == self.layers@.len(),
                i <= n,
                self.layers@.len() == old(self).layers@.len(),
                forall|d: int|
                    0 <= d < n ==> (#[trigger] self.layers@[d]).entries == old(self).layers@[d].entries
                        && self.layers@[d].columns == old(self).layers@[d].columns
                        && (d < i ==> self.layers@[d].len == 0),
                self.literal_columns == old(self).literal_columns,
                self.extension_buf == old(self).extension_buf,
                self.dedup_buf == old(self).dedup_buf,
                self.z_scratch == old(self).z_scratch,
                self.sort_scratch == old(self).sort_scratch,
                self.batch_size == old(self).batch_size,
                self.feature_count == old(self).feature_count,
                self.key_words == old(self).key_words,
                self.max_conjunction_length == old(self).max_conjunction_length,
            decreases n - i,
        {
            self.layers[i].reset();
            i = i + 1;
        }
    }

    /// Literal `2 * f + negated` of the batch, as stored in `literal_columns`.
    pub open spec fn literal_value(batch: SignBatch, literal_index: int, row: int) -> bool {
        let f = literal_index / 2;
        if literal_index % 2 == 0 { batch.col(f)[row] } else { !batch.col(f)[row] }
    }

    /// `literal_columns` holds the positive and the negated column of every feature.
    pub open spec fn literals_of(self, batch: SignBatch) -> bool {
        &&& self.literal_columns@.len() == 2 * self.feature_count * self.batch_size
        &&& forall|l: int, row: int|
            0 <= l < 2 * self.feature_count && 0 <= row < self.batch_size ==> #[trigger] self.literal_columns@[cell(l, row, self.batch_size as int)] == Self::literal_value(batch, l, row)
    }

    pub fn precompute_literal_columns(&mut self, batch: SignBatch<'_>)
        requires
            batch.wf(),
            old(self).feature_count <= batch.spec_feature_count(),
            batch.columns_have_len(old(self).batch_size as int),
            old(self).literal_columns@.len() == 2 * old(self).feature_count * old(self).batch_size,
            2 * old(self).feature_count <= usize::MAX,
        ensures
            final(self).literals_of(batch),
            final(self).layers == old(self).layers,
            final(self).extension_buf == old(self).extension_buf,
            final(self).dedup_buf == old(self).dedup_buf,
            final(self).z_scratch == old(self).z_scratch,
            final(self).sort_scratch == old(self).sort_scratch,
            final(self).batch_size == old(self).batch_size,
            final(self).feature_count == old(self).feature_count,
            final(self).key_words == old(self).key_words,
            final(self).max_conjunction_length == old(self).max_conjunction_length,
    {
        let batch_size = self.batch_size;
        let feature_count = self.feature_count;
        let mut feature_index: usize = 0;
        while feature_index < feature_count
            invariant
                batch.wf(),
                batch_size == self.batch_size,
                feature_count == self.feature_count,
                feature_count <= batch.spec_feature_count(),
                batch.columns_have_len(batch_size as int),
                feature_index <= feature_count,
                self.literal_columns@.len() == 2 * feature_count * batch_size,
                2 * feature_count <= usize::MAX,
                forall|l: int, row: int|
                    0 <= l < 2 * feature_index && 0 <= row < batch_size ==> #[trigger] self.literal_columns@[cell(l, row, batch_size as int)] == Self::literal_value(batch, l, row),
                self.layers == old(self).layers,
                self.extension_buf == old(self).extension_buf,
                self.dedup_buf == old(self).dedup_buf,
                self.z_scratch == old(self).z_scratch,
                self.sort_scratch == old(self).sort_scratch,
                self.key_words == old(self).key_words,
                self.max_conjunction_length == old(self).max_conjunction_length,
                self.batch_size == old(self).batch_size,
                self.feature_count == old(self).feature_count,
            decreases feature_count - feature_index,
        {
            let column = match batch.column(feature_index) {
                Some(c) => c,
                None => {
                    proof {
                        assert(batch.spec_column(feature_index as int) is Some);
                    }
                    return;
                },
            };
            let total = self.literal_columns.len();
            proof {
                assert(feature_index * 2 * batch_size + 2 * batch_size <= 2 * feature_count * batch_size) by (nonlinear_arith)
                    requires feature_index < feature_count;
                assert(feature_index * 2 * batch_size == 2 * feature_index * batch_size) by (nonlinear_arith);
            }
            let positive_start = feature_index * 2 * batch_size;
            let negative_start = positive_start + batch_size;
            let mut row: usize = 0;
            while row < batch_size
                invariant
                    batch_size == self.batch_size,
                    feature_count == self.feature_count,
                    column@ == batch.col(feature_index as int),
                    column@.len() == batch_size,
                    feature_index < feature_count,
                    positive_start == 2 * feature_index * batch_size,
                    negative_start == positive_start + batch_size,
                    negative_start + batch_size <= 2 * feature_count * batch_size,
                    total == self.literal_columns@.len(),
                    row <= batch_size,
                    self.literal_columns@.len() == 2 * feature_count * batch_size,
                    forall|l: int, r: int|
                        0 <= l < 2 * feature_index && 0 <= r < batch_size ==> #[trigger] self.literal_columns@[cell(l, r, batch_size as int)] == Self::literal_value(batch, l, r),
                    forall|r: int|
                        0 <= r < row ==> #[trigger] self.literal_columns@[positive_start + r] == column@[r],
                    forall|r: int|
                        0 <= r < row ==> #[trigger] self.literal_columns@[negative_start + r] == !column@[r],
                    self.layers == old(self).layers,
                    self.extension_buf == old(self).extension_buf,
                    self.dedup_buf == old(self).dedup_buf,
                    self.z_scratch == old(self).z_scratch,
                    self.sort_scratch == old(self).sort_scratch,
                    self.key_words == old(self).key_words,
                    self.max_conjunction_length == old(self).max_conjunction_length,
                    self.batch_size == old(self).batch_size,
                    self.feature_count == old(self).feature_count,
                decreases batch_size - row,
            {
                proof {
                    assert forall|l: int, r: int|
                        0 <= l < 2 * feature_index && 0 <= r < batch_size implies #[trigger] cell(l, r, batch_size as int)
                            < positive_start by {
                        assert(l * batch_size + r < (l + 1) * batch_size) by (nonlinear_arith)
                            requires r < batch_size;
                        assert((l + 1) * batch_size <= 2 * feature_index * batch_size) by (nonlinear_arith)
                            requires l + 1 <= 2 * feature_index, batch_size >= 0;
                    }
                }
                self.literal_columns[positive_start + row] = column[row];
                self.literal_columns[negative_start + row] = !column[row];
                row = row + 1;
            }
            proof {
                assert forall|l: int, r: int|
                    0 <= l < 2 * (feature_index + 1) && 0 <= r < batch_size implies #[trigger] self.literal_columns@[cell(l, r, batch_size as int)] == Self::literal_value(batch, l, r) by {
                    if l == 2 * feature_index {
                        assert(cell(l, r, batch_size as int) == positive_start + r) by (nonlinear_arith)
                            requires l == 2 * feature_index, positive_start == 2 * feature_index * batch_size;
                        assert(self.literal_columns@[positive_start + r] == column@[r]);
                        assert(l / 2 == feature_index);
                        assert(l % 2 == 0);
                    } else if l == 2 * feature_index + 1 {
                        assert(cell(l, r, batch_size as int) == negative_start + r) by (nonlinear_arith)
                            requires l == 2 * feature_index + 1, negative_start == 2 * feature_index * batch_size + batch_size;
                        assert(self.literal_columns@[negative_start + r] == !column@[r]);
                        assert(l / 2 == feature_index);
                        assert(l % 2 == 1);
                    }
                }
            }
            feature_index = feature_index + 1;
        }
    }
}

} // verus!
