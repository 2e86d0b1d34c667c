//! Learning composed features over consecutive batches of residual signs:
//! a batch trains candidate gates, the next batch scores them before they
//! are promoted and the weakest are pruned with everything built on them.

use vstd::prelude::*;
use crate::association::{count_eq_upto, min_len, lemma_count_eq_upto_bound};
use crate::binary_truth_table::{FeatureCounter, FeatureCounterError, column_counts, lemma_counts_are_column_counts, majority_table, zip_columns};
use crate::boolean_circuit::{evaluate_truth_table, gate_output};
use crate::feature_store::{Feature, FeatureId, FeatureStore, InsertFeatureError, below, candidate_appended, id_less, live_count, live_ids};
use crate::function_build_common::correct_count;
use crate::seq_perm::{swapped, lemma_swap_multiset};
use crate::association::count_true_upto;
use crate::function_compact::{lemma_count_true_set, lemma_count_true_zero};

verus! {

/// Feature columns and the sign label of each row.
#[derive(Clone, Copy)]
pub struct SignBatch<'a> {
    pub feature_columns: &'a [&'a [bool]],
    pub signs: &'a [bool],
}

#[derive(Debug, Clone, Copy)]
pub struct FeatureLearningConfig {
    pub batch_size: usize,
    pub parent_top_k: usize,
    pub features_per_layer: usize,
    pub candidate_capacity: usize,
    pub max_layers: usize,
}

impl FeatureLearningConfig {
    /// Every size is positive and a batch fits a counter.
    pub open spec fn valid(self) -> bool {
        &&& self.batch_size != 0
        &&& self.parent_top_k != 0
        &&& self.features_per_layer != 0
        &&& self.candidate_capacity != 0
        &&& self.max_layers != 0
        &&& self.batch_size <= 255
    }
}

#[derive(Debug, Clone, Copy, PartialEq, Eq, Structural)]
pub enum FeatureLearningError {
    InvalidConfig,
    InvalidBatch,
    BatchTooLarge,
    Store(InsertFeatureError),
}

impl From<InsertFeatureError> for FeatureLearningError {
    fn from(error: InsertFeatureError) -> (r: Self) {
        FeatureLearningError::Store(error)
    }
}

impl vstd::std_specs::convert::FromSpecImpl<InsertFeatureError> for FeatureLearningError {
    open spec fn obeys_from_spec() -> bool {
        true
    }

    open spec fn from_spec(error: InsertFeatureError) -> Self {
        FeatureLearningError::Store(error)
    }
}

impl From<FeatureCounterError> for FeatureLearningError {
    fn from(error: FeatureCounterError) -> (r: Self) {
        match error {
            FeatureCounterError::BatchTooLarge => FeatureLearningError::BatchTooLarge,
        }
    }
}

impl vstd::std_specs::convert::FromSpecImpl<FeatureCounterError> for FeatureLearningError {
    open spec fn obeys_from_spec() -> bool {
        true
    }

    open spec fn from_spec(error: FeatureCounterError) -> Self {
        match error {
            FeatureCounterError::BatchTooLarge => FeatureLearningError::BatchTooLarge,
        }
    }
}

/// Column `i` of the batch.
pub open spec fn fl_col(batch: SignBatch, i: int) -> Seq<bool> {
    batch.feature_columns@[i]@
}

/// Truth table `truth_table` applied row by row over the common prefix.
pub open spec fn feature_col(truth_table: u8, a: Seq<bool>, b: Seq<bool>) -> Seq<bool> {
    Seq::new(if a.len() <= b.len() { a.len() } else { b.len() }, |i: int| gate_output(truth_table, a[i], b[i]))
}

/// `reference` names a batch column or a live feature whose inputs do,
/// recursively.
pub open spec fn ref_present(store: FeatureStore, batch: SignBatch, reference: FeatureId) -> bool
    decreases reference.layer,
{
    if reference.layer == 0 {
        reference.index < batch.feature_columns@.len()
    } else {
        match store.lookup(reference) {
            Some(f) => if below(f, reference.layer as int) {
                ref_present(store, batch, f.inputs[0]) && ref_present(store, batch, f.inputs[1])
            } else {
                false
            },
            None => false,
        }
    }
}

/// Values of `reference` on the batch.
pub open spec fn ref_col(store: FeatureStore, batch: SignBatch, reference: FeatureId) -> Seq<bool>
    decreases reference.layer,
{
    if reference.layer == 0 {
        if reference.index < batch.feature_columns@.len() { fl_col(batch, reference.index as int) } else { Seq::empty() }
    } else {
        match store.lookup(reference) {
            Some(f) => if below(f, reference.layer as int) {
                feature_col(f.truth_table, ref_col(store, batch, f.inputs[0]), ref_col(store, batch, f.inputs[1]))
            } else {
                Seq::empty()
            },
            None => Seq::empty(),
        }
    }
}

/// Values of a feature of layer `layer` on the batch.
pub open spec fn feature_values(store: FeatureStore, batch: SignBatch, f: Feature) -> Seq<bool> {
    feature_col(f.truth_table, ref_col(store, batch, f.inputs[0]), ref_col(store, batch, f.inputs[1]))
}

/// Every column has `batch_size` rows, there is one per source feature, and
/// one sign per row.
pub open spec fn batch_ok(batch: SignBatch, source_count: int, batch_size: int) -> bool {
    &&& batch.feature_columns@.len() == source_count
    &&& batch.signs@.len() == batch_size
    &&& forall|i: int| 0 <= i < source_count ==> (#[trigger] fl_col(batch, i)).len() == batch_size
}

/// Copy of a slice.
fn copy_column(column: &[bool]) -> (out: Vec<bool>)
    ensures
        out@ == column@,
{
    let mut out: Vec<bool> = Vec::new();
    let mut i: usize = 0;
    while i < column.len()
        invariant
            i <= column@.len(),
            out@ == column@.subrange(0, i as int),
        decreases column@.len() - i,
    {
        out.push(column[i]);
        i = i + 1;
        assert(out@ =~= column@.subrange(0, i as int));
    }
    assert(out@ =~= column@);
    out
}

/// Values of `reference` on the batch; a reference that names neither a
/// column nor a live feature is refused.
fn evaluate_reference(store: &FeatureStore, batch: SignBatch<'_>, reference: FeatureId) -> (r: Result<Vec<bool>, FeatureLearningError>)
    requires
        store.wf(),
    ensures
        r is Ok <==> ref_present(*store, batch, reference),
        r is Err ==> r == Err::<Vec<bool>, FeatureLearningError>(FeatureLearningError::InvalidBatch),
        r matches Ok(v) ==> v@ == ref_col(*store, batch, reference),
    decreases reference.layer, 1int,
{
    if reference.layer == 0 {
        if reference.index < batch.feature_columns.len() {
            Ok(copy_column(batch.feature_columns[reference.index]))
        } else {
            Err(FeatureLearningError::InvalidBatch)
        }
    } else {
        match store.get(reference) {
            Some(feature) => {
                proof {
                    assert(store.live_at(reference.layer as int)[reference.index as int] == Some(*feature));
                    assert(below(*feature, reference.layer as int));
                }
                evaluate_feature(store, batch, feature, Ghost(reference.layer as int))
            },
            None => Err(FeatureLearningError::InvalidBatch),
        }
    }
}

/// Values of a feature whose inputs lie below `layer`.
fn evaluate_feature(store: &FeatureStore, batch: SignBatch<'_>, feature: &Feature, Ghost(layer): Ghost<int>) -> (r: Result<Vec<bool>, FeatureLearningError>)
    requires
        store.wf(),
        below(*feature, layer),
    ensures
        r is Ok <==> ref_present(*store, batch, feature.inputs[0]) && ref_present(*store, batch, feature.inputs[1]),
        r is Err ==> r == Err::<Vec<bool>, FeatureLearningError>(FeatureLearningError::InvalidBatch),
        r matches Ok(v) ==> v@ == feature_values(*store, batch, *feature),
    decreases layer, 0int,
{
    let first = evaluate_reference(store, batch, feature.inputs[0])?;
    let second = evaluate_reference(store, batch, feature.inputs[1])?;
    let mut out: Vec<bool> = Vec::new();
    let mut i: usize = 0;
    while i < first.len() && i < second.len()
        invariant
            i <= first@.len(),
            i <= second@.len(),
            out@.len() == i,
            forall|k: int| 0 <= k < i ==> #[trigger] out@[k] == gate_output(feature.truth_table, first@[k], second@[k]),
        decreases first@.len() - i,
    {
        out.push(evaluate_truth_table(feature.truth_table, first[i], second[i]));
        i = i + 1;
    }
    proof {
        assert(out@ =~= feature_values(*store, batch, *feature));
    }
    Ok(out)
}

/// The majority truth table of the rows `(first[i], second[i], signs[i])`.
fn learn_truth_table(first: &[bool], second: &[bool], signs: &[bool]) -> (r: Result<u8, FeatureLearningError>)
    ensures
        r is Err <==> zip_columns(first@, second@, signs@).len() > 255,
        r is Err ==> r == Err::<u8, FeatureLearningError>(FeatureLearningError::BatchTooLarge),
        r matches Ok(tt) ==> exists|counter: FeatureCounter| #[trigger] counter.counts_batch(zip_columns(first@, second@, signs@))
            && tt == majority_table(counter.counts_view()),
{
    let mut examples: Vec<(bool, bool, bool)> = Vec::new();
    let mut i: usize = 0;
    while i < first.len() && i < second.len() && i < signs.len()
        invariant
            i <= first@.len(),
            i <= second@.len(),
            i <= signs@.len(),
            examples@ == zip_columns(first@, second@, signs@).subrange(0, i as int),
        decreases first@.len() - i,
    {
        examples.push((first[i], second[i], signs[i]));
        i = i + 1;
        assert(examples@ =~= zip_columns(first@, second@, signs@).subrange(0, i as int));
    }
    assert(examples@ =~= zip_columns(first@, second@, signs@));
    match FeatureCounter::from_batch(examples.as_slice()) {
        Ok(counter) => Ok(counter.truth_table()),
        Err(error) => Err(FeatureLearningError::from(error)),
    }
}

/// `a` ranks before `b`: higher stored score (0 when unknown), then lower id.
pub open spec fn fid_before(store: FeatureStore, a: FeatureId, b: FeatureId) -> bool {
    let sa = match store.score_of(a) { Some(s) => s as int, None => 0 };
    let sb = match store.score_of(b) { Some(s) => s as int, None => 0 };
    sa > sb || (sa == sb && id_less(a, b))
}

/// No later id ranks before an earlier one.
pub open spec fn fids_sorted(s: Seq<FeatureId>, store: FeatureStore) -> bool {
    forall|i: int, j: int| 0 <= i < j < s.len() ==> !fid_before(store, #[trigger] s[j], #[trigger] s[i])
}

/// `top` is the first `min(k, len)` of `refs` ranked by stored score.
pub open spec fn fid_ranked_prefix(refs: Seq<FeatureId>, store: FeatureStore, k: int, top: Seq<FeatureId>) -> bool {
    exists|ranked: Seq<FeatureId>| #[trigger] ranked.to_multiset() == refs.to_multiset() && fids_sorted(ranked, store)
        && top == ranked.take(if refs.len() <= k { refs.len() as int } else { k })
}

fn score_or_zero(store: &FeatureStore, reference: FeatureId) -> (r: u8)
    ensures
        r == match store.score_of(reference) { Some(s) => s, None => 0u8 },
{
    match store.score(reference) {
        Some(s) => s,
        None => 0,
    }
}

fn fid_ranks_before(store: &FeatureStore, a: FeatureId, b: FeatureId) -> (r: bool)
    ensures
        r == fid_before(*store, a, b),
{
    let sa = score_or_zero(store, a);
    let sb = score_or_zero(store, b);
    sa > sb || (sa == sb && (a.layer < b.layer || (a.layer == b.layer && a.index < b.index)))
}

/// The `k` references of highest stored score, ties to the lower id.
fn parent_top_k(store: &FeatureStore, references: Vec<FeatureId>, k: usize) -> (r: Vec<FeatureId>)
    ensures
        fid_ranked_prefix(references@, *store, k as int, r@),
        forall|i: int| 0 <= i < r@.len() ==> references@.contains(#[trigger] r@[i]),
        references@.no_duplicates() ==> r@.no_duplicates(),
{
    let mut v = references;
    let ghost initial = v@;
    let n = v.len();
    let mut i: usize = 1;
    while i < n
        invariant
            n == v@.len(),
            v@.to_multiset() == initial.to_multiset(),
            1 <= i || n == 0,
            i <= n || n == 0,
            fids_sorted(v@.subrange(0, i as int), *store) || n == 0,
        decreases n - i,
    {
        let mut j = i;
        proof {
            assert forall|a: int, b: int| 0 <= a < b <= i && b != j implies !fid_before(*store, #[trigger] v@[b], #[trigger] v@[a]) by {
                assert(v@.subrange(0, i as int)[b] == v@[b]);
                assert(v@.subrange(0, i as int)[a] == v@[a]);
            }
        }
        while j > 0 && fid_ranks_before(store, v[j], v[j - 1])
            invariant
                n == v@.len(),
                v@.to_multiset() == initial.to_multiset(),
                0 <= j <= i < n,
                forall|a: int, b: int| 0 <= a < b <= i && b != j ==> !fid_before(*store, #[trigger] v@[b], #[trigger] v@[a]),
                j < i ==> forall|a: int| 0 <= a < j ==> !fid_before(*store, v@[j + 1], #[trigger] v@[a]),
            decreases j,
        {
            let ghost before = v@;
            let tmp = v[j];
            let prev = v[j - 1];
            v.set(j, prev);
            v.set(j - 1, tmp);
            proof {
                lemma_swap_multiset(before, j - 1, j as int);
                assert(v@ == before.update(j as int, before[j - 1]).update(j - 1, before[j as int]));
                assert(v@ =~= swapped(before, j - 1, j as int));
            }
            j = j - 1;
        }
        proof {
            assert forall|a: int, b: int| 0 <= a < b < i + 1 implies !fid_before(*store, #[trigger] v@.subrange(0, i + 1)[b], #[trigger] v@.subrange(0, i + 1)[a]) by {
                assert(v@.subrange(0, i + 1)[b] == v@[b]);
                assert(v@.subrange(0, i + 1)[a] == v@[a]);
            }
        }
        i = i + 1;
    }
    proof {
        if n > 0 {
            assert(v@.subrange(0, n as int) =~= v@);
        }
        assert(fids_sorted(v@, *store));
    }
    let ghost ranked = v@;
    let keep = if v.len() <= k { v.len() } else { k };
    v.truncate(keep);
    proof {
        assert(v@ =~= ranked.take(keep as int));
        assert(ranked.len() == initial.len()) by {
            ranked.to_multiset_ensures();
            initial.to_multiset_ensures();
        }
        assert forall|i: int| 0 <= i < v@.len() implies initial.contains(#[trigger] v@[i]) by {
            assert(ranked[i] == v@[i]);
            assert(ranked.contains(v@[i]));
            vstd::seq_lib::to_multiset_contains(ranked, v@[i]);
            vstd::seq_lib::to_multiset_contains(initial, v@[i]);
        }
        if initial.no_duplicates() {
            initial.lemma_multiset_has_no_duplicates();
            ranked.lemma_multiset_has_no_duplicates_conv();
            assert forall|a: int, b: int| 0 <= a < v@.len() && 0 <= b < v@.len() && a != b implies v@[a] != v@[b] by {
                assert(v@[a] == ranked[a]);
                assert(v@[b] == ranked[b]);
            }
        }
    }
    v
}

/// Learns composed features; the store holds sources, live features and
/// the candidates of the last batch.
#[derive(Debug)]
pub struct FeatureLearner {
    pub config: FeatureLearningConfig,
    pub store: FeatureStore,
    pub has_previous_batch: bool,
}

impl FeatureLearner {
    /// A valid configuration and a well-formed store of at most `max_layers`
    /// learned layers.
    pub open spec fn wf(&self) -> bool {
        &&& self.config.valid()
        &&& self.store.wf()
        &&& self.store.layer_count() <= self.config.max_layers
    }

    pub fn new(source_feature_count: usize, config: FeatureLearningConfig) -> (r: Result<Self, FeatureLearningError>)
        ensures
            r is Err <==> !config.valid(),
            r is Err ==> r == Err::<Self, FeatureLearningError>(FeatureLearningError::InvalidConfig),
            r matches Ok(learner) ==> {
                &&& learner.wf()
                &&& learner.config == config
                &&& !learner.has_previous_batch
                &&& learner.store.sources().len() == source_feature_count
                &&& forall|i: int| 0 <= i < source_feature_count ==> #[trigger] learner.store.sources()[i] == 0
                &&& learner.store.layer_count() == 0
                &&& refs_sound(learner.store)
            },
    {
        proof {
            reveal(refs_sound);
        }
        if config.batch_size == 0 || config.parent_top_k == 0 || config.features_per_layer == 0
            || config.candidate_capacity == 0 || config.max_layers == 0 || config.batch_size > 255 {
            return Err(FeatureLearningError::InvalidConfig);
        }
        Ok(Self { config, store: FeatureStore::new(source_feature_count), has_previous_batch: false })
    }

    pub fn store(&self) -> (r: &FeatureStore)
        ensures
            *r == self.store,
    {
        &self.store
    }

    /// One column per source feature, `batch_size` rows each, one sign per row.
    fn validate_batch(&self, batch: SignBatch<'_>) -> (r: Result<(), FeatureLearningError>)
        ensures
            r is Ok <==> batch_ok(batch, self.store.sources().len() as int, self.config.batch_size as int),
            r is Err ==> r == Err::<(), FeatureLearningError>(FeatureLearningError::InvalidBatch),
    {
        let count = self.store.source_feature_count();
        if batch.feature_columns.len() != count || batch.signs.len() != self.config.batch_size {
            return Err(FeatureLearningError::InvalidBatch);
        }
        let mut i: usize = 0;
        while i < count
            invariant
                count == batch.feature_columns@.len(),
                i <= count,
                forall|k: int| 0 <= k < i ==> (#[trigger] fl_col(batch, k)).len() == self.config.batch_size,
            decreases count - i,
        {
            if batch.feature_columns[i].len() != self.config.batch_size {
                assert(fl_col(batch, i as int).len() != self.config.batch_size);
                return Err(FeatureLearningError::InvalidBatch);
            }
            i = i + 1;
        }
        Ok(())
    }
}

/// The live features are those of `before`, every earlier candidate is
/// kept in order, and no layer holds more candidates than it held or than
/// `capacity`.
pub open spec fn candidates_grown(before: FeatureStore, after: FeatureStore, capacity: int) -> bool {
    &&& after.sources() == before.sources()
    &&& after.layer_count() >= before.layer_count()
    &&& forall|x: FeatureId| #[trigger] after.lookup(x) == before.lookup(x)
    &&& forall|k: int| 1 <= k <= before.layer_count() ==> #[trigger] after.live_at(k) == before.live_at(k)
    &&& forall|k: int| before.layer_count() < k <= after.layer_count() ==> (#[trigger] after.live_at(k)).len() == 0
    &&& forall|k: int| 1 <= k <= before.layer_count() ==> (#[trigger] after.candidates_at(k)).len() >= before.candidates_at(k).len()
        && after.candidates_at(k).subrange(0, before.candidates_at(k).len() as int) == before.candidates_at(k)
    &&& forall|k: int| 1 <= k <= after.layer_count() ==> (#[trigger] after.candidates_at(k)).len() <= (
        if k <= before.layer_count() && before.candidates_at(k).len() > capacity { before.candidates_at(k).len() as int } else { capacity })
}

/// Appending one candidate to a layer holding fewer than `capacity` keeps
/// the candidates grown from `start`.
pub proof fn lemma_grown_step(start: FeatureStore, prev: FeatureStore, next: FeatureStore, layer: usize, inputs: [FeatureId; 2], truth_table: u8, capacity: int)
    requires
        candidates_grown(start, prev, capacity),
        1 <= layer,
        (if layer <= prev.layer_count() { prev.candidates_at(layer as int).len() as int } else { 0 }) < capacity,
        candidate_appended(prev, next, layer as int, Feature { inputs, truth_table, score: 0 }),
    ensures
        candidates_grown(start, next, capacity),
{
    assert forall|k: int| 1 <= k <= start.layer_count() implies #[trigger] next.live_at(k) == start.live_at(k) by {
        assert(prev.live_at(k) == start.live_at(k));
    }
    assert forall|k: int| start.layer_count() < k <= next.layer_count() implies (#[trigger] next.live_at(k)).len() == 0 by {
        start.lemma_layer_count_nonneg();
        if k <= prev.layer_count() {
            assert(prev.live_at(k).len() == 0);
            if k != layer as int {
                assert(1 <= k <= prev.layer_count() && k != layer as int);
                assert(next.live_at(k) == prev.live_at(k));
            }
        }
    }
    assert forall|k: int| 1 <= k <= start.layer_count() implies (#[trigger] next.candidates_at(k)).len() >= start.candidates_at(k).len()
        && next.candidates_at(k).subrange(0, start.candidates_at(k).len() as int) == start.candidates_at(k) by {
        assert(prev.candidates_at(k).len() >= start.candidates_at(k).len());
        assert(prev.candidates_at(k).subrange(0, start.candidates_at(k).len() as int) == start.candidates_at(k));
        if k == layer {
            assert(next.candidates_at(k).subrange(0, start.candidates_at(k).len() as int)
                =~= prev.candidates_at(k).subrange(0, start.candidates_at(k).len() as int));
        } else {
            assert(next.live_at(k) == prev.live_at(k));
        }
    }
    assert forall|k: int| 1 <= k <= next.layer_count() implies (#[trigger] next.candidates_at(k)).len() <= (
        if k <= start.layer_count() && start.candidates_at(k).len() > capacity { start.candidates_at(k).len() as int } else { capacity }) by {
        if k == layer {
        } else if k <= prev.layer_count() {
            assert(next.live_at(k) == prev.live_at(k));
            assert(prev.candidates_at(k).len() <= (
                if k <= start.layer_count() && start.candidates_at(k).len() > capacity { start.candidates_at(k).len() as int } else { capacity }));
        } else {
            assert(next.live_at(k).len() == 0);
        }
    }
}

/// Nothing has grown from a store to itself.
pub proof fn lemma_grown_refl(store: FeatureStore, capacity: int)
    ensures
        candidates_grown(store, store, capacity),
{
    assert forall|k: int| 1 <= k <= store.layer_count() implies (#[trigger] store.candidates_at(k)).len() >= store.candidates_at(k).len()
        && store.candidates_at(k).subrange(0, store.candidates_at(k).len() as int) == store.candidates_at(k) by {
        assert(store.candidates_at(k).subrange(0, store.candidates_at(k).len() as int) =~= store.candidates_at(k));
    }
}

/// The ids listed for one layer are distinct, sit in that layer and name
/// features of any store with the same sources and lookups.
pub proof fn lemma_layer_refs(store: FeatureStore, start: FeatureStore, layer: usize, references: Seq<FeatureId>)
    requires
        store.sources() == start.sources(),
        forall|x: FeatureId| #[trigger] store.lookup(x) == start.lookup(x),
        layer == 0 ==> references == Seq::new(store.sources().len(), |i: int| FeatureId { layer: 0, index: i as usize }),
        layer > 0 && layer <= store.layer_count() ==> references == live_ids(store.live_at(layer as int), layer, store.live_at(layer as int).len() as int),
        layer > 0 && layer <= store.layer_count() ==> store.live_at(layer as int).len() <= usize::MAX,
        layer == 0 ==> store.sources().len() <= usize::MAX,
        layer > store.layer_count() ==> references.len() == 0,
    ensures
        forall|i: int| 0 <= i < references.len() ==> (#[trigger] references[i]).layer == layer && start.valid_ref(references[i]),
        references.no_duplicates(),
{
    if layer > 0 && layer <= store.layer_count() {
        lemma_live_ids(store.live_at(layer as int), layer, store.live_at(layer as int).len() as int);
        assert forall|i: int| 0 <= i < references.len() implies (#[trigger] references[i]).layer == layer && start.valid_ref(references[i]) by {
            assert(store.lookup(references[i]) == start.lookup(references[i]));
        }
        assert forall|a: int, b: int| 0 <= a < references.len() && 0 <= b < references.len() && a != b
            implies references[a] != references[b] by {
            if a < b {
                assert(references[a].index < references[b].index);
            } else {
                assert(references[b].index < references[a].index);
            }
        }
    } else if layer == 0 {
        assert forall|a: int, b: int| 0 <= a < references.len() && 0 <= b < references.len() && a != b
            implies references[a] != references[b] by {
            assert(references[a].index != references[b].index);
        }
    }
}

/// Stores with the same lookups give every reference the same column.
pub proof fn lemma_ref_col_same_lookups(s1: FeatureStore, s2: FeatureStore, batch: SignBatch, reference: FeatureId)
    requires
        forall|x: FeatureId| #[trigger] s1.lookup(x) == s2.lookup(x),
    ensures
        ref_col(s1, batch, reference) == ref_col(s2, batch, reference),
    decreases reference.layer,
{
    if reference.layer != 0 {
        assert(s1.lookup(reference) == s2.lookup(reference));
        match s1.lookup(reference) {
            Some(f) => {
                if below(f, reference.layer as int) {
                    lemma_ref_col_same_lookups(s1, s2, batch, f.inputs[0]);
                    lemma_ref_col_same_lookups(s1, s2, batch, f.inputs[1]);
                }
            },
            None => {},
        }
    }
}

/// `f` is a candidate of layer `l` learned on the batch: it reads two ids
/// of layer `l - 1` in increasing order, carries the majority table of
/// their columns against the signs, and has no score yet.
pub open spec fn learned_from(store: FeatureStore, batch: SignBatch, f: Feature, l: int) -> bool {
    &&& f.score == 0
    &&& f.inputs[0].layer == l - 1
    &&& f.inputs[1].layer == l - 1
    &&& id_less(f.inputs[0], f.inputs[1])
    &&& f.truth_table == majority_table(column_counts(ref_col(store, batch, f.inputs[0]), ref_col(store, batch, f.inputs[1]), batch.signs@))
}

/// Every candidate of `after` that `before` does not hold was learned on the
/// batch over the features of `before`.
pub open spec fn new_candidates_learned(before: FeatureStore, after: FeatureStore, batch: SignBatch) -> bool {
    forall|l: int, i: int| 1 <= l <= after.layer_count() && 0 <= i < after.candidates_at(l).len()
        && (l > before.layer_count() || i >= before.candidates_at(l).len())
        ==> learned_from(before, batch, #[trigger] after.candidates_at(l)[i], l)
}

/// The ids of layer `l` of `store`: every source for layer zero, the live
/// features of a learned layer, none past the last layer.
pub open spec fn layer_refs(store: FeatureStore, l: int) -> Seq<FeatureId> {
    if l == 0 {
        Seq::new(store.sources().len(), |i: int| FeatureId { layer: 0, index: i as usize })
    } else if 1 <= l <= store.layer_count() {
        live_ids(store.live_at(l), l as usize, store.live_at(l).len() as int)
    } else {
        Seq::empty()
    }
}

/// Both inputs of `f` are among the `k` features of layer `l - 1` that rank
/// highest by score (ties to the lower id).
pub open spec fn from_parents(store: FeatureStore, f: Feature, l: int, k: int) -> bool {
    exists|p: Seq<FeatureId>| #[trigger] fid_ranked_prefix(layer_refs(store, l - 1), store, k, p)
        && p.contains(f.inputs[0]) && p.contains(f.inputs[1])
}

/// Every candidate of `after` that `before` does not hold pairs two of the
/// top `k` features of the layer beneath in `before`.
pub open spec fn new_candidates_from_parents(before: FeatureStore, after: FeatureStore, k: int) -> bool {
    forall|l: int, i: int| 1 <= l <= after.layer_count() && 0 <= i < after.candidates_at(l).len()
        && (l > before.layer_count() || i >= before.candidates_at(l).len())
        ==> from_parents(before, #[trigger] after.candidates_at(l)[i], l, k)
}

/// Appending a candidate over top parents keeps every new candidate over
/// top parents.
pub proof fn lemma_parents_step(start: FeatureStore, prev: FeatureStore, next: FeatureStore, layer: int, f: Feature, k: int)
    requires
        new_candidates_from_parents(start, prev, k),
        candidate_appended(prev, next, layer, f),
        from_parents(start, f, layer, k),
        forall|m: int| 1 <= m <= start.layer_count() ==> (#[trigger] prev.candidates_at(m)).len() >= start.candidates_at(m).len(),
        start.layer_count() <= prev.layer_count(),
        1 <= layer,
    ensures
        new_candidates_from_parents(start, next, k),
{
    assert forall|l: int, i: int| 1 <= l <= next.layer_count() && 0 <= i < next.candidates_at(l).len()
        && (l > start.layer_count() || i >= start.candidates_at(l).len())
        implies from_parents(start, #[trigger] next.candidates_at(l)[i], l, k) by {
        if l == layer {
            if i == next.candidates_at(l).len() - 1 {
                assert(next.candidates_at(l)[i] == f);
            } else {
                assert(l <= prev.layer_count());
                assert(next.candidates_at(l)[i] == prev.candidates_at(l)[i]);
            }
        } else if l <= prev.layer_count() {
            assert(next.live_at(l) == prev.live_at(l));
            assert(next.candidates_at(l) == prev.candidates_at(l));
        } else {
            assert(next.live_at(l).len() == 0);
        }
    }
}

/// Ranking by score is the same in stores that give every id the same score.
pub proof fn lemma_ranked_same_scores(refs: Seq<FeatureId>, s1: FeatureStore, s2: FeatureStore, k: int, top: Seq<FeatureId>)
    requires
        fid_ranked_prefix(refs, s1, k, top),
        forall|x: FeatureId| #[trigger] s1.score_of(x) == s2.score_of(x),
    ensures
        fid_ranked_prefix(refs, s2, k, top),
{
    let ranked = choose|ranked: Seq<FeatureId>| #[trigger] ranked.to_multiset() == refs.to_multiset() && fids_sorted(ranked, s1)
        && top == ranked.take(if refs.len() <= k { refs.len() as int } else { k });
    assert forall|i: int, j: int| 0 <= i < j < ranked.len() implies !fid_before(s2, #[trigger] ranked[j], #[trigger] ranked[i]) by {
        assert(s1.score_of(ranked[j]) == s2.score_of(ranked[j]));
        assert(s1.score_of(ranked[i]) == s2.score_of(ranked[i]));
        assert(!fid_before(s1, ranked[j], ranked[i]));
    }
    assert(fids_sorted(ranked, s2));
}

/// The candidate learned over `left` and `right` on the batch.
pub open spec fn pair_feature(store: FeatureStore, batch: SignBatch, left: FeatureId, right: FeatureId) -> Feature {
    Feature {
        inputs: pair_inputs(left, right),
        truth_table: majority_table(column_counts(ref_col(store, batch, pair_inputs(left, right)[0]),
            ref_col(store, batch, pair_inputs(left, right)[1]), batch.signs@)) as u8,
        score: 0,
    }
}

/// Appending a learned candidate keeps every new candidate learned.
pub proof fn lemma_learned_step(start: FeatureStore, prev: FeatureStore, next: FeatureStore, batch: SignBatch, layer: int, f: Feature)
    requires
        forall|x: FeatureId| #[trigger] prev.lookup(x) == start.lookup(x),
        new_candidates_learned(start, prev, batch),
        candidate_appended(prev, next, layer, f),
        learned_from(prev, batch, f, layer),
        forall|k: int| 1 <= k <= start.layer_count() ==> (#[trigger] prev.candidates_at(k)).len() >= start.candidates_at(k).len(),
        start.layer_count() <= prev.layer_count(),
        1 <= layer,
    ensures
        new_candidates_learned(start, next, batch),
{
    lemma_ref_col_same_lookups(prev, start, batch, f.inputs[0]);
    lemma_ref_col_same_lookups(prev, start, batch, f.inputs[1]);
    assert forall|l: int, i: int| 1 <= l <= next.layer_count() && 0 <= i < next.candidates_at(l).len()
        && (l > start.layer_count() || i >= start.candidates_at(l).len())
        implies learned_from(start, batch, #[trigger] next.candidates_at(l)[i], l) by {
        if l == layer {
            if i == next.candidates_at(l).len() - 1 {
                assert(next.candidates_at(l)[i] == f);
            } else {
                assert(l <= prev.layer_count());
                assert(next.candidates_at(l)[i] == prev.candidates_at(l)[i]);
            }
        } else if l <= prev.layer_count() {
            assert(next.live_at(l) == prev.live_at(l));
            assert(next.candidates_at(l) == prev.candidates_at(l));
        } else {
            assert(next.live_at(l).len() == 0);
        }
    }
}

/// The two ids in increasing order.
pub open spec fn pair_inputs(left: FeatureId, right: FeatureId) -> [FeatureId; 2] {
    if id_less(left, right) { [left, right] } else { [right, left] }
}

impl FeatureLearner {
    /// Adds one candidate to `layer`: the pair `left`, `right` in id order,
    /// with the majority table of their columns on the batch.
    #[verifier::rlimit(40)]
    #[verifier::spinoff_prover]
    fn learn_pair(&mut self, batch: SignBatch<'_>, layer: usize, left: FeatureId, right: FeatureId, start: Ghost<FeatureStore>)
        -> (r: Result<(), FeatureLearningError>)
        requires
            old(self).wf(),
            1 <= layer <= old(self).config.max_layers,
            left != right,
            left.layer == layer - 1,
            right.layer == layer - 1,
            start@.valid_ref(left),
            start@.valid_ref(right),
            candidates_grown(start@, old(self).store, old(self).config.candidate_capacity as int),
            (if layer <= old(self).store.layer_count() { old(self).store.candidates_at(layer as int).len() as int } else { 0 })
                < old(self).config.candidate_capacity,
            refs_sound(start@) ==> refs_sound(old(self).store),
        ensures
            final(self).wf(),
            final(self).config == old(self).config,
            final(self).has_previous_batch == old(self).has_previous_batch,
            candidates_grown(start@, final(self).store, old(self).config.candidate_capacity as int),
            refs_sound(start@) ==> refs_sound(final(self).store),
            refs_sound(start@) && batch_ok(batch, start@.sources().len() as int, old(self).config.batch_size as int) ==> r is Ok,
            r is Err ==> *final(self) == *old(self),
            r is Ok ==> learned_from(old(self).store, batch, pair_feature(old(self).store, batch, left, right), layer as int)
                && candidate_appended(old(self).store, final(self).store, layer as int, pair_feature(old(self).store, batch, left, right)),
            r is Ok ==> exists|counter: FeatureCounter| #[trigger] counter.counts_batch(zip_columns(
                ref_col(old(self).store, batch, pair_inputs(left, right)[0]),
                ref_col(old(self).store, batch, pair_inputs(left, right)[1]),
                batch.signs@,
            )) && candidate_appended(old(self).store, final(self).store, layer as int, Feature {
                inputs: pair_inputs(left, right),
                truth_table: majority_table(counter.counts_view()) as u8,
                score: 0,
            }),
    {
        let inputs = if left.layer < right.layer || (left.layer == right.layer && left.index < right.index) {
            [left, right]
        } else {
            [right, left]
        };
        assert(inputs == pair_inputs(left, right));
        let ghost good = refs_sound(start@) && batch_ok(batch, start@.sources().len() as int, self.config.batch_size as int);
        proof {
            assert(self.store.valid_ref(inputs[0])) by {
                assert(self.store.lookup(inputs[0]) == start@.lookup(inputs[0]));
            }
            assert(self.store.valid_ref(inputs[1])) by {
                assert(self.store.lookup(inputs[1]) == start@.lookup(inputs[1]));
            }
            if good {
                lemma_present(self.store, batch, inputs[0]);
                lemma_present(self.store, batch, inputs[1]);
            }
        }
        let first = evaluate_reference(&self.store, batch, inputs[0])?;
        let second = evaluate_reference(&self.store, batch, inputs[1])?;
        proof {
            assert(zip_columns(first@, second@, batch.signs@).len() <= batch.signs@.len());
        }
        let truth_table = learn_truth_table(first.as_slice(), second.as_slice(), batch.signs)?;
        let ghost prev = self.store;
        let inserted = self.store.insert_candidate(layer, inputs, truth_table);
        match inserted {
            Ok(()) => {
                proof {
                    assert(inserted is Ok);
                    let next = self.store;
                    let counter = choose|counter: FeatureCounter| #[trigger] counter.counts_batch(zip_columns(first@, second@, batch.signs@))
                        && truth_table == majority_table(counter.counts_view());
                    lemma_counts_are_column_counts(counter, first@, second@, batch.signs@);
                    if refs_sound(start@) {
                        lemma_sound_insert(prev, next, layer, inputs, truth_table);
                    }
                    lemma_grown_step(start@, prev, next, layer, inputs, truth_table, self.config.candidate_capacity as int);
                }
                Ok(())
            },
            Err(error) => Err(FeatureLearningError::Store(error)),
        }
    }

    /// Trains new candidates on the batch: for every layer below
    /// `max_layers` with room, every pair of the `parent_top_k` best features
    /// of the layer beneath gets the majority truth table of its two columns.
    #[verifier::rlimit(40)]
    #[verifier::spinoff_prover]
    fn learn_candidates(&mut self, batch: SignBatch<'_>) -> (r: Result<(), FeatureLearningError>)
        requires
            old(self).wf(),
        ensures
            final(self).wf(),
            final(self).config == old(self).config,
            final(self).has_previous_batch == old(self).has_previous_batch,
            candidates_grown(old(self).store, final(self).store, old(self).config.candidate_capacity as int),
            refs_sound(old(self).store) ==> refs_sound(final(self).store),
            refs_sound(old(self).store) && batch_ok(batch, old(self).store.sources().len() as int, old(self).config.batch_size as int)
                ==> r is Ok,
            new_candidates_learned(old(self).store, final(self).store, batch),
            new_candidates_from_parents(old(self).store, final(self).store, old(self).config.parent_top_k as int),
    {
        let ghost start = self.store;
        let ghost sound = refs_sound(start);
        proof {
            lemma_grown_refl(start, self.config.candidate_capacity as int);
        }
        let max_layers = self.config.max_layers;
        let capacity = self.config.candidate_capacity;
        let mut layer_index: usize = 0;
        while layer_index < max_layers
            invariant
                self.wf(),
                self.config == old(self).config,
                self.has_previous_batch == old(self).has_previous_batch,
                start == old(self).store,
                max_layers == self.config.max_layers,
                capacity == self.config.candidate_capacity,
                layer_index <= max_layers,
                candidates_grown(start, self.store, capacity as int),
                sound == refs_sound(start),
                sound ==> refs_sound(self.store),
                new_candidates_learned(start, self.store, batch),
                new_candidates_from_parents(start, self.store, self.config.parent_top_k as int),
            decreases max_layers - layer_index,
        {
            let layer = layer_index + 1;
            let current = match self.store.candidate_len(layer) {
                Some(c) => c,
                None => 0,
            };
            if current < capacity {
                let references = self.store.live_refs_in_layer(layer - 1);
                proof {
                    lemma_layer_refs(self.store, start, (layer - 1) as usize, references@);
                }
                let ghost refs = references@;
                let parents = parent_top_k(&self.store, references, self.config.parent_top_k);
                proof {
                    assert(refs =~= layer_refs(start, layer - 1)) by {
                        if layer - 1 > 0 && layer - 1 <= self.store.layer_count() && layer - 1 > start.layer_count() {
                            assert(self.store.live_at(layer - 1).len() == 0);
                        }
                    }
                    assert forall|x: FeatureId| #[trigger] self.store.score_of(x) == start.score_of(x) by {
                        assert(self.store.lookup(x) == start.lookup(x));
                    }
                    lemma_ranked_same_scores(refs, self.store, start, self.config.parent_top_k as int, parents@);
                    assert forall|i: int| 0 <= i < parents@.len() implies (#[trigger] parents@[i]).layer == layer - 1 by {
                        assert(references@.contains(parents@[i]));
                    }
                    assert forall|i: int| 0 <= i < parents@.len() implies start.valid_ref(#[trigger] parents@[i]) by {
                        assert(references@.contains(parents@[i]));
                        let w = choose|w: int| 0 <= w < references@.len() && references@[w] == parents@[i];
                        assert(start.valid_ref(references@[w]));
                    }
                }
                if parents.len() >= 2 {
                    let mut full = false;
                    let mut left_index: usize = 0;
                    while left_index < parents.len() && !full
                        invariant
                            self.wf(),
                            self.config == old(self).config,
                            self.has_previous_batch == old(self).has_previous_batch,
                            max_layers == self.config.max_layers,
                            capacity == self.config.candidate_capacity,
                            1 <= layer <= max_layers,
                            start == old(self).store,
                            candidates_grown(start, self.store, capacity as int),
                            forall|i: int| 0 <= i < parents@.len() ==> (#[trigger] parents@[i]).layer == layer - 1,
                            forall|i: int| 0 <= i < parents@.len() ==> start.valid_ref(#[trigger] parents@[i]),
                            parents@.no_duplicates(),
                            sound == refs_sound(start),
                            sound ==> refs_sound(self.store),
                            new_candidates_learned(start, self.store, batch),
                            new_candidates_from_parents(start, self.store, self.config.parent_top_k as int),
                            fid_ranked_prefix(layer_refs(start, layer - 1), start, self.config.parent_top_k as int, parents@),
                        decreases parents@.len() - left_index, if full { 0int } else { 1int },
                    {
                        let left = parents[left_index];
                        let mut right_index: usize = left_index + 1;
                        while right_index < parents.len() && !full
                            invariant
                                self.wf(),
                                self.config == old(self).config,
                                self.has_previous_batch == old(self).has_previous_batch,
                                max_layers == self.config.max_layers,
                                capacity == self.config.candidate_capacity,
                                1 <= layer <= max_layers,
                                start == old(self).store,
                                candidates_grown(start, self.store, capacity as int),
                                forall|i: int| 0 <= i < parents@.len() ==> (#[trigger] parents@[i]).layer == layer - 1,
                                forall|i: int| 0 <= i < parents@.len() ==> start.valid_ref(#[trigger] parents@[i]),
                                parents@.no_duplicates(),
                                sound == refs_sound(start),
                                sound ==> refs_sound(self.store),
                                new_candidates_learned(start, self.store, batch),
                                new_candidates_from_parents(start, self.store, self.config.parent_top_k as int),
                                fid_ranked_prefix(layer_refs(start, layer - 1), start, self.config.parent_top_k as int, parents@),
                                left_index < parents@.len(),
                                left_index < right_index,
                                left == parents@[left_index as int],
                            decreases parents@.len() - right_index, if full { 0int } else { 1int },
                        {
                            let count = match self.store.candidate_len(layer) {
                                Some(c) => c,
                                None => 0,
                            };
                            if count >= capacity {
                                full = true;
                            } else {
                                let right = parents[right_index];
                                proof {
                                    assert(parents@[right_index as int] == right);
                                }
                                let ghost prev = self.store;
                                self.learn_pair(batch, layer, left, right, Ghost(start))?;
                                proof {
                                    lemma_learned_step(start, prev, self.store, batch, layer as int, pair_feature(prev, batch, left, right));
                                    let f = pair_feature(prev, batch, left, right);
                                    assert(parents@.contains(left));
                                    assert(parents@.contains(right));
                                    assert(fid_ranked_prefix(layer_refs(start, layer - 1), start, self.config.parent_top_k as int, parents@));
                                    assert(from_parents(start, f, layer as int, self.config.parent_top_k as int));
                                    lemma_parents_step(start, prev, self.store, layer as int, f, self.config.parent_top_k as int);
                                }
                                right_index = right_index + 1;
                            }
                        }
                        left_index = left_index + 1;
                    }
                }
            }
            layer_index = layer_index + 1;
        }
        Ok(())
    }
}

/// The stores hold the same layers, live features and candidates, with the
/// same inputs and tables; only scores may differ.
pub open spec fn same_shape(a: FeatureStore, b: FeatureStore) -> bool {
    &&& a.layer_count() == b.layer_count()
    &&& a.sources().len() == b.sources().len()
    &&& forall|l: int| 1 <= l <= a.layer_count() ==> (#[trigger] b.live_at(l)).len() == a.live_at(l).len()
        && b.candidates_at(l).len() == a.candidates_at(l).len()
    &&& forall|l: int, i: int| 1 <= l <= a.layer_count() && 0 <= i < a.live_at(l).len()
        ==> ((#[trigger] b.live_at(l)[i]) is Some <==> a.live_at(l)[i] is Some)
        && (a.live_at(l)[i] is Some ==> b.live_at(l)[i].unwrap().inputs == a.live_at(l)[i].unwrap().inputs
            && b.live_at(l)[i].unwrap().truth_table == a.live_at(l)[i].unwrap().truth_table)
    &&& forall|l: int, i: int| 1 <= l <= a.layer_count() && 0 <= i < a.candidates_at(l).len()
        ==> (#[trigger] b.candidates_at(l)[i]).inputs == a.candidates_at(l)[i].inputs
        && b.candidates_at(l)[i].truth_table == a.candidates_at(l)[i].truth_table
}

/// Every live feature and every candidate reads sources or live features.
#[verifier::opaque]
pub open spec fn refs_sound(store: FeatureStore) -> bool {
    &&& forall|x: FeatureId| (#[trigger] store.lookup(x)) is Some ==> store.valid_ref(store.lookup(x).unwrap().inputs[0])
        && store.valid_ref(store.lookup(x).unwrap().inputs[1])
    &&& forall|l: int, i: int| 1 <= l <= store.layer_count() && 0 <= i < store.candidates_at(l).len()
        ==> store.valid_ref((#[trigger] store.candidates_at(l)[i]).inputs[0]) && store.valid_ref(store.candidates_at(l)[i].inputs[1])
}

/// In a sound store, every source or live feature can be evaluated on a
/// batch with one column per source.
pub proof fn lemma_present(store: FeatureStore, batch: SignBatch, reference: FeatureId)
    requires
        store.wf(),
        refs_sound(store),
        batch.feature_columns@.len() == store.sources().len(),
        store.valid_ref(reference),
    ensures
        ref_present(store, batch, reference),
    decreases reference.layer,
{
    reveal(refs_sound);
    if reference.layer > 0 {
        let f = store.lookup(reference).unwrap();
        let l = reference.layer as int;
        assert(store.live_at(l)[reference.index as int] matches Some(g) ==> below(g, l));
        assert(below(f, l));
        lemma_present(store, batch, f.inputs[0]);
        lemma_present(store, batch, f.inputs[1]);
    }
}

/// Stores of the same shape name the same valid references.
pub proof fn lemma_valid_shape(a: FeatureStore, b: FeatureStore, r: FeatureId)
    requires
        same_shape(a, b),
    ensures
        a.valid_ref(r) == b.valid_ref(r),
        a.lookup(r) is Some ==> b.lookup(r).unwrap().inputs == a.lookup(r).unwrap().inputs,
{
    if r.layer > 0 && 1 <= r.layer <= a.layer_count() && r.index < a.live_at(r.layer as int).len() {
        assert(b.live_at(r.layer as int).len() == a.live_at(r.layer as int).len());
        assert((b.live_at(r.layer as int)[r.index as int]) is Some <==> a.live_at(r.layer as int)[r.index as int] is Some);
    } else if r.layer > 0 && 1 <= r.layer <= a.layer_count() {
        assert(b.live_at(r.layer as int).len() == a.live_at(r.layer as int).len());
    }
}

/// Soundness depends only on a store's shape.
pub proof fn lemma_sound_shape(a: FeatureStore, b: FeatureStore)
    requires
        same_shape(a, b),
        refs_sound(a),
    ensures
        refs_sound(b),
{
    reveal(refs_sound);
    assert forall|x: FeatureId| (#[trigger] b.lookup(x)) is Some implies b.valid_ref(b.lookup(x).unwrap().inputs[0])
        && b.valid_ref(b.lookup(x).unwrap().inputs[1]) by {
        lemma_valid_shape(a, b, x);
        let f = a.lookup(x).unwrap();
        lemma_valid_shape(a, b, f.inputs[0]);
        lemma_valid_shape(a, b, f.inputs[1]);
    }
    assert forall|l: int, i: int| 1 <= l <= b.layer_count() && 0 <= i < b.candidates_at(l).len()
        implies b.valid_ref((#[trigger] b.candidates_at(l)[i]).inputs[0]) && b.valid_ref(b.candidates_at(l)[i].inputs[1]) by {
        assert(b.live_at(l).len() == a.live_at(l).len());
        assert(b.candidates_at(l)[i].inputs == a.candidates_at(l)[i].inputs);
        lemma_valid_shape(a, b, a.candidates_at(l)[i].inputs[0]);
        lemma_valid_shape(a, b, a.candidates_at(l)[i].inputs[1]);
    }
}

/// Promoting the candidates of layer `l` keeps a store sound and every
/// reference valid.
pub proof fn lemma_sound_promote(prev: FeatureStore, next: FeatureStore, l: int)
    requires
        refs_sound(prev),
        1 <= l <= prev.layer_count(),
        next.sources() == prev.sources(),
        next.same_except_layer(&prev, l),
        next.live_at(l) == prev.live_at(l) + prev.candidates_at(l).map_values(|f: Feature| Some(f)),
        next.candidates_at(l).len() == 0,
    ensures
        refs_sound(next),
        forall|r: FeatureId| prev.valid_ref(r) ==> #[trigger] next.valid_ref(r),
{
    reveal(refs_sound);
    let old_len = prev.live_at(l).len();
    assert forall|r: FeatureId| prev.valid_ref(r) implies #[trigger] next.valid_ref(r) by {
        if r.layer > 0 {
            if r.layer as int == l {
                assert(next.live_at(l)[r.index as int] == prev.live_at(l)[r.index as int]);
            } else {
                assert(next.live_at(r.layer as int) == prev.live_at(r.layer as int));
            }
        }
    }
    assert forall|x: FeatureId| (#[trigger] next.lookup(x)) is Some implies next.valid_ref(next.lookup(x).unwrap().inputs[0])
        && next.valid_ref(next.lookup(x).unwrap().inputs[1]) by {
        if x.layer as int == l && x.index >= old_len {
            let c = prev.candidates_at(l)[x.index - old_len];
            assert(next.live_at(l)[x.index as int] == Some(c));
            assert(prev.valid_ref(c.inputs[0]) && prev.valid_ref(c.inputs[1]));
            assert(next.valid_ref(c.inputs[0]));
            assert(next.valid_ref(c.inputs[1]));
        } else {
            if x.layer as int == l {
                assert(next.live_at(l)[x.index as int] == prev.live_at(l)[x.index as int]);
            } else {
                assert(next.live_at(x.layer as int) == prev.live_at(x.layer as int));
            }
            assert(next.lookup(x) == prev.lookup(x));
            let f = prev.lookup(x).unwrap();
            assert(next.valid_ref(f.inputs[0]));
            assert(next.valid_ref(f.inputs[1]));
        }
    }
    assert forall|m: int, i: int| 1 <= m <= next.layer_count() && 0 <= i < next.candidates_at(m).len()
        implies next.valid_ref((#[trigger] next.candidates_at(m)[i]).inputs[0]) && next.valid_ref(next.candidates_at(m)[i].inputs[1]) by {
        assert(m != l);
        assert(next.live_at(m) == prev.live_at(m));
        assert(next.candidates_at(m) == prev.candidates_at(m));
        let c = prev.candidates_at(m)[i];
        assert(next.valid_ref(c.inputs[0]));
        assert(next.valid_ref(c.inputs[1]));
    }
}

/// Pruning features together with their live readers keeps a store without
/// candidates sound.
pub proof fn lemma_sound_prune(prev: FeatureStore, next: FeatureStore)
    requires
        refs_sound(prev),
        only_pruned(prev, next),
        forall|l: int| 1 <= l <= prev.layer_count() ==> (#[trigger] prev.candidates_at(l)).len() == 0,
        forall|x: FeatureId, y: FeatureId| (#[trigger] next.lookup(y)) is Some && reads(next.lookup(y).unwrap(), x)
            && (#[trigger] prev.lookup(x)) is Some ==> next.lookup(x) is Some,
    ensures
        refs_sound(next),
{
    reveal(refs_sound);
    assert forall|y: FeatureId| (#[trigger] next.lookup(y)) is Some implies next.valid_ref(next.lookup(y).unwrap().inputs[0])
        && next.valid_ref(next.lookup(y).unwrap().inputs[1]) by {
        let f = next.lookup(y).unwrap();
        assert(next.lookup(y) == prev.lookup(y));
        assert(prev.valid_ref(f.inputs[0]) && prev.valid_ref(f.inputs[1]));
        if f.inputs[0].layer > 0 {
            assert(reads(f, f.inputs[0]));
            assert(prev.lookup(f.inputs[0]) is Some);
        }
        if f.inputs[1].layer > 0 {
            assert(reads(f, f.inputs[1]));
            assert(prev.lookup(f.inputs[1]) is Some);
        }
    }
    assert forall|m: int, i: int| 1 <= m <= next.layer_count() && 0 <= i < next.candidates_at(m).len()
        implies next.valid_ref((#[trigger] next.candidates_at(m)[i]).inputs[0]) && next.valid_ref(next.candidates_at(m)[i].inputs[1]) by {
        assert(next.live_at(m).len() == prev.live_at(m).len());
        assert(next.candidates_at(m) == prev.candidates_at(m));
        assert(prev.candidates_at(m).len() == 0);
    }
}

/// Adding a candidate that reads valid references keeps a store sound.
pub proof fn lemma_sound_insert(prev: FeatureStore, next: FeatureStore, layer: usize, inputs: [FeatureId; 2], truth_table: u8)
    requires
        refs_sound(prev),
        prev.valid_ref(inputs[0]),
        prev.valid_ref(inputs[1]),
        1 <= layer,
        candidate_appended(prev, next, layer as int, Feature { inputs, truth_table, score: 0 }),
    ensures
        refs_sound(next),
{
    reveal(refs_sound);
    assert forall|r: FeatureId| #[trigger] next.valid_ref(r) == prev.valid_ref(r) by {
        assert(next.lookup(r) == prev.lookup(r));
    }
    assert forall|x: FeatureId| (#[trigger] next.lookup(x)) is Some implies next.valid_ref(next.lookup(x).unwrap().inputs[0])
        && next.valid_ref(next.lookup(x).unwrap().inputs[1]) by {
        assert(next.lookup(x) == prev.lookup(x));
        assert(next.valid_ref(prev.lookup(x).unwrap().inputs[0]) == prev.valid_ref(prev.lookup(x).unwrap().inputs[0]));
        assert(next.valid_ref(prev.lookup(x).unwrap().inputs[1]) == prev.valid_ref(prev.lookup(x).unwrap().inputs[1]));
    }
    assert forall|m: int, i: int| 1 <= m <= next.layer_count() && 0 <= i < next.candidates_at(m).len()
        implies next.valid_ref((#[trigger] next.candidates_at(m)[i]).inputs[0]) && next.valid_ref(next.candidates_at(m)[i].inputs[1]) by {
        let c = next.candidates_at(m)[i];
        if m == layer {
            if i < next.candidates_at(m).len() - 1 {
                assert(layer <= prev.layer_count());
                assert(c == prev.candidates_at(m)[i]);
            } else {
                assert(c.inputs == inputs);
            }
        } else if m <= prev.layer_count() {
            assert(next.live_at(m) == prev.live_at(m));
            assert(c == prev.candidates_at(m)[i]);
        } else {
            assert(next.live_at(m).len() == 0);
        }
        assert(next.valid_ref(c.inputs[0]) == prev.valid_ref(c.inputs[0]));
        assert(next.valid_ref(c.inputs[1]) == prev.valid_ref(c.inputs[1]));
    }
}

pub proof fn lemma_shape_refl(a: FeatureStore)
    ensures
        same_shape(a, a),
{
}

/// Stores of the same shape give every reference the same values.
pub proof fn lemma_ref_shape(a: FeatureStore, b: FeatureStore, batch: SignBatch, reference: FeatureId)
    requires
        same_shape(a, b),
    ensures
        ref_present(a, batch, reference) == ref_present(b, batch, reference),
        ref_col(a, batch, reference) == ref_col(b, batch, reference),
    decreases reference.layer,
{
    if reference.layer != 0 {
        let l = reference.layer as int;
        let i = reference.index as int;
        if 1 <= l <= a.layer_count() && 0 <= i < a.live_at(l).len() {
            assert(b.live_at(l).len() == a.live_at(l).len());
            assert(b.live_at(l)[i] is Some <==> a.live_at(l)[i] is Some);
            if a.live_at(l)[i] is Some {
                let fa = a.live_at(l)[i].unwrap();
                let fb = b.live_at(l)[i].unwrap();
                assert(fb.inputs == fa.inputs && fb.truth_table == fa.truth_table);
                if below(fa, l) {
                    lemma_ref_shape(a, b, batch, fa.inputs[0]);
                    lemma_ref_shape(a, b, batch, fa.inputs[1]);
                }
            }
        }
    }
}

/// A present reference has one value per row of a batch whose columns all
/// have `n` rows.
pub proof fn lemma_ref_len(store: FeatureStore, batch: SignBatch, reference: FeatureId, n: int)
    requires
        ref_present(store, batch, reference),
        forall|i: int| 0 <= i < batch.feature_columns@.len() ==> (#[trigger] fl_col(batch, i)).len() == n,
    ensures
        ref_col(store, batch, reference).len() == n,
    decreases reference.layer,
{
    if reference.layer != 0 {
        let f = store.lookup(reference).unwrap();
        lemma_ref_len(store, batch, f.inputs[0], n);
        lemma_ref_len(store, batch, f.inputs[1], n);
    }
}

/// The listed ids of a layer are the live entries, by increasing index.
pub proof fn lemma_live_ids(live: Seq<Option<Feature>>, layer: usize, n: int)
    requires
        0 <= n <= live.len(),
        n <= usize::MAX,
    ensures
        forall|k: int| 0 <= k < live_ids(live, layer, n).len() ==> {
            &&& (#[trigger] live_ids(live, layer, n)[k]).layer == layer
            &&& live_ids(live, layer, n)[k].index < n
            &&& live[live_ids(live, layer, n)[k].index as int] is Some
        },
        forall|k: int, m: int| 0 <= k < m < live_ids(live, layer, n).len()
            ==> (#[trigger] live_ids(live, layer, n)[k]).index < (#[trigger] live_ids(live, layer, n)[m]).index,
        forall|i: int| 0 <= i < n && (#[trigger] live[i]) is Some
            ==> live_ids(live, layer, n).contains(FeatureId { layer, index: i as usize }),
    decreases n,
{
    if n > 0 {
        lemma_live_ids(live, layer, n - 1);
        let prev = live_ids(live, layer, n - 1);
        let cur = live_ids(live, layer, n);
        let last = FeatureId { layer, index: (n - 1) as usize };
        if live[n - 1] is Some {
            assert(cur == prev.push(last));
        } else {
            assert(cur == prev);
        }
        assert forall|k: int| 0 <= k < cur.len() implies {
            &&& (#[trigger] cur[k]).layer == layer
            &&& cur[k].index < n
            &&& live[cur[k].index as int] is Some
        } by {
            if k < prev.len() {
                assert(cur[k] == prev[k]);
            }
        }
        assert forall|k: int, m: int| 0 <= k < m < cur.len() implies (#[trigger] cur[k]).index < (#[trigger] cur[m]).index by {
            if m < prev.len() {
                assert(cur[k] == prev[k] && cur[m] == prev[m]);
            } else {
                assert(cur[k] == prev[k]);
            }
        }
        assert forall|i: int| 0 <= i < n && (#[trigger] live[i]) is Some implies cur.contains(FeatureId { layer, index: i as usize }) by {
            if i < n - 1 {
                let w = choose|w: int| 0 <= w < prev.len() && prev[w] == FeatureId { layer, index: i as usize };
                assert(cur[w] == prev[w]);
            } else {
                assert(cur[cur.len() - 1] == FeatureId { layer, index: i as usize });
            }
        }
    }
}

/// Expected score of a feature: its matches with the signs over `n` rows.
pub open spec fn score_on(values: Seq<bool>, batch: SignBatch, n: int) -> u8 {
    count_eq_upto(values, batch.signs@, n) as u8
}

/// Every source, live feature and candidate of `after` is scored on the
/// batch, its values taken from `shape`.
pub open spec fn scored(shape: FeatureStore, after: FeatureStore, batch: SignBatch, n: int) -> bool {
    &&& forall|i: int| 0 <= i < after.sources().len() ==> #[trigger] after.sources()[i] == score_on(fl_col(batch, i), batch, n)
    &&& forall|x: FeatureId| x.layer >= 1 && (#[trigger] after.lookup(x)) is Some
        ==> after.lookup(x).unwrap().score == score_on(ref_col(shape, batch, x), batch, n)
    &&& forall|l: int, i: int| 1 <= l <= after.layer_count() && 0 <= i < after.candidates_at(l).len()
        ==> (#[trigger] after.candidates_at(l)[i]).score == score_on(feature_values(shape, batch, after.candidates_at(l)[i]), batch, n)
}

/// Setting the score of live feature `reference` keeps the shape and every
/// other feature.
pub proof fn lemma_set_live_score(shape: FeatureStore, prev: FeatureStore, next: FeatureStore, reference: FeatureId, score: u8)
    requires
        same_shape(shape, prev),
        reference.layer >= 1,
        prev.lookup(reference) is Some,
        next.sources() == prev.sources(),
        next.same_except_layer(&prev, reference.layer as int),
        next.candidates_at(reference.layer as int) == prev.candidates_at(reference.layer as int),
        next.live_at(reference.layer as int) == prev.live_at(reference.layer as int).update(
            reference.index as int,
            Some(Feature { score, ..prev.lookup(reference).unwrap() }),
        ),
    ensures
        same_shape(shape, next),
        forall|x: FeatureId| x != reference ==> #[trigger] next.lookup(x) == prev.lookup(x),
        next.lookup(reference) == Some(Feature { score, ..prev.lookup(reference).unwrap() }),
        forall|l: int| 1 <= l <= next.layer_count() ==> #[trigger] next.candidates_at(l) == prev.candidates_at(l),
        next.layer_count() == prev.layer_count(),
{
    let rl = reference.layer as int;
    assert forall|l: int| 1 <= l <= shape.layer_count() implies (#[trigger] next.live_at(l)).len() == shape.live_at(l).len()
        && next.candidates_at(l).len() == shape.candidates_at(l).len() by {
        assert(prev.live_at(l).len() == shape.live_at(l).len());
        if l != rl {
            assert(next.live_at(l) == prev.live_at(l));
        }
    }
    assert forall|l: int, i: int| 1 <= l <= shape.layer_count() && 0 <= i < shape.live_at(l).len()
        implies ((#[trigger] next.live_at(l)[i]) is Some <==> shape.live_at(l)[i] is Some)
        && (shape.live_at(l)[i] is Some ==> next.live_at(l)[i].unwrap().inputs == shape.live_at(l)[i].unwrap().inputs
            && next.live_at(l)[i].unwrap().truth_table == shape.live_at(l)[i].unwrap().truth_table) by {
        assert(prev.live_at(l)[i] is Some <==> shape.live_at(l)[i] is Some);
        if l != rl {
            assert(next.live_at(l) == prev.live_at(l));
        }
    }
    assert forall|l: int, i: int| 1 <= l <= shape.layer_count() && 0 <= i < shape.candidates_at(l).len()
        implies (#[trigger] next.candidates_at(l)[i]).inputs == shape.candidates_at(l)[i].inputs
        && next.candidates_at(l)[i].truth_table == shape.candidates_at(l)[i].truth_table by {
        assert(prev.candidates_at(l)[i].inputs == shape.candidates_at(l)[i].inputs);
        if l != rl {
            assert(next.live_at(l) == prev.live_at(l));
        }
    }
    assert forall|x: FeatureId| x != reference implies #[trigger] next.lookup(x) == prev.lookup(x) by {
        if 1 <= x.layer <= next.layer_count() && x.layer != reference.layer {
            assert(next.live_at(x.layer as int) == prev.live_at(x.layer as int));
        }
    }
    assert forall|l: int| 1 <= l <= next.layer_count() implies #[trigger] next.candidates_at(l) == prev.candidates_at(l) by {
        if l != rl {
            assert(next.live_at(l) == prev.live_at(l));
        }
    }
}

/// Setting the score of candidate `index` of layer `layer` keeps the shape,
/// the live features and every other candidate.
pub proof fn lemma_set_candidate_score(shape: FeatureStore, prev: FeatureStore, next: FeatureStore, layer: int, index: int, score: u8)
    requires
        same_shape(shape, prev),
        1 <= layer <= prev.layer_count(),
        0 <= index < prev.candidates_at(layer).len(),
        next.sources() == prev.sources(),
        next.same_except_layer(&prev, layer),
        next.live_at(layer) == prev.live_at(layer),
        next.candidates_at(layer) == prev.candidates_at(layer).update(index, Feature { score, ..prev.candidates_at(layer)[index] }),
    ensures
        same_shape(shape, next),
        forall|x: FeatureId| #[trigger] next.lookup(x) == prev.lookup(x),
        forall|l: int, i: int| 1 <= l <= next.layer_count() && 0 <= i < next.candidates_at(l).len() && (l != layer || i != index)
            ==> #[trigger] next.candidates_at(l)[i] == prev.candidates_at(l)[i],
        next.candidates_at(layer)[index].score == score,
        next.layer_count() == prev.layer_count(),
{
    assert forall|l: int| 1 <= l <= shape.layer_count() implies (#[trigger] next.live_at(l)).len() == shape.live_at(l).len()
        && next.candidates_at(l).len() == shape.candidates_at(l).len() by {
        assert(prev.live_at(l).len() == shape.live_at(l).len());
        if l != layer {
            assert(next.live_at(l) == prev.live_at(l));
        }
    }
    assert forall|l: int, i: int| 1 <= l <= shape.layer_count() && 0 <= i < shape.live_at(l).len()
        implies ((#[trigger] next.live_at(l)[i]) is Some <==> shape.live_at(l)[i] is Some)
        && (shape.live_at(l)[i] is Some ==> next.live_at(l)[i].unwrap().inputs == shape.live_at(l)[i].unwrap().inputs
            && next.live_at(l)[i].unwrap().truth_table == shape.live_at(l)[i].unwrap().truth_table) by {
        assert(prev.live_at(l)[i] is Some <==> shape.live_at(l)[i] is Some);
        if l != layer {
            assert(next.live_at(l) == prev.live_at(l));
        }
    }
    assert forall|l: int, i: int| 1 <= l <= shape.layer_count() && 0 <= i < shape.candidates_at(l).len()
        implies (#[trigger] next.candidates_at(l)[i]).inputs == shape.candidates_at(l)[i].inputs
        && next.candidates_at(l)[i].truth_table == shape.candidates_at(l)[i].truth_table by {
        assert(prev.candidates_at(l)[i].inputs == shape.candidates_at(l)[i].inputs);
        if l != layer {
            assert(next.live_at(l) == prev.live_at(l));
        }
    }
    assert forall|x: FeatureId| #[trigger] next.lookup(x) == prev.lookup(x) by {
        if 1 <= x.layer <= next.layer_count() && x.layer != layer {
            assert(next.live_at(x.layer as int) == prev.live_at(x.layer as int));
        }
    }
    assert forall|l: int, i: int| 1 <= l <= next.layer_count() && 0 <= i < next.candidates_at(l).len() && (l != layer || i != index)
        implies #[trigger] next.candidates_at(l)[i] == prev.candidates_at(l)[i] by {
        if l != layer {
            assert(next.live_at(l) == prev.live_at(l));
        }
    }
}

impl FeatureLearner {
    /// Scores every source, live feature and candidate on the batch.
    #[verifier::rlimit(100)]
    #[verifier::spinoff_prover]
    fn refresh_scores(&mut self, batch: SignBatch<'_>) -> (r: Result<(), FeatureLearningError>)
        requires
            old(self).wf(),
            batch_ok(batch, old(self).store.sources().len() as int, old(self).config.batch_size as int),
        ensures
            final(self).wf(),
            final(self).config == old(self).config,
            final(self).has_previous_batch == old(self).has_previous_batch,
            same_shape(old(self).store, final(self).store),
            r is Ok ==> scored(old(self).store, final(self).store, batch, old(self).config.batch_size as int),
            refs_sound(old(self).store) ==> r is Ok && refs_sound(final(self).store),
    {
        let ghost shape = self.store;
        let ghost n = self.config.batch_size as int;
        proof {
            lemma_shape_refl(shape);
        }
        let source_count = self.store.source_feature_count();
        let mut index: usize = 0;
        while index < source_count
            invariant
                self.wf(),
                self.config == old(self).config,
                self.has_previous_batch == old(self).has_previous_batch,
                shape == old(self).store,
                n == self.config.batch_size,
                batch_ok(batch, shape.sources().len() as int, n),
                same_shape(shape, self.store),
                source_count == shape.sources().len(),
                index <= source_count,
                forall|x: FeatureId| #[trigger] self.store.lookup(x) == shape.lookup(x),
                forall|l: int| 1 <= l <= self.store.layer_count() ==> #[trigger] self.store.candidates_at(l) == shape.candidates_at(l),
                forall|i: int| 0 <= i < index ==> #[trigger] self.store.sources()[i] == score_on(fl_col(batch, i), batch, n),
            decreases source_count - index,
        {
            let score = correct_count(batch.feature_columns[index], batch.signs);
            proof {
                assert(fl_col(batch, index as int).len() == n);
                lemma_count_eq_upto_bound(fl_col(batch, index as int), batch.signs@, n);
            }
            let ghost prev = self.store;
            match self.store.set_score(FeatureId { layer: 0, index }, score) {
                Ok(()) => {},
                Err(error) => {
                    return Err(FeatureLearningError::Store(error));
                },
            }
            proof {
                assert forall|l: int| 1 <= l <= shape.layer_count() implies (#[trigger] self.store.live_at(l)).len() == shape.live_at(l).len()
                    && self.store.candidates_at(l).len() == shape.candidates_at(l).len() by {
                    assert(self.store.live_at(l) == prev.live_at(l));
                }
                assert forall|l: int, i: int| 1 <= l <= shape.layer_count() && 0 <= i < shape.live_at(l).len()
                    implies ((#[trigger] self.store.live_at(l)[i]) is Some <==> shape.live_at(l)[i] is Some)
                    && (shape.live_at(l)[i] is Some ==> self.store.live_at(l)[i].unwrap().inputs == shape.live_at(l)[i].unwrap().inputs
                        && self.store.live_at(l)[i].unwrap().truth_table == shape.live_at(l)[i].unwrap().truth_table) by {
                    assert(self.store.live_at(l) == prev.live_at(l));
                }
                assert forall|l: int, i: int| 1 <= l <= shape.layer_count() && 0 <= i < shape.candidates_at(l).len()
                    implies (#[trigger] self.store.candidates_at(l)[i]).inputs == shape.candidates_at(l)[i].inputs
                    && self.store.candidates_at(l)[i].truth_table == shape.candidates_at(l)[i].truth_table by {
                    assert(self.store.live_at(l) == prev.live_at(l));
                }
                assert forall|x: FeatureId| #[trigger] self.store.lookup(x) == shape.lookup(x) by {
                    assert(prev.lookup(x) == shape.lookup(x));
                    if 1 <= x.layer <= self.store.layer_count() {
                        assert(self.store.live_at(x.layer as int) == prev.live_at(x.layer as int));
                    }
                }
                assert forall|l: int| 1 <= l <= self.store.layer_count() implies #[trigger] self.store.candidates_at(l) == shape.candidates_at(l) by {
                    assert(self.store.live_at(l) == prev.live_at(l));
                }
            }
            index = index + 1;
        }
        let count = self.store.learned_layer_count();
        let mut layer_index: usize = 0;
        while layer_index < count
            invariant
                self.wf(),
                self.config == old(self).config,
                self.has_previous_batch == old(self).has_previous_batch,
                shape == old(self).store,
                n == self.config.batch_size,
                batch_ok(batch, shape.sources().len() as int, n),
                same_shape(shape, self.store),
                count == self.store.layer_count(),
                layer_index <= count,
                forall|i: int| 0 <= i < self.store.sources().len() ==> #[trigger] self.store.sources()[i] == score_on(fl_col(batch, i), batch, n),
                forall|x: FeatureId| 1 <= x.layer <= layer_index && (#[trigger] self.store.lookup(x)) is Some
                    ==> self.store.lookup(x).unwrap().score == score_on(ref_col(shape, batch, x), batch, n),
                forall|l: int, i: int| 1 <= l <= layer_index && 0 <= i < self.store.candidates_at(l).len()
                    ==> (#[trigger] self.store.candidates_at(l)[i]).score == score_on(feature_values(shape, batch, self.store.candidates_at(l)[i]), batch, n),
                forall|x: FeatureId| x.layer > layer_index ==> #[trigger] self.store.lookup(x) == shape.lookup(x),
                forall|l: int| layer_index < l <= count ==> #[trigger] self.store.candidates_at(l) == shape.candidates_at(l),
            decreases count - layer_index,
        {
            let layer = layer_index + 1;
            let references = self.store.live_refs_in_layer(layer);
            let _slots = self.store.live_slot_count(layer);
            proof {
                assert(self.store.live_at(layer as int).len() == shape.live_at(layer as int).len());
                lemma_live_ids(self.store.live_at(layer as int), layer, self.store.live_at(layer as int).len() as int);
            }
            let ghost live_before = self.store.live_at(layer as int);
            proof {
                assert forall|i: int| 0 <= i < live_before.len() implies (#[trigger] live_before[i]) == shape.live_at(layer as int)[i] by {
                    let x = FeatureId { layer, index: i as usize };
                    assert(self.store.lookup(x) == shape.lookup(x));
                }
            }
            let mut j: usize = 0;
            while j < references.len()
                invariant
                    self.wf(),
                    self.config == old(self).config,
                    self.has_previous_batch == old(self).has_previous_batch,
                    shape == old(self).store,
                    n == self.config.batch_size,
                    batch_ok(batch, shape.sources().len() as int, n),
                    same_shape(shape, self.store),
                    count == self.store.layer_count(),
                    layer == layer_index + 1,
                    layer <= count,
                    references@ == live_ids(live_before, layer, live_before.len() as int),
                    live_before.len() == shape.live_at(layer as int).len(),
                    forall|i: int| 0 <= i < live_before.len() ==> (#[trigger] live_before[i]) == shape.live_at(layer as int)[i],
                    forall|k: int| 0 <= k < references@.len() ==> {
                        &&& (#[trigger] references@[k]).layer == layer
                        &&& references@[k].index < live_before.len()
                        &&& live_before[references@[k].index as int] is Some
                    },
                    forall|k: int, m: int| 0 <= k < m < references@.len() ==> (#[trigger] references@[k]).index < (#[trigger] references@[m]).index,
                    j <= references@.len(),
                    forall|i: int| 0 <= i < self.store.sources().len() ==> #[trigger] self.store.sources()[i] == score_on(fl_col(batch, i), batch, n),
                    forall|x: FeatureId| 1 <= x.layer <= layer_index && (#[trigger] self.store.lookup(x)) is Some
                        ==> self.store.lookup(x).unwrap().score == score_on(ref_col(shape, batch, x), batch, n),
                    forall|l: int, i: int| 1 <= l <= layer_index && 0 <= i < self.store.candidates_at(l).len()
                        ==> (#[trigger] self.store.candidates_at(l)[i]).score == score_on(feature_values(shape, batch, self.store.candidates_at(l)[i]), batch, n),
                    forall|k: int| 0 <= k < j ==> (#[trigger] self.store.lookup(references@[k])) is Some
                        && self.store.lookup(references@[k]).unwrap().score == score_on(ref_col(shape, batch, references@[k]), batch, n),
                    forall|x: FeatureId| x.layer == layer && (forall|k: int| 0 <= k < j ==> references@[k] != x)
                        ==> #[trigger] self.store.lookup(x) == shape.lookup(x),
                    forall|x: FeatureId| x.layer > layer ==> #[trigger] self.store.lookup(x) == shape.lookup(x),
                    forall|l: int| layer_index < l <= count ==> #[trigger] self.store.candidates_at(l) == shape.candidates_at(l),
                decreases references@.len() - j,
            {
                let reference = references[j];
                proof {
                    assert(references@[j as int] == reference);
                    assert forall|k: int| 0 <= k < j implies references@[k] != reference by {
                        assert(references@[k].index < references@[j as int].index);
                    }
                    assert(self.store.lookup(reference) == shape.lookup(reference));
                    assert(live_before[reference.index as int] is Some);
                    assert(self.store.lookup(reference) is Some);
                }
                proof {
                    if refs_sound(shape) {
                        assert(ref_present(self.store, batch, reference)) by {
                            lemma_sound_shape(shape, self.store);
                            lemma_present(self.store, batch, reference);
                        }
                    }
                }
                let values = evaluate_reference(&self.store, batch, reference)?;
                proof {
                    lemma_ref_shape(shape, self.store, batch, reference);
                    lemma_ref_len(shape, batch, reference, n);
                    lemma_count_eq_upto_bound(values@, batch.signs@, n);
                }
                let score = correct_count(values.as_slice(), batch.signs);
                let ghost prev = self.store;
                match self.store.set_score(reference, score) {
                    Ok(()) => {},
                    Err(error) => {
                        return Err(FeatureLearningError::Store(error));
                    },
                }
                proof {
                    lemma_set_live_score(shape, prev, self.store, reference, score);
                    assert forall|k: int| 0 <= k < j + 1 implies (#[trigger] self.store.lookup(references@[k])) is Some
                        && self.store.lookup(references@[k]).unwrap().score == score_on(ref_col(shape, batch, references@[k]), batch, n) by {
                        if k < j {
                            assert(references@[k] != reference);
                        }
                    }
                    assert forall|x: FeatureId| x.layer == layer && (forall|k: int| 0 <= k < j + 1 ==> references@[k] != x)
                        implies #[trigger] self.store.lookup(x) == shape.lookup(x) by {
                        assert(references@[j as int] != x);
                        assert(forall|k: int| 0 <= k < j ==> references@[k] != x);
                    }
                }
                j = j + 1;
            }
            proof {
                assert forall|x: FeatureId| 1 <= x.layer <= layer && (#[trigger] self.store.lookup(x)) is Some
                    implies self.store.lookup(x).unwrap().score == score_on(ref_col(shape, batch, x), batch, n) by {
                    if x.layer == layer {
                        if forall|k: int| 0 <= k < j ==> references@[k] != x {
                            assert(self.store.lookup(x) == shape.lookup(x));
                            assert(live_before[x.index as int] is Some);
                            assert(references@.contains(FeatureId { layer, index: x.index }));
                        }
                    }
                }
            }
            let candidate_count = match self.store.candidate_len(layer) {
                Some(c) => c,
                None => 0,
            };
            let mut scores: Vec<u8> = Vec::new();
            let mut i: usize = 0;
            while i < candidate_count
                invariant
                    self.wf(),
                    self.config == old(self).config,
                    self.has_previous_batch == old(self).has_previous_batch,
                    shape == old(self).store,
                    n == self.config.batch_size,
                    batch_ok(batch, shape.sources().len() as int, n),
                    same_shape(shape, self.store),
                    count == self.store.layer_count(),
                    1 <= layer <= count,
                    candidate_count == self.store.candidates_at(layer as int).len(),
                    self.store.candidates_at(layer as int) == shape.candidates_at(layer as int),
                    i <= candidate_count,
                    scores@.len() == i,
                    forall|k: int| 0 <= k < i ==> #[trigger] scores@[k] == score_on(feature_values(shape, batch, shape.candidates_at(layer as int)[k]), batch, n),
                decreases candidate_count - i,
            {
                let candidates = match self.store.candidates(layer) {
                    Some(c) => c,
                    None => {
                        assert(false);
                        return Err(FeatureLearningError::InvalidBatch);
                    },
                };
                let feature = candidates[i];
                proof {
                    assert(below(feature, layer as int));
                    if refs_sound(shape) {
                        assert(ref_present(self.store, batch, feature.inputs[0]) && ref_present(self.store, batch, feature.inputs[1])) by {
                            lemma_sound_shape(shape, self.store);
                            reveal(refs_sound);
                            assert(self.store.candidates_at(layer as int)[i as int] == feature);
                            lemma_present(self.store, batch, feature.inputs[0]);
                            lemma_present(self.store, batch, feature.inputs[1]);
                        }
                    }
                }
                let values = evaluate_feature(&self.store, batch, &feature, Ghost(layer as int))?;
                proof {
                    lemma_ref_shape(shape, self.store, batch, feature.inputs[0]);
                    lemma_ref_shape(shape, self.store, batch, feature.inputs[1]);
                    lemma_ref_len(shape, batch, feature.inputs[0], n);
                    lemma_ref_len(shape, batch, feature.inputs[1], n);
                    lemma_count_eq_upto_bound(values@, batch.signs@, n);
                }
                scores.push(correct_count(values.as_slice(), batch.signs));
                i = i + 1;
            }
            let mut k: usize = 0;
            while k < candidate_count
                invariant
                    self.wf(),
                    self.config == old(self).config,
                    self.has_previous_batch == old(self).has_previous_batch,
                    shape == old(self).store,
                    n == self.config.batch_size,
                    same_shape(shape, self.store),
                    count == self.store.layer_count(),
                    layer == layer_index + 1,
                    1 <= layer <= count,
                    candidate_count == self.store.candidates_at(layer as int).len(),
                    scores@.len() == candidate_count,
                    forall|m: int| 0 <= m < candidate_count ==> #[trigger] scores@[m] == score_on(feature_values(shape, batch, shape.candidates_at(layer as int)[m]), batch, n),
                    k <= candidate_count,
                    forall|m: int| 0 <= m < k ==> (#[trigger] self.store.candidates_at(layer as int)[m]).score == scores@[m],
                    forall|i: int| 0 <= i < self.store.sources().len() ==> #[trigger] self.store.sources()[i] == score_on(fl_col(batch, i), batch, n),
                    forall|x: FeatureId| 1 <= x.layer <= layer && (#[trigger] self.store.lookup(x)) is Some
                        ==> self.store.lookup(x).unwrap().score == score_on(ref_col(shape, batch, x), batch, n),
                    forall|l: int, i: int| 1 <= l <= layer_index && 0 <= i < self.store.candidates_at(l).len()
                        ==> (#[trigger] self.store.candidates_at(l)[i]).score == score_on(feature_values(shape, batch, self.store.candidates_at(l)[i]), batch, n),
                    forall|x: FeatureId| x.layer > layer ==> #[trigger] self.store.lookup(x) == shape.lookup(x),
                    forall|l: int| layer < l <= count ==> #[trigger] self.store.candidates_at(l) == shape.candidates_at(l),
                decreases candidate_count - k,
            {
                let ghost prev = self.store;
                self.store.set_candidate_score(layer, k, scores[k]);
                proof {
                    lemma_set_candidate_score(shape, prev, self.store, layer as int, k as int, scores@[k as int]);
                    assert forall|m: int| 0 <= m < k + 1 implies (#[trigger] self.store.candidates_at(layer as int)[m]).score == scores@[m] by {
                        if m < k {
                            assert(self.store.candidates_at(layer as int)[m] == prev.candidates_at(layer as int)[m]);
                        }
                    }
                    assert forall|l: int, i: int| 1 <= l <= layer_index && 0 <= i < self.store.candidates_at(l).len()
                        implies (#[trigger] self.store.candidates_at(l)[i]).score == score_on(feature_values(shape, batch, self.store.candidates_at(l)[i]), batch, n) by {
                        assert(l != layer);
                        assert(self.store.live_at(l) == prev.live_at(l));
                        assert(self.store.candidates_at(l) == prev.candidates_at(l));
                        assert(self.store.candidates_at(l)[i] == prev.candidates_at(l)[i]);
                        assert(prev.candidates_at(l)[i].score == score_on(feature_values(shape, batch, prev.candidates_at(l)[i]), batch, n));
                    }
                    assert forall|l: int| layer < l <= count implies #[trigger] self.store.candidates_at(l) == shape.candidates_at(l) by {
                        assert(self.store.live_at(l) == prev.live_at(l));
                    }
                }
                k = k + 1;
            }
            proof {
                assert forall|l: int, i: int| 1 <= l <= layer && 0 <= i < self.store.candidates_at(l).len()
                    implies (#[trigger] self.store.candidates_at(l)[i]).score == score_on(feature_values(shape, batch, self.store.candidates_at(l)[i]), batch, n) by {
                    if l == layer {
                        assert(self.store.candidates_at(l)[i].inputs == shape.candidates_at(l)[i].inputs);
                        assert(feature_values(shape, batch, self.store.candidates_at(l)[i]) == feature_values(shape, batch, shape.candidates_at(l)[i]));
                    }
                }
            }
            layer_index = layer_index + 1;
        }
        proof {
            if refs_sound(shape) {
                lemma_sound_shape(shape, self.store);
            }
        }
        Ok(())
    }
}

/// Feature `f` reads `x`.
pub open spec fn reads(f: Feature, x: FeatureId) -> bool {
    f.inputs[0] == x || f.inputs[1] == x
}

/// Best score among `reference` and every live feature that reads it,
/// directly or through other live features.
pub open spec fn prop_score(store: FeatureStore, reference: FeatureId) -> int
    decreases store.layer_count() + 1 - reference.layer, 2int, 0int, 0int,
{
    let own = match store.score_of(reference) {
        Some(s) => s as int,
        None => 0,
    };
    let deps = dep_best(store, reference, reference.layer as int + 1);
    if deps > own { deps } else { own }
}

/// Best propagated score of the live readers of `reference` in layers `l`
/// and above.
pub open spec fn dep_best(store: FeatureStore, reference: FeatureId, l: int) -> int
    decreases store.layer_count() + 1 - reference.layer, 1int, store.layer_count() + 1 - l, 0int,
{
    if l > store.layer_count() || l <= reference.layer {
        0
    } else {
        let here = dep_best_in(store, reference, l, store.live_at(l).len() as int);
        let rest = dep_best(store, reference, l + 1);
        if here > rest { here } else { rest }
    }
}

/// Best propagated score of the live readers of `reference` among the first
/// `i` slots of layer `l`.
pub open spec fn dep_best_in(store: FeatureStore, reference: FeatureId, l: int, i: int) -> int
    decreases store.layer_count() + 1 - reference.layer, 0int, 0int, i,
{
    if i <= 0 || l <= reference.layer || l > store.layer_count() || l > usize::MAX {
        0
    } else {
        let prev = dep_best_in(store, reference, l, i - 1);
        match store.live_at(l)[i - 1] {
            Some(f) => if reads(f, reference) {
                let d = prop_score(store, FeatureId { layer: l as usize, index: (i - 1) as usize });
                if d > prev { d } else { prev }
            } else {
                prev
            },
            None => prev,
        }
    }
}

/// The best score of `reference` and of everything built on it.
fn propagated_score(store: &FeatureStore, reference: FeatureId) -> (r: u8)
    requires
        store.wf(),
    ensures
        r as int == prop_score(*store, reference),
    decreases store.layer_count() + 1 - reference.layer,
{
    let own = score_or_zero(store, reference);
    let count = store.learned_layer_count();
    let mut best: u8 = 0;
    let mut layer = count;
    while layer > reference.layer
        invariant
            store.wf(),
            count == store.layer_count(),
            layer <= count,
            layer >= reference.layer || layer == count,
            best as int == dep_best(*store, reference, layer as int + 1),
        decreases layer,
    {
        let slots = store.live_slot_count(layer);
        let mut here: u8 = 0;
        let mut i: usize = 0;
        while i < slots
            invariant
                store.wf(),
                count == store.layer_count(),
                reference.layer < layer <= count,
                slots == store.live_at(layer as int).len(),
                i <= slots,
                here as int == dep_best_in(*store, reference, layer as int, i as int),
            decreases slots - i,
        {
            let id = FeatureId { layer, index: i };
            match store.get(id) {
                Some(feature) => {
                    if feature.inputs[0] == reference || feature.inputs[1] == reference {
                        let d = propagated_score(store, id);
                        if d > here {
                            here = d;
                        }
                    }
                },
                None => {},
            }
            i = i + 1;
        }
        if here > best {
            best = here;
        }
        layer = layer - 1;
    }
    if best > own { best } else { own }
}

/// `after` differs from `before` only by pruned live features.
pub open spec fn only_pruned(before: FeatureStore, after: FeatureStore) -> bool {
    &&& after.sources() == before.sources()
    &&& after.layer_count() == before.layer_count()
    &&& forall|l: int| 1 <= l <= before.layer_count() ==> (#[trigger] after.live_at(l)).len() == before.live_at(l).len()
        && after.candidates_at(l) == before.candidates_at(l)
    &&& forall|x: FeatureId| (#[trigger] after.lookup(x)) is Some ==> after.lookup(x) == before.lookup(x)
}

/// Every live feature of `store` that reads `reference` lies above it and
/// is listed in `dependents`, which lists only such features.
pub open spec fn lists_readers(store: FeatureStore, reference: FeatureId, dependents: Seq<FeatureId>) -> bool {
    &&& forall|k: int| 0 <= k < dependents.len() ==> (#[trigger] store.lookup(dependents[k])) is Some
        && reads(store.lookup(dependents[k]).unwrap(), reference) && dependents[k].layer > reference.layer
    &&& forall|y: FeatureId| (#[trigger] store.lookup(y)) is Some && reads(store.lookup(y).unwrap(), reference)
        ==> dependents.contains(y)
}

/// The live features that read `reference`.
fn readers_of(store: &FeatureStore, reference: FeatureId) -> (r: Vec<FeatureId>)
    requires
        store.wf(),
        reference.layer >= 1,
    ensures
        lists_readers(*store, reference, r@),
{
    let count = store.learned_layer_count();
    let mut dependents: Vec<FeatureId> = Vec::new();
    let mut layer = reference.layer;
    while layer < count
        invariant
            store.wf(),
            count == store.layer_count(),
            reference.layer >= 1,
            layer >= reference.layer,
            layer <= count || layer == reference.layer,
            forall|k: int| 0 <= k < dependents@.len() ==> (#[trigger] store.lookup(dependents@[k])) is Some
                && reads(store.lookup(dependents@[k]).unwrap(), reference) && dependents@[k].layer > reference.layer,
            forall|y: FeatureId| y.layer <= layer && (#[trigger] store.lookup(y)) is Some && reads(store.lookup(y).unwrap(), reference)
                ==> dependents@.contains(y),
        decreases count - layer,
    {
        layer = layer + 1;
        let slots = store.live_slot_count(layer);
        let ghost before_layer = dependents@;
        let mut i: usize = 0;
        while i < slots
            invariant
                store.wf(),
                count == store.layer_count(),
                reference.layer < layer <= count,
                slots == store.live_at(layer as int).len(),
                i <= slots,
                forall|k: int| 0 <= k < dependents@.len() ==> (#[trigger] store.lookup(dependents@[k])) is Some
                    && reads(store.lookup(dependents@[k]).unwrap(), reference) && dependents@[k].layer > reference.layer,
                forall|y: FeatureId| y.layer < layer && (#[trigger] store.lookup(y)) is Some && reads(store.lookup(y).unwrap(), reference)
                    ==> dependents@.contains(y),
                forall|y: FeatureId| y.layer == layer && y.index < i && (#[trigger] store.lookup(y)) is Some && reads(store.lookup(y).unwrap(), reference)
                    ==> dependents@.contains(y),
            decreases slots - i,
        {
            let id = FeatureId { layer, index: i };
            match store.get(id) {
                Some(feature) => {
                    if feature.inputs[0] == reference || feature.inputs[1] == reference {
                        let ghost before = dependents@;
                        dependents.push(id);
                        proof {
                            assert(dependents@[dependents@.len() - 1] == id);
                            assert forall|y: FeatureId| y.layer < layer && (#[trigger] store.lookup(y)) is Some && reads(store.lookup(y).unwrap(), reference)
                                implies dependents@.contains(y) by {
                                let w = choose|w: int| 0 <= w < before.len() && before[w] == y;
                                assert(dependents@[w] == y);
                            }
                            assert forall|y: FeatureId| y.layer == layer && y.index < i + 1 && (#[trigger] store.lookup(y)) is Some && reads(store.lookup(y).unwrap(), reference)
                                implies dependents@.contains(y) by {
                                if y.index < i {
                                    let w = choose|w: int| 0 <= w < before.len() && before[w] == y;
                                    assert(dependents@[w] == y);
                                } else {
                                    assert(y == id);
                                }
                            }
                        }
                    }
                },
                None => {},
            }
            i = i + 1;
        }
        proof {
            assert forall|y: FeatureId| y.layer <= layer && (#[trigger] store.lookup(y)) is Some && reads(store.lookup(y).unwrap(), reference)
                implies dependents@.contains(y) by {
                if y.layer == layer {
                    assert(y.index < slots);
                }
            }
        }
    }
    proof {
        assert forall|y: FeatureId| (#[trigger] store.lookup(y)) is Some && reads(store.lookup(y).unwrap(), reference)
            implies dependents@.contains(y) by {
            assert(y.layer <= count);
            if y.layer > layer {
                assert(false);
            }
        }
    }
    dependents
}

/// Prunes `reference` and, recursively, every live feature that reads it.
fn tombstone_with_dependents(store: &mut FeatureStore, reference: FeatureId)
    requires
        old(store).wf(),
        reference.layer >= 1,
    ensures
        final(store).wf(),
        only_pruned(*old(store), *final(store)),
        final(store).lookup(reference) is None,
        forall|x: FeatureId| x.layer <= reference.layer && x != reference ==> #[trigger] final(store).lookup(x) == old(store).lookup(x),
        forall|x: FeatureId, y: FeatureId| (#[trigger] final(store).lookup(y)) is Some && reads(final(store).lookup(y).unwrap(), x)
            && (#[trigger] old(store).lookup(x)) is Some ==> final(store).lookup(x) is Some,
        forall|l: int| 1 <= l < reference.layer ==> #[trigger] final(store).live_at(l) == old(store).live_at(l),
        reference.layer <= old(store).layer_count() ==> final(store).live_at(reference.layer as int) == (
            if reference.index < old(store).live_at(reference.layer as int).len() {
                old(store).live_at(reference.layer as int).update(reference.index as int, None)
            } else {
                old(store).live_at(reference.layer as int)
            }),
    decreases old(store).layer_count() + 1 - reference.layer,
{
    let dependents = readers_of(store, reference);
    let ghost s0 = *store;
    store.tombstone(reference);
    proof {
        let l = reference.layer as int;
        assert forall|x: FeatureId| x != reference implies #[trigger] store.lookup(x) == s0.lookup(x) by {
            if 1 <= x.layer <= store.layer_count() && x.layer != reference.layer {
                assert(store.live_at(x.layer as int) == s0.live_at(x.layer as int));
            }
        }
        assert forall|m: int| 1 <= m <= s0.layer_count() implies (#[trigger] store.live_at(m)).len() == s0.live_at(m).len()
            && store.candidates_at(m) == s0.candidates_at(m) by {
            if l <= s0.layer_count() && reference.index < s0.live_at(l).len() {
                assert(store.same_except_layer(&s0, l));
                assert(store.candidates_at(l) == s0.candidates_at(l));
                assert(store.live_at(l) == s0.live_at(l).update(reference.index as int, None));
                if m != l {
                    assert(store.live_at(m) == s0.live_at(m));
                }
            } else {
                assert(*store == s0);
            }
        }
        assert forall|x: FeatureId| (#[trigger] store.lookup(x)) is Some implies store.lookup(x) == s0.lookup(x) by {
            if x == reference {
                assert(store.lookup(x) is None);
            }
        }
        assert forall|x: FeatureId, y: FeatureId| (#[trigger] store.lookup(y)) is Some && reads(store.lookup(y).unwrap(), x)
            && (#[trigger] s0.lookup(x)) is Some && store.lookup(x) is None
            implies x == reference && exists|j: int| 0 <= j < dependents@.len() && dependents@[j] == y by {
            if x != reference {
                assert(store.lookup(x) == s0.lookup(x));
            }
            assert(y != reference);
            assert(store.lookup(y) == s0.lookup(y));
            assert(dependents@.contains(y));
        }
    }
    let ghost s1 = *store;
    proof {
        let l = reference.layer as int;
        if l <= s0.layer_count() && reference.index < s0.live_at(l).len() {
            assert(store.same_except_layer(&s0, l));
            assert forall|m: int| 1 <= m < l implies #[trigger] store.live_at(m) == s0.live_at(m) by {}
        } else {
            assert(*store == s0);
        }
    }
    let count = store.learned_layer_count();
    let mut k: usize = 0;
    while k < dependents.len()
        invariant
            store.wf(),
            reference.layer >= 1,
            s0 == *old(store),
            forall|m: int| 1 <= m <= reference.layer ==> #[trigger] store.live_at(m) == s1.live_at(m),
            forall|m: int| 1 <= m < reference.layer ==> #[trigger] s1.live_at(m) == s0.live_at(m),
            reference.layer <= s0.layer_count() ==> s1.live_at(reference.layer as int) == (
                if reference.index < s0.live_at(reference.layer as int).len() {
                    s0.live_at(reference.layer as int).update(reference.index as int, None)
                } else {
                    s0.live_at(reference.layer as int)
                }),
            count == s0.layer_count(),
            lists_readers(s0, reference, dependents@),
            only_pruned(s0, *store),
            store.lookup(reference) is None,
            forall|x: FeatureId| x.layer <= reference.layer && x != reference ==> #[trigger] store.lookup(x) == s0.lookup(x),
            forall|x: FeatureId, y: FeatureId| (#[trigger] store.lookup(y)) is Some && reads(store.lookup(y).unwrap(), x)
                && (#[trigger] s0.lookup(x)) is Some && store.lookup(x) is None
                ==> x == reference && exists|j: int| k <= j < dependents@.len() && dependents@[j] == y,
            k <= dependents@.len(),
        decreases dependents@.len() - k,
    {
        let dependent = dependents[k];
        let ghost prev = *store;
        proof {
            assert(s0.lookup(dependents@[k as int]) is Some);
            assert(dependent.layer <= count);
        }
        tombstone_with_dependents(store, dependent);
        proof {
            assert(store.lookup(reference) is None) by {
                if store.lookup(reference) is Some {
                    assert(store.lookup(reference) == prev.lookup(reference));
                }
            }
            assert forall|m: int| 1 <= m <= s0.layer_count() implies (#[trigger] store.live_at(m)).len() == s0.live_at(m).len()
                && store.candidates_at(m) == s0.candidates_at(m) by {
                assert(prev.layer_count() == s0.layer_count());
                assert(prev.live_at(m).len() == s0.live_at(m).len());
                assert(prev.candidates_at(m) == s0.candidates_at(m));
                assert(store.live_at(m).len() == prev.live_at(m).len());
                assert(store.candidates_at(m) == prev.candidates_at(m));
            }
            assert forall|x: FeatureId| (#[trigger] store.lookup(x)) is Some implies store.lookup(x) == s0.lookup(x) by {
                assert(store.lookup(x) == prev.lookup(x));
            }
            assert forall|x: FeatureId| x.layer <= reference.layer && x != reference implies #[trigger] store.lookup(x) == s0.lookup(x) by {
                assert(x != dependent);
                assert(store.lookup(x) == prev.lookup(x));
            }
            assert forall|m: int| 1 <= m <= reference.layer implies #[trigger] store.live_at(m) == s1.live_at(m) by {
                assert(m < dependent.layer);
                assert(store.live_at(m) == prev.live_at(m));
            }
            assert forall|x: FeatureId, y: FeatureId| (#[trigger] store.lookup(y)) is Some && reads(store.lookup(y).unwrap(), x)
                && (#[trigger] s0.lookup(x)) is Some && store.lookup(x) is None
                implies x == reference && exists|j: int| k + 1 <= j < dependents@.len() && dependents@[j] == y by {
                assert(store.lookup(y) == prev.lookup(y));
                if prev.lookup(x) is Some {
                    assert(store.lookup(x) is Some);
                } else {
                    let j = choose|j: int| k <= j < dependents@.len() && dependents@[j] == y;
                    if j == k {
                        assert(y == dependent);
                        assert(store.lookup(dependent) is None);
                    }
                }
            }
        }
        k = k + 1;
    }
    proof {
        assert forall|x: FeatureId, y: FeatureId| (#[trigger] store.lookup(y)) is Some && reads(store.lookup(y).unwrap(), x)
            && (#[trigger] s0.lookup(x)) is Some implies store.lookup(x) is Some by {
            if store.lookup(x) is None {
                assert(x == reference && exists|j: int| k <= j < dependents@.len() && dependents@[j] == y);
            }
        }
    }
}

/// There are as many listed ids as live entries.
pub proof fn lemma_live_ids_len(live: Seq<Option<Feature>>, layer: usize, n: int)
    ensures
        live_ids(live, layer, n).len() == live_count(live, n),
    decreases n,
{
    if n > 0 {
        lemma_live_ids_len(live, layer, n - 1);
    }
}

/// Pruning a live entry below `n` removes one live entry.
pub proof fn lemma_live_count_prune(live: Seq<Option<Feature>>, i: int, n: int)
    requires
        0 <= i < n <= live.len(),
        live[i] is Some,
    ensures
        live_count(live.update(i, None), n) == live_count(live, n) - 1,
    decreases n,
{
    if n - 1 > i {
        lemma_live_count_prune(live, i, n - 1);
    } else {
        lemma_live_count_same(live, live.update(i, None), i);
    }
}

/// Sequences equal below `n` have as many live entries below `n`.
pub proof fn lemma_live_count_same(a: Seq<Option<Feature>>, b: Seq<Option<Feature>>, n: int)
    requires
        forall|j: int| 0 <= j < n ==> #[trigger] a[j] == b[j],
    ensures
        live_count(a, n) == live_count(b, n),
    decreases n,
{
    if n > 0 {
        lemma_live_count_same(a, b, n - 1);
    }
}

/// All set entries count fully.
pub proof fn lemma_count_true_all(s: Seq<bool>, n: int)
    requires
        0 <= n <= s.len(),
        forall|j: int| 0 <= j < n ==> #[trigger] s[j],
    ensures
        count_true_upto(s, n) == n,
    decreases n,
{
    if n > 0 {
        lemma_count_true_all(s, n - 1);
    }
}

impl FeatureLearner {
    /// Promotes every candidate, then prunes each layer to
    /// `features_per_layer` live features: the ones of lowest propagated
    /// score go first (ties to the lower id), with everything built on them.
    #[verifier::rlimit(60)]
    #[verifier::spinoff_prover]
    pub fn promote_and_prune(&mut self)
        requires
            old(self).wf(),
            forall|l: int| 1 <= l <= old(self).store.layer_count() ==> (#[trigger] old(self).store.live_at(l)).len()
                + old(self).store.candidates_at(l).len() < usize::MAX,
        ensures
            final(self).wf(),
            final(self).config == old(self).config,
            final(self).has_previous_batch == old(self).has_previous_batch,
            final(self).store.sources() == old(self).store.sources(),
            final(self).store.layer_count() == old(self).store.layer_count(),
            forall|l: int| 1 <= l <= final(self).store.layer_count() ==> (#[trigger] final(self).store.candidates_at(l)).len() == 0,
            forall|l: int| 1 <= l <= final(self).store.layer_count() ==> live_count(
                #[trigger] final(self).store.live_at(l), final(self).store.live_at(l).len() as int) <= final(self).config.features_per_layer,
            refs_sound(old(self).store) ==> refs_sound(final(self).store),
    {
        let count = self.store.learned_layer_count();
        let ghost start = self.store;
        let ghost sound = refs_sound(self.store);
        let mut layer_index: usize = 0;
        while layer_index < count
            invariant
                self.wf(),
                self.config == old(self).config,
                self.has_previous_batch == old(self).has_previous_batch,
                start == old(self).store,
                sound == refs_sound(start),
                sound ==> refs_sound(self.store),
                count == self.store.layer_count(),
                count == start.layer_count(),
                self.store.sources() == start.sources(),
                layer_index <= count,
                forall|l: int| 1 <= l <= layer_index ==> (#[trigger] self.store.candidates_at(l)).len() == 0,
                forall|l: int| layer_index < l <= count ==> #[trigger] self.store.live_at(l) == start.live_at(l)
                    && self.store.candidates_at(l) == start.candidates_at(l),
                forall|l: int| 1 <= l <= start.layer_count() ==> (#[trigger] start.live_at(l)).len()
                    + start.candidates_at(l).len() < usize::MAX,
            decreases count - layer_index,
        {
            let layer = layer_index + 1;
            let ghost prev = self.store;
            let _ = self.store.promote_candidates(layer);
            proof {
                if sound {
                    lemma_sound_promote(prev, self.store, layer as int);
                }
                assert forall|l: int| 1 <= l <= layer implies (#[trigger] self.store.candidates_at(l)).len() == 0 by {
                    if l != layer {
                        assert(self.store.live_at(l) == prev.live_at(l));
                    }
                }
                assert forall|l: int| layer < l <= count implies #[trigger] self.store.live_at(l) == start.live_at(l)
                    && self.store.candidates_at(l) == start.candidates_at(l) by {
                    assert(self.store.live_at(l) == prev.live_at(l));
                }
            }
            layer_index = layer_index + 1;
        }
        let features_per_layer = self.config.features_per_layer;
        let mut layer_index: usize = 0;
        while layer_index < count
            invariant
                self.wf(),
                self.config == old(self).config,
                self.has_previous_batch == old(self).has_previous_batch,
                features_per_layer == self.config.features_per_layer,
                count == self.store.layer_count(),
                self.store.sources() == start.sources(),
                start == old(self).store,
                sound == refs_sound(start),
                sound ==> refs_sound(self.store),
                layer_index <= count,
                forall|l: int| 1 <= l <= count ==> (#[trigger] self.store.candidates_at(l)).len() == 0,
                forall|l: int| 1 <= l <= layer_index ==> live_count(
                    #[trigger] self.store.live_at(l), self.store.live_at(l).len() as int) <= features_per_layer,
            decreases count - layer_index,
        {
            let layer = layer_index + 1;
            let references = self.store.live_refs_in_layer(layer);
            let slots = self.store.live_slot_count(layer);
            let ghost live_before = self.store.live_at(layer as int);
            let ghost before = self.store;
            proof {
                lemma_live_ids(live_before, layer, slots as int);
                lemma_live_ids_len(live_before, layer, slots as int);
            }
            if references.len() > features_per_layer {
                let mut keys: Vec<u8> = Vec::new();
                let mut i: usize = 0;
                while i < references.len()
                    invariant
                        self.store == before,
                        self.wf(),
                        i <= references@.len(),
                        keys@.len() == i,
                    decreases references@.len() - i,
                {
                    keys.push(propagated_score(&self.store, references[i]));
                    i = i + 1;
                }
                let n = references.len();
                let mut taken: Vec<bool> = Vec::new();
                let mut t: usize = 0;
                while t < n
                    invariant
                        t <= n,
                        taken@.len() == t,
                        forall|j: int| 0 <= j < t ==> !#[trigger] taken@[j],
                    decreases n - t,
                {
                    taken.push(false);
                    t = t + 1;
                }
                proof {
                    lemma_count_true_zero(taken@, n as int);
                }
                let remove_count = n - features_per_layer;
                let mut k: usize = 0;
                while k < remove_count
                    invariant
                        self.wf(),
                        self.config == old(self).config,
                        self.has_previous_batch == old(self).has_previous_batch,
                        features_per_layer == self.config.features_per_layer,
                        count == self.store.layer_count(),
                        self.store.sources() == start.sources(),
                        only_pruned(before, self.store),
                        sound ==> refs_sound(self.store),
                        1 <= layer <= count,
                        slots == live_before.len(),
                        live_before == before.live_at(layer as int),
                        n == references@.len(),
                        n == live_count(live_before, slots as int),
                        references@ == live_ids(live_before, layer, slots as int),
                        forall|q: int| 0 <= q < references@.len() ==> {
                            &&& (#[trigger] references@[q]).layer == layer
                            &&& references@[q].index < slots
                            &&& live_before[references@[q].index as int] is Some
                        },
                        forall|q: int, m: int| 0 <= q < m < references@.len() ==> (#[trigger] references@[q]).index < (#[trigger] references@[m]).index,
                        keys@.len() == n,
                        taken@.len() == n,
                        remove_count == n - features_per_layer,
                        k <= remove_count,
                        count_true_upto(taken@, n as int) == k,
                        live_count(self.store.live_at(layer as int), slots as int) == n - k,
                        forall|q: int| 0 <= q < n ==> (#[trigger] self.store.live_at(layer as int)[references@[q].index as int] is Some) == !taken@[q],
                        forall|x: FeatureId| x.layer < layer ==> #[trigger] self.store.lookup(x) == before.lookup(x),
                        forall|l: int| 1 <= l < layer ==> #[trigger] self.store.live_at(l) == before.live_at(l),
                        forall|l: int| 1 <= l <= count ==> (#[trigger] self.store.candidates_at(l)).len() == 0,
                        forall|l: int| 1 <= l <= layer_index ==> live_count(
                            #[trigger] before.live_at(l), before.live_at(l).len() as int) <= features_per_layer,
                        layer == layer_index + 1,
                    decreases remove_count - k,
                {
                    let mut best: usize = n;
                    let mut i: usize = 0;
                    while i < n
                        invariant
                            n == taken@.len(),
                            n == keys@.len(),
                            i <= n,
                            best == n || (best < n && !taken@[best as int]),
                            (exists|j: int| 0 <= j < i && !taken@[j]) ==> best < n,
                        decreases n - i,
                    {
                        if !taken[i] && (best == n || keys[i] < keys[best]) {
                            best = i;
                        }
                        i = i + 1;
                    }
                    proof {
                        if best == n {
                            assert forall|j: int| 0 <= j < n implies #[trigger] taken@[j] by {
                                if !taken@[j] {
                                    assert(exists|q: int| 0 <= q < n && !taken@[q]);
                                }
                            }
                            lemma_count_true_all(taken@, n as int);
                        }
                    }
                    let ghost taken_before = taken@;
                    taken.set(best, true);
                    proof {
                        lemma_count_true_set(taken_before, best as int, n as int);
                    }
                    let reference = references[best];
                    let ghost prev = self.store;
                    proof {
                        assert(references@[best as int] == reference);
                        assert(prev.live_at(layer as int)[reference.index as int] is Some);
                    }
                    tombstone_with_dependents(&mut self.store, reference);
                    proof {
                        assert(only_pruned(prev, self.store));
                        if sound {
                            lemma_sound_prune(prev, self.store);
                        }
                        assert(prev.layer_count() == count);
                        assert(self.store.live_at(layer as int).len() == prev.live_at(layer as int).len());
                        let lp = prev.live_at(layer as int);
                        assert(self.store.live_at(layer as int) == lp.update(reference.index as int, None));
                        lemma_live_count_prune(lp, reference.index as int, slots as int);
                        assert forall|q: int| 0 <= q < n implies (#[trigger] self.store.live_at(layer as int)[references@[q].index as int] is Some) == !taken@[q] by {
                            if q != best as int {
                                if q < best as int {
                                    assert(references@[q].index < references@[best as int].index);
                                } else {
                                    assert(references@[best as int].index < references@[q].index);
                                }
                            }
                        }
                        assert forall|l: int| 1 <= l <= count implies (#[trigger] self.store.candidates_at(l)).len() == 0 by {
                            assert(self.store.live_at(l).len() == prev.live_at(l).len());
                            assert(self.store.candidates_at(l) == prev.candidates_at(l));
                        }
                        assert forall|l: int| 1 <= l < layer implies #[trigger] self.store.live_at(l) == before.live_at(l) by {
                            assert(self.store.live_at(l) == prev.live_at(l));
                        }
                        assert forall|x: FeatureId| x.layer < layer implies #[trigger] self.store.lookup(x) == before.lookup(x) by {
                            assert(self.store.lookup(x) == prev.lookup(x));
                        }
                        assert(only_pruned(before, self.store)) by {
                            assert forall|l: int| 1 <= l <= before.layer_count() implies (#[trigger] self.store.live_at(l)).len() == before.live_at(l).len()
                                && self.store.candidates_at(l) == before.candidates_at(l) by {
                                assert(prev.live_at(l).len() == before.live_at(l).len());
                            }
                            assert forall|x: FeatureId| (#[trigger] self.store.lookup(x)) is Some implies self.store.lookup(x) == before.lookup(x) by {
                                assert(self.store.lookup(x) == prev.lookup(x));
                            }
                        }
                    }
                    k = k + 1;
                }
            }
            proof {
                assert forall|l: int| 1 <= l <= layer implies live_count(
                    #[trigger] self.store.live_at(l), self.store.live_at(l).len() as int) <= features_per_layer by {
                    if l < layer {
                        assert(self.store.live_at(l) == before.live_at(l));
                    } else {
                        if references@.len() <= features_per_layer {
                            assert(self.store == before);
                        }
                    }
                }
            }
            layer_index = layer_index + 1;
        }
    }
}

/// The stores of one observation: with a preceding batch, `rescored` has
/// every score taken on this batch, and `pruned` has the candidates
/// promoted, no candidate left and at most `features_per_layer` live
/// features per layer (without one, both are `before`); `after` has the
/// live features of `pruned` and its candidates extended by candidates
/// learned on this batch over the features of `pruned`.
pub open spec fn observed_stores(
    before: FeatureStore,
    rescored: FeatureStore,
    pruned: FeatureStore,
    after: FeatureStore,
    batch: SignBatch,
    config: FeatureLearningConfig,
    had_batch: bool,
) -> bool {
    &&& had_batch ==> {
        &&& same_shape(before, rescored)
        &&& scored(before, rescored, batch, config.batch_size as int)
        &&& pruned.sources() == rescored.sources()
        &&& pruned.layer_count() == rescored.layer_count()
        &&& forall|l: int| 1 <= l <= pruned.layer_count() ==> (#[trigger] pruned.candidates_at(l)).len() == 0
        &&& forall|l: int| 1 <= l <= pruned.layer_count() ==> live_count(
            #[trigger] pruned.live_at(l), pruned.live_at(l).len() as int) <= config.features_per_layer
    }
    &&& !had_batch ==> rescored == before && pruned == before
    &&& candidates_grown(pruned, after, config.candidate_capacity as int)
    &&& new_candidates_learned(pruned, after, batch)
    &&& new_candidates_from_parents(pruned, after, config.parent_top_k as int)
}

/// `p` is a set of the `k` ids of `refs` ranking highest in `store` (all of
/// them when fewer): every id of `refs` left out ranks below each id in `p`.
pub open spec fn top_set(p: Seq<FeatureId>, refs: Seq<FeatureId>, k: int, store: FeatureStore) -> bool {
    &&& p.len() == (if refs.len() <= k { refs.len() as int } else { k })
    &&& forall|z: FeatureId| #[trigger] p.contains(z) ==> refs.contains(z)
    &&& forall|z: FeatureId, y: FeatureId| p.contains(z) && refs.contains(y) && !p.contains(y)
        ==> #[trigger] fid_before(store, z, y)
}

/// Each candidate learned in an observation pairs two of the top
/// `parent_top_k` features of the layer beneath: there is a set of that many
/// ids of the layer (all of them when fewer) holding both inputs, and every
/// id of the layer left out ranks below each id in the set (lower score, or
/// equal score and higher id).
pub proof fn law_candidates_pair_top_parents(
    before: FeatureStore,
    rescored: FeatureStore,
    pruned: FeatureStore,
    after: FeatureStore,
    batch: SignBatch,
    config: FeatureLearningConfig,
    had_batch: bool,
    l: int,
    i: int,
)
    requires
        observed_stores(before, rescored, pruned, after, batch, config, had_batch),
        1 <= l <= after.layer_count(),
        0 <= i < after.candidates_at(l).len(),
        l > pruned.layer_count() || i >= pruned.candidates_at(l).len(),
    ensures
        exists|p: Seq<FeatureId>| #[trigger] top_set(p, layer_refs(pruned, l - 1), config.parent_top_k as int, pruned)
            && p.contains(after.candidates_at(l)[i].inputs[0]) && p.contains(after.candidates_at(l)[i].inputs[1]),
{
    let refs = layer_refs(pruned, l - 1);
    let k = config.parent_top_k as int;
    let c = after.candidates_at(l)[i];
    assert(from_parents(pruned, c, l, k));
    let p = choose|p: Seq<FeatureId>| #[trigger] fid_ranked_prefix(layer_refs(pruned, l - 1), pruned, k, p)
        && p.contains(c.inputs[0]) && p.contains(c.inputs[1]);
    let ranked = choose|ranked: Seq<FeatureId>| #[trigger] ranked.to_multiset() == refs.to_multiset() && fids_sorted(ranked, pruned)
        && p == ranked.take(if refs.len() <= k { refs.len() as int } else { k });
    assert(ranked.len() == refs.len()) by {
        ranked.to_multiset_ensures();
        refs.to_multiset_ensures();
    }
    let m = if refs.len() <= k { refs.len() as int } else { k };
    assert forall|z: FeatureId| #[trigger] p.contains(z) implies refs.contains(z) by {
        let a = choose|a: int| 0 <= a < p.len() && p[a] == z;
        assert(ranked[a] == z);
        vstd::seq_lib::to_multiset_contains(ranked, z);
        vstd::seq_lib::to_multiset_contains(refs, z);
    }
    assert forall|z: FeatureId, y: FeatureId| p.contains(z) && refs.contains(y) && !p.contains(y)
        implies #[trigger] fid_before(pruned, z, y) by {
        let a = choose|a: int| 0 <= a < p.len() && p[a] == z;
        assert(ranked[a] == z);
        vstd::seq_lib::to_multiset_contains(refs, y);
        vstd::seq_lib::to_multiset_contains(ranked, y);
        let j = choose|j: int| 0 <= j < ranked.len() && ranked[j] == y;
        if j < m {
            assert(p[j] == y);
        }
        assert(!fid_before(pruned, ranked[j], ranked[a]));
        assert(z != y);
    }
    assert(top_set(p, refs, k, pruned));
}

impl FeatureLearner {
    /// Scores the preceding batch's candidates on this batch, promotes them
    /// and prunes every layer to `features_per_layer` live features, then
    /// trains new candidates on this batch.
    pub fn observe_batch(&mut self, batch: SignBatch<'_>) -> (r: Result<(), FeatureLearningError>)
        requires
            old(self).wf(),
            forall|l: int| 1 <= l <= old(self).store.layer_count() ==> (#[trigger] old(self).store.live_at(l)).len()
                + old(self).store.candidates_at(l).len() < usize::MAX,
        ensures
            final(self).wf(),
            final(self).config == old(self).config,
            final(self).store.sources().len() == old(self).store.sources().len(),
            !batch_ok(batch, old(self).store.sources().len() as int, old(self).config.batch_size as int)
                ==> r == Err::<(), FeatureLearningError>(FeatureLearningError::InvalidBatch) && *final(self) == *old(self),
            r is Ok ==> final(self).has_previous_batch,
            r is Ok && old(self).has_previous_batch ==> forall|l: int| 1 <= l <= old(self).store.layer_count() ==> live_count(
                #[trigger] final(self).store.live_at(l), final(self).store.live_at(l).len() as int) <= final(self).config.features_per_layer,
            refs_sound(old(self).store) ==> refs_sound(final(self).store),
            refs_sound(old(self).store) && batch_ok(batch, old(self).store.sources().len() as int, old(self).config.batch_size as int)
                ==> r is Ok,
            r is Ok ==> exists|rescored: FeatureStore, pruned: FeatureStore| #[trigger] observed_stores(
                old(self).store, rescored, pruned, final(self).store, batch, old(self).config, old(self).has_previous_batch),
    {
        match self.validate_batch(batch) {
            Ok(()) => {},
            Err(e) => {
                return Err(e);
            },
        }
        let ghost rescored = self.store;
        if self.has_previous_batch {
            match self.refresh_scores(batch) {
                Ok(()) => {},
                Err(e) => {
                    return Err(e);
                },
            }
            proof {
                rescored = self.store;
            }
            proof {
                assert forall|l: int| 1 <= l <= self.store.layer_count() implies (#[trigger] self.store.live_at(l)).len()
                    + self.store.candidates_at(l).len() < usize::MAX by {
                    assert(self.store.live_at(l).len() == old(self).store.live_at(l).len());
                }
            }
            self.promote_and_prune();
            assert(self.store.layer_count() == old(self).store.layer_count());
        }
        let ghost pruned = self.store;
        proof {
            if old(self).has_previous_batch {
                assert(forall|l: int| 1 <= l <= pruned.layer_count() ==> live_count(
                    #[trigger] pruned.live_at(l), pruned.live_at(l).len() as int) <= self.config.features_per_layer);
            }
        }
        match self.learn_candidates(batch) {
            Ok(()) => {},
            Err(e) => {
                return Err(e);
            },
        }
        self.has_previous_batch = true;
        proof {
            assert(observed_stores(old(self).store, rescored, pruned, self.store, batch, old(self).config, old(self).has_previous_batch));
            if old(self).has_previous_batch {
                assert forall|l: int| 1 <= l <= old(self).store.layer_count() implies live_count(
                    #[trigger] self.store.live_at(l), self.store.live_at(l).len() as int) <= self.config.features_per_layer by {
                    assert(pruned.layer_count() == old(self).store.layer_count());
                    assert(self.store.live_at(l) == pruned.live_at(l));
                    assert(live_count(pruned.live_at(l), pruned.live_at(l).len() as int) <= self.config.features_per_layer);
                }
            }
        }
        Ok(())
    }
}

} // verus!
