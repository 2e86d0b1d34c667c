//! The integer core of an online ensemble of batch-learned boolean
//! functions: one prediction pending at a time, observed rows collected into
//! a batch, a function built and compacted from each full batch, and the
//! oldest-weakest function dropped when the ensemble is full. The weights
//! that combine the functions are kept by the caller.

use vstd::prelude::*;
use crate::batch::{SignBatch, slice_range};
use crate::conjunction_build_common::MAX_BATCH_SIZE;
use crate::function_build_common::{
    FunctionBuildConfig, FunctionBuildError, FunctionModel, build_capacity, constant_col, derive_build_capacity,
    fcol, fcount, topological,
};
use crate::function_builder::{FunctionBuilder, batch_fits, model_built, varying_count, varying_upto};
use crate::function_compact::{CompactError, built_value, compact_build_workspace_into, source_inputs_below};
use crate::function_graph::{FunctionGraph, nodes_topological};
use crate::function_workspace::{BuildWorkspace, prefix_topological};
use crate::workspace::{WorkspaceError, filled};

verus! {

#[derive(Debug, Clone, Copy, PartialEq, Eq, Structural)]
pub enum EnsembleError {
    InvalidConfig,
    InvalidInput,
    PendingPrediction,
    NoPendingPrediction,
    Build,
    Compact,
}

impl From<FunctionBuildError> for EnsembleError {
    fn from(error: FunctionBuildError) -> (r: Self) {
        EnsembleError::Build
    }
}

impl vstd::std_specs::convert::FromSpecImpl<FunctionBuildError> for EnsembleError {
    open spec fn obeys_from_spec() -> bool {
        true
    }

    open spec fn from_spec(error: FunctionBuildError) -> Self {
        EnsembleError::Build
    }
}

impl From<CompactError> for EnsembleError {
    fn from(error: CompactError) -> (r: Self) {
        match error {
            CompactError::ExpertTooLarge => EnsembleError::Compact,
            CompactError::InvalidOutput => EnsembleError::Build,
        }
    }
}

impl vstd::std_specs::convert::FromSpecImpl<CompactError> for EnsembleError {
    open spec fn obeys_from_spec() -> bool {
        true
    }

    open spec fn from_spec(error: CompactError) -> Self {
        match error {
            CompactError::ExpertTooLarge => EnsembleError::Compact,
            CompactError::InvalidOutput => EnsembleError::Build,
        }
    }
}

impl From<WorkspaceError> for EnsembleError {
    fn from(error: WorkspaceError) -> (r: Self) {
        EnsembleError::InvalidConfig
    }
}

impl vstd::std_specs::convert::FromSpecImpl<WorkspaceError> for EnsembleError {
    open spec fn obeys_from_spec() -> bool {
        true
    }

    open spec fn from_spec(error: WorkspaceError) -> Self {
        EnsembleError::InvalidConfig
    }
}

/// Integer settings of an ensemble: SGD steps per observation, rows per
/// batch, parents kept per layer, functions kept, nodes per function.
#[derive(Debug, Clone, Copy)]
pub struct EnsembleShape {
    pub sgd_steps: usize,
    pub batch_size: usize,
    pub parent_top_k: usize,
    pub max_functions: usize,
    pub max_expert_nodes: usize,
}

/// Largest parent width, node budget and graph size the buffers index with
/// 16-bit node numbers.
pub const MAX_SHAPE_NODES: usize = 0xffff;

/// Largest number of source features whose batch buffer fits in memory.
pub const MAX_SOURCE_FEATURES: usize = 0x100_0000;

/// Settings an ensemble accepts for `d` source features: at least one
/// feature, function, SGD step and node, two parents, a batch that fits a
/// counter, and a build graph that 16-bit node numbers can index.
pub open spec fn shape_ok(shape: EnsembleShape, d: int) -> bool {
    &&& 1 <= d <= MAX_SOURCE_FEATURES
    &&& shape.max_functions != 0
    &&& shape.sgd_steps != 0
    &&& 2 <= shape.parent_top_k <= MAX_SHAPE_NODES
    &&& 1 <= shape.max_expert_nodes <= MAX_SHAPE_NODES
    &&& 1 <= shape.batch_size <= MAX_BATCH_SIZE
    &&& build_capacity(d, shape.parent_top_k as int, shape.max_expert_nodes as int).2 <= MAX_SHAPE_NODES
}

impl EnsembleShape {
    /// Refuses settings an ensemble cannot run with.
    pub fn validate(&self, source_feature_count: usize) -> (r: Result<(), EnsembleError>)
        ensures
            r is Ok <==> shape_ok(*self, source_feature_count as int),
            r is Err ==> r == Err::<(), EnsembleError>(EnsembleError::InvalidConfig),
    {
        if source_feature_count == 0 || source_feature_count > MAX_SOURCE_FEATURES || self.max_functions == 0
            || self.sgd_steps == 0 || self.parent_top_k < 2 || self.parent_top_k > MAX_SHAPE_NODES
            || self.max_expert_nodes == 0 || self.max_expert_nodes > MAX_SHAPE_NODES || self.batch_size == 0
            || self.batch_size > MAX_BATCH_SIZE {
            return Err(EnsembleError::InvalidConfig);
        }
        proof {
            lemma_shape_products(self.parent_top_k, self.max_expert_nodes);
        }
        let (_, _, graph_nodes) = derive_build_capacity(source_feature_count, self.parent_top_k, self.max_expert_nodes);
        if graph_nodes > MAX_SHAPE_NODES {
            return Err(EnsembleError::InvalidConfig);
        }
        Ok(())
    }
}

proof fn lemma_shape_products(k_p: usize, n_max: usize)
    requires
        k_p <= MAX_SHAPE_NODES,
        n_max <= MAX_SHAPE_NODES,
    ensures
        k_p * k_p <= usize::MAX,
        (if n_max >= 1 { n_max } else { 1 }) * k_p + k_p + 1 <= usize::MAX,
{
    assert(k_p * k_p <= 0xffff * 0xffff) by (nonlinear_arith)
        requires k_p <= 0xffff;
    let m: int = if n_max >= 1 { n_max as int } else { 1 };
    assert(m * k_p <= 0xffff * 0xffff) by (nonlinear_arith)
        requires 1 <= m <= 0xffff, k_p <= 0xffff;
}

/// The build settings of an ensemble's batches.
pub open spec fn shape_build_config(shape: EnsembleShape, d: int) -> FunctionBuildConfig {
    let cap = build_capacity(d, shape.parent_top_k as int, shape.max_expert_nodes as int);
    FunctionBuildConfig {
        batch_size: shape.batch_size,
        parent_top_k: shape.parent_top_k,
        max_composed_layers: cap.0 as usize,
        max_graph_nodes: cap.2 as usize,
        max_expert_nodes: shape.max_expert_nodes,
    }
}

/// `batch` holds the `d` columns of `columns`, `bs` rows each, column after
/// column, and the labels `labels`.
pub open spec fn holds_batch(batch: SignBatch, columns: Seq<bool>, labels: Seq<bool>, bs: int, d: int) -> bool {
    &&& batch.flat is None
    &&& batch.feature_columns@.len() == d
    &&& forall|g: int| 0 <= g < d ==> (#[trigger] batch.feature_columns@[g])@ == columns.subrange(g * bs, g * bs + bs)
    &&& batch.signs@ == labels
}

/// A kept function: well formed, its nodes in topological order, its output
/// one of at most `max_nodes` nodes.
pub open spec fn function_ok(f: FunctionGraph, max_nodes: int) -> bool {
    &&& f.wf()
    &&& nodes_topological(f.node_list(), f.source_capacity() as int)
    &&& f.output_node() < f.node_list().len()
    &&& f.node_list().len() <= max_nodes
}

/// Value of every kept function on `features`.
pub open spec fn function_values(functions: Seq<FunctionGraph>, features: Seq<bool>) -> Seq<bool> {
    Seq::new(functions.len(), |k: int| functions[k].value(features))
}

/// The functions after one more is kept: the one at `prune` leaves first
/// when the ensemble is full.
pub open spec fn functions_after_push(functions: Seq<FunctionGraph>, graph: FunctionGraph, prune: int, max_functions: int) -> Seq<FunctionGraph> {
    if functions.len() >= max_functions { functions.remove(prune).push(graph) } else { functions.push(graph) }
}

/// Number of non-constant columns among the first `k` batch columns.
pub open spec fn varying_columns_upto(columns: Seq<bool>, batch_size: int, k: int) -> nat
    decreases k,
{
    if k <= 0 {
        0
    } else {
        varying_columns_upto(columns, batch_size, k - 1) + if constant_col(
            columns.subrange((k - 1) * batch_size, (k - 1) * batch_size + batch_size),
        ) { 0nat } else { 1nat }
    }
}

#[derive(Debug)]
pub struct BooleanEnsemble {
    shape: EnsembleShape,
    source_feature_count: usize,
    functions: Vec<FunctionGraph>,
    n_observed: usize,
    pending: bool,
    pending_features: Vec<bool>,
    pending_function_values: Vec<bool>,
    batch_features: Vec<bool>,
    batch_signs: Vec<bool>,
    batch_len: usize,
    build: BuildWorkspace,
    build_config: FunctionBuildConfig,
    eval_scratch: Vec<bool>,
}

impl BooleanEnsemble {
    pub closed spec fn settings(&self) -> EnsembleShape {
        self.shape
    }

    pub closed spec fn inputs(&self) -> int {
        self.source_feature_count as int
    }

    pub closed spec fn kept(&self) -> Seq<FunctionGraph> {
        self.functions@
    }

    pub closed spec fn observed(&self) -> int {
        self.n_observed as int
    }

    pub closed spec fn is_pending(&self) -> bool {
        self.pending
    }

    /// Features of the last prediction.
    pub closed spec fn pending_inputs(&self) -> Seq<bool> {
        self.pending_features@
    }

    /// Values of the kept functions on the features of the last prediction.
    pub closed spec fn pending_values(&self) -> Seq<bool> {
        self.pending_function_values@
    }

    /// Rows of the current batch.
    pub closed spec fn batch_rows(&self) -> int {
        self.batch_len as int
    }

    /// Feature columns of the current batch, column after column.
    pub closed spec fn batch_columns(&self) -> Seq<bool> {
        self.batch_features@
    }

    /// Labels of the current batch.
    pub closed spec fn batch_labels(&self) -> Seq<bool> {
        self.batch_signs@
    }

    pub closed spec fn wf(&self) -> bool {
        let d = self.source_feature_count as int;
        let bs = self.shape.batch_size as int;
        &&& shape_ok(self.shape, d)
        &&& self.functions@.len() <= self.shape.max_functions
        &&& forall|k: int| 0 <= k < self.functions@.len() ==> function_ok(#[trigger] self.functions@[k], self.shape.max_expert_nodes as int)
        &&& self.eval_scratch@.len() == self.shape.max_expert_nodes
        &&& self.pending_features@.len() == d
        &&& self.pending_function_values@.len() == self.functions@.len()
        &&& self.pending_function_values@ == function_values(self.functions@, self.pending_features@)
        &&& self.batch_features@.len() == d * bs
        &&& self.batch_signs@.len() == bs
        &&& self.batch_len <= bs
        &&& self.build.wf()
        &&& self.build_config == shape_build_config(self.shape, d)
        &&& self.build.capacity() == self.build_config.max_graph_nodes
        &&& self.build_config.valid()
    }

    /// Kept functions never exceed the ensemble's limit.
    pub proof fn law_function_count_bounded(&self)
        requires
            self.wf(),
        ensures
            self.kept().len() <= self.settings().max_functions,
            shape_ok(self.settings(), self.inputs()),
    {
    }

    /// An ensemble with no function, no pending prediction and an empty batch.
    pub fn new(source_feature_count: usize, shape: EnsembleShape) -> (r: Result<Self, EnsembleError>)
        ensures
            r is Err <==> !shape_ok(shape, source_feature_count as int),
            r is Err ==> r == Err::<Self, EnsembleError>(EnsembleError::InvalidConfig),
            r matches Ok(e) ==> {
                &&& e.wf()
                &&& e.settings() == shape
                &&& e.inputs() == source_feature_count
                &&& e.kept().len() == 0
                &&& e.observed() == 0
                &&& !e.is_pending()
                &&& e.batch_rows() == 0
            },
    {
        match shape.validate(source_feature_count) {
            Ok(()) => {},
            Err(e) => {
                return Err(e);
            },
        }
        proof {
            lemma_shape_products(shape.parent_top_k, shape.max_expert_nodes);
            lemma_config_valid(shape, source_feature_count as int);
        }
        let build_config = FunctionBuildConfig::new(shape.batch_size, shape.parent_top_k, source_feature_count, shape.max_expert_nodes);
        let build = BuildWorkspace::new(build_config.max_graph_nodes);
        proof {
            assert(source_feature_count * shape.batch_size <= 0x100_0000 * 255) by (nonlinear_arith)
                requires source_feature_count <= 0x100_0000, shape.batch_size <= 255;
        }
        let r = Self {
            shape,
            source_feature_count,
            functions: Vec::new(),
            n_observed: 0,
            pending: false,
            pending_features: filled(false, source_feature_count),
            pending_function_values: Vec::new(),
            batch_features: filled(false, source_feature_count * shape.batch_size),
            batch_signs: filled(false, shape.batch_size),
            batch_len: 0,
            build,
            build_config,
            eval_scratch: filled(false, shape.max_expert_nodes),
        };
        assert(r.pending_function_values@ =~= function_values(r.functions@, r.pending_features@));
        Ok(r)
    }

    pub fn function_count(&self) -> (r: usize)
        ensures
            r == self.kept().len(),
    {
        self.functions.len()
    }

    pub fn n_observed(&self) -> (r: usize)
        ensures
            r == self.observed(),
    {
        self.n_observed
    }

    pub fn batch_len(&self) -> (r: usize)
        ensures
            r == self.batch_rows(),
    {
        self.batch_len
    }

    pub fn is_pending_prediction(&self) -> (r: bool)
        ensures
            r == self.is_pending(),
    {
        self.pending
    }

    /// The kept function at `index`.
    pub fn function(&self, index: usize) -> (r: &FunctionGraph)
        requires
            index < self.kept().len(),
        ensures
            *r == self.kept()[index as int],
    {
        &self.functions[index]
    }

    /// Values of the kept functions on the features of the last prediction.
    pub fn function_values(&self) -> (r: &[bool])
        ensures
            r@ == self.pending_values(),
    {
        self.pending_function_values.as_slice()
    }

    /// Refuses features of the wrong width.
    pub fn validate_features(&self, features: &[bool]) -> (r: Result<(), EnsembleError>)
        ensures
            r is Ok <==> features@.len() == self.inputs(),
            r is Err ==> r == Err::<(), EnsembleError>(EnsembleError::InvalidInput),
    {
        if features.len() == self.source_feature_count {
            Ok(())
        } else {
            Err(EnsembleError::InvalidInput)
        }
    }

    /// Starts a prediction: records the features and the value of every kept
    /// function on them. Refused while another prediction is pending, and for
    /// features of the wrong width; a refusal changes nothing.
    pub fn begin_predict(&mut self, features: &[bool]) -> (r: Result<(), EnsembleError>)
        requires
            old(self).wf(),
        ensures
            final(self).wf(),
            old(self).is_pending() ==> r == Err::<(), EnsembleError>(EnsembleError::PendingPrediction),
            !old(self).is_pending() && features@.len() != old(self).inputs() ==> r == Err::<(), EnsembleError>(
                EnsembleError::InvalidInput),
            r is Err ==> *final(self) == *old(self),
            !old(self).is_pending() && features@.len() == old(self).inputs() ==> r is Ok,
            r is Ok ==> {
                &&& final(self).is_pending()
                &&& final(self).pending_inputs() == features@
                &&& final(self).pending_values() == function_values(old(self).kept(), features@)
                &&& final(self).kept() == old(self).kept()
                &&& final(self).settings() == old(self).settings()
                &&& final(self).inputs() == old(self).inputs()
                &&& final(self).observed() == old(self).observed()
                &&& final(self).batch_rows() == old(self).batch_rows()
                &&& final(self).batch_columns() == old(self).batch_columns()
                &&& final(self).batch_labels() == old(self).batch_labels()
            },
    {
        if self.pending {
            return Err(EnsembleError::PendingPrediction);
        }
        match self.validate_features(features) {
            Ok(()) => {},
            Err(e) => {
                return Err(e);
            },
        }
        let mut copied: Vec<bool> = Vec::new();
        let mut i: usize = 0;
        while i < features.len()
            invariant
                i <= features@.len(),
                copied@ == features@.subrange(0, i as int),
            decreases features@.len() - i,
        {
            copied.push(features[i]);
            i = i + 1;
        }
        let mut values: Vec<bool> = Vec::new();
        let mut k: usize = 0;
        while k < self.functions.len()
            invariant
                self.wf(),
                !self.pending,
                self.functions == old(self).functions,
                self.shape == old(self).shape,
                self.source_feature_count == old(self).source_feature_count,
                self.n_observed == old(self).n_observed,
                self.batch_features == old(self).batch_features,
                self.batch_signs == old(self).batch_signs,
                self.batch_len == old(self).batch_len,
                k <= self.functions@.len(),
                values@ == function_values(self.functions@, features@).subrange(0, k as int),
            decreases self.functions@.len() - k,
        {
            let value = self.functions[k].evaluate_with_scratch(features, self.eval_scratch.as_mut_slice());
            values.push(value);
            proof {
                assert(values@ =~= function_values(self.functions@, features@).subrange(0, k + 1));
            }
            k = k + 1;
        }
        proof {
            assert(copied@ =~= features@);
            assert(values@ =~= function_values(self.functions@, features@));
        }
        self.pending_features = copied;
        self.pending_function_values = values;
        self.pending = true;
        Ok(())
    }

    /// Ends the pending prediction and counts one more observation; refused,
    /// with nothing changed, when no prediction is pending.
    pub fn take_pending(&mut self) -> (r: Result<(), EnsembleError>)
        requires
            old(self).wf(),
            old(self).observed() < usize::MAX,
        ensures
            final(self).wf(),
            !old(self).is_pending() <==> r == Err::<(), EnsembleError>(EnsembleError::NoPendingPrediction),
            old(self).is_pending() ==> r is Ok,
            r is Err ==> *final(self) == *old(self),
            r is Ok ==> {
                &&& !final(self).is_pending()
                &&& final(self).observed() == old(self).observed() + 1
                &&& final(self).pending_inputs() == old(self).pending_inputs()
                &&& final(self).pending_values() == old(self).pending_values()
                &&& final(self).kept() == old(self).kept()
                &&& final(self).settings() == old(self).settings()
                &&& final(self).inputs() == old(self).inputs()
                &&& final(self).batch_rows() == old(self).batch_rows()
                &&& final(self).batch_columns() == old(self).batch_columns()
                &&& final(self).batch_labels() == old(self).batch_labels()
            },
    {
        if !self.pending {
            return Err(EnsembleError::NoPendingPrediction);
        }
        self.pending = false;
        self.n_observed = self.n_observed + 1;
        Ok(())
    }

    /// Stores the last prediction's features and `sign` as the next row of
    /// the batch; returns whether the batch is full.
    pub fn record_sign(&mut self, sign: bool) -> (full: bool)
        requires
            old(self).wf(),
            !old(self).is_pending(),
            old(self).batch_rows() < old(self).settings().batch_size,
        ensures
            final(self).wf(),
            !final(self).is_pending(),
            final(self).batch_rows() == old(self).batch_rows() + 1,
            full == (final(self).batch_rows() == final(self).settings().batch_size),
            final(self).batch_labels() == old(self).batch_labels().update(old(self).batch_rows(), sign),
            forall|f: int, row: int| 0 <= f < old(self).inputs() && 0 <= row < old(self).settings().batch_size
                ==> #[trigger] final(self).batch_columns()[f * old(self).settings().batch_size + row] == if row
                == old(self).batch_rows() {
                old(self).pending_inputs()[f]
            } else {
                old(self).batch_columns()[f * old(self).settings().batch_size + row]
            },
            final(self).kept() == old(self).kept(),
            final(self).settings() == old(self).settings(),
            final(self).inputs() == old(self).inputs(),
            final(self).observed() == old(self).observed(),
            final(self).pending_inputs() == old(self).pending_inputs(),
            final(self).pending_values() == old(self).pending_values(),
    {
        let bs = self.shape.batch_size;
        let row = self.batch_len;
        let d = self.source_feature_count;
        let ghost before = self.batch_features@;
        let mut f: usize = 0;
        while f < d
            invariant
                self.wf(),
                d == self.source_feature_count,
                bs == self.shape.batch_size,
                row == self.batch_len,
                row < bs,
                self.shape == old(self).shape,
                self.functions == old(self).functions,
                self.pending == old(self).pending,
                self.pending_features == old(self).pending_features,
                self.pending_function_values == old(self).pending_function_values,
                self.batch_signs == old(self).batch_signs,
                self.n_observed == old(self).n_observed,
                before == old(self).batch_features@,
                f <= d,
                self.batch_features@.len() == before.len(),
                forall|g: int, r: int| 0 <= g < d && 0 <= r < bs ==> #[trigger] self.batch_features@[g * bs + r] == if r == row
                    && g < f {
                    self.pending_features@[g]
                } else {
                    before[g * bs + r]
                },
            decreases d - f,
        {
            proof {
                lemma_cell_bound(f as int, row as int, d as int, bs as int);
            }
            let at = f * bs + row;
            let value = self.pending_features[f];
            let ghost mid = self.batch_features@;
            self.batch_features.set(at, value);
            proof {
                assert forall|g: int, r: int| 0 <= g < d && 0 <= r < bs implies #[trigger] self.batch_features@[g * bs + r]
                    == if r == row && g < f + 1 { self.pending_features@[g] } else { before[g * bs + r] } by {
                    lemma_cell_bound(g, r, d as int, bs as int);
                    if g * bs + r == at {
                        lemma_cell_unique(g, r, f as int, row as int, bs as int);
                    } else {
                        assert(self.batch_features@[g * bs + r] == mid[g * bs + r]);
                        if g == f && r == row {
                            assert(false);
                        }
                    }
                }
            }
            f = f + 1;
        }
        self.batch_signs.set(row, sign);
        self.batch_len = row + 1;
        self.batch_len == bs
    }

    /// Builds a function from the full batch and compacts it. A batch whose
    /// feature columns are all constant gives none; a batch with more
    /// varying columns than the build graph holds, or a function larger than
    /// the node budget, is refused. Unless refused, the batch is emptied.
    pub fn finish_batch(&mut self) -> (r: Result<Option<FunctionGraph>, EnsembleError>)
        requires
            old(self).wf(),
            !old(self).is_pending(),
            old(self).batch_rows() == old(self).settings().batch_size,
        ensures
            final(self).wf(),
            !final(self).is_pending(),
            final(self).kept() == old(self).kept(),
            final(self).settings() == old(self).settings(),
            final(self).inputs() == old(self).inputs(),
            final(self).observed() == old(self).observed(),
            final(self).pending_inputs() == old(self).pending_inputs(),
            final(self).pending_values() == old(self).pending_values(),
            final(self).batch_columns() == old(self).batch_columns(),
            final(self).batch_labels() == old(self).batch_labels(),
            r is Ok ==> final(self).batch_rows() == 0,
            r is Err ==> final(self).batch_rows() == old(self).batch_rows(),
            varying_columns_upto(old(self).batch_columns(), old(self).settings().batch_size as int, old(self).inputs())
                == 0 ==> r == Ok::<Option<FunctionGraph>, EnsembleError>(None),
            varying_columns_upto(old(self).batch_columns(), old(self).settings().batch_size as int, old(self).inputs())
                > shape_build_config(old(self).settings(), old(self).inputs()).max_graph_nodes
                ==> r == Err::<Option<FunctionGraph>, EnsembleError>(EnsembleError::Build),
            r is Err ==> r == Err::<Option<FunctionGraph>, EnsembleError>(EnsembleError::Build) || r == Err::<
                Option<FunctionGraph>,
                EnsembleError,
            >(EnsembleError::Compact),
            r == Err::<Option<FunctionGraph>, EnsembleError>(EnsembleError::Compact) ==> 0 < varying_columns_upto(
                old(self).batch_columns(), old(self).settings().batch_size as int, old(self).inputs())
                <= shape_build_config(old(self).settings(), old(self).inputs()).max_graph_nodes,
            r matches Ok(Some(g)) ==> function_ok(g, old(self).settings().max_expert_nodes as int)
                && g.source_capacity() == old(self).inputs(),
            r == Err::<Option<FunctionGraph>, EnsembleError>(EnsembleError::Build) ==> varying_columns_upto(
                old(self).batch_columns(), old(self).settings().batch_size as int, old(self).inputs())
                > shape_build_config(old(self).settings(), old(self).inputs()).max_graph_nodes,
            r matches Ok(Some(g)) ==> exists|batch: SignBatch, model: FunctionModel, ws: BuildWorkspace| {
                &&& holds_batch(batch, old(self).batch_columns(), old(self).batch_labels(), old(self).settings().batch_size as int,
                    old(self).inputs())
                &&& #[trigger] model_built(model, batch, shape_build_config(old(self).settings(), old(self).inputs()), ws)
                &&& forall|f: Seq<bool>| #[trigger] g.value(f) == (built_value(ws.nodes@, f, model.output.0 as int) != model.invert_output)
            },
            r == Err::<Option<FunctionGraph>, EnsembleError>(EnsembleError::Compact) ==> exists|batch: SignBatch, model: FunctionModel, ws: BuildWorkspace| {
                &&& holds_batch(batch, old(self).batch_columns(), old(self).batch_labels(), old(self).settings().batch_size as int,
                    old(self).inputs())
                &&& #[trigger] model_built(model, batch, shape_build_config(old(self).settings(), old(self).inputs()), ws)
                &&& ws.node_len > old(self).settings().max_expert_nodes
            },
    {
        let bs = self.shape.batch_size;
        let d = self.source_feature_count;
        let ghost cols = self.batch_features@;
        let mut columns: Vec<&[bool]> = Vec::new();
        let mut f: usize = 0;
        while f < d
            invariant
                self.wf(),
                d == self.source_feature_count,
                bs == self.shape.batch_size,
                cols == self.batch_features@,
                f <= d,
                columns@.len() == f,
                forall|g: int| 0 <= g < f ==> (#[trigger] columns@[g])@ == cols.subrange(g * bs, g * bs + bs),
            decreases d - f,
        {
            proof {
                lemma_cell_bound(f as int, bs - 1, d as int, bs as int);
            }
            columns.push(slice_range(self.batch_features.as_slice(), f * bs, f * bs + bs));
            f = f + 1;
        }
        let batch = SignBatch::from_columns(columns.as_slice(), self.batch_signs.as_slice());
        proof {
            assert forall|g: int| 0 <= g < fcount(batch) implies (#[trigger] fcol(batch, g)).len() == bs by {
                lemma_cell_bound(g, bs - 1, d as int, bs as int);
            }
            assert(batch_fits(batch, bs as int));
            lemma_varying_columns(batch, cols, bs as int, d as int);
            assert(holds_batch(batch, cols, self.batch_signs@, bs as int, d as int));
        }
        let ghost config = self.build_config;
        let model = match FunctionBuilder::build_in_workspace(batch, self.build_config, &mut self.build) {
            Ok(model) => model,
            Err(FunctionBuildError::InvalidBatch) => {
                self.batch_len = 0;
                return Ok(None);
            },
            Err(e) => {
                return Err(EnsembleError::from(e));
            },
        };
        let mut graph = FunctionGraph::empty(d, self.shape.max_expert_nodes);
        proof {
            let nodes = model.graph.nodes@;
            let ws = self.build;
            assert(nodes == ws.nodes@.subrange(0, ws.node_len as int));
            assert(topological(nodes));
            assert(prefix_topological(ws.nodes@, ws.node_len as int)) by {
                assert forall|i: int| 0 <= i < ws.node_len implies match #[trigger] ws.nodes@[i] {
                    crate::function_build_common::EphemeralNode::Source { input_index } => true,
                    crate::function_build_common::EphemeralNode::Composed { first, second, truth_table } => first.0 < i && second.0 < i,
                } by {
                    assert(ws.nodes@[i] == nodes[i]);
                }
            }
            assert(source_inputs_below(ws.nodes@, ws.node_len as int, d as int)) by {
                assert forall|i: int| 0 <= i < ws.node_len implies match #[trigger] ws.nodes@[i] {
                    crate::function_build_common::EphemeralNode::Source { input_index } => input_index < d,
                    crate::function_build_common::EphemeralNode::Composed { first, second, truth_table } => true,
                } by {
                    assert(ws.nodes@[i] == nodes[i]);
                }
            }
        }
        let ghost built = self.build;
        match compact_build_workspace_into(&mut self.build, model.output, model.invert_output, self.shape.max_expert_nodes, &mut graph) {
            Ok(()) => {},
            Err(e) => {
                proof {
                    assert(model_built(model, batch, config, built));
                }
                return Err(EnsembleError::from(e));
            },
        }
        proof {
            assert(model_built(model, batch, config, built));
            assert(forall|f: Seq<bool>| #[trigger] graph.value(f) == (built_value(built.nodes@, f, model.output.0 as int) != model.invert_output));
        }
        proof {
            graph.lemma_sources_within();
            assert(nodes_topological(graph.node_list(), graph.source_capacity() as int)) by {
                assert forall|i: int| 0 <= i < graph.node_list().len() implies match #[trigger] graph.node_list()[i] {
                    crate::function_graph::CompactNode::Source(s) => s < graph.source_capacity(),
                    crate::function_graph::CompactNode::Constant(_) => true,
                    crate::function_graph::CompactNode::Composed { first, second, truth_table } => first < i && second < i,
                } by {
                    assert(nodes_topological(graph.node_list(), graph.sources().len() as int));
                }
            }
        }
        self.batch_len = 0;
        proof {
            assert(config == shape_build_config(old(self).settings(), old(self).inputs()));
            assert(holds_batch(batch, old(self).batch_columns(), old(self).batch_labels(), old(self).settings().batch_size as int,
                old(self).inputs()));
        }
        Ok(Some(graph))
    }

    /// Keeps `graph`; when the ensemble is full, the function at `prune`
    /// leaves first.
    pub fn push_function(&mut self, graph: FunctionGraph, prune: usize)
        requires
            old(self).wf(),
            !old(self).is_pending(),
            function_ok(graph, old(self).settings().max_expert_nodes as int),
            old(self).kept().len() >= old(self).settings().max_functions ==> prune < old(self).kept().len(),
        ensures
            final(self).wf(),
            !final(self).is_pending(),
            final(self).kept() == functions_after_push(old(self).kept(), graph, prune as int,
                old(self).settings().max_functions as int),
            final(self).settings() == old(self).settings(),
            final(self).inputs() == old(self).inputs(),
            final(self).observed() == old(self).observed(),
            final(self).pending_inputs() == old(self).pending_inputs(),
            final(self).batch_rows() == old(self).batch_rows(),
            final(self).batch_columns() == old(self).batch_columns(),
            final(self).batch_labels() == old(self).batch_labels(),
    {
        let ghost before = self.functions@;
        let max_nodes = self.shape.max_expert_nodes;
        if self.functions.len() >= self.shape.max_functions {
            self.functions.remove(prune);
        }
        self.functions.push(graph);
        proof {
            let after = self.functions@;
            assert(after =~= functions_after_push(before, graph, prune as int, self.shape.max_functions as int));
            assert forall|j: int| 0 <= j < after.len() implies function_ok(#[trigger] after[j], max_nodes as int) by {
                if j == after.len() - 1 {
                    assert(after[j] == graph);
                } else if before.len() >= self.shape.max_functions {
                    if j < prune {
                        assert(after[j] == before[j]);
                    } else {
                        assert(after[j] == before[j + 1]);
                    }
                } else {
                    assert(after[j] == before[j]);
                }
            }
        }
        let ghost features = self.pending_features@;
        let ghost frame = *self;
        let mut values: Vec<bool> = Vec::new();
        let mut k: usize = 0;
        while k < self.functions.len()
            invariant
                self.shape == frame.shape,
                self.source_feature_count == frame.source_feature_count,
                self.functions == frame.functions,
                self.n_observed == frame.n_observed,
                self.pending == frame.pending,
                self.pending_features == frame.pending_features,
                self.batch_features == frame.batch_features,
                self.batch_signs == frame.batch_signs,
                self.batch_len == frame.batch_len,
                self.build == frame.build,
                self.build_config == frame.build_config,
                self.functions@.len() <= self.shape.max_functions,
                forall|j: int| 0 <= j < self.functions@.len() ==> function_ok(#[trigger] self.functions@[j], self.shape.max_expert_nodes as int),
                self.eval_scratch@.len() == self.shape.max_expert_nodes,
                features == self.pending_features@,
                k <= self.functions@.len(),
                values@ == function_values(self.functions@, features).subrange(0, k as int),
            decreases self.functions@.len() - k,
        {
            let value = self.functions[k].evaluate_with_scratch(self.pending_features.as_slice(), self.eval_scratch.as_mut_slice());
            values.push(value);
            proof {
                assert(values@ =~= function_values(self.functions@, features).subrange(0, k + 1));
            }
            k = k + 1;
        }
        proof {
            assert(values@ =~= function_values(self.functions@, features));
        }
        self.pending_function_values = values;
    }
}

proof fn lemma_cell_bound(f: int, row: int, d: int, bs: int)
    requires
        0 <= f < d <= MAX_SOURCE_FEATURES,
        0 <= row < bs <= MAX_BATCH_SIZE,
    ensures
        0 <= f * bs + row < d * bs,
        f * bs + bs <= d * bs,
        d * bs <= MAX_SOURCE_FEATURES * MAX_BATCH_SIZE,
{
    assert(0 <= f * bs + row < d * bs) by (nonlinear_arith)
        requires 0 <= f < d, 0 <= row < bs;
    assert(f * bs + bs <= d * bs) by (nonlinear_arith)
        requires 0 <= f < d, 0 <= bs;
    assert(d * bs <= MAX_SOURCE_FEATURES * MAX_BATCH_SIZE) by (nonlinear_arith)
        requires 0 <= d <= MAX_SOURCE_FEATURES, 0 <= bs <= MAX_BATCH_SIZE;
}

proof fn lemma_cell_unique(f: int, row: int, g: int, r: int, bs: int)
    requires
        0 <= row < bs,
        0 <= r < bs,
        0 <= f,
        0 <= g,
        f * bs + row == g * bs + r,
    ensures
        f == g,
        row == r,
{
    assert(f == g) by (nonlinear_arith)
        requires 0 <= row < bs, 0 <= r < bs, 0 <= f, 0 <= g, f * bs + row == g * bs + r;
}

/// The build settings of a valid shape are valid, and the build graph fits
/// 16-bit node numbers.
proof fn lemma_config_valid(shape: EnsembleShape, d: int)
    requires
        shape_ok(shape, d),
    ensures
        shape_build_config(shape, d).valid(),
{
    let k_p = shape.parent_top_k as int;
    let n_max = shape.max_expert_nodes as int;
    let cap = build_capacity(d, k_p, n_max);
    let source_cap = if k_p <= (if d >= 1 { d } else { 1 }) { k_p } else { if d >= 1 { d } else { 1 } };
    let l_build = if n_max - source_cap >= 1 { n_max - source_cap } else { 1 };
    assert(cap.2 == source_cap + l_build * k_p + 1);
    assert(l_build * k_p >= l_build) by (nonlinear_arith)
        requires l_build >= 1, k_p >= 2;
}

/// The builder counts as varying exactly the non-constant batch columns.
proof fn lemma_varying_columns(batch: SignBatch, cols: Seq<bool>, bs: int, d: int)
    requires
        fcount(batch) == d,
        forall|g: int| 0 <= g < d ==> #[trigger] fcol(batch, g) == cols.subrange(g * bs, g * bs + bs),
    ensures
        varying_count(batch) == varying_columns_upto(cols, bs, d),
{
    lemma_varying_columns_upto(batch, cols, bs, d);
}

proof fn lemma_varying_columns_upto(batch: SignBatch, cols: Seq<bool>, bs: int, k: int)
    requires
        k <= fcount(batch),
        forall|g: int| 0 <= g < fcount(batch) ==> #[trigger] fcol(batch, g) == cols.subrange(g * bs, g * bs + bs),
    ensures
        varying_upto(batch, k) == varying_columns_upto(cols, bs, k),
    decreases k,
{
    if k > 0 {
        lemma_varying_columns_upto(batch, cols, bs, k - 1);
        assert(fcol(batch, k - 1) == cols.subrange((k - 1) * bs, (k - 1) * bs + bs));
    }
}

} // verus!
