//! Composed two-input features grouped by dependency depth.

use vstd::prelude::*;

verus! {

/// A reference to either a source feature (layer zero) or a composed feature.
#[derive(Debug, Clone, Copy, PartialEq, Eq, Structural, PartialOrd, Ord, Hash)]
pub struct FeatureId {
    pub layer: usize,
    pub index: usize,
}

/// A composed two-input boolean feature and its pruning score.
#[derive(Debug, Clone, Copy, PartialEq)]
pub struct Feature {
    pub inputs: [FeatureId; 2],
    /// A four-bit truth table: bit `(x0 << 1) | x1` is the output.
    pub truth_table: u8,
    pub score: u8,
}

/// Why a composed feature could not be added to a [`FeatureStore`].
#[derive(Debug, Clone, Copy, PartialEq, Eq, Structural)]
pub enum InsertFeatureError {
    InvalidInputRef(FeatureId),
}

/// One learned layer: live features (`None` once pruned) and pending candidates.
#[derive(Debug, Clone)]
pub struct FeatureLayer {
    pub live: Vec<Option<Feature>>,
    pub candidates: Vec<Feature>,
}

/// Stores composed features grouped by their dependency depth.
///
/// Layer zero is the input-feature layer. Composed features start at layer
/// one; `layers[0]` consequently stores features at layer one.
#[derive(Debug, Clone)]
pub struct FeatureStore {
    source_scores: Vec<u8>,
    layers: Vec<FeatureLayer>,
}

/// `a` orders before `b`: by layer, then by index.
pub open spec fn id_less(a: FeatureId, b: FeatureId) -> bool {
    a.layer < b.layer || (a.layer == b.layer && a.index < b.index)
}

/// `next` is `prev` with `feature` appended to the candidates of `layer`,
/// the layer made if it was missing; live features are unchanged.
pub open spec fn candidate_appended(prev: FeatureStore, next: FeatureStore, layer: int, feature: Feature) -> bool {
    &&& next.sources() == prev.sources()
    &&& next.layer_count() == if prev.layer_count() < layer { layer } else { prev.layer_count() }
    &&& next.live_at(layer) == if layer <= prev.layer_count() { prev.live_at(layer) } else { Seq::empty() }
    &&& next.candidates_at(layer) == (if layer <= prev.layer_count() { prev.candidates_at(layer) } else { Seq::empty() }).push(feature)
    &&& forall|x: FeatureId| #[trigger] next.lookup(x) == prev.lookup(x)
    &&& forall|k: int| 1 <= k <= prev.layer_count() && k != layer ==> #[trigger] next.live_at(k) == prev.live_at(k)
        && next.candidates_at(k) == prev.candidates_at(k)
    &&& forall|k: int| prev.layer_count() < k <= next.layer_count() && k != layer
        ==> #[trigger] next.live_at(k).len() == 0 && next.candidates_at(k).len() == 0
}

/// Number of live entries among the first `n` of `live`.
pub open spec fn live_count(live: Seq<Option<Feature>>, n: int) -> nat
    decreases n,
{
    if n <= 0 { 0 } else { live_count(live, n - 1) + if live[n - 1] is Some { 1nat } else { 0nat } }
}

/// The ids of the live entries among the first `n` of `live`, in order.
pub open spec fn live_ids(live: Seq<Option<Feature>>, layer: usize, n: int) -> Seq<FeatureId>
    decreases n,
{
    if n <= 0 {
        Seq::empty()
    } else if live[n - 1] is Some {
        live_ids(live, layer, n - 1).push(FeatureId { layer, index: (n - 1) as usize })
    } else {
        live_ids(live, layer, n - 1)
    }
}

/// A feature's inputs lie in lower layers.
pub open spec fn below(f: Feature, layer: int) -> bool {
    f.inputs[0].layer < layer && f.inputs[1].layer < layer
}

impl FeatureStore {
    pub closed spec fn sources(&self) -> Seq<u8> {
        self.source_scores@
    }

    pub closed spec fn layer_count(&self) -> int {
        self.layers@.len() as int
    }

    pub proof fn lemma_layer_count_nonneg(&self)
        ensures
            self.layer_count() >= 0,
    {
    }

    /// Live features of learned layer `l` (`1 <= l`).
    pub closed spec fn live_at(&self, l: int) -> Seq<Option<Feature>> {
        self.layers@[l - 1].live@
    }

    /// Pending candidates of learned layer `l` (`1 <= l`).
    pub closed spec fn candidates_at(&self, l: int) -> Seq<Feature> {
        self.layers@[l - 1].candidates@
    }

    /// Every stored feature reads lower layers only.
    pub open spec fn wf(&self) -> bool {
        &&& forall|l: int, i: int| 1 <= l <= self.layer_count() && 0 <= i < self.live_at(l).len()
            ==> (#[trigger] self.live_at(l)[i] matches Some(f) ==> below(f, l))
        &&& forall|l: int, i: int| 1 <= l <= self.layer_count() && 0 <= i < self.candidates_at(l).len()
            ==> below(#[trigger] self.candidates_at(l)[i], l)
    }

    /// The live feature `reference` names, if any.
    pub open spec fn lookup(&self, reference: FeatureId) -> Option<Feature> {
        if 1 <= reference.layer <= self.layer_count() && reference.index < self.live_at(reference.layer as int).len() {
            self.live_at(reference.layer as int)[reference.index as int]
        } else {
            None
        }
    }

    /// `reference` names a source feature or a live feature.
    pub open spec fn valid_ref(&self, reference: FeatureId) -> bool {
        if reference.layer == 0 {
            reference.index < self.sources().len()
        } else {
            self.lookup(reference) is Some
        }
    }

    /// The stored score of `reference`, if it names something.
    pub open spec fn score_of(&self, reference: FeatureId) -> Option<u8> {
        if reference.layer == 0 {
            if reference.index < self.sources().len() { Some(self.sources()[reference.index as int]) } else { None }
        } else {
            match self.lookup(reference) {
                Some(f) => Some(f.score),
                None => None,
            }
        }
    }

    /// Same layer count; learned layer `l` alone may differ.
    pub open spec fn same_except_layer(&self, other: &Self, l: int) -> bool {
        &&& self.layer_count() == other.layer_count()
        &&& forall|k: int| 1 <= k <= self.layer_count() && k != l ==> #[trigger] self.live_at(k) == other.live_at(k)
            && self.candidates_at(k) == other.candidates_at(k)
    }

    pub fn new(source_feature_count: usize) -> (r: Self)
        ensures
            r.wf(),
            r.sources().len() == source_feature_count,
            forall|i: int| 0 <= i < source_feature_count ==> #[trigger] r.sources()[i] == 0,
            r.layer_count() == 0,
    {
        Self { source_scores: crate::workspace::filled(0u8, source_feature_count), layers: Vec::new() }
    }

    pub fn source_feature_count(&self) -> (r: usize)
        ensures
            r == self.sources().len(),
    {
        self.source_scores.len()
    }

    pub fn learned_layer_count(&self) -> (r: usize)
        ensures
            r == self.layer_count(),
    {
        self.layers.len()
    }

    /// Number of features in layer `layer`: the sources for layer zero, the
    /// live features for a learned layer; `None` past the last layer.
    pub fn layer_len(&self, layer: usize) -> (r: Option<usize>)
        ensures
            layer == 0 ==> r == Some(self.sources().len() as usize),
            layer > 0 ==> (r is Some <==> layer <= self.layer_count()),
            layer > 0 && r is Some ==> r == Some(live_count(self.live_at(layer as int), self.live_at(layer as int).len() as int) as usize),
    {
        if layer == 0 {
            return Some(self.source_feature_count());
        }
        if layer - 1 >= self.layers.len() {
            return None;
        }
        let live = &self.layers[layer - 1].live;
        let mut count: usize = 0;
        let mut i: usize = 0;
        while i < live.len()
            invariant
                i <= live@.len(),
                count == live_count(live@, i as int),
                count <= i,
            decreases live@.len() - i,
        {
            if live[i].is_some() {
                count = count + 1;
            }
            i = i + 1;
        }
        Some(count)
    }

    pub fn get(&self, reference: FeatureId) -> (r: Option<&Feature>)
        ensures
            r is Some <==> self.lookup(reference) is Some,
            r matches Some(f) ==> self.lookup(reference) == Some(*f),
    {
        if reference.layer == 0 || reference.layer - 1 >= self.layers.len() {
            return None;
        }
        let live = &self.layers[reference.layer - 1].live;
        if reference.index >= live.len() {
            return None;
        }
        match &live[reference.index] {
            Some(feature) => Some(feature),
            None => None,
        }
    }

    pub fn score(&self, reference: FeatureId) -> (r: Option<u8>)
        ensures
            r == self.score_of(reference),
    {
        if reference.layer == 0 {
            if reference.index < self.source_scores.len() {
                Some(self.source_scores[reference.index])
            } else {
                None
            }
        } else {
            match self.get(reference) {
                Some(feature) => Some(feature.score),
                None => None,
            }
        }
    }

    /// Sets the score of a source or live feature; an unknown reference is
    /// refused and nothing changes.
    pub fn set_score(&mut self, reference: FeatureId, score: u8) -> (r: Result<(), InsertFeatureError>)
        ensures
            r is Ok <==> old(self).valid_ref(reference),
            r is Err ==> r == Err::<(), InsertFeatureError>(InsertFeatureError::InvalidInputRef(reference))
                && *final(self) == *old(self),
            old(self).wf() ==> final(self).wf(),
            final(self).layer_count() == old(self).layer_count(),
            r is Ok ==> final(self).score_of(reference) == Some(score),
            r is Ok && reference.layer == 0 ==> final(self).sources() == old(self).sources().update(reference.index as int, score)
                && final(self).same_except_layer(old(self), -1),
            r is Ok && reference.layer > 0 ==> final(self).sources() == old(self).sources()
                && final(self).same_except_layer(old(self), reference.layer as int)
                && final(self).candidates_at(reference.layer as int) == old(self).candidates_at(reference.layer as int)
                && final(self).live_at(reference.layer as int) == old(self).live_at(reference.layer as int).update(
                    reference.index as int,
                    Some(Feature { score, ..old(self).lookup(reference).unwrap() }),
                ),
    {
        if reference.layer == 0 {
            if reference.index >= self.source_scores.len() {
                return Err(InsertFeatureError::InvalidInputRef(reference));
            }
            self.source_scores[reference.index] = score;
            proof {
                assert forall|k: int| 1 <= k <= self.layer_count() && k != -1 implies #[trigger] self.live_at(k) == old(self).live_at(k)
                    && self.candidates_at(k) == old(self).candidates_at(k) by {
                }
                if old(self).wf() {
                    assert forall|k: int, i: int| 1 <= k <= self.layer_count() && 0 <= i < self.live_at(k).len()
                        implies (#[trigger] self.live_at(k)[i] matches Some(f) ==> below(f, k)) by {
                        assert(old(self).live_at(k)[i] matches Some(f) ==> below(f, k));
                    }
                    assert forall|k: int, i: int| 1 <= k <= self.layer_count() && 0 <= i < self.candidates_at(k).len()
                        implies below(#[trigger] self.candidates_at(k)[i], k) by {
                        assert(below(old(self).candidates_at(k)[i], k));
                    }
                }
            }
            return Ok(());
        }
        if reference.layer - 1 >= self.layers.len() || reference.index >= self.layers[reference.layer - 1].live.len() {
            return Err(InsertFeatureError::InvalidInputRef(reference));
        }
        let l = reference.layer - 1;
        match self.layers[l].live[reference.index] {
            Some(feature) => {
                self.layers[l].live[reference.index] = Some(Feature { score, ..feature });
                proof {
                    let rl = reference.layer as int;
                    assert(self.live_at(rl) =~= old(self).live_at(rl).update(reference.index as int, Some(Feature { score, ..feature })));
                    assert forall|k: int| 1 <= k <= self.layer_count() && k != rl implies #[trigger] self.live_at(k) == old(self).live_at(k)
                        && self.candidates_at(k) == old(self).candidates_at(k) by {
                    }
                    if old(self).wf() {
                        assert forall|k: int, i: int| 1 <= k <= self.layer_count() && 0 <= i < self.live_at(k).len()
                            implies (#[trigger] self.live_at(k)[i] matches Some(f) ==> below(f, k)) by {
                            assert(old(self).live_at(k)[i] matches Some(f) ==> below(f, k));
                        }
                        assert forall|k: int, i: int| 1 <= k <= self.layer_count() && 0 <= i < self.candidates_at(k).len()
                            implies below(#[trigger] self.candidates_at(k)[i], k) by {
                            assert(below(old(self).candidates_at(k)[i], k));
                        }
                    }
                }
                Ok(())
            },
            None => Err(InsertFeatureError::InvalidInputRef(reference)),
        }
    }

    /// Ids of the features of layer `layer`: every source for layer zero,
    /// the live features of a learned layer, none past the last layer.
    pub fn live_refs_in_layer(&self, layer: usize) -> (r: Vec<FeatureId>)
        ensures
            layer == 0 ==> r@ == Seq::new(self.sources().len(), |i: int| FeatureId { layer: 0, index: i as usize }),
            layer > 0 && layer <= self.layer_count() ==> r@ == live_ids(self.live_at(layer as int), layer, self.live_at(layer as int).len() as int),
            layer > 0 && layer <= self.layer_count() ==> self.live_at(layer as int).len() <= usize::MAX,
            layer == 0 ==> self.sources().len() <= usize::MAX,
            layer > self.layer_count() ==> r@.len() == 0,
    {
        let mut out: Vec<FeatureId> = Vec::new();
        if layer == 0 {
            let n = self.source_scores.len();
            let mut i: usize = 0;
            while i < n
                invariant
                    layer == 0,
                    n == self.sources().len(),
                    i <= n,
                    out@ == Seq::new(i as nat, |k: int| FeatureId { layer: 0, index: k as usize }),
                decreases n - i,
            {
                out.push(FeatureId { layer, index: i });
                i = i + 1;
                assert(out@ =~= Seq::new(i as nat, |k: int| FeatureId { layer: 0, index: k as usize }));
            }
            return out;
        }
        if layer - 1 >= self.layers.len() {
            return out;
        }
        let live = &self.layers[layer - 1].live;
        let mut i: usize = 0;
        while i < live.len()
            invariant
                i <= live@.len(),
                out@ == live_ids(live@, layer, i as int),
            decreases live@.len() - i,
        {
            if live[i].is_some() {
                out.push(FeatureId { layer, index: i });
            }
            i = i + 1;
        }
        out
    }

    /// Number of live slots of learned layer `layer`, pruned ones included.
    pub(crate) fn live_slot_count(&self, layer: usize) -> (r: usize)
        requires
            1 <= layer <= self.layer_count(),
        ensures
            r == self.live_at(layer as int).len(),
    {
        self.layers[layer - 1].live.len()
    }

    pub fn candidate_len(&self, layer: usize) -> (r: Option<usize>)
        ensures
            r is Some <==> 1 <= layer <= self.layer_count(),
            r matches Some(n) ==> n == self.candidates_at(layer as int).len(),
    {
        if layer == 0 || layer - 1 >= self.layers.len() {
            return None;
        }
        Some(self.layers[layer - 1].candidates.len())
    }

    /// The pending candidates of learned layer `layer`.
    pub fn candidates(&self, layer: usize) -> (r: Option<&[Feature]>)
        ensures
            r is Some <==> 1 <= layer <= self.layer_count(),
            r matches Some(c) ==> c@ == self.candidates_at(layer as int),
    {
        if layer == 0 || layer - 1 >= self.layers.len() {
            return None;
        }
        Some(self.layers[layer - 1].candidates.as_slice())
    }

    /// Sets the score of candidate `index` of learned layer `layer`.
    pub fn set_candidate_score(&mut self, layer: usize, index: usize, score: u8)
        requires
            1 <= layer <= old(self).layer_count(),
            index < old(self).candidates_at(layer as int).len(),
        ensures
            old(self).wf() ==> final(self).wf(),
            final(self).sources() == old(self).sources(),
            final(self).same_except_layer(old(self), layer as int),
            final(self).live_at(layer as int) == old(self).live_at(layer as int),
            final(self).candidates_at(layer as int) == old(self).candidates_at(layer as int).update(
                index as int,
                Feature { score, ..old(self).candidates_at(layer as int)[index as int] },
            ),
    {
        let l = layer - 1;
        let feature = self.layers[l].candidates[index];
        self.layers[l].candidates[index] = Feature { score, ..feature };
        proof {
            assert(self.candidates_at(layer as int) =~= old(self).candidates_at(layer as int).update(
                index as int,
                Feature { score, ..old(self).candidates_at(layer as int)[index as int] },
            ));
            assert forall|k: int| 1 <= k <= self.layer_count() && k != layer implies #[trigger] self.live_at(k) == old(self).live_at(k)
                && self.candidates_at(k) == old(self).candidates_at(k) by {
            }
            if old(self).wf() {
                assert forall|k: int, i: int| 1 <= k <= self.layer_count() && 0 <= i < self.live_at(k).len()
                    implies (#[trigger] self.live_at(k)[i] matches Some(f) ==> below(f, k)) by {
                    assert(old(self).live_at(k)[i] matches Some(f) ==> below(f, k));
                }
                assert forall|k: int, i: int| 1 <= k <= self.layer_count() && 0 <= i < self.candidates_at(k).len()
                    implies below(#[trigger] self.candidates_at(k)[i], k) by {
                    assert(below(old(self).candidates_at(k)[i], k));
                }
            }
        }
    }

    /// Appends empty learned layers up to `layer`.
    fn ensure_layer(&mut self, layer: usize)
        ensures
            final(self).sources() == old(self).sources(),
            final(self).layer_count() == if old(self).layer_count() < layer { layer as int } else { old(self).layer_count() },
            forall|k: int| 1 <= k <= old(self).layer_count() ==> #[trigger] final(self).live_at(k) == old(self).live_at(k)
                && final(self).candidates_at(k) == old(self).candidates_at(k),
            forall|k: int| old(self).layer_count() < k <= final(self).layer_count()
                ==> #[trigger] final(self).live_at(k).len() == 0 && final(self).candidates_at(k).len() == 0,
            old(self).wf() ==> final(self).wf(),
    {
        while self.layers.len() < layer
            invariant
                self.sources() == old(self).sources(),
                self.layer_count() >= old(self).layer_count(),
                self.layer_count() <= if old(self).layer_count() < layer { layer as int } else { old(self).layer_count() },
                forall|k: int| 1 <= k <= old(self).layer_count() ==> #[trigger] self.live_at(k) == old(self).live_at(k)
                    && self.candidates_at(k) == old(self).candidates_at(k),
                forall|k: int| old(self).layer_count() < k <= self.layer_count()
                    ==> #[trigger] self.live_at(k).len() == 0 && self.candidates_at(k).len() == 0,
            decreases layer - self.layers@.len(),
        {
            let ghost prev = self.layers@;
            let ghost prev_self = *self;
            self.layers.push(FeatureLayer { live: Vec::new(), candidates: Vec::new() });
            proof {
                assert forall|k: int| 1 <= k <= old(self).layer_count() implies #[trigger] self.live_at(k) == old(self).live_at(k)
                    && self.candidates_at(k) == old(self).candidates_at(k) by {
                    assert(self.layers@[k - 1] == prev[k - 1]);
                    assert(prev_self.live_at(k) == old(self).live_at(k));
                }
                assert forall|k: int| old(self).layer_count() < k <= self.layer_count()
                    implies #[trigger] self.live_at(k).len() == 0 && self.candidates_at(k).len() == 0 by {
                    if k < self.layer_count() {
                        assert(self.layers@[k - 1] == prev[k - 1]);
                        assert(prev_self.live_at(k).len() == 0);
                    }
                }
            }
        }
        proof {
            if old(self).wf() {
                assert forall|k: int, i: int| 1 <= k <= self.layer_count() && 0 <= i < self.live_at(k).len()
                    implies (#[trigger] self.live_at(k)[i] matches Some(f) ==> below(f, k)) by {
                    if k <= old(self).layer_count() {
                        assert(self.live_at(k) == old(self).live_at(k));
                        assert(old(self).live_at(k)[i] matches Some(f) ==> below(f, k));
                    }
                }
                assert forall|k: int, i: int| 1 <= k <= self.layer_count() && 0 <= i < self.candidates_at(k).len()
                    implies below(#[trigger] self.candidates_at(k)[i], k) by {
                    if k <= old(self).layer_count() {
                        assert(self.live_at(k) == old(self).live_at(k));
                        assert(self.candidates_at(k) == old(self).candidates_at(k));
                        assert(below(old(self).candidates_at(k)[i], k));
                    } else {
                        assert(self.live_at(k).len() == 0);
                    }
                }
            }
        }
    }

    fn is_valid_input_ref(&self, reference: FeatureId) -> (r: bool)
        ensures
            r == self.valid_ref(reference),
    {
        if reference.layer == 0 {
            reference.index < self.source_feature_count()
        } else {
            self.get(reference).is_some()
        }
    }

    /// Adds a pre-scored live feature one layer above its deeper input and
    /// returns its id; an input that names nothing is refused and nothing
    /// changes.
    pub fn insert(&mut self, inputs: [FeatureId; 2], truth_table: u8, score: u8) -> (r: Result<FeatureId, InsertFeatureError>)
        requires
            old(self).wf(),
            old(self).layer_count() < usize::MAX,
        ensures
            final(self).wf(),
            r is Ok <==> old(self).valid_ref(inputs[0]) && old(self).valid_ref(inputs[1]),
            !old(self).valid_ref(inputs[0]) ==> r == Err::<FeatureId, InsertFeatureError>(InsertFeatureError::InvalidInputRef(inputs[0])),
            old(self).valid_ref(inputs[0]) && !old(self).valid_ref(inputs[1])
                ==> r == Err::<FeatureId, InsertFeatureError>(InsertFeatureError::InvalidInputRef(inputs[1])),
            r is Err ==> *final(self) == *old(self),
            r matches Ok(id) ==> id.layer == (if inputs[0].layer >= inputs[1].layer { inputs[0].layer } else { inputs[1].layer }) + 1,
            r matches Ok(id) ==> id.index == if id.layer <= old(self).layer_count() { old(self).live_at(id.layer as int).len() } else { 0 },
            r matches Ok(id) ==> final(self).lookup(id) == Some(Feature { inputs, truth_table, score }),
            r matches Ok(id) ==> final(self).layer_count() == if id.layer > old(self).layer_count() { id.layer as int } else { old(self).layer_count() },
            r is Ok ==> final(self).sources() == old(self).sources(),
            r is Ok ==> forall|x: FeatureId| #[trigger] old(self).lookup(x) is Some ==> final(self).lookup(x) == old(self).lookup(x),
            r matches Ok(id) ==> forall|x: FeatureId| #[trigger] final(self).lookup(x) is Some && x != id ==> final(self).lookup(x) == old(self).lookup(x),
            r is Ok ==> forall|k: int| 1 <= k <= old(self).layer_count() ==> #[trigger] final(self).candidates_at(k) == old(self).candidates_at(k),
    {
        if !self.is_valid_input_ref(inputs[0]) {
            return Err(InsertFeatureError::InvalidInputRef(inputs[0]));
        }
        if !self.is_valid_input_ref(inputs[1]) {
            return Err(InsertFeatureError::InvalidInputRef(inputs[1]));
        }
        proof {
            assert(inputs[0].layer <= old(self).layer_count());
            assert(inputs[1].layer <= old(self).layer_count());
        }
        let deeper = if inputs[0].layer >= inputs[1].layer { inputs[0].layer } else { inputs[1].layer };
        let layer = deeper + 1;
        self.ensure_layer(layer);
        let ghost grown = *self;
        let index = self.layers[layer - 1].live.len();
        let feature = Feature { inputs, truth_table, score };
        self.layers[layer - 1].live.push(Some(feature));
        let id = FeatureId { layer, index };
        proof {
            assert(self.live_at(layer as int) =~= grown.live_at(layer as int).push(Some(feature)));
            assert forall|k: int| 1 <= k <= self.layer_count() && k != layer implies #[trigger] self.live_at(k) == grown.live_at(k)
                && self.candidates_at(k) == grown.candidates_at(k) by {
            }
            assert(self.candidates_at(layer as int) == grown.candidates_at(layer as int));
            assert forall|k: int, i: int| 1 <= k <= self.layer_count() && 0 <= i < self.live_at(k).len()
                implies (#[trigger] self.live_at(k)[i] matches Some(f) ==> below(f, k)) by {
                if k == layer && i == index {
                } else {
                    assert(grown.live_at(k)[i] matches Some(f) ==> below(f, k));
                }
            }
            assert forall|k: int, i: int| 1 <= k <= self.layer_count() && 0 <= i < self.candidates_at(k).len()
                implies below(#[trigger] self.candidates_at(k)[i], k) by {
                assert(below(grown.candidates_at(k)[i], k));
            }
            assert forall|x: FeatureId| #[trigger] old(self).lookup(x) is Some implies self.lookup(x) == old(self).lookup(x) by {
                assert(grown.live_at(x.layer as int) == old(self).live_at(x.layer as int));
            }
            assert forall|x: FeatureId| #[trigger] self.lookup(x) is Some && x != id implies self.lookup(x) == old(self).lookup(x) by {
                if x.layer <= old(self).layer_count() {
                    assert(grown.live_at(x.layer as int) == old(self).live_at(x.layer as int));
                }
            }
            assert forall|k: int| 1 <= k <= old(self).layer_count() implies #[trigger] self.candidates_at(k) == old(self).candidates_at(k) by {
                assert(grown.live_at(k) == old(self).live_at(k));
                assert(grown.candidates_at(k) == old(self).candidates_at(k));
                if k != layer {
                    assert(self.live_at(k) == grown.live_at(k));
                }
            }
        }
        Ok(id)
    }

    /// Queues a candidate feature in learned layer `layer`: its inputs must
    /// be ordered, name something, and have `layer` one above the deeper one.
    pub fn insert_candidate(&mut self, layer: usize, inputs: [FeatureId; 2], truth_table: u8) -> (r: Result<(), InsertFeatureError>)
        requires
            old(self).wf(),
            inputs[0].layer < usize::MAX,
            inputs[1].layer < usize::MAX,
        ensures
            final(self).wf(),
            r is Ok <==> id_less(inputs[0], inputs[1])
                && layer == (if inputs[0].layer >= inputs[1].layer { inputs[0].layer } else { inputs[1].layer }) + 1
                && old(self).valid_ref(inputs[0]) && old(self).valid_ref(inputs[1]),
            r is Err ==> *final(self) == *old(self),
            r is Ok ==> final(self).same_except_layer(old(self), layer as int) || layer > old(self).layer_count(),
            r is Ok ==> layer <= old(self).layer_count() + 1,
            r is Ok ==> candidate_appended(*old(self), *final(self), layer as int, Feature { inputs, truth_table, score: 0 }),
    {
        if !(inputs[0].layer < inputs[1].layer || (inputs[0].layer == inputs[1].layer && inputs[0].index < inputs[1].index)) {
            return Err(InsertFeatureError::InvalidInputRef(inputs[0]));
        }
        let deeper = if inputs[0].layer >= inputs[1].layer { inputs[0].layer } else { inputs[1].layer };
        if layer != deeper + 1 {
            return Err(InsertFeatureError::InvalidInputRef(inputs[1]));
        }
        if !self.is_valid_input_ref(inputs[0]) {
            return Err(InsertFeatureError::InvalidInputRef(inputs[0]));
        }
        if !self.is_valid_input_ref(inputs[1]) {
            return Err(InsertFeatureError::InvalidInputRef(inputs[1]));
        }
        self.ensure_layer(layer);
        let ghost grown = *self;
        let feature = Feature { inputs, truth_table, score: 0 };
        self.layers[layer - 1].candidates.push(feature);
        proof {
            assert(self.candidates_at(layer as int) =~= grown.candidates_at(layer as int).push(feature));
            assert(self.live_at(layer as int) == grown.live_at(layer as int));
            if layer > old(self).layer_count() {
                assert(grown.candidates_at(layer as int) =~= Seq::<Feature>::empty());
                assert(grown.live_at(layer as int) =~= Seq::<Option<Feature>>::empty());
            }
            assert forall|k: int| 1 <= k <= self.layer_count() && k != layer implies #[trigger] self.live_at(k) == grown.live_at(k)
                && self.candidates_at(k) == grown.candidates_at(k) by {
            }
            assert forall|k: int, i: int| 1 <= k <= self.layer_count() && 0 <= i < self.live_at(k).len()
                implies (#[trigger] self.live_at(k)[i] matches Some(f) ==> below(f, k)) by {
                assert(grown.live_at(k)[i] matches Some(f) ==> below(f, k));
            }
            assert forall|k: int, i: int| 1 <= k <= self.layer_count() && 0 <= i < self.candidates_at(k).len()
                implies below(#[trigger] self.candidates_at(k)[i], k) by {
                if k == layer && i == grown.candidates_at(k).len() {
                } else {
                    assert(below(grown.candidates_at(k)[i], k));
                }
            }
            assert forall|x: FeatureId| #[trigger] self.lookup(x) == old(self).lookup(x) by {
                if 1 <= x.layer <= old(self).layer_count() {
                    assert(grown.live_at(x.layer as int) == old(self).live_at(x.layer as int));
                }
            }
            assert forall|k: int| 1 <= k <= old(self).layer_count() && k != layer implies #[trigger] self.live_at(k) == old(self).live_at(k)
                && self.candidates_at(k) == old(self).candidates_at(k) by {
                assert(grown.live_at(k) == old(self).live_at(k));
            }
            assert forall|k: int| old(self).layer_count() < k <= self.layer_count() && k != layer
                implies #[trigger] self.live_at(k).len() == 0 && self.candidates_at(k).len() == 0 by {
                assert(grown.live_at(k).len() == 0);
            }
        }
        Ok(())
    }

    /// Moves the candidates of layer `layer` (of layer one for `layer == 0`)
    /// to the end of its live features and returns their new ids.
    pub fn promote_candidates(&mut self, layer: usize) -> (r: Vec<FeatureId>)
        requires
            old(self).wf(),
            ({
                let l = if layer == 0 { 1int } else { layer as int };
                l <= old(self).layer_count() ==> old(self).live_at(l).len() + old(self).candidates_at(l).len() < usize::MAX
            }),
        ensures
            final(self).wf(),
            final(self).sources() == old(self).sources(),
            ({
                let l = if layer == 0 { 1int } else { layer as int };
                if l <= old(self).layer_count() {
                    &&& final(self).same_except_layer(old(self), l)
                    &&& final(self).live_at(l) == old(self).live_at(l) + old(self).candidates_at(l).map_values(|f: Feature| Some(f))
                    &&& final(self).candidates_at(l).len() == 0
                    &&& r@ == Seq::new(old(self).candidates_at(l).len(),
                        |k: int| FeatureId { layer, index: (old(self).live_at(l).len() + k) as usize })
                } else {
                    &&& *final(self) == *old(self)
                    &&& r@.len() == 0
                }
            }),
    {
        let l = if layer == 0 { 0 } else { layer - 1 };
        let mut out: Vec<FeatureId> = Vec::new();
        if l >= self.layers.len() {
            return out;
        }
        let ghost before = *self;
        let start = self.layers[l].live.len();
        let count = self.layers[l].candidates.len();
        let mut k: usize = 0;
        while k < count
            invariant
                l < self.layers@.len(),
                self.layers@.len() == before.layers@.len(),
                self.source_scores == before.source_scores,
                start == before.layers@[l as int].live@.len(),
                count == before.layers@[l as int].candidates@.len(),
                start + count < usize::MAX,
                self.layers@[l as int].candidates == before.layers@[l as int].candidates,
                k <= count,
                self.layers@[l as int].live@ == before.layers@[l as int].live@
                    + before.layers@[l as int].candidates@.subrange(0, k as int).map_values(|f: Feature| Some(f)),
                out@ == Seq::new(k as nat, |j: int| FeatureId { layer, index: (start + j) as usize }),
                forall|m: int| 0 <= m < self.layers@.len() && m != l ==> #[trigger] self.layers@[m] == before.layers@[m],
            decreases count - k,
        {
            proof {
                assert(self.layers@[l as int].live@.len() == start + k);
            }
            let feature = self.layers[l].candidates[k];
            self.layers[l].live.push(Some(feature));
            out.push(FeatureId { layer, index: start + k });
            k = k + 1;
            proof {
                assert(before.layers@[l as int].candidates@.subrange(0, k as int)
                    =~= before.layers@[l as int].candidates@.subrange(0, k - 1).push(feature));
                assert(self.layers@[l as int].live@ =~= before.layers@[l as int].live@
                    + before.layers@[l as int].candidates@.subrange(0, k as int).map_values(|f: Feature| Some(f)));
                assert(out@ =~= Seq::new(k as nat, |j: int| FeatureId { layer, index: (start + j) as usize }));
            }
        }
        self.layers[l].candidates = Vec::new();
        proof {
            let ll = l + 1;
            assert(before.layers@[l as int].candidates@.subrange(0, count as int) =~= before.layers@[l as int].candidates@);
            assert forall|m: int| 1 <= m <= self.layer_count() && m != ll implies #[trigger] self.live_at(m) == before.live_at(m)
                && self.candidates_at(m) == before.candidates_at(m) by {
                assert(self.layers@[m - 1] == before.layers@[m - 1]);
            }
            assert forall|m: int, i: int| 1 <= m <= self.layer_count() && 0 <= i < self.live_at(m).len()
                implies (#[trigger] self.live_at(m)[i] matches Some(f) ==> below(f, m)) by {
                if m == ll {
                    if i < start {
                        assert(self.live_at(m)[i] == before.live_at(m)[i]);
                        assert(before.live_at(m)[i] matches Some(f) ==> below(f, m));
                    } else {
                        assert(self.live_at(m)[i] == Some(before.candidates_at(m)[i - start]));
                        assert(below(before.candidates_at(m)[i - start], m));
                    }
                } else {
                    assert(before.live_at(m)[i] matches Some(f) ==> below(f, m));
                }
            }
            assert forall|m: int, i: int| 1 <= m <= self.layer_count() && 0 <= i < self.candidates_at(m).len()
                implies below(#[trigger] self.candidates_at(m)[i], m) by {
                assert(below(before.candidates_at(m)[i], m));
            }
        }
        out
    }

    /// Prunes the live feature `reference` names (in layer one for layer zero).
    pub fn tombstone(&mut self, reference: FeatureId)
        requires
            old(self).wf(),
        ensures
            final(self).wf(),
            final(self).sources() == old(self).sources(),
            ({
                let l = if reference.layer == 0 { 1int } else { reference.layer as int };
                if l <= old(self).layer_count() && reference.index < old(self).live_at(l).len() {
                    &&& final(self).same_except_layer(old(self), l)
                    &&& final(self).candidates_at(l) == old(self).candidates_at(l)
                    &&& final(self).live_at(l) == old(self).live_at(l).update(reference.index as int, None)
                } else {
                    *final(self) == *old(self)
                }
            }),
    {
        let l = if reference.layer == 0 { 0 } else { reference.layer - 1 };
        if l < self.layers.len() && reference.index < self.layers[l].live.len() {
            let ghost before = *self;
            self.layers[l].live[reference.index] = None;
            proof {
                let ll = l + 1;
                assert(self.live_at(ll as int) =~= before.live_at(ll as int).update(reference.index as int, None));
                assert forall|m: int| 1 <= m <= self.layer_count() && m != ll implies #[trigger] self.live_at(m) == before.live_at(m)
                    && self.candidates_at(m) == before.candidates_at(m) by {
                }
                assert forall|m: int, i: int| 1 <= m <= self.layer_count() && 0 <= i < self.live_at(m).len()
                    implies (#[trigger] self.live_at(m)[i] matches Some(f) ==> below(f, m)) by {
                    assert(before.live_at(m)[i] matches Some(f) ==> below(f, m));
                }
                assert forall|m: int, i: int| 1 <= m <= self.layer_count() && 0 <= i < self.candidates_at(m).len()
                    implies below(#[trigger] self.candidates_at(m)[i], m) by {
                    assert(below(before.candidates_at(m)[i], m));
                }
            }
        }
    }
}

} // verus!
