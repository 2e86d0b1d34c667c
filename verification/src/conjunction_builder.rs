//! Beam search over conjunctions of literals, and the expert it yields.

use vstd::prelude::*;
use crate::association::{count_true, count_true_exec, count_eq_upto, min_len};
use crate::batch::{SignBatch, slice_range};
use crate::conjunction_build_common::{
    batch_valid, constant_column, dedup_extensions, drawn_from, extension_capacity,
    is_constant_column, key_words_for, correct_count, first_column_len, validate_feature_batch, lemma_implied_accuracy, pick_winner, prune_extensions,
    score_column, sort_extension_indices, validate_batch, validate_build_config, BeamEntry,
    ConjunctionBuildConfig, ConjunctionBuildError, ConjunctionKey, ExtensionCandidate,
    MAX_KEY_WORDS, beam_order, beam_at_least, lemma_beam_antisym, lemma_beam_trans, sign3, prune_order, represented,
};
use crate::conjunction_spec::{
    all_columns_constant, key_column, key_literal_value, key_ok, key_row, lemma_child_key,
    lemma_constant_negated, lemma_empty_lits, lemma_feature_in_words, lemma_lits_add,
    literal_column, literal_of, scores_of,
};
use crate::association::{lemma_count_eq_upto_bound, lemma_count_true_upto_bound};
use crate::workspace::{cell, ConjunctionBuildWorkspace, DepthLayer, ModelCapacity};
use crate::conjunction_expert::{ConjunctionExpert, conjunction_holds, key_literals, literal_holds};
use crate::conjunction_build_common::lemma_lits_words;

verus! {

/// Beam search over conjunctions of literals.
pub struct ConjunctionBuilder;

/// The workspace fits the configuration and holds the literal columns of the batch.
pub open spec fn frame(ws: ConjunctionBuildWorkspace, config: ConjunctionBuildConfig, batch: SignBatch) -> bool {
    &&& config.valid()
    &&& ws.shaped(config.max_conjunctions as int)
    &&& ws.batch_size == config.batch_size
    &&& ws.feature_count == batch.spec_feature_count()
    &&& ws.max_conjunction_length == config.max_conjunction_length
    &&& ws.feature_count <= 256
    &&& config.max_conjunctions <= 0x10000
    &&& batch.wf()
    &&& batch_valid(batch, config.batch_size as int)
    &&& ws.literals_of(batch)
}

/// Slot `s` of depth `d` holds a scored conjunction of `d + 1` literals and its column.
pub open spec fn entry_ok(ws: ConjunctionBuildWorkspace, d: int, s: int, batch: SignBatch) -> bool {
    let layer = ws.layers@[d];
    let e = layer.entries@[s];
    let wc = ws.key_words as int;
    let bs = ws.batch_size as int;
    &&& e.column_slot == s
    &&& key_ok(e.key, wc, ws.feature_count as int, d + 1)
    &&& scores_of(e.abs_assoc, e.accuracy, key_column(e.key, wc, batch, bs), batch.signs@)
    &&& forall|row: int|
        0 <= row < bs ==> #[trigger] layer.columns@[cell(s, row, bs)] == key_row(e.key, wc, batch, row)
}

pub open spec fn layer_ok(ws: ConjunctionBuildWorkspace, d: int, batch: SignBatch) -> bool {
    forall|s: int| 0 <= s < ws.layers@[d].len ==> #[trigger] entry_ok(ws, d, s, batch)
}

/// Every depth of the beam holds valid entries.
pub open spec fn beam_ok(ws: ConjunctionBuildWorkspace, batch: SignBatch) -> bool {
    forall|d: int| 0 <= d < ws.layers@.len() ==> #[trigger] layer_ok(ws, d, batch)
}

/// An extension candidate of depth `d`: a scored key of `d + 1` literals whose
/// column is its parent's column AND its literal column (the literal column
/// alone at depth 0).
pub open spec fn cand_ok(ws: ConjunctionBuildWorkspace, c: ExtensionCandidate, d: int, batch: SignBatch) -> bool {
    let wc = ws.key_words as int;
    let bs = ws.batch_size as int;
    &&& key_ok(c.key, wc, ws.feature_count as int, d + 1)
    &&& scores_of(c.abs_assoc, c.accuracy, key_column(c.key, wc, batch, bs), batch.signs@)
    &&& c.literal_index < 2 * ws.feature_count
    &&& d == 0 ==> forall|row: int|
        0 <= row < bs ==> #[trigger] ConjunctionBuildWorkspace::literal_value(batch, c.literal_index as int, row)
            == key_row(c.key, wc, batch, row)
    &&& d > 0 ==> c.parent_slot < ws.layers@[d - 1].len && forall|row: int|
        0 <= row < bs ==> (key_row(ws.layers@[d - 1].entries@[c.parent_slot as int].key, wc, batch, row)
            && ConjunctionBuildWorkspace::literal_value(batch, c.literal_index as int, row))
            == #[trigger] key_row(c.key, wc, batch, row)
}

/// Buffers other than the layers are as before.
pub open spec fn same_buffers(a: ConjunctionBuildWorkspace, b: ConjunctionBuildWorkspace) -> bool {
    &&& a.literal_columns == b.literal_columns
    &&& a.batch_size == b.batch_size
    &&& a.feature_count == b.feature_count
    &&& a.key_words == b.key_words
    &&& a.max_conjunction_length == b.max_conjunction_length
    &&& a.layers@.len() == b.layers@.len()
    &&& a.extension_buf@.len() == b.extension_buf@.len()
    &&& a.dedup_buf@.len() == b.dedup_buf@.len()
    &&& a.sort_scratch@.len() == b.sort_scratch@.len()
    &&& a.z_scratch@.len() == b.z_scratch@.len()
}

/// Layers other than `d` are as before.
pub open spec fn other_layers_same(a: ConjunctionBuildWorkspace, b: ConjunctionBuildWorkspace, d: int) -> bool {
    forall|k: int| 0 <= k < a.layers@.len() && k != d ==> #[trigger] a.layers@[k] == b.layers@[k]
}

/// `x` is one of `exts[..count]`.
pub open spec fn in_prefix(exts: Seq<ExtensionCandidate>, count: int, x: ExtensionCandidate) -> bool {
    exists|i: int| 0 <= i < count && #[trigger] exts[i] == x
}

/// `survivors` are drawn from `exts[..count]`, stand for every extension
/// there by one of the same key that scores at least as well, and come in
/// pruning order.
pub open spec fn survivors_of(survivors: Seq<ExtensionCandidate>, exts: Seq<ExtensionCandidate>, count: int, wc: int) -> bool {
    &&& forall|j: int| 0 <= j < survivors.len() ==> in_prefix(exts, count, #[trigger] survivors[j])
    &&& forall|i: int| 0 <= i < count ==> represented(survivors, survivors.len() as int, #[trigger] exts[i], wc)
    &&& forall|a: int, b: int| 0 <= a < b < survivors.len() ==> prune_order(#[trigger] survivors[a], #[trigger] survivors[b], wc) >= 0
}

/// Deduplicating the extensions in key order and sorting the survivors by
/// pruning order leaves survivors of the extensions.
pub proof fn lemma_survivors(
    exts: Seq<ExtensionCandidate>,
    identity: Seq<usize>,
    order: Seq<usize>,
    deduped: Seq<ExtensionCandidate>,
    pruned: Seq<ExtensionCandidate>,
    count: int,
    dedup_count: int,
    wc: int,
)
    requires
        0 <= dedup_count <= count,
        count <= identity.len(),
        count <= order.len(),
        dedup_count <= deduped.len(),
        dedup_count <= pruned.len(),
        forall|k: int| 0 <= k < count ==> #[trigger] identity[k] == k,
        order.subrange(0, count).to_multiset() == identity.subrange(0, count).to_multiset(),
        forall|k: int| 0 <= k < count ==> #[trigger] order[k] < count,
        forall|j: int| 0 <= j < dedup_count ==> drawn_from(exts, order, count, #[trigger] deduped[j]),
        forall|i: int| 0 <= i < count ==> represented(deduped, dedup_count, #[trigger] exts[order[i] as int], wc),
        pruned.subrange(0, dedup_count).to_multiset() == deduped.subrange(0, dedup_count).to_multiset(),
        forall|a: int, b: int| 0 <= a < b < dedup_count ==> prune_order(pruned[a], pruned[b], wc) >= 0,
    ensures
        survivors_of(pruned.subrange(0, dedup_count), exts, count, wc),
{
    let survivors = pruned.subrange(0, dedup_count);
    let before = deduped.subrange(0, dedup_count);
    assert forall|j: int| 0 <= j < survivors.len() implies in_prefix(exts, count, #[trigger] survivors[j]) by {
        let v = survivors[j];
        vstd::seq_lib::to_multiset_contains(survivors, v);
        vstd::seq_lib::to_multiset_contains(before, v);
        let w = choose|w: int| 0 <= w < before.len() && before[w] == v;
        assert(before[w] == deduped[w]);
        assert(drawn_from(exts, order, count, deduped[w]));
        let k = choose|k: int| 0 <= k < count && deduped[w] == exts[#[trigger] order[k] as int];
        assert(order[k] < count);
        assert(survivors[j] == exts[order[k] as int]);
    }
    assert forall|i: int| 0 <= i < count implies represented(survivors, survivors.len() as int, #[trigger] exts[i], wc) by {
        let id_prefix = identity.subrange(0, count);
        let sorted_prefix = order.subrange(0, count);
        assert(id_prefix[i] == i);
        vstd::seq_lib::to_multiset_contains(id_prefix, i as usize);
        vstd::seq_lib::to_multiset_contains(sorted_prefix, i as usize);
        let k = choose|k: int| 0 <= k < sorted_prefix.len() && sorted_prefix[k] == i as usize;
        assert(order[k] == i);
        assert(represented(deduped, dedup_count, exts[order[k] as int], wc));
        let j = choose|j: int| 0 <= j < dedup_count && ConjunctionKey::compare(#[trigger] deduped[j].key, exts[i].key, wc) == 0
            && crate::conjunction_build_common::scores_at_least(deduped[j], exts[i]);
        let v = deduped[j];
        assert(before[j] == v);
        vstd::seq_lib::to_multiset_contains(before, v);
        vstd::seq_lib::to_multiset_contains(survivors, v);
        let w = choose|w: int| 0 <= w < survivors.len() && survivors[w] == v;
        assert(ConjunctionKey::compare(survivors[w].key, exts[i].key, wc) == 0);
    }
    assert forall|x: int, y: int| 0 <= x < y < survivors.len() implies prune_order(#[trigger] survivors[x], #[trigger] survivors[y], wc) >= 0 by {
        assert(survivors[x] == pruned[x] && survivors[y] == pruned[y]);
    }
}

/// `layer` holds the first `max` of `survivors`, which are drawn from
/// `exts[..count]`, stand for every extension there by one of the same key
/// that scores at least as well, and come in pruning order.
pub open spec fn finalized_from(
    layer: DepthLayer,
    survivors: Seq<ExtensionCandidate>,
    exts: Seq<ExtensionCandidate>,
    count: int,
    max: int,
    wc: int,
) -> bool {
    &&& survivors_of(survivors, exts, count, wc)
    &&& layer.len == if survivors.len() <= max { survivors.len() as int } else { max }
    &&& forall|s: int| 0 <= s < layer.len ==> {
        &&& (#[trigger] layer.entries@[s]).key == survivors[s].key
        &&& layer.entries@[s].abs_assoc == survivors[s].abs_assoc
        &&& layer.entries@[s].accuracy == survivors[s].accuracy
        &&& layer.entries@[s].column_slot == s
    }
}

/// Copies the survivors of `extension_buf[..extension_count]` into depth `depth`:
/// deduplicated by key, sorted by pruning order, at most `max_conjunctions`.
#[verifier::spinoff_prover]
fn finalize_layer_from_extensions(
    workspace: &mut ConjunctionBuildWorkspace,
    depth: usize,
    extension_count: usize,
    max_conjunctions: usize,
    word_count: usize,
    from_literals: bool,
    Ghost(config): Ghost<ConjunctionBuildConfig>,
    Ghost(batch): Ghost<SignBatch>,
)
    requires
        frame(*old(workspace), config, batch),
        beam_ok(*old(workspace), batch),
        max_conjunctions == config.max_conjunctions,
        word_count == old(workspace).key_words,
        depth < old(workspace).layers@.len(),
        from_literals == (depth == 0),
        extension_count <= old(workspace).extension_buf@.len(),
        forall|c: int| 0 <= c < extension_count ==> cand_ok(*old(workspace), #[trigger] old(workspace).extension_buf@[c], depth as int, batch),
    ensures
        frame(*final(workspace), config, batch),
        beam_ok(*final(workspace), batch),
        same_buffers(*final(workspace), *old(workspace)),
        other_layers_same(*final(workspace), *old(workspace), depth as int),
        final(workspace).extension_buf == old(workspace).extension_buf,
        extension_count > 0 <==> final(workspace).layers@[depth as int].len > 0,
        extension_count > 0 ==> exists|survivors: Seq<ExtensionCandidate>| #[trigger] finalized_from(final(workspace).layers@[depth as int],
            survivors, old(workspace).extension_buf@, extension_count as int, max_conjunctions as int, word_count as int),
{
    if extension_count == 0 {
        workspace.layers[depth].len = 0;
        proof {
            assert(layer_ok(*workspace, depth as int, batch));
            assert forall|d: int| 0 <= d < workspace.layers@.len() implies #[trigger] layer_ok(*workspace, d, batch) by {
                if d != depth {
                    assert(layer_ok(*old(workspace), d, batch));
                    assert(workspace.layers@[d] == old(workspace).layers@[d]);
                    assert forall|s: int| 0 <= s < workspace.layers@[d].len implies #[trigger] entry_ok(*workspace, d, s, batch) by {
                        assert(entry_ok(*old(workspace), d, s, batch));
                    }
                }
            }
        }
        return;
    }
    let ghost old_ws = *workspace;
    let ghost wc = word_count as int;
    let ghost bs = workspace.batch_size as int;
    let count = extension_count;
    // Order the extensions by index before sorting them by key.
    let mut i: usize = 0;
    while i < count
        invariant
            i <= count <= workspace.sort_scratch@.len(),
            workspace.sort_scratch@.len() == old_ws.sort_scratch@.len(),
            workspace.extension_buf == old_ws.extension_buf,
            workspace.dedup_buf == old_ws.dedup_buf,
            workspace.layers == old_ws.layers,
            workspace.literal_columns == old_ws.literal_columns,
            workspace.z_scratch == old_ws.z_scratch,
            workspace.batch_size == old_ws.batch_size,
            workspace.feature_count == old_ws.feature_count,
            workspace.key_words == old_ws.key_words,
            workspace.max_conjunction_length == old_ws.max_conjunction_length,
            forall|k: int| 0 <= k < i ==> #[trigger] workspace.sort_scratch@[k] == k,
        decreases count - i,
    {
        workspace.sort_scratch[i] = i;
        i = i + 1;
    }
    let ghost identity = workspace.sort_scratch@;
    sort_extension_indices(
        workspace.extension_buf.as_slice(),
        workspace.sort_scratch.as_mut_slice(),
        count,
        word_count,
    );
    proof {
        assert forall|k: int| 0 <= k < count implies #[trigger] workspace.sort_scratch@[k] < count by {
            let v = workspace.sort_scratch@[k];
            let sorted_prefix = workspace.sort_scratch@.subrange(0, count as int);
            let id_prefix = identity.subrange(0, count as int);
            assert(sorted_prefix[k] == v);
            vstd::seq_lib::to_multiset_contains(sorted_prefix, v);
            assert(sorted_prefix.contains(v));
            vstd::seq_lib::to_multiset_contains(id_prefix, v);
            assert(id_prefix.contains(v));
            let w = choose|w: int| 0 <= w < id_prefix.len() && id_prefix[w] == v;
            assert(id_prefix[w] == identity[w]);
        }
    }
    let dedup_count = dedup_extensions(
        workspace.extension_buf.as_slice(),
        workspace.sort_scratch.as_slice(),
        count,
        workspace.dedup_buf.as_mut_slice(),
        word_count,
    );
    let ghost deduped = workspace.dedup_buf@;
    proof {
        assert forall|j: int| 0 <= j < dedup_count implies cand_ok(old_ws, #[trigger] deduped[j], depth as int, batch) by {
            assert(drawn_from(workspace.extension_buf@, workspace.sort_scratch@, count as int, deduped[j]));
            let i = choose|i: int| 0 <= i < count && deduped[j] == workspace.extension_buf@[#[trigger] workspace.sort_scratch@[i] as int];
            assert(workspace.sort_scratch@[i] < count);
            assert(cand_ok(old_ws, old_ws.extension_buf@[workspace.sort_scratch@[i] as int], depth as int, batch));
        }
    }
    let keep = prune_extensions(
        workspace.dedup_buf.as_mut_slice(),
        dedup_count,
        max_conjunctions,
        word_count,
    );
    proof {
        assert forall|j: int| 0 <= j < dedup_count implies cand_ok(old_ws, #[trigger] workspace.dedup_buf@[j], depth as int, batch) by {
            let v = workspace.dedup_buf@[j];
            let now = workspace.dedup_buf@.subrange(0, dedup_count as int);
            let before = deduped.subrange(0, dedup_count as int);
            assert(now[j] == v);
            vstd::seq_lib::to_multiset_contains(now, v);
            vstd::seq_lib::to_multiset_contains(before, v);
            assert(before.contains(v));
            let w = choose|w: int| 0 <= w < before.len() && before[w] == v;
            assert(before[w] == deduped[w]);
        }
    }
    let ghost pruned = workspace.dedup_buf@;
    let ghost survivors = pruned.subrange(0, dedup_count as int);
    let ghost order = workspace.sort_scratch@;
    proof {
        assert forall|k: int| 0 <= k < count implies #[trigger] identity[k] == k by {}
        lemma_survivors(old_ws.extension_buf@, identity, order, deduped, pruned, count as int, dedup_count as int, word_count as int);
    }
    let batch_size = workspace.batch_size;
    let mut slot: usize = 0;
    while slot < keep
        invariant
            frame(old_ws, config, batch),
            beam_ok(old_ws, batch),
            1 <= keep <= dedup_count,
            keep <= max_conjunctions,
            max_conjunctions == config.max_conjunctions,
            dedup_count <= workspace.dedup_buf@.len(),
            forall|j: int| 0 <= j < dedup_count ==> cand_ok(old_ws, #[trigger] workspace.dedup_buf@[j], depth as int, batch),
            workspace.dedup_buf@ == pruned,
            slot <= keep,
            batch_size == bs,
            bs == old_ws.batch_size,
            wc == old_ws.key_words,
            depth < old_ws.layers@.len(),
            from_literals == (depth == 0),
            same_buffers(*workspace, old_ws),
            other_layers_same(*workspace, old_ws, depth as int),
            workspace.extension_buf == old_ws.extension_buf,
            workspace.layers@[depth as int].entries@.len() == old_ws.layers@[depth as int].entries@.len(),
            workspace.layers@[depth as int].columns@.len() == old_ws.layers@[depth as int].columns@.len(),
            forall|s: int| 0 <= s < slot ==> #[trigger] entry_ok(*workspace, depth as int, s, batch),
            forall|s: int| 0 <= s < slot ==> {
                &&& (#[trigger] workspace.layers@[depth as int].entries@[s]).key == pruned[s].key
                &&& workspace.layers@[depth as int].entries@[s].abs_assoc == pruned[s].abs_assoc
                &&& workspace.layers@[depth as int].entries@[s].accuracy == pruned[s].accuracy
                &&& workspace.layers@[depth as int].entries@[s].column_slot == s
            },
        decreases keep - slot,
    {
        let survivor = workspace.dedup_buf[slot];
        proof {
            assert(cand_ok(old_ws, survivor, depth as int, batch));
            assert(slot * bs + bs <= max_conjunctions * bs) by (nonlinear_arith)
                requires slot < max_conjunctions, bs >= 0;
            assert(survivor.literal_index * bs + bs <= 2 * old_ws.feature_count * bs) by (nonlinear_arith)
                requires survivor.literal_index < 2 * old_ws.feature_count, bs >= 0;
        }
        let columns_len = workspace.layers[depth].columns.len();
        let literals_len = workspace.literal_columns.len();
        proof {
            assert(old_ws.layers@[depth as int].columns@.len() == max_conjunctions * bs);
            assert(columns_len == max_conjunctions * bs);
            assert(literals_len == 2 * old_ws.feature_count * bs);
        }
        let dst_start = slot * batch_size;
        let literal_start = survivor.literal_index as usize * batch_size;
        let ghost layer_before = workspace.layers@[depth as int];
        let ghost ws_iter = *workspace;
        if from_literals {
            let mut row: usize = 0;
            while row < batch_size
                invariant
                    frame(old_ws, config, batch),
                    cand_ok(old_ws, survivor, depth as int, batch),
                    depth == 0,
                    slot < keep <= max_conjunctions,
                    batch_size == bs,
                    bs == old_ws.batch_size,
                    wc == old_ws.key_words,
                    dst_start == slot * bs,
                    literal_start == survivor.literal_index * bs,
                    dst_start + bs <= max_conjunctions * bs,
                    literal_start + bs <= 2 * old_ws.feature_count * bs,
                    max_conjunctions * bs <= usize::MAX,
                    2 * old_ws.feature_count * bs <= usize::MAX,
                    row <= bs,
                    workspace.dedup_buf@ == pruned,
                    same_buffers(*workspace, old_ws),
                    other_layers_same(*workspace, old_ws, depth as int),
                    workspace.extension_buf == old_ws.extension_buf,
                    workspace.layers@[depth as int].entries == layer_before.entries,
                    workspace.layers@[depth as int].len == layer_before.len,
                    workspace.layers@[depth as int].columns@.len() == layer_before.columns@.len(),
                    layer_before.columns@.len() == max_conjunctions * bs,
                    forall|k: int| 0 <= k < dst_start ==> #[trigger] workspace.layers@[depth as int].columns@[k] == layer_before.columns@[k],
                    forall|r: int| 0 <= r < row ==> #[trigger] workspace.layers@[depth as int].columns@[dst_start + r] == key_row(survivor.key, wc, batch, r),
                decreases bs - row,
            {
                proof {
                    assert(old_ws.literal_columns@[cell(survivor.literal_index as int, row as int, bs)]
                        == ConjunctionBuildWorkspace::literal_value(batch, survivor.literal_index as int, row as int));
                }
                let v = workspace.literal_columns[literal_start + row];
                workspace.layers[depth].columns[dst_start + row] = v;
                row = row + 1;
            }
        } else {
            let ghost parent_depth = depth - 1;
            proof {
                assert(layer_ok(old_ws, parent_depth, batch));
                assert(entry_ok(old_ws, parent_depth, survivor.parent_slot as int, batch));
                assert(survivor.parent_slot * bs + bs <= max_conjunctions * bs) by (nonlinear_arith)
                    requires survivor.parent_slot < max_conjunctions, bs >= 0;
            }
            let parent_start = survivor.parent_slot as usize * batch_size;
            let mut row: usize = 0;
            while row < batch_size
                invariant
                    frame(old_ws, config, batch),
                    cand_ok(old_ws, survivor, depth as int, batch),
                    entry_ok(old_ws, parent_depth, survivor.parent_slot as int, batch),
                    depth > 0,
                    depth < old_ws.layers@.len(),
                    old_ws.layers@[parent_depth].columns@.len() == max_conjunctions * bs,
                    parent_depth == depth - 1,
                    slot < keep <= max_conjunctions,
                    batch_size == bs,
                    bs == old_ws.batch_size,
                    wc == old_ws.key_words,
                    dst_start == slot * bs,
                    literal_start == survivor.literal_index * bs,
                    parent_start == survivor.parent_slot * bs,
                    dst_start + bs <= max_conjunctions * bs,
                    literal_start + bs <= 2 * old_ws.feature_count * bs,
                    parent_start + bs <= max_conjunctions * bs,
                    max_conjunctions * bs <= usize::MAX,
                    2 * old_ws.feature_count * bs <= usize::MAX,
                    row <= bs,
                    workspace.dedup_buf@ == pruned,
                    same_buffers(*workspace, old_ws),
                    other_layers_same(*workspace, old_ws, depth as int),
                    workspace.extension_buf == old_ws.extension_buf,
                    workspace.layers@[depth as int].entries == layer_before.entries,
                    workspace.layers@[depth as int].len == layer_before.len,
                    workspace.layers@[depth as int].columns@.len() == layer_before.columns@.len(),
                    layer_before.columns@.len() == max_conjunctions * bs,
                    forall|k: int| 0 <= k < dst_start ==> #[trigger] workspace.layers@[depth as int].columns@[k] == layer_before.columns@[k],
                    forall|r: int| 0 <= r < row ==> #[trigger] workspace.layers@[depth as int].columns@[dst_start + r] == key_row(survivor.key, wc, batch, r),
                decreases bs - row,
            {
                proof {
                    assert(old_ws.literal_columns@[cell(survivor.literal_index as int, row as int, bs)]
                        == ConjunctionBuildWorkspace::literal_value(batch, survivor.literal_index as int, row as int));
                    assert(old_ws.layers@[parent_depth].columns@[cell(survivor.parent_slot as int, row as int, bs)]
                        == key_row(old_ws.layers@[parent_depth].entries@[survivor.parent_slot as int].key, wc, batch, row as int));
                    assert(workspace.layers@[parent_depth] == old_ws.layers@[parent_depth]);
                    assert(key_row(survivor.key, wc, batch, row as int) == (key_row(old_ws.layers@[parent_depth].entries@[survivor.parent_slot as int].key, wc, batch, row as int)
                        && ConjunctionBuildWorkspace::literal_value(batch, survivor.literal_index as int, row as int)));
                }
                let v = workspace.layers[depth - 1].columns[parent_start + row] && workspace.literal_columns[literal_start + row];
                workspace.layers[depth].columns[dst_start + row] = v;
                row = row + 1;
            }
        }
        workspace.layers[depth].entries[slot] = BeamEntry {
            key: survivor.key,
            abs_assoc: survivor.abs_assoc,
            accuracy: survivor.accuracy,
            column_slot: slot,
        };
        proof {
            assert forall|s: int| 0 <= s < slot + 1 implies {
                &&& (#[trigger] workspace.layers@[depth as int].entries@[s]).key == pruned[s].key
                &&& workspace.layers@[depth as int].entries@[s].abs_assoc == pruned[s].abs_assoc
                &&& workspace.layers@[depth as int].entries@[s].accuracy == pruned[s].accuracy
                &&& workspace.layers@[depth as int].entries@[s].column_slot == s
            } by {
                if s < slot {
                    assert(workspace.layers@[depth as int].entries@[s] == ws_iter.layers@[depth as int].entries@[s]);
                }
            }
            assert forall|s: int| 0 <= s < slot + 1 implies #[trigger] entry_ok(*workspace, depth as int, s, batch) by {
                let layer = workspace.layers@[depth as int];
                if s < slot {
                    assert(entry_ok(ws_iter, depth as int, s, batch));
                    assert(layer.entries@[s] == layer_before.entries@[s]);
                    assert forall|row: int| 0 <= row < bs implies #[trigger] layer.columns@[cell(s, row, bs)]
                        == key_row(layer.entries@[s].key, wc, batch, row) by {
                        assert(cell(s, row, bs) < dst_start) by (nonlinear_arith)
                            requires 0 <= s < slot, 0 <= row < bs, dst_start == slot * bs, cell(s, row, bs) == s * bs + row;
                        assert(layer_before.columns@[cell(s, row, bs)] == key_row(layer_before.entries@[s].key, wc, batch, row));
                    }
                } else {
                    assert forall|row: int| 0 <= row < bs implies #[trigger] layer.columns@[cell(s, row, bs)]
                        == key_row(layer.entries@[s].key, wc, batch, row) by {
                        assert(cell(s, row, bs) == dst_start + row) by (nonlinear_arith)
                            requires s == slot, dst_start == slot * bs, cell(s, row, bs) == s * bs + row;
                    }
                }
            }
        }
        slot = slot + 1;
    }
    let ghost filled_ws = *workspace;
    workspace.layers[depth].len = keep;
    proof {
        assert forall|s: int| 0 <= s < keep implies #[trigger] entry_ok(*workspace, depth as int, s, batch) by {
            assert(entry_ok(filled_ws, depth as int, s, batch));
        }
        assert(layer_ok(*workspace, depth as int, batch));
        assert forall|d: int| 0 <= d < workspace.layers@.len() implies #[trigger] layer_ok(*workspace, d, batch) by {
            if d != depth {
                assert(layer_ok(old_ws, d, batch));
                assert(workspace.layers@[d] == old_ws.layers@[d]);
                assert forall|s: int| 0 <= s < workspace.layers@[d].len implies #[trigger] entry_ok(*workspace, d, s, batch) by {
                    assert(entry_ok(old_ws, d, s, batch));
                }
            }
        }
        assert forall|s: int| 0 <= s < keep implies {
            &&& (#[trigger] workspace.layers@[depth as int].entries@[s]).key == survivors[s].key
            &&& workspace.layers@[depth as int].entries@[s].abs_assoc == survivors[s].abs_assoc
            &&& workspace.layers@[depth as int].entries@[s].accuracy == survivors[s].accuracy
            &&& workspace.layers@[depth as int].entries@[s].column_slot == s
        } by {
            assert(workspace.layers@[depth as int].entries@[s] == filled_ws.layers@[depth as int].entries@[s]);
            assert(survivors[s] == pruned[s]);
        }
        assert(finalized_from(workspace.layers@[depth as int], survivors, old_ws.extension_buf@, count as int,
            max_conjunctions as int, word_count as int));
    }
}

/// Fields other than the extension buffer and the row scratch are as before.
pub open spec fn same_but_scratch(a: ConjunctionBuildWorkspace, b: ConjunctionBuildWorkspace) -> bool {
    &&& a.literal_columns == b.literal_columns
    &&& a.layers == b.layers
    &&& a.dedup_buf == b.dedup_buf
    &&& a.sort_scratch == b.sort_scratch
    &&& a.batch_size == b.batch_size
    &&& a.feature_count == b.feature_count
    &&& a.key_words == b.key_words
    &&& a.max_conjunction_length == b.max_conjunction_length
    &&& a.extension_buf@.len() == b.extension_buf@.len()
    &&& a.z_scratch@.len() == b.z_scratch@.len()
}

/// The beam depends on the layers and the shape only.
proof fn lemma_beam_kept(a: ConjunctionBuildWorkspace, b: ConjunctionBuildWorkspace, batch: SignBatch)
    requires
        same_but_scratch(a, b),
        beam_ok(b, batch),
    ensures
        beam_ok(a, batch),
{
    assert forall|d: int| 0 <= d < a.layers@.len() implies #[trigger] layer_ok(a, d, batch) by {
        assert(layer_ok(b, d, batch));
        assert forall|s: int| 0 <= s < a.layers@[d].len implies #[trigger] entry_ok(a, d, s, batch) by {
            assert(entry_ok(b, d, s, batch));
        }
    }
}

/// Absolute association and accuracy of a full column against the labels.
fn score_exact(values: &[bool], signs: &[bool], ny: i64) -> (r: (i64, u8))
    requires
        values@.len() == signs@.len(),
        signs@.len() <= 255,
        ny == count_true(signs@),
    ensures
        scores_of(r.0, r.1, values@, signs@),
{
    proof {
        lemma_implied_accuracy(values@, signs@);
        lemma_count_eq_upto_bound(values@, signs@, values@.len() as int);
        lemma_count_true_upto_bound(signs@, signs@.len() as int);
    }
    score_column(values, signs, ny)
}

/// The literal column of `literal_index` in the workspace buffer.
fn literal_slice<'w>(workspace: &'w ConjunctionBuildWorkspace, literal_index: usize, Ghost(batch): Ghost<SignBatch>) -> (r: &'w [bool])
    requires
        workspace.literals_of(batch),
        literal_index < 2 * workspace.feature_count,
    ensures
        r@ == literal_column(batch, literal_index as int, workspace.batch_size as int),
{
    let batch_size = workspace.batch_size;
    let total = workspace.literal_columns.len();
    proof {
        assert(literal_index * batch_size + batch_size <= 2 * workspace.feature_count * batch_size) by (nonlinear_arith)
            requires literal_index < 2 * workspace.feature_count;
    }
    let start = literal_index * batch_size;
    let r = slice_range(workspace.literal_columns.as_slice(), start, start + batch_size);
    proof {
        assert forall|row: int| 0 <= row < batch_size implies #[trigger] r@[row]
            == ConjunctionBuildWorkspace::literal_value(batch, literal_index as int, row) by {
            assert(r@[row] == workspace.literal_columns@[cell(literal_index as int, row, batch_size as int)]);
        }
        assert(r@ =~= literal_column(batch, literal_index as int, batch_size as int));
    }
    r
}

/// Scores the literal `feature_index` (negated or not) and, unless its column
/// is constant, appends it to the extension buffer as a depth-0 candidate.
fn push_literal_candidate(
    workspace: &mut ConjunctionBuildWorkspace,
    feature_index: usize,
    negated: bool,
    count: usize,
    signs: &[bool],
    ny: i64,
    Ghost(config): Ghost<ConjunctionBuildConfig>,
    Ghost(batch): Ghost<SignBatch>,
) -> (r: usize)
    requires
        frame(*old(workspace), config, batch),
        feature_index < old(workspace).feature_count,
        count < old(workspace).extension_buf@.len(),
        signs@ == batch.signs@,
        ny == count_true(signs@),
        forall|c: int| 0 <= c < count ==> cand_ok(*old(workspace), #[trigger] old(workspace).extension_buf@[c], 0, batch),
    ensures
        same_but_scratch(*final(workspace), *old(workspace)),
        frame(*final(workspace), config, batch),
        r == count || r == count + 1,
        r == count + 1 <==> !constant_column(literal_column(batch, literal_of(feature_index as int, negated), old(workspace).batch_size as int)),
        forall|c: int| 0 <= c < count ==> #[trigger] final(workspace).extension_buf@[c] == old(workspace).extension_buf@[c],
        forall|c: int| 0 <= c < r ==> cand_ok(*final(workspace), #[trigger] final(workspace).extension_buf@[c], 0, batch),
{
    let ghost wc = workspace.key_words as int;
    let ghost fc = workspace.feature_count as int;
    let capacity = workspace.extension_buf.len();
    let literal_index = feature_index * 2 + if negated { 1 } else { 0 };
    let column = literal_slice(workspace, literal_index, Ghost(batch));
    if is_constant_column(column) {
        return count;
    }
    let (abs_assoc, accuracy) = score_exact(column, signs, ny);
    let empty = ConjunctionKey::empty();
    proof {
        lemma_feature_in_words(feature_index as int, fc);
        lemma_empty_lits(empty, wc, fc);
    }
    let key = match empty.with_literal(feature_index, negated, workspace.key_words) {
        Some(k) => k,
        None => {
            return count;
        },
    };
    proof {
        lemma_child_key(empty, key, wc, fc, 0, feature_index as int, negated, batch);
        assert(key_column(key, wc, batch, workspace.batch_size as int) =~= column@);
    }
    workspace.extension_buf[count] = ExtensionCandidate {
        key,
        abs_assoc,
        accuracy,
        parent_slot: 0,
        literal_index: literal_index as u16,
    };
    count + 1
}

/// Fills depth 0 with the best single literals of the non-constant features.
fn populate_depth_zero(
    batch: SignBatch<'_>,
    workspace: &mut ConjunctionBuildWorkspace,
    feature_count: usize,
    ny: i64,
    word_count: usize,
    max_conjunctions: usize,
    Ghost(config): Ghost<ConjunctionBuildConfig>,
) -> (r: Result<(), ConjunctionBuildError>)
    requires
        frame(*old(workspace), config, batch),
        beam_ok(*old(workspace), batch),
        feature_count == batch.spec_feature_count(),
        ny == count_true(batch.signs@),
        word_count == old(workspace).key_words,
        max_conjunctions == config.max_conjunctions,
    ensures
        r is Ok,
        frame(*final(workspace), config, batch),
        beam_ok(*final(workspace), batch),
        same_buffers(*final(workspace), *old(workspace)),
        other_layers_same(*final(workspace), *old(workspace), 0),
        final(workspace).layers@[0].len == 0 <==> all_columns_constant(batch),
{
    let ghost old_ws = *workspace;
    let ghost bs = workspace.batch_size as int;
    proof {
        assert(2 * feature_count <= max_conjunctions * 2 * feature_count) by (nonlinear_arith)
            requires max_conjunctions >= 1, feature_count >= 0;
    }
    let mut count: usize = 0;
    let mut feature_index: usize = 0;
    while feature_index < feature_count
        invariant
            frame(old_ws, config, batch),
            beam_ok(old_ws, batch),
            frame(*workspace, config, batch),
            same_but_scratch(*workspace, old_ws),
            feature_count == batch.spec_feature_count(),
            feature_count == old_ws.feature_count,
            bs == old_ws.batch_size,
            ny == count_true(batch.signs@),
            max_conjunctions == config.max_conjunctions,
            word_count == old_ws.key_words,
            feature_index <= feature_count,
            count <= 2 * feature_index,
            2 * feature_count <= workspace.extension_buf@.len(),
            (count == 0) <==> (forall|g: int| 0 <= g < feature_index ==> constant_column(#[trigger] batch.col(g))),
            forall|c: int| 0 <= c < count ==> cand_ok(*workspace, #[trigger] workspace.extension_buf@[c], 0, batch),
        decreases feature_count - feature_index,
    {
        let column = match batch.column(feature_index) {
            Some(c) => c,
            None => {
                return Err(ConjunctionBuildError::InvalidBatch);
            },
        };
        proof {
            assert(2 * feature_index + 2 <= max_conjunctions * 2 * feature_count) by (nonlinear_arith)
                requires feature_index < feature_count, max_conjunctions >= 1;
            assert(workspace.extension_buf@.len() == extension_capacity(feature_count as int, max_conjunctions as int));
        }
        let ghost before = count;
        if !is_constant_column(column) {
            proof {
                assert(literal_column(batch, literal_of(feature_index as int, false), bs) =~= column@);
            }
            count = push_literal_candidate(workspace, feature_index, false, count, batch.signs, ny, Ghost(config), Ghost(batch));
            count = push_literal_candidate(workspace, feature_index, true, count, batch.signs, ny, Ghost(config), Ghost(batch));
        }
        proof {
            if count == 0 {
                assert forall|g: int| 0 <= g < feature_index + 1 implies constant_column(#[trigger] batch.col(g)) by {
                    if g < feature_index {
                        assert(before == 0);
                    }
                }
            } else if before == 0 {
                assert(!constant_column(batch.col(feature_index as int)));
            } else {
                let g = choose|g: int| 0 <= g < feature_index && !constant_column(#[trigger] batch.col(g));
                assert(!constant_column(batch.col(g)));
            }
        }
        feature_index = feature_index + 1;
    }
    proof {
        lemma_beam_kept(*workspace, old_ws, batch);
    }
    finalize_layer_from_extensions(workspace, 0, count, max_conjunctions, word_count, true, Ghost(config), Ghost(batch));
    proof {
        if count > 0 {
            let g = choose|g: int| 0 <= g < feature_count && !constant_column(#[trigger] batch.col(g));
            assert(!constant_column(batch.col(g)));
        }
    }
    Ok(())
}

/// Scores the extension of the parent in slot `parent_slot` of depth
/// `parent_depth` by one fresh literal and, unless its column is constant,
/// appends it to the extension buffer.
fn push_extension_candidate(
    workspace: &mut ConjunctionBuildWorkspace,
    parent_depth: usize,
    parent_slot: usize,
    feature_index: usize,
    negated: bool,
    count: usize,
    signs: &[bool],
    ny: i64,
    Ghost(config): Ghost<ConjunctionBuildConfig>,
    Ghost(batch): Ghost<SignBatch>,
) -> (r: usize)
    requires
        frame(*old(workspace), config, batch),
        beam_ok(*old(workspace), batch),
        parent_depth + 1 < old(workspace).layers@.len(),
        parent_slot < old(workspace).layers@[parent_depth as int].len,
        feature_index < old(workspace).feature_count,
        !old(workspace).layers@[parent_depth as int].entries@[parent_slot as int].key.has(feature_index as int, old(workspace).key_words as int),
        count < old(workspace).extension_buf@.len(),
        signs@ == batch.signs@,
        ny == count_true(signs@),
        forall|c: int| 0 <= c < count ==> cand_ok(*old(workspace), #[trigger] old(workspace).extension_buf@[c], parent_depth + 1, batch),
    ensures
        same_but_scratch(*final(workspace), *old(workspace)),
        frame(*final(workspace), config, batch),
        beam_ok(*final(workspace), batch),
        r == count || r == count + 1,
        forall|c: int| 0 <= c < count ==> #[trigger] final(workspace).extension_buf@[c] == old(workspace).extension_buf@[c],
        forall|c: int| 0 <= c < r ==> cand_ok(*final(workspace), #[trigger] final(workspace).extension_buf@[c], parent_depth + 1, batch),
        r == count ==> constant_column(ext_col(old(workspace).layers@[parent_depth as int].entries@[parent_slot as int].key,
            old(workspace).key_words as int, batch, old(workspace).batch_size as int, literal_of(feature_index as int, negated))),
{
    let ghost old_ws = *workspace;
    let ghost wc = workspace.key_words as int;
    let ghost fc = workspace.feature_count as int;
    let ghost bs = workspace.batch_size as int;
    let ghost pd = parent_depth as int;
    let capacity = workspace.extension_buf.len();
    let batch_size = workspace.batch_size;
    let parent = workspace.layers[parent_depth].entries[parent_slot];
    let literal_index = feature_index * 2 + if negated { 1 } else { 0 };
    proof {
        assert(layer_ok(old_ws, pd, batch));
        assert(entry_ok(old_ws, pd, parent_slot as int, batch));
        assert(old_ws.layers@[pd].columns@.len() == config.max_conjunctions * bs);
        assert(parent_slot * bs + bs <= config.max_conjunctions * bs) by (nonlinear_arith)
            requires parent_slot < config.max_conjunctions, bs >= 0;
        assert(literal_index * bs + bs <= 2 * fc * bs) by (nonlinear_arith)
            requires literal_index < 2 * fc, bs >= 0;
        lemma_feature_in_words(feature_index as int, fc);
    }
    let columns_len = workspace.layers[parent_depth].columns.len();
    let literals_len = workspace.literal_columns.len();
    let parent_start = parent_slot * batch_size;
    let literal_start = literal_index * batch_size;
    let key = match parent.key.with_literal(feature_index, negated, workspace.key_words) {
        Some(k) => k,
        None => {
            return count;
        },
    };
    proof {
        lemma_child_key(parent.key, key, wc, fc, pd + 1, feature_index as int, negated, batch);
    }
    let mut row: usize = 0;
    while row < batch_size
        invariant
            frame(old_ws, config, batch),
            entry_ok(old_ws, pd, parent_slot as int, batch),
            pd == parent_depth,
            pd + 1 < old_ws.layers@.len(),
            parent == old_ws.layers@[pd].entries@[parent_slot as int],
            batch_size == bs,
            bs == old_ws.batch_size,
            wc == old_ws.key_words,
            fc == old_ws.feature_count,
            literal_index == literal_of(feature_index as int, negated),
            literal_index < 2 * fc,
            parent_start == parent_slot * bs,
            literal_start == literal_index * bs,
            parent_start + bs <= columns_len,
            columns_len == old_ws.layers@[pd].columns@.len(),
            literal_start + bs <= literals_len,
            literals_len == old_ws.literal_columns@.len(),
            row <= bs,
            same_but_scratch(*workspace, old_ws),
            workspace.extension_buf == old_ws.extension_buf,
            workspace.z_scratch@.len() == bs,
            forall|row2: int| #[trigger] key_row(key, wc, batch, row2) == (key_row(parent.key, wc, batch, row2)
                && ConjunctionBuildWorkspace::literal_value(batch, literal_of(feature_index as int, negated), row2)),
            forall|r: int| 0 <= r < row ==> #[trigger] workspace.z_scratch@[r] == key_row(key, wc, batch, r),
        decreases bs - row,
    {
        proof {
            assert(old_ws.literal_columns@[cell(literal_index as int, row as int, bs)]
                == ConjunctionBuildWorkspace::literal_value(batch, literal_index as int, row as int));
            assert(old_ws.layers@[pd].columns@[cell(parent_slot as int, row as int, bs)]
                == key_row(parent.key, wc, batch, row as int));
        }
        let v = workspace.layers[parent_depth].columns[parent_start + row] && workspace.literal_columns[literal_start + row];
        workspace.z_scratch[row] = v;
        row = row + 1;
    }
    proof {
        assert(workspace.z_scratch@ =~= key_column(key, wc, batch, bs));
        lemma_beam_kept(*workspace, old_ws, batch);
        assert(key_column(key, wc, batch, bs) =~= ext_col(parent.key, wc, batch, bs, literal_of(feature_index as int, negated)));
    }
    if is_constant_column(workspace.z_scratch.as_slice()) {
        return count;
    }
    let (abs_assoc, accuracy) = score_exact(workspace.z_scratch.as_slice(), signs, ny);
    workspace.extension_buf[count] = ExtensionCandidate {
        key,
        abs_assoc,
        accuracy,
        parent_slot: parent_slot as u16,
        literal_index: literal_index as u16,
    };
    proof {
        lemma_beam_kept(*workspace, old_ws, batch);
    }
    count + 1
}

/// Extends every parent of depth `parent_depth` by every fresh non-constant
/// literal and keeps the best extensions in depth `child_depth`; returns the
/// number kept.
#[verifier::spinoff_prover]
fn extend_into_depth(
    workspace: &mut ConjunctionBuildWorkspace,
    parent_depth: usize,
    child_depth: usize,
    feature_count: usize,
    batch_size: usize,
    signs: &[bool],
    ny: i64,
    word_count: usize,
    max_conjunctions: usize,
    Ghost(config): Ghost<ConjunctionBuildConfig>,
    Ghost(batch): Ghost<SignBatch>,
) -> (r: Result<usize, ConjunctionBuildError>)
    requires
        frame(*old(workspace), config, batch),
        beam_ok(*old(workspace), batch),
        child_depth == parent_depth + 1,
        child_depth < old(workspace).layers@.len(),
        feature_count == old(workspace).feature_count,
        batch_size == old(workspace).batch_size,
        signs@ == batch.signs@,
        ny == count_true(signs@),
        word_count == old(workspace).key_words,
        max_conjunctions == config.max_conjunctions,
    ensures
        r matches Ok(n) && n == final(workspace).layers@[child_depth as int].len,
        frame(*final(workspace), config, batch),
        beam_ok(*final(workspace), batch),
        same_buffers(*final(workspace), *old(workspace)),
        other_layers_same(*final(workspace), *old(workspace), child_depth as int),
        forall|s: int| 0 <= s < final(workspace).layers@[child_depth as int].len ==> child_of(*old(workspace),
            #[trigger] final(workspace).layers@[child_depth as int].entries@[s].key, parent_depth as int, batch),
        r matches Ok(n) && n == 0 ==> no_extension(old(workspace).layers@[parent_depth as int], batch,
            old(workspace).key_words as int, old(workspace).feature_count as int, old(workspace).batch_size as int),
{
    let ghost old_ws = *workspace;
    let ghost pd = parent_depth as int;
    let capacity = workspace.extension_buf.len();
    let parent_len = workspace.layers[parent_depth].len;
    proof {
        assert(parent_len <= max_conjunctions);
        assert(capacity == max_conjunctions * 2 * feature_count);
    }
    let mut count: usize = 0;
    let mut p: usize = 0;
    while p < parent_len
        invariant
            frame(old_ws, config, batch),
            beam_ok(old_ws, batch),
            frame(*workspace, config, batch),
            beam_ok(*workspace, batch),
            same_but_scratch(*workspace, old_ws),
            child_depth == parent_depth + 1,
            child_depth < old_ws.layers@.len(),
            pd == parent_depth,
            parent_len == old_ws.layers@[pd].len,
            parent_len <= max_conjunctions,
            max_conjunctions == config.max_conjunctions,
            capacity == workspace.extension_buf@.len(),
            capacity == max_conjunctions * 2 * feature_count,
            feature_count == old_ws.feature_count,
            batch_size == old_ws.batch_size,
            word_count == old_ws.key_words,
            signs@ == batch.signs@,
            ny == count_true(signs@),
            p <= parent_len,
            count <= 2 * feature_count * p,
            forall|c: int| 0 <= c < count ==> cand_ok(*workspace, #[trigger] workspace.extension_buf@[c], pd + 1, batch),
            count == 0 ==> ext_none_upto(old_ws.layers@[pd], batch, word_count as int, feature_count as int, batch_size as int, p as int, 0),
        decreases parent_len - p,
    {
        let parent_key = workspace.layers[parent_depth].entries[p].key;
        let mut feature_index: usize = 0;
        while feature_index < feature_count
            invariant
                frame(old_ws, config, batch),
                beam_ok(old_ws, batch),
                frame(*workspace, config, batch),
                beam_ok(*workspace, batch),
                same_but_scratch(*workspace, old_ws),
                child_depth == parent_depth + 1,
                child_depth < old_ws.layers@.len(),
                pd == parent_depth,
                parent_len == old_ws.layers@[pd].len,
                p < parent_len <= max_conjunctions,
                parent_key == old_ws.layers@[pd].entries@[p as int].key,
                max_conjunctions == config.max_conjunctions,
                capacity == workspace.extension_buf@.len(),
                capacity == max_conjunctions * 2 * feature_count,
                feature_count == old_ws.feature_count,
                batch_size == old_ws.batch_size,
                word_count == old_ws.key_words,
                signs@ == batch.signs@,
                ny == count_true(signs@),
                feature_index <= feature_count,
                count <= 2 * feature_count * p + 2 * feature_index,
                forall|c: int| 0 <= c < count ==> cand_ok(*workspace, #[trigger] workspace.extension_buf@[c], pd + 1, batch),
                count == 0 ==> ext_none_upto(old_ws.layers@[pd], batch, word_count as int, feature_count as int, batch_size as int,
                    p as int, feature_index as int),
            decreases feature_count - feature_index,
        {
            proof {
                assert(2 * feature_count * p + 2 * feature_index + 2 <= max_conjunctions * 2 * feature_count) by (nonlinear_arith)
                    requires p < max_conjunctions, feature_index < feature_count, feature_count >= 0;
            }
            let ghost count0 = count;
            if !parent_key.contains(feature_index, word_count) {
                let literals = literal_slice(workspace, feature_index * 2, Ghost(batch));
                if !is_constant_column(literals) {
                    if count >= capacity {
                        return Err(ConjunctionBuildError::ExpertTooLarge);
                    }
                    count = push_extension_candidate(workspace, parent_depth, p, feature_index, false, count, signs, ny, Ghost(config), Ghost(batch));
                    let ghost count1 = count;
                    if count >= capacity {
                        return Err(ConjunctionBuildError::ExpertTooLarge);
                    }
                    count = push_extension_candidate(workspace, parent_depth, p, feature_index, true, count, signs, ny, Ghost(config), Ghost(batch));
                    proof {
                        assert(workspace.layers@[pd] == old_ws.layers@[pd]);
                        if count == 0 {
                            assert(count1 == 0);
                        }
                    }
                }
            }
            proof {
                if count == 0 {
                    assert(count0 == 0);
                    assert(literal_of(feature_index as int, false) == 2 * feature_index);
                    assert(literal_of(feature_index as int, true) == 2 * feature_index + 1);
                    assert forall|s2: int, f: int| 0 <= s2 < old_ws.layers@[pd].len && 0 <= f < feature_count
                        && (s2 < p || (s2 == p && f < feature_index + 1))
                        && !old_ws.layers@[pd].entries@[s2].key.has(f, word_count as int)
                        implies #[trigger] ext_none_at(old_ws.layers@[pd], batch, word_count as int, batch_size as int, s2, f) by {
                        if s2 == p && f == feature_index {
                        } else {
                            assert(ext_none_upto(old_ws.layers@[pd], batch, word_count as int, feature_count as int, batch_size as int,
                                p as int, feature_index as int));
                        }
                    }
                }
            }
            feature_index = feature_index + 1;
        }
        proof {
            assert(2 * feature_count * p + 2 * feature_count == 2 * feature_count * (p + 1)) by (nonlinear_arith);
        }
        p = p + 1;
    }
    proof {
        assert(2 * feature_count * p <= max_conjunctions * 2 * feature_count) by (nonlinear_arith)
            requires p <= max_conjunctions, feature_count >= 0;
    }
    proof {
        if count == 0 {
            assert(ext_none_upto(old_ws.layers@[pd], batch, word_count as int, feature_count as int, batch_size as int, parent_len as int, 0));
            assert forall|s2: int, f: int| 0 <= s2 < old_ws.layers@[pd].len && 0 <= f < feature_count
                && !(#[trigger] old_ws.layers@[pd].entries@[s2]).key.has(f, word_count as int)
                implies constant_column(#[trigger] literal_column(batch, 2 * f, batch_size as int))
                    || (constant_column(ext_col(old_ws.layers@[pd].entries@[s2].key, word_count as int, batch, batch_size as int, 2 * f))
                        && constant_column(ext_col(old_ws.layers@[pd].entries@[s2].key, word_count as int, batch, batch_size as int, 2 * f + 1))) by {
                assert(ext_none_at(old_ws.layers@[pd], batch, word_count as int, batch_size as int, s2, f));
            }
            assert(no_extension(old_ws.layers@[pd], batch, word_count as int, feature_count as int, batch_size as int));
        }
    }
    let ghost ext_ws = *workspace;
    finalize_layer_from_extensions(workspace, child_depth, count, max_conjunctions, word_count, false, Ghost(config), Ghost(batch));
    proof {
        let layer = workspace.layers@[child_depth as int];
        if count > 0 {
            let survivors = choose|survivors: Seq<ExtensionCandidate>| #[trigger] finalized_from(layer, survivors, ext_ws.extension_buf@,
                count as int, max_conjunctions as int, word_count as int);
            assert forall|s: int| 0 <= s < layer.len implies #[trigger] child_of(old_ws, layer.entries@[s].key, pd, batch) by {
                assert(in_prefix(ext_ws.extension_buf@, count as int, survivors[s]));
                let i = choose|i: int| 0 <= i < count && #[trigger] ext_ws.extension_buf@[i] == survivors[s];
                let c = ext_ws.extension_buf@[i];
                assert(cand_ok(ext_ws, c, pd + 1, batch));
                assert(ext_ws.layers@[pd] == old_ws.layers@[pd]);
                assert(layer.entries@[s].key == c.key);
                assert(child_by(old_ws, c.key, pd, batch, c.parent_slot as int, c.literal_index as int));
            }
        }
    }
    Ok(workspace.layers[child_depth].len)
}

/// `key`'s column is the column of parent slot `ps` of depth `pd` AND the
/// column of literal `li`.
pub open spec fn child_by(ws: ConjunctionBuildWorkspace, key: ConjunctionKey, pd: int, batch: SignBatch, ps: int, li: int) -> bool {
    &&& 0 <= ps < ws.layers@[pd].len
    &&& 0 <= li < 2 * ws.feature_count
    &&& forall|row: int| 0 <= row < ws.batch_size ==> #[trigger] key_row(key, ws.key_words as int, batch, row)
        == (key_row(ws.layers@[pd].entries@[ps].key, ws.key_words as int, batch, row)
            && ConjunctionBuildWorkspace::literal_value(batch, li, row))
}

/// `key` extends an entry of depth `pd` by one literal.
pub open spec fn child_of(ws: ConjunctionBuildWorkspace, key: ConjunctionKey, pd: int, batch: SignBatch) -> bool {
    exists|ps: int, li: int| #[trigger] child_by(ws, key, pd, batch, ps, li)
}

/// `r` is one of the entries of the beam.
pub open spec fn in_beam(layers: Seq<DepthLayer>, r: BeamEntry) -> bool {
    exists|d: int, s: int| 0 <= d < layers.len() && 0 <= s < layers[d].len && r == #[trigger] layers[d].entries@[s]
}

/// The best entry, in winner order, over every depth of the beam.
fn best_across_depths(layers: &[DepthLayer]) -> (r: BeamEntry)
    requires
        layers@.len() >= 1,
        layers@[0].len >= 1,
        forall|d: int| 0 <= d < layers@.len() ==> #[trigger] layers@[d].len <= layers@[d].entries@.len(),
    ensures
        in_beam(layers@, r),
        forall|d: int, s: int| 0 <= d < layers@.len() && 0 <= s < layers@[d].len
            ==> beam_order(#[trigger] layers@[d].entries@[s], r) <= 0,
{
    let mut best = pick_winner(layers[0].entries.as_slice(), layers[0].len);
    let mut i: usize = 1;
    while i < layers.len()
        invariant
            1 <= i <= layers@.len(),
            forall|d: int| 0 <= d < layers@.len() ==> #[trigger] layers@[d].len <= layers@[d].entries@.len(),
            exists|d: int, s: int| 0 <= d < i && 0 <= s < layers@[d].len && best == #[trigger] layers@[d].entries@[s],
            forall|d: int, s: int| 0 <= d < i && 0 <= s < layers@[d].len
                ==> beam_order(#[trigger] layers@[d].entries@[s], best) <= 0,
        decreases layers@.len() - i,
    {
        let len = layers[i].len;
        if len != 0 {
            let candidate = pick_winner(layers[i].entries.as_slice(), len);
            if beam_at_least(&candidate, &best) {
                proof {
                    lemma_beam_antisym(candidate, best);
                    assert forall|d: int, s: int| 0 <= d < i + 1 && 0 <= s < layers@[d].len
                        implies beam_order(#[trigger] layers@[d].entries@[s], candidate) <= 0 by {
                        let e = layers@[d].entries@[s];
                        lemma_beam_antisym(e, candidate);
                        lemma_beam_antisym(e, best);
                        if d < i {
                            lemma_beam_trans(candidate, best, e);
                        }
                    }
                }
                best = candidate;
            } else {
                proof {
                    lemma_beam_antisym(candidate, best);
                    assert forall|d: int, s: int| 0 <= d < i + 1 && 0 <= s < layers@[d].len
                        implies beam_order(#[trigger] layers@[d].entries@[s], best) <= 0 by {
                        let e = layers@[d].entries@[s];
                        if d == i {
                            lemma_beam_antisym(e, candidate);
                            lemma_beam_antisym(e, best);
                            lemma_beam_trans(best, candidate, e);
                        }
                    }
                }
            }
        }
        i = i + 1;
    }
    best
}

/// A conjunction of `1..=max_conjunction_length` literals on distinct
/// features of the batch, with its association and accuracy on the batch.
pub open spec fn scored_conjunction(e: BeamEntry, batch: SignBatch, config: ConjunctionBuildConfig) -> bool {
    let fc = batch.spec_feature_count();
    let wc = key_words_for(fc);
    let n = e.key.lits_upto(wc, fc);
    &&& 1 <= n <= config.max_conjunction_length
    &&& key_ok(e.key, wc, fc, n as int)
    &&& scores_of(e.abs_assoc, e.accuracy, key_column(e.key, wc, batch, config.batch_size as int), batch.signs@)
}

/// Every entry past depth zero, up to depth `depth`, extends an entry of the
/// depth before by one literal; deeper depths are empty.
pub open spec fn beam_chained(ws: ConjunctionBuildWorkspace, depth: int, batch: SignBatch) -> bool {
    &&& forall|d: int| depth < d < ws.layers@.len() ==> (#[trigger] ws.layers@[d]).len == 0
    &&& forall|d: int, s: int| 1 <= d < ws.layers@.len() && 0 <= s < ws.layers@[d].len
        ==> child_of(ws, #[trigger] ws.layers@[d].entries@[s].key, d - 1, batch)
}

/// A chain up to one depth is a chain up to any deeper one.
pub proof fn lemma_chained_mono(ws: ConjunctionBuildWorkspace, a: int, b: int, batch: SignBatch)
    requires
        beam_chained(ws, a, batch),
        a <= b,
    ensures
        beam_chained(ws, b, batch),
{
    assert forall|d: int| b < d < ws.layers@.len() implies (#[trigger] ws.layers@[d]).len == 0 by {
        assert(a < d);
    }
}

/// `entry` is an entry of the beam in `ws` that ranks first among all of
/// them (accuracy, then association, then key), and the beam is chained.
pub open spec fn beam_answer(ws: ConjunctionBuildWorkspace, entry: BeamEntry, batch: SignBatch) -> bool {
    &&& in_beam(ws.layers@, entry)
    &&& forall|d: int, s: int| 0 <= d < ws.layers@.len() && 0 <= s < ws.layers@[d].len
        ==> beam_order(#[trigger] ws.layers@[d].entries@[s], entry) <= 0
    &&& beam_chained(ws, ws.layers@.len() as int, batch)
}

/// Column of `key` extended by literal `li`.
pub open spec fn ext_col(key: ConjunctionKey, wc: int, batch: SignBatch, bs: int, li: int) -> Seq<bool> {
    Seq::new(bs as nat, |row: int| key_row(key, wc, batch, row) && ConjunctionBuildWorkspace::literal_value(batch, li, row))
}

/// Entry `s` of `layer` does not extend by feature `f`: the feature's column
/// is constant or both extended columns are.
pub open spec fn ext_none_at(layer: DepthLayer, batch: SignBatch, wc: int, bs: int, s: int, f: int) -> bool {
    constant_column(literal_column(batch, 2 * f, bs))
        || (constant_column(ext_col(layer.entries@[s].key, wc, batch, bs, 2 * f))
            && constant_column(ext_col(layer.entries@[s].key, wc, batch, bs, 2 * f + 1)))
}

/// No entry before slot `p`, and no feature before `fmax` of entry `p`,
/// extends.
pub open spec fn ext_none_upto(layer: DepthLayer, batch: SignBatch, wc: int, fc: int, bs: int, p: int, fmax: int) -> bool {
    forall|s: int, f: int| 0 <= s < layer.len && 0 <= f < fc && (s < p || (s == p && f < fmax))
        && !layer.entries@[s].key.has(f, wc) ==> #[trigger] ext_none_at(layer, batch, wc, bs, s, f)
}

/// No entry of `layer` extends: for every entry and every feature it lacks,
/// the feature's column is constant or both extended columns are.
pub open spec fn no_extension(layer: DepthLayer, batch: SignBatch, wc: int, fc: int, bs: int) -> bool {
    forall|s: int, f: int| 0 <= s < layer.len && 0 <= f < fc && !(#[trigger] layer.entries@[s]).key.has(f, wc)
        ==> constant_column(#[trigger] literal_column(batch, 2 * f, bs))
            || (constant_column(ext_col(layer.entries@[s].key, wc, batch, bs, 2 * f))
                && constant_column(ext_col(layer.entries@[s].key, wc, batch, bs, 2 * f + 1)))
}

/// Highest accuracy among the first `m` entries (0 for none).
pub open spec fn best_upto(entries: Seq<BeamEntry>, m: int) -> int
    decreases m,
{
    if m <= 0 {
        0
    } else {
        let b = best_upto(entries, m - 1);
        if entries[m - 1].accuracy as int > b { entries[m - 1].accuracy as int } else { b }
    }
}

/// Highest accuracy in a depth of the beam (0 when empty).
pub open spec fn layer_best(layer: DepthLayer) -> int {
    best_upto(layer.entries@, layer.len as int)
}

/// Highest accuracy over depths `0..=d`.
pub open spec fn run_best(layers: Seq<DepthLayer>, d: int) -> int
    decreases d,
{
    if d <= 0 {
        layer_best(layers[0])
    } else {
        let b = run_best(layers, d - 1);
        if layer_best(layers[d]) > b { layer_best(layers[d]) } else { b }
    }
}

/// Depths in a row, up to `d`, that were empty or did not raise the best
/// accuracy.
pub open spec fn stale_run(layers: Seq<DepthLayer>, d: int) -> int
    decreases d,
{
    if d <= 0 {
        0
    } else if layers[d].len == 0 {
        stale_run(layers, d - 1) + 1
    } else if layer_best(layers[d]) > run_best(layers, d - 1) {
        0
    } else {
        stale_run(layers, d - 1) + 1
    }
}

/// After depth `d` the search goes on: the depth is not empty, fewer than
/// `stale_layers` depths in a row failed to improve, and (past depth zero)
/// the best accuracy is below the batch size.
pub open spec fn search_continues(layers: Seq<DepthLayer>, d: int, config: ConjunctionBuildConfig) -> bool {
    &&& layers[d].len > 0
    &&& stale_run(layers, d) < config.stale_layers
    &&& !(d >= 1 && run_best(layers, d) == config.batch_size)
}

/// The search stops after depth `e`: it is the last depth, it is empty,
/// `stale_layers` depths in a row failed to improve, or a non-empty depth
/// past zero reached the batch size; and an empty depth is empty because
/// no entry of the depth before extends.
pub open spec fn search_stops(ws: ConjunctionBuildWorkspace, e: int, config: ConjunctionBuildConfig, batch: SignBatch) -> bool {
    let layers = ws.layers@;
    &&& layers[e].len == 0 ==> e >= 1 && no_extension(layers[e - 1], batch, ws.key_words as int, ws.feature_count as int,
        ws.batch_size as int)
    &&& {
        ||| e == layers.len() - 1
        ||| layers[e].len == 0
        ||| stale_run(layers, e) >= config.stale_layers
        ||| (e >= 1 && layers[e].len > 0 && run_best(layers, e) == config.batch_size)
    }
}

/// The beam was grown depth by depth until the first depth at which the
/// search stops; no depth past it holds an entry.
pub open spec fn search_complete(ws: ConjunctionBuildWorkspace, config: ConjunctionBuildConfig, batch: SignBatch) -> bool {
    exists|e: int| #[trigger] search_stops(ws, e, config, batch) && 0 <= e < ws.layers@.len()
        && (forall|d: int| 0 <= d < e ==> #[trigger] search_continues(ws.layers@, d, config))
        && (forall|d: int| e < d < ws.layers@.len() ==> (#[trigger] ws.layers@[d]).len == 0)
}

/// While the search goes on, it builds the next depth: after every depth
/// up to `d` goes on, depth `d + 1` holds entries unless no entry of depth
/// `d` extends by a feature it lacks to a column that varies.
pub proof fn law_search_builds_next_depth(ws: ConjunctionBuildWorkspace, config: ConjunctionBuildConfig, batch: SignBatch, d: int)
    requires
        search_complete(ws, config, batch),
        0 <= d < ws.layers@.len() - 1,
        forall|c: int| 0 <= c <= d ==> #[trigger] search_continues(ws.layers@, c, config),
    ensures
        ws.layers@[d + 1].len > 0
            || no_extension(ws.layers@[d], batch, ws.key_words as int, ws.feature_count as int, ws.batch_size as int),
{
    let layers = ws.layers@;
    let e = choose|e: int| #[trigger] search_stops(ws, e, config, batch) && 0 <= e < layers.len()
        && (forall|c: int| 0 <= c < e ==> #[trigger] search_continues(layers, c, config))
        && (forall|c: int| e < c < layers.len() ==> (#[trigger] layers[c]).len == 0);
    if e <= d {
        assert(search_continues(layers, e, config));
        assert(false);
    }
    if d + 1 < e {
        assert(search_continues(layers, d + 1, config));
    }
}

/// Beams that agree on depths `0..=d` agree on the running best and the
/// stale run at `d`.
pub proof fn lemma_run_frame(l1: Seq<DepthLayer>, l2: Seq<DepthLayer>, d: int)
    requires
        0 <= d,
        d < l1.len(),
        d < l2.len(),
        forall|i: int| 0 <= i <= d ==> #[trigger] l1[i] == l2[i],
    ensures
        run_best(l1, d) == run_best(l2, d),
        stale_run(l1, d) == stale_run(l2, d),
    decreases d,
{
    assert(l1[d] == l2[d]);
    if d > 0 {
        lemma_run_frame(l1, l2, d - 1);
    }
}

/// The running best accuracy is never negative.
pub proof fn lemma_run_best_nonneg(layers: Seq<DepthLayer>, d: int)
    ensures
        run_best(layers, d) >= 0,
    decreases d,
{
    lemma_best_upto_nonneg(layers[0].entries@, layers[0].len as int);
    if d > 0 {
        lemma_run_best_nonneg(layers, d - 1);
    }
}

pub proof fn lemma_best_upto_nonneg(entries: Seq<BeamEntry>, m: int)
    ensures
        best_upto(entries, m) >= 0,
    decreases m,
{
    if m > 0 {
        lemma_best_upto_nonneg(entries, m - 1);
    }
}

/// An entry among the first `m` that no entry there outranks has the
/// highest accuracy.
pub proof fn lemma_winner_best(entries: Seq<BeamEntry>, m: int, w: BeamEntry)
    requires
        1 <= m <= entries.len(),
        exists|k: int| 0 <= k < m && entries[k] == w,
        forall|j: int| 0 <= j < m ==> beam_order(#[trigger] entries[j], w) <= 0,
    ensures
        w.accuracy == best_upto(entries, m),
{
    lemma_best_upto_bounds(entries, m);
    let k = choose|k: int| 0 <= k < m && entries[k] == w;
    let a = choose|a: int| 0 <= a < m && entries[a].accuracy == best_upto(entries, m);
    assert(beam_order(entries[a], w) <= 0);
}

/// The best accuracy among `m` entries bounds each and is attained.
pub proof fn lemma_best_upto_bounds(entries: Seq<BeamEntry>, m: int)
    requires
        1 <= m <= entries.len(),
    ensures
        forall|j: int| 0 <= j < m ==> (#[trigger] entries[j]).accuracy <= best_upto(entries, m),
        exists|a: int| 0 <= a < m && entries[a].accuracy == best_upto(entries, m),
    decreases m,
{
    if m > 1 {
        lemma_best_upto_bounds(entries, m - 1);
        let a = choose|a: int| 0 <= a < m - 1 && entries[a].accuracy == best_upto(entries, m - 1);
        if entries[m - 1].accuracy as int > best_upto(entries, m - 1) {
            assert(entries[m - 1].accuracy == best_upto(entries, m));
        } else {
            assert(entries[a].accuracy == best_upto(entries, m));
        }
    } else {
        assert(best_upto(entries, 0) == 0);
        assert(entries[0].accuracy == best_upto(entries, 1));
    }
}

/// What a beam search answers: the configuration error, the batch error
/// (a malformed batch, or no feature that varies), or a scored conjunction.
pub open spec fn build_outcome(r: Result<BeamEntry, ConjunctionBuildError>, batch: SignBatch, config: ConjunctionBuildConfig) -> bool {
    match r {
        Err(e) => (e == ConjunctionBuildError::InvalidConfig && !config.valid())
            || (e == ConjunctionBuildError::InvalidBatch && config.valid()
                && (!batch_valid(batch, config.batch_size as int) || all_columns_constant(batch))),
        Ok(entry) => config.valid() && batch_valid(batch, config.batch_size as int)
            && !all_columns_constant(batch) && scored_conjunction(entry, batch, config),
    }
}

/// The workspace is shaped for `config` and batches of `feature_count` features.
pub open spec fn workspace_for(ws: ConjunctionBuildWorkspace, config: ConjunctionBuildConfig, feature_count: int) -> bool {
    &&& ws.shaped(config.max_conjunctions as int)
    &&& ws.batch_size == config.batch_size
    &&& ws.max_conjunction_length == config.max_conjunction_length
    &&& ws.feature_count == feature_count
}

impl ConjunctionBuilder {
    /// Beam search in a preallocated workspace.
    pub(crate) fn build_in_workspace(
        batch: SignBatch<'_>,
        config: ConjunctionBuildConfig,
        workspace: &mut ConjunctionBuildWorkspace,
    ) -> (r: Result<BeamEntry, ConjunctionBuildError>)
        requires
            batch.wf(),
            workspace_for(*old(workspace), config, batch.spec_feature_count()),
            batch.spec_feature_count() <= 256,
            config.max_conjunctions <= 0x10000,
        ensures
            workspace_for(*final(workspace), config, batch.spec_feature_count()),
            build_outcome(r, batch, config),
            r matches Ok(entry) ==> beam_answer(*final(workspace), entry, batch),
            r matches Ok(entry) ==> search_complete(*final(workspace), config, batch),
    {
        validate_build_config(config)?;
        validate_batch(batch, config.batch_size)?;

        workspace.reset();
        workspace.precompute_literal_columns(batch);

        let feature_count = batch.feature_count();
        let batch_size = config.batch_size;
        let batch_size_u8 = batch_size as u8;
        let ny = count_true_exec(batch.signs) as i64;
        let word_count = workspace.key_words;
        proof {
            lemma_count_true_upto_bound(batch.signs@, batch.signs@.len() as int);
            assert(beam_ok(*workspace, batch)) by {
                assert forall|d: int| 0 <= d < workspace.layers@.len() implies #[trigger] layer_ok(*workspace, d, batch) by {
                    assert(workspace.layers@[d].len == 0);
                }
            }
        }
        let populated = populate_depth_zero(batch, workspace, feature_count, ny, word_count, config.max_conjunctions, Ghost(config));
        if workspace.layers[0].len == 0 {
            return Err(ConjunctionBuildError::InvalidBatch);
        }

        let first_best = best_across_depths(workspace.layers.as_slice());
        let mut best_accuracy = first_best.accuracy;
        proof {
            let layers = workspace.layers@;
            let (d0, s0) = choose|d: int, s: int| 0 <= d < layers.len() && 0 <= s < layers[d].len && first_best == #[trigger] layers[d].entries@[s];
            assert(d0 == 0) by {
                if d0 != 0 {
                    assert(beam_chained(*workspace, 1, batch) ==> layers[d0].len == 0 || d0 <= 1);
                }
            }
            assert forall|j: int| 0 <= j < layers[0].len implies beam_order(#[trigger] layers[0].entries@[j], first_best) <= 0 by {}
            lemma_winner_best(layers[0].entries@, layers[0].len as int, first_best);
            assert(best_accuracy == run_best(layers, 0));
        }
        let mut stale_depths: usize = 0;
        let last = workspace.max_conjunction_length - 1;
        let mut depth: usize = 0;
        let ghost mut explored: int = 0;
        while depth < last
            invariant_except_break
                stale_depths <= depth,
                explored == depth,
                depth >= 1 && workspace.layers@[depth as int].len > 0 ==> run_best(workspace.layers@, depth as int) != config.batch_size,
                depth >= 1 && workspace.layers@[depth as int].len == 0 ==> no_extension(workspace.layers@[depth - 1], batch,
                    workspace.key_words as int, workspace.feature_count as int, workspace.batch_size as int),
            invariant
                explored == depth || explored == depth + 1,
                0 <= explored <= last,
                best_accuracy == run_best(workspace.layers@, explored),
                stale_depths == stale_run(workspace.layers@, explored),
                forall|d: int| 0 <= d < explored ==> #[trigger] search_continues(workspace.layers@, d, config),
                forall|d: int| explored < d < workspace.layers@.len() ==> (#[trigger] workspace.layers@[d]).len == 0,
                batch_size_u8 == config.batch_size,
                frame(*workspace, config, batch),
                beam_ok(*workspace, batch),
                workspace.layers@[0].len > 0,
                last + 1 == workspace.layers@.len(),
                feature_count == workspace.feature_count,
                batch_size == workspace.batch_size,
                word_count == workspace.key_words,
                ny == count_true(batch.signs@),
                depth <= last,
                last < 64,
                beam_chained(*workspace, depth + 1, batch),
            ensures
                search_stops(*workspace, explored, config, batch),
            decreases last - depth,
        {
            if stale_depths >= config.stale_layers {
                break;
            }
            if workspace.layers[depth].len == 0 {
                break;
            }
            let child_depth = depth + 1;
            let ghost before = *workspace;
            let extended = extend_into_depth(
                workspace,
                depth,
                child_depth,
                feature_count,
                batch_size,
                batch.signs,
                ny,
                word_count,
                config.max_conjunctions,
                Ghost(config),
                Ghost(batch),
            );
            let new_len = match extended {
                Ok(n) => n,
                Err(e) => {
                    return Err(e);
                },
            };
            proof {
                assert(workspace.layers@[0] == before.layers@[0]);
                assert forall|d: int| child_depth < d < workspace.layers@.len() implies (#[trigger] workspace.layers@[d]).len == 0 by {
                    assert(workspace.layers@[d] == before.layers@[d]);
                    assert(depth + 1 < d);
                    assert(before.layers@[d].len == 0);
                }
                assert forall|d: int, s: int| 1 <= d < workspace.layers@.len() && 0 <= s < workspace.layers@[d].len
                    implies child_of(*workspace, #[trigger] workspace.layers@[d].entries@[s].key, d - 1, batch) by {
                    if d != child_depth {
                        assert(workspace.layers@[d] == before.layers@[d]);
                        assert(child_of(before, before.layers@[d].entries@[s].key, d - 1, batch));
                        let (ps, li) = choose|ps: int, li: int| #[trigger] child_by(before, before.layers@[d].entries@[s].key, d - 1, batch, ps, li);
                        assert(workspace.layers@[d - 1] == before.layers@[d - 1]);
                        assert(child_by(*workspace, workspace.layers@[d].entries@[s].key, d - 1, batch, ps, li));
                    } else {
                        assert(child_of(before, workspace.layers@[d].entries@[s].key, depth as int, batch));
                        let (ps, li) = choose|ps: int, li: int| #[trigger] child_by(before, workspace.layers@[d].entries@[s].key, depth as int, batch, ps, li);
                        assert(workspace.layers@[depth as int] == before.layers@[depth as int]);
                        assert(child_by(*workspace, workspace.layers@[d].entries@[s].key, d - 1, batch, ps, li));
                    }
                }
                assert(beam_chained(*workspace, child_depth as int, batch));
                let l1 = before.layers@;
                let l2 = workspace.layers@;
                assert forall|i: int| 0 <= i <= depth implies #[trigger] l1[i] == l2[i] by {}
                lemma_run_frame(l1, l2, depth as int);
                assert forall|d: int| 0 <= d <= depth implies #[trigger] search_continues(l2, d, config) by {
                    assert forall|i: int| 0 <= i <= d implies #[trigger] l1[i] == l2[i] by {}
                    lemma_run_frame(l1, l2, d);
                    if d < depth {
                        assert(search_continues(l1, d, config));
                    }
                }
                assert forall|d: int| child_depth < d < l2.len() implies (#[trigger] l2[d]).len == 0 by {
                    assert(l2[d] == l1[d]);
                }
                explored = child_depth as int;
                lemma_run_best_nonneg(l2, depth as int);
            }
            if new_len == 0 {
                stale_depths = stale_depths + 1;
                proof {
                    assert(best_upto(workspace.layers@[child_depth as int].entries@, 0) == 0);
                }
            } else {
                let winner = pick_winner(workspace.layers[child_depth].entries.as_slice(), new_len);
                let depth_best = winner.accuracy;
                proof {
                    let layer = workspace.layers@[child_depth as int];
                    lemma_winner_best(layer.entries@, new_len as int, winner);
                }
                if depth_best > best_accuracy {
                    best_accuracy = depth_best;
                    stale_depths = 0;
                } else {
                    stale_depths = stale_depths + 1;
                }
                if best_accuracy == batch_size_u8 {
                    break;
                }
            }
            proof {
                lemma_chained_mono(*workspace, depth + 1, depth + 2, batch);
            }
            depth = depth + 1;
        }
        let best = best_across_depths(workspace.layers.as_slice());
        proof {
            let fc = feature_count as int;
            let wc = word_count as int;
            let (d, s) = choose|d: int, s: int| 0 <= d < workspace.layers@.len() && 0 <= s < workspace.layers@[d].len
                && best == #[trigger] workspace.layers@[d].entries@[s];
            assert(layer_ok(*workspace, d, batch));
            assert(entry_ok(*workspace, d, s, batch));
            lemma_chained_mono(*workspace, depth + 1, workspace.layers@.len() as int, batch);
            assert(beam_answer(*workspace, best, batch));
            assert(search_stops(*workspace, explored, config, batch));
            assert(search_complete(*workspace, config, batch));
        }
        Ok(best)
    }
}

/// Past the last feature holding a literal, the literal count stays put.
proof fn lemma_lits_tail(key: ConjunctionKey, wc: int, fc: int, m: int)
    requires
        0 <= fc <= m,
        forall|g: int| #[trigger] key.has(g, wc) ==> g < fc,
    ensures
        key.lits_upto(wc, m) == key.lits_upto(wc, fc),
    decreases m - fc,
{
    if m > fc {
        lemma_lits_tail(key, wc, fc, m - 1);
    }
}

/// The literal count of a beam key over its feature range is its bit count.
proof fn lemma_key_len(key: ConjunctionKey, fc: int)
    requires
        1 <= fc <= 256,
        forall|g: int| #[trigger] key.has(g, key_words_for(fc)) ==> g < fc,
    ensures
        key.key_len(key_words_for(fc)) == key.lits_upto(key_words_for(fc), fc),
        fc <= 64 * key_words_for(fc),
        key_words_for(fc) <= 4,
{
    let wc = key_words_for(fc);
    lemma_feature_in_words(fc - 1, fc);
    lemma_lits_words(key, wc, wc);
    lemma_lits_tail(key, wc, fc, 64 * wc);
}

/// Value of every feature of the batch on row `row`.
pub open spec fn row_features(batch: SignBatch, row: int) -> Seq<bool> {
    Seq::new(batch.spec_feature_count() as nat, |f: int| batch.col(f)[row])
}

/// Predictions of the conjunction of `literals` on the first `n` rows of the batch.
pub open spec fn predictions_of(literals: Seq<(u8, bool)>, batch: SignBatch, n: int) -> Seq<bool> {
    Seq::new(n as nat, |row: int| conjunction_holds(literals, row_features(batch, row)))
}

/// The expert stores the literals of a scored conjunction found on the batch,
/// the first-ranked entry of a chained beam.
pub open spec fn expert_of(expert: ConjunctionExpert, batch: SignBatch, config: ConjunctionBuildConfig) -> bool {
    let fc = batch.spec_feature_count();
    &&& expert.wf()
    &&& exists|e: BeamEntry| #[trigger] scored_conjunction(e, batch, config)
        && expert.view_literals() == key_literals(e.key, key_words_for(fc), fc)
        && exists|ws: ConjunctionBuildWorkspace| #[trigger] beam_answer(ws, e, batch) && search_complete(ws, config, batch)
}

/// The errors of a build from a batch: the configuration error (also for a
/// batch with no feature), or the batch error (a malformed batch, or no
/// feature that varies).
pub open spec fn build_error(e: ConjunctionBuildError, batch: SignBatch, config: ConjunctionBuildConfig) -> bool {
    ||| (e == ConjunctionBuildError::InvalidConfig && (!config.valid() || batch.spec_feature_count() == 0))
    ||| (e == ConjunctionBuildError::InvalidBatch && config.valid() && batch.spec_feature_count() != 0
        && (!batch_valid(batch, config.batch_size as int) || all_columns_constant(batch)))
}

/// A build succeeds exactly when neither error applies.
pub open spec fn build_succeeds(batch: SignBatch, config: ConjunctionBuildConfig) -> bool {
    config.valid() && batch_valid(batch, config.batch_size as int) && !all_columns_constant(batch)
}

/// The session holds a workspace shaped for its configuration and feature count.
pub closed spec fn session_wf(s: ConjunctionBuildSession) -> bool {
    &&& workspace_for(s.workspace, s.config, s.feature_count as int)
    &&& s.config.valid()
    &&& s.feature_count != 0
}

/// Preallocated builder workspace; no buffer grows in [`Self::build`].
pub struct ConjunctionBuildSession {
    workspace: ConjunctionBuildWorkspace,
    config: ConjunctionBuildConfig,
    feature_count: usize,
}

impl ConjunctionBuildSession {
    pub closed spec fn spec_config(self) -> ConjunctionBuildConfig {
        self.config
    }

    pub closed spec fn spec_feature_count(self) -> int {
        self.feature_count as int
    }

    pub open spec fn wf(self) -> bool {
        session_wf(self)
    }

    pub fn new(
        config: ConjunctionBuildConfig,
        source_feature_count: usize,
    ) -> (r: Result<Self, ConjunctionBuildError>)
        requires
            config.valid() ==> extension_capacity(source_feature_count as int, config.max_conjunctions as int) <= usize::MAX,
            config.valid() ==> 2 * source_feature_count * config.batch_size <= usize::MAX,
            config.valid() ==> config.max_conjunctions * config.batch_size <= usize::MAX,
        ensures
            r is Err <==> (!config.valid() || source_feature_count == 0),
            r is Err ==> r == Err::<Self, ConjunctionBuildError>(ConjunctionBuildError::InvalidConfig),
            r matches Ok(s) ==> s.wf() && s.spec_config() == config && s.spec_feature_count() == source_feature_count,
    {
        validate_build_config(config)?;
        let capacity = ModelCapacity::new(
            source_feature_count,
            config.batch_size,
            config.max_conjunctions,
            config.max_conjunction_length,
            1,
            config.max_experts,
            0,
        );
        if capacity.validate().is_err() {
            return Err(ConjunctionBuildError::InvalidConfig);
        }
        proof {
            assert(2 * source_feature_count <= usize::MAX) by (nonlinear_arith)
                requires 2 * source_feature_count * config.batch_size <= usize::MAX, config.batch_size >= 1;
        }
        let workspace = ConjunctionBuildWorkspace::new(capacity);
        Ok(Self { workspace, config, feature_count: source_feature_count })
    }

    pub fn build(&mut self, batch: SignBatch<'_>) -> (r: Result<BeamEntry, ConjunctionBuildError>)
        requires
            old(self).wf(),
            batch.wf(),
            batch.spec_feature_count() == old(self).spec_feature_count(),
            batch.spec_feature_count() <= 256,
            old(self).spec_config().max_conjunctions <= 0x10000,
        ensures
            final(self).wf(),
            final(self).spec_config() == old(self).spec_config(),
            final(self).spec_feature_count() == old(self).spec_feature_count(),
            build_outcome(r, batch, old(self).spec_config()),
            r matches Ok(entry) ==> exists|ws: ConjunctionBuildWorkspace| #[trigger] beam_answer(ws, entry, batch)
                && search_complete(ws, old(self).spec_config(), batch),
    {
        let r = ConjunctionBuilder::build_in_workspace(batch, self.config, &mut self.workspace);
        proof {
            if r is Ok {
                assert(beam_answer(self.workspace, r->Ok_0, batch));
                assert(search_complete(self.workspace, self.config, batch));
            }
        }
        r
    }

    pub fn build_expert(
        &mut self,
        batch: SignBatch<'_>,
    ) -> (r: Result<ConjunctionExpert, ConjunctionBuildError>)
        requires
            old(self).wf(),
            batch.wf(),
            batch.spec_feature_count() == old(self).spec_feature_count(),
            batch.spec_feature_count() <= 256,
            old(self).spec_config().max_conjunctions <= 0x10000,
        ensures
            final(self).wf(),
            final(self).spec_config() == old(self).spec_config(),
            final(self).spec_feature_count() == old(self).spec_feature_count(),
            r is Ok <==> build_succeeds(batch, old(self).spec_config()),
            r matches Err(e) ==> build_error(e, batch, old(self).spec_config()),
            r matches Ok(expert) ==> expert_of(expert, batch, old(self).spec_config()),
    {
        let winner = self.build(batch)?;
        let ghost fc = batch.spec_feature_count();
        proof {
            lemma_key_len(winner.key, fc);
        }
        let r = ConjunctionExpert::from_key(
            &winner.key,
            self.workspace.key_words,
            self.feature_count,
            self.config.max_conjunction_length,
        );
        proof {
            if let Ok(expert) = r {
                assert(scored_conjunction(winner, batch, self.config));
                let ws = choose|ws: ConjunctionBuildWorkspace| #[trigger] beam_answer(ws, winner, batch)
                    && search_complete(ws, self.config, batch);
                assert(beam_answer(ws, winner, batch));
            }
        }
        r
    }
}

/// The literal list of a key holds on a row exactly when every literal of
/// the key on the first `n` features holds there.
proof fn lemma_literals_hold(key: ConjunctionKey, wc: int, batch: SignBatch, row: int, n: int)
    requires
        0 <= n <= batch.spec_feature_count(),
        batch.spec_feature_count() <= 256,
    ensures
        conjunction_holds(key_literals(key, wc, n), row_features(batch, row))
            == (forall|g: int| 0 <= g < n && #[trigger] key.has(g, wc) ==> key_literal_value(key, batch, g, row)),
    decreases n,
{
    let rf = row_features(batch, row);
    if n > 0 {
        lemma_literals_hold(key, wc, batch, row, n - 1);
        let prev = key_literals(key, wc, n - 1);
        let lits = key_literals(key, wc, n);
        if key.has(n - 1, wc) {
            let last = ((n - 1) as u8, !key.has_pos(n - 1));
            assert(lits == prev.push(last));
            assert(last.0 as int == n - 1);
            assert(literal_holds(last, rf) == key_literal_value(key, batch, n - 1, row));
            if conjunction_holds(lits, rf) {
                assert forall|k: int| 0 <= k < prev.len() implies #[trigger] literal_holds(prev[k], rf) by {
                    assert(lits[k] == prev[k]);
                }
                assert(literal_holds(lits[prev.len() as int], rf));
                assert forall|g: int| 0 <= g < n && #[trigger] key.has(g, wc) implies key_literal_value(key, batch, g, row) by {
                    if g < n - 1 {
                    }
                }
            }
            if forall|g: int| 0 <= g < n && #[trigger] key.has(g, wc) ==> key_literal_value(key, batch, g, row) {
                assert forall|g: int| 0 <= g < n - 1 && #[trigger] key.has(g, wc) implies key_literal_value(key, batch, g, row) by {
                }
                assert(conjunction_holds(prev, rf));
                assert forall|k: int| 0 <= k < lits.len() implies #[trigger] literal_holds(lits[k], rf) by {
                    if k < prev.len() {
                        assert(lits[k] == prev[k]);
                        assert(literal_holds(prev[k], rf));
                    } else {
                        assert(key.has(n - 1, wc));
                    }
                }
            }
        } else {
            assert(lits == prev);
            if forall|g: int| 0 <= g < n - 1 && #[trigger] key.has(g, wc) ==> key_literal_value(key, batch, g, row) {
                assert forall|g: int| 0 <= g < n && #[trigger] key.has(g, wc) implies key_literal_value(key, batch, g, row) by {
                }
            }
        }
    }
}

/// A built expert predicts, on the batch it was built from, the column of
/// its conjunction.
pub proof fn law_expert_predicts_key_column(key: ConjunctionKey, batch: SignBatch, n: int, batch_size: int)
    requires
        1 <= batch.spec_feature_count() <= 256,
        key_ok(key, key_words_for(batch.spec_feature_count()), batch.spec_feature_count(), n),
        batch_size >= 0,
    ensures
        predictions_of(key_literals(key, key_words_for(batch.spec_feature_count()), batch.spec_feature_count()), batch, batch_size)
            == key_column(key, key_words_for(batch.spec_feature_count()), batch, batch_size),
{
    let fc = batch.spec_feature_count();
    let wc = key_words_for(fc);
    assert forall|row: int| 0 <= row < batch_size implies
        #[trigger] conjunction_holds(key_literals(key, wc, fc), row_features(batch, row)) == key_row(key, wc, batch, row) by {
        lemma_literals_hold(key, wc, batch, row, fc);
    }
    assert(predictions_of(key_literals(key, wc, fc), batch, batch_size) =~= key_column(key, wc, batch, batch_size));
}

/// Row count of a batch for prediction: the length of its first column, when
/// every column has that length and it is not zero.
pub open spec fn prediction_rows_ok(batch: SignBatch) -> bool {
    first_column_len(batch) != 0 && batch.columns_have_len(first_column_len(batch))
}

impl ConjunctionBuilder {
    pub fn predict(
        expert: &ConjunctionExpert,
        batch: SignBatch<'_>,
    ) -> (r: Result<Vec<bool>, ConjunctionBuildError>)
        requires
            expert.wf(),
            batch.wf(),
        ensures
            r is Ok <==> prediction_rows_ok(batch),
            r is Err ==> r == Err::<Vec<bool>, ConjunctionBuildError>(ConjunctionBuildError::InvalidBatch),
            r matches Ok(p) ==> p@ == predictions_of(expert.view_literals(), batch, first_column_len(batch)),
    {
        validate_feature_batch(batch)?;
        let batch_size = match batch.column(0) {
            Some(column) => column.len(),
            None => {
                return Err(ConjunctionBuildError::InvalidBatch);
            },
        };
        let feature_count = batch.feature_count();
        let mut predictions: Vec<bool> = Vec::with_capacity(batch_size);
        let mut row: usize = 0;
        while row < batch_size
            invariant
                batch.wf(),
                expert.wf(),
                batch_size == first_column_len(batch),
                batch.columns_have_len(batch_size as int),
                feature_count == batch.spec_feature_count(),
                row <= batch_size,
                predictions@ == predictions_of(expert.view_literals(), batch, row as int),
            decreases batch_size - row,
        {
            let mut features: Vec<bool> = Vec::with_capacity(feature_count);
            let mut index: usize = 0;
            while index < feature_count
                invariant
                    batch.wf(),
                    batch.columns_have_len(batch_size as int),
                    feature_count == batch.spec_feature_count(),
                    row < batch_size,
                    index <= feature_count,
                    features@.len() == index,
                    forall|f: int| 0 <= f < index ==> #[trigger] features@[f] == batch.col(f)[row as int],
                decreases feature_count - index,
            {
                let column = match batch.column(index) {
                    Some(column) => column,
                    None => {
                        return Err(ConjunctionBuildError::InvalidBatch);
                    },
                };
                features.push(column[row]);
                index = index + 1;
            }
            proof {
                assert(features@ =~= row_features(batch, row as int));
            }
            let value = expert.evaluate(features.as_slice());
            predictions.push(value);
            proof {
                assert(predictions@ =~= predictions_of(expert.view_literals(), batch, row + 1));
            }
            row = row + 1;
        }
        Ok(predictions)
    }

    pub fn fit(
        batch: SignBatch<'_>,
        config: ConjunctionBuildConfig,
    ) -> (r: Result<(ConjunctionExpert, u8), ConjunctionBuildError>)
        requires
            batch.wf(),
            batch.spec_feature_count() <= 256,
            config.max_conjunctions <= 0x10000,
        ensures
            r is Ok <==> build_succeeds(batch, config),
            r matches Err(e) ==> build_error(e, batch, config),
            r matches Ok((expert, score)) ==> expert_of(expert, batch, config)
                && score == count_eq_upto(
                    predictions_of(expert.view_literals(), batch, config.batch_size as int),
                    batch.signs@,
                    config.batch_size as int,
                ),
    {
        let expert = Self::build(batch, config)?;
        let predictions = Self::predict(&expert, batch)?;
        proof {
            lemma_count_eq_upto_bound(predictions@, batch.signs@, config.batch_size as int);
        }
        let score = correct_count(predictions.as_slice(), batch.signs);
        Ok((expert, score))
    }

    pub fn fit_predict(
        batch: SignBatch<'_>,
        config: ConjunctionBuildConfig,
    ) -> (r: Result<(Vec<bool>, u8), ConjunctionBuildError>)
        requires
            batch.wf(),
            batch.spec_feature_count() <= 256,
            config.max_conjunctions <= 0x10000,
        ensures
            r is Ok <==> build_succeeds(batch, config),
            r matches Err(e) ==> build_error(e, batch, config),
            r matches Ok((predictions, score)) ==> exists|expert: ConjunctionExpert|
                #[trigger] expert_of(expert, batch, config)
                && predictions@ == predictions_of(expert.view_literals(), batch, config.batch_size as int)
                && score == count_eq_upto(predictions@, batch.signs@, config.batch_size as int),
    {
        let (expert, score) = Self::fit(batch, config)?;
        let predictions = Self::predict(&expert, batch)?;
        Ok((predictions, score))
    }

    pub fn build(
        batch: SignBatch<'_>,
        config: ConjunctionBuildConfig,
    ) -> (r: Result<ConjunctionExpert, ConjunctionBuildError>)
        requires
            batch.wf(),
            batch.spec_feature_count() <= 256,
            config.max_conjunctions <= 0x10000,
        ensures
            r is Ok <==> build_succeeds(batch, config),
            r matches Err(e) ==> build_error(e, batch, config),
            r matches Ok(expert) ==> expert_of(expert, batch, config),
    {
        let feature_count = batch.feature_count();
        proof {
            let mc = config.max_conjunctions as int;
            let fc = feature_count as int;
            let bs = config.batch_size as int;
            assert(mc * 2 * 256 <= usize::MAX) by (nonlinear_arith)
                requires 0 <= mc <= 0x10000;
            assert(mc * 2 * fc <= mc * 2 * 256) by (nonlinear_arith)
                requires 0 <= mc, 0 <= fc <= 256;
            if config.valid() {
                assert(2 * fc * bs <= 2 * 256 * 255) by (nonlinear_arith)
                    requires 0 <= fc <= 256, 0 <= bs <= 255;
                assert(mc * bs <= 0x10000 * 255) by (nonlinear_arith)
                    requires 0 <= mc <= 0x10000, 0 <= bs <= 255;
            }
        }
        let mut session = ConjunctionBuildSession::new(config, feature_count)?;
        session.build_expert(batch)
    }
}

} // verus!
