//! Lowering of a built ephemeral graph to a compact `FunctionGraph`: gate
//! simplification, backward reachability from the output, and renumbering.

use vstd::prelude::*;
use crate::function_build_common::{BuildNodeId, EphemeralNode};
use crate::function_graph::{CompactNode, FunctionGraph, compact_value, nodes_topological};
use crate::boolean_circuit::gate_output;
use crate::conjunction_expert::feature_value;
use crate::function_workspace::{BuildWorkspace, prefix_topological};
use crate::association::{count_true_upto, lemma_count_true_upto_bound};

verus! {

#[derive(Debug, Clone, Copy, PartialEq, Eq, Structural)]
pub enum CompactError {
    InvalidOutput,
    ExpertTooLarge,
}

/// Alias entry of a node that is not an alias.
pub const NO_ALIAS: u32 = 0xffff_ffff;

/// Renumbering entry of a node that was not kept.
pub const NO_MAP: u16 = 0xffff;

#[derive(Debug, Clone, Copy, PartialEq, Eq, Structural)]
pub enum CompactSlotKind {
    Source,
    Constant,
    Composed,
}

/// A node during compaction: a source (`a` is its input index), a constant
/// (`a` is 0 or 1) or a gate over nodes `a` and `b`.
#[derive(Debug, Clone, Copy, PartialEq, Eq, Structural)]
pub struct CompactSlot {
    pub kind: CompactSlotKind,
    pub a: usize,
    pub b: usize,
    pub truth_table: u8,
}

impl Default for CompactSlot {
    fn default() -> (r: Self)
        ensures
            r == (CompactSlot { kind: CompactSlotKind::Source, a: 0, b: 0, truth_table: 0 }),
    {
        Self { kind: CompactSlotKind::Source, a: 0, b: 0, truth_table: 0 }
    }
}

#[derive(Debug, Clone, Copy, PartialEq, Eq, Structural)]
enum SimplifyResult {
    Keep,
    Constant(bool),
    Alias(usize),
    Gate { first: usize, second: usize, truth_table: u8 },
}

/// Every alias of a node among the first `n` points to an earlier node.
pub open spec fn aliases_ok(aliases: Seq<u32>, n: int) -> bool {
    forall|i: int| 0 <= i < n ==> #[trigger] aliases[i] == NO_ALIAS || (aliases[i] as int) < i
}

/// Node `i` followed through its aliases.
pub open spec fn resolve(aliases: Seq<u32>, i: int) -> int
    decreases i,
{
    if 0 <= i < aliases.len() && aliases[i] != NO_ALIAS && (aliases[i] as int) < i {
        resolve(aliases, aliases[i] as int)
    } else {
        i
    }
}

/// Slots among the first `n`: gates read earlier slots, constants hold 0 or
/// 1, sources read inputs below `inputs`.
pub open spec fn slots_ok(slots: Seq<CompactSlot>, n: int, inputs: int) -> bool {
    forall|i: int| 0 <= i < n ==> match (#[trigger] slots[i]).kind {
        CompactSlotKind::Composed => slots[i].a < i && slots[i].b < i,
        CompactSlotKind::Constant => slots[i].a <= 1,
        CompactSlotKind::Source => slots[i].a < inputs,
    }
}

/// A resolved node is no alias and lies at or below the node it resolves.
pub proof fn lemma_resolve(aliases: Seq<u32>, n: int, i: int)
    requires
        aliases_ok(aliases, n),
        n <= aliases.len(),
        0 <= i < n,
    ensures
        0 <= resolve(aliases, i) <= i,
        aliases[resolve(aliases, i)] == NO_ALIAS,
        resolve(aliases, resolve(aliases, i)) == resolve(aliases, i),
    decreases i,
{
    if aliases[i] != NO_ALIAS {
        lemma_resolve(aliases, n, aliases[i] as int);
    }
}

/// The node that `index` resolves to through the alias table.
fn resolve_alias_u32(index: usize, aliases: &[u32], Ghost(n): Ghost<int>) -> (r: usize)
    requires
        aliases_ok(aliases@, n),
        n <= aliases@.len(),
        index < n,
    ensures
        r == resolve(aliases@, index as int),
        r <= index,
        aliases@[r as int] == NO_ALIAS,
{
    let mut current = index;
    while aliases[current] != NO_ALIAS
        invariant
            aliases_ok(aliases@, n),
            n <= aliases@.len(),
            current <= index < n,
            resolve(aliases@, current as int) == resolve(aliases@, index as int),
        decreases current,
    {
        current = aliases[current] as usize;
    }
    current
}

/// Value of built node `i` on `features`; a missing feature reads as `false`.
pub open spec fn built_value(nodes: Seq<EphemeralNode>, features: Seq<bool>, i: int) -> bool
    decreases i,
{
    if 0 <= i < nodes.len() {
        match nodes[i] {
            EphemeralNode::Source { input_index } => feature_value(features, input_index as int),
            EphemeralNode::Composed { first, second, truth_table } => if first.0 < i && second.0 < i {
                gate_output(truth_table, built_value(nodes, features, first.0 as int), built_value(nodes, features, second.0 as int))
            } else {
                false
            },
        }
    } else {
        false
    }
}

/// Value of slot `i` on `features`, following its alias when it has one.
pub open spec fn slot_value(slots: Seq<CompactSlot>, aliases: Seq<u32>, features: Seq<bool>, i: int) -> bool
    decreases i,
{
    if 0 <= i < slots.len() && i < aliases.len() {
        if aliases[i] != NO_ALIAS && (aliases[i] as int) < i {
            slot_value(slots, aliases, features, aliases[i] as int)
        } else {
            match slots[i].kind {
                CompactSlotKind::Source => feature_value(features, slots[i].a as int),
                CompactSlotKind::Constant => slots[i].a != 0,
                CompactSlotKind::Composed => if slots[i].a < i && slots[i].b < i {
                    gate_output(slots[i].truth_table, slot_value(slots, aliases, features, slots[i].a as int),
                        slot_value(slots, aliases, features, slots[i].b as int))
                } else {
                    false
                },
            }
        }
    } else {
        false
    }
}

/// A node and the node it resolves to have the same value.
pub proof fn lemma_value_resolve(slots: Seq<CompactSlot>, aliases: Seq<u32>, features: Seq<bool>, i: int)
    requires
        0 <= i < slots.len(),
        i < aliases.len(),
    ensures
        slot_value(slots, aliases, features, resolve(aliases, i)) == slot_value(slots, aliases, features, i),
    decreases i,
{
    if aliases[i] != NO_ALIAS && (aliases[i] as int) < i {
        lemma_value_resolve(slots, aliases, features, aliases[i] as int);
    }
}

/// The slot states agree everywhere but at `k`.
pub open spec fn same_except(s1: Seq<CompactSlot>, a1: Seq<u32>, s2: Seq<CompactSlot>, a2: Seq<u32>, k: int) -> bool {
    &&& s2.len() == s1.len()
    &&& a2.len() == a1.len()
    &&& forall|i: int| 0 <= i < s1.len() && i != k ==> #[trigger] s1[i] == s2[i]
    &&& forall|i: int| 0 <= i < a1.len() && i != k ==> #[trigger] a1[i] == a2[i]
}

/// Two slot states that agree everywhere but at `k`, where, if `k <= j`,
/// the values agree, give node `j` the same value.
#[verifier::spinoff_prover]
pub proof fn lemma_values_agree(
    s1: Seq<CompactSlot>, a1: Seq<u32>, s2: Seq<CompactSlot>, a2: Seq<u32>, features: Seq<bool>, k: int, j: int,
)
    requires
        0 <= j,
        j < s1.len() && j < a1.len(),
        same_except(s1, a1, s2, a2, k),
        k > j || slot_value(s1, a1, features, k) == slot_value(s2, a2, features, k),
    ensures
        slot_value(s1, a1, features, j) == slot_value(s2, a2, features, j),
    decreases j,
{
    if j != k {
        assert(s1[j] == s2[j] && a1[j] == a2[j]);
        if a1[j] != NO_ALIAS && (a1[j] as int) < j {
            lemma_values_agree(s1, a1, s2, a2, features, k, a1[j] as int);
        } else if s1[j].kind is Composed && s1[j].a < j && s1[j].b < j {
            let x = s1[j].a as int;
            let y = s1[j].b as int;
            lemma_values_agree(s1, a1, s2, a2, features, k, x);
            lemma_values_agree(s1, a1, s2, a2, features, k, y);
        }
    }
}

/// What the folded tables compute.
pub proof fn lemma_fold_tables(x: bool, y: bool)
    ensures
        !gate_output(0, x, y),
        gate_output(15, x, y),
        gate_output(10, x, y) == y,
        gate_output(12, x, y) == x,
        gate_output(3, x, y) == !x,
        gate_output(5, x, y) == !y,
{
    assert(((0u8 >> 0u8) & 1u8) == 0u8 && ((0u8 >> 1u8) & 1u8) == 0u8 && ((0u8 >> 2u8) & 1u8) == 0u8 && ((0u8 >> 3u8) & 1u8) == 0u8) by (bit_vector);
    assert(((15u8 >> 0u8) & 1u8) == 1u8 && ((15u8 >> 1u8) & 1u8) == 1u8 && ((15u8 >> 2u8) & 1u8) == 1u8 && ((15u8 >> 3u8) & 1u8) == 1u8) by (bit_vector);
    assert(((10u8 >> 0u8) & 1u8) == 0u8 && ((10u8 >> 1u8) & 1u8) == 1u8 && ((10u8 >> 2u8) & 1u8) == 0u8 && ((10u8 >> 3u8) & 1u8) == 1u8) by (bit_vector);
    assert(((12u8 >> 0u8) & 1u8) == 0u8 && ((12u8 >> 1u8) & 1u8) == 0u8 && ((12u8 >> 2u8) & 1u8) == 1u8 && ((12u8 >> 3u8) & 1u8) == 1u8) by (bit_vector);
    assert(((3u8 >> 0u8) & 1u8) == 1u8 && ((3u8 >> 1u8) & 1u8) == 1u8 && ((3u8 >> 2u8) & 1u8) == 0u8 && ((3u8 >> 3u8) & 1u8) == 0u8) by (bit_vector);
    assert(((5u8 >> 0u8) & 1u8) == 1u8 && ((5u8 >> 1u8) & 1u8) == 0u8 && ((5u8 >> 2u8) & 1u8) == 1u8 && ((5u8 >> 3u8) & 1u8) == 0u8) by (bit_vector);
}

/// Slots freshly made from built nodes, with no alias, have the built values.
pub proof fn lemma_initial_values(nodes: Seq<EphemeralNode>, slots: Seq<CompactSlot>, aliases: Seq<u32>, n: int, features: Seq<bool>, i: int)
    requires
        0 <= i < n,
        n <= nodes.len(),
        n <= slots.len(),
        n <= aliases.len(),
        forall|j: int| 0 <= j < n ==> #[trigger] slots[j] == slot_spec(nodes[j]) && aliases[j] == NO_ALIAS,
    ensures
        slot_value(slots, aliases, features, i) == built_value(nodes, features, i),
    decreases i,
{
    assert(slots[i] == slot_spec(nodes[i]) && aliases[i] == NO_ALIAS);
    match nodes[i] {
        EphemeralNode::Source { input_index } => {},
        EphemeralNode::Composed { first, second, truth_table } => {
            if first.0 < i && second.0 < i {
                lemma_initial_values(nodes, slots, aliases, n, features, first.0 as int);
                lemma_initial_values(nodes, slots, aliases, n, features, second.0 as int);
            }
        },
    }
}

/// Rewrites a gate over two resolved nodes: constant tables fold, the tables
/// that copy or negate one input become an alias or a negation gate.
fn simplify(first: usize, second: usize, truth_table: u8) -> (r: SimplifyResult)
    ensures
        truth_table == 0 ==> r == SimplifyResult::Constant(false),
        truth_table == 15 ==> r == SimplifyResult::Constant(true),
        truth_table == 10 ==> r == SimplifyResult::Alias(second),
        truth_table == 12 ==> r == SimplifyResult::Alias(first),
        truth_table == 3 ==> r == (SimplifyResult::Gate { first: first, second: first, truth_table: 3 }),
        truth_table == 5 ==> r == (SimplifyResult::Gate { first: second, second: second, truth_table: 3 }),
        truth_table != 0 && truth_table != 15 && truth_table != 10 && truth_table != 12 && truth_table != 3
            && truth_table != 5 ==> r == SimplifyResult::Keep,
{
    if truth_table == 0b0000 {
        SimplifyResult::Constant(false)
    } else if truth_table == 0b1111 {
        SimplifyResult::Constant(true)
    } else if truth_table == 0b1010 {
        SimplifyResult::Alias(second)
    } else if truth_table == 0b1100 {
        SimplifyResult::Alias(first)
    } else if truth_table == 0b0011 {
        SimplifyResult::Gate { first, second: first, truth_table: 0b0011 }
    } else if truth_table == 0b0101 {
        SimplifyResult::Gate { first: second, second: second, truth_table: 0b0011 }
    } else {
        SimplifyResult::Keep
    }
}

/// Slot of `input_index` among the first `source_count` sources, appended
/// when absent.
fn find_or_insert_source(sources: &mut Vec<usize>, source_count: &mut usize, input_index: usize) -> (r: usize)
    requires
        *old(source_count) <= old(sources)@.len(),
        old(sources)@.subrange(0, *old(source_count) as int).contains(input_index)
            || *old(source_count) < old(sources)@.len(),
    ensures
        final(sources)@.len() == old(sources)@.len(),
        r < *final(source_count),
        final(sources)@[r as int] == input_index,
        *final(source_count) == *old(source_count) || *final(source_count) == *old(source_count) + 1,
        *final(source_count) == *old(source_count) + 1 ==> !old(sources)@.subrange(0, *old(source_count) as int).contains(input_index)
            && final(sources)@ == old(sources)@.update(*old(source_count) as int, input_index),
        *final(source_count) == *old(source_count) ==> final(sources)@ == old(sources)@,
{
    let count = *source_count;
    let mut index: usize = 0;
    while index < count
        invariant
            count == *source_count,
            count <= sources@.len(),
            sources@ == old(sources)@,
            *source_count == *old(source_count),
            index <= count,
            forall|j: int| 0 <= j < index ==> #[trigger] sources@[j] != input_index,
        decreases count - index,
    {
        if sources[index] == input_index {
            return index;
        }
        index = index + 1;
    }
    proof {
        assert(!old(sources)@.subrange(0, count as int).contains(input_index)) by {
            if old(sources)@.subrange(0, count as int).contains(input_index) {
                let w = choose|w: int| 0 <= w < count && old(sources)@.subrange(0, count as int)[w] == input_index;
                assert(sources@[w] == input_index);
            }
        }
    }
    let capacity = sources.len();
    assert(count < capacity);
    sources.set(count, input_index);
    *source_count = count + 1;
    count
}

/// The compaction slot of an ephemeral node.
fn slot_of(node: EphemeralNode) -> (r: CompactSlot)
    ensures
        r == slot_spec(node),
{
    match node {
        EphemeralNode::Source { input_index } => CompactSlot { kind: CompactSlotKind::Source, a: input_index, b: 0, truth_table: 0 },
        EphemeralNode::Composed { first, second, truth_table } => CompactSlot {
            kind: CompactSlotKind::Composed,
            a: first.0,
            b: second.0,
            truth_table,
        },
    }
}

/// The compaction slot of an ephemeral node.
pub open spec fn slot_spec(node: EphemeralNode) -> CompactSlot {
    match node {
        EphemeralNode::Source { input_index } => CompactSlot { kind: CompactSlotKind::Source, a: input_index, b: 0, truth_table: 0 },
        EphemeralNode::Composed { first, second, truth_table } => CompactSlot {
            kind: CompactSlotKind::Composed,
            a: first.0,
            b: second.0,
            truth_table,
        },
    }
}

/// Progress measure of an unaliased gate: removing it (a constant or an
/// alias) or rewriting it to a negation gate over a resolved, earlier node
/// lowers it.
pub open spec fn pot(slot: CompactSlot, alias: u32, n: int) -> int {
    if alias != NO_ALIAS {
        0
    } else if slot.kind is Composed {
        1 + (if slot.a == slot.b && slot.truth_table == 3 { 0 } else { 2 * n }) + slot.a + slot.b
    } else {
        0
    }
}

/// Progress measure of the first `k` slots.
pub open spec fn pot_sum(slots: Seq<CompactSlot>, aliases: Seq<u32>, n: int, k: int) -> int
    decreases k,
{
    if k <= 0 {
        0
    } else {
        pot_sum(slots, aliases, n, k - 1) + pot(slots[k - 1], aliases[k - 1], n)
    }
}

pub proof fn lemma_pot_sum_nonneg(slots: Seq<CompactSlot>, aliases: Seq<u32>, n: int, k: int)
    requires
        0 <= n,
    ensures
        pot_sum(slots, aliases, n, k) >= 0,
    decreases k,
{
    if k > 0 {
        lemma_pot_sum_nonneg(slots, aliases, n, k - 1);
    }
}

/// Changing the slot or alias at `i` alone shifts the measure by the change
/// of its own term.
pub proof fn lemma_pot_sum_update(s1: Seq<CompactSlot>, a1: Seq<u32>, s2: Seq<CompactSlot>, a2: Seq<u32>, n: int, i: int, k: int)
    requires
        0 <= i < k,
        k <= s1.len(),
        k <= a1.len(),
        s2.len() == s1.len(),
        a2.len() == a1.len(),
        forall|j: int| 0 <= j < k && j != i ==> #[trigger] s2[j] == s1[j] && a2[j] == a1[j],
    ensures
        pot_sum(s2, a2, n, k) == pot_sum(s1, a1, n, k) - pot(s1[i], a1[i], n) + pot(s2[i], a2[i], n),
    decreases k,
{
    if k - 1 > i {
        lemma_pot_sum_update(s1, a1, s2, a2, n, i, k - 1);
    } else {
        lemma_pot_sum_same(s1, a1, s2, a2, n, i);
    }
}

/// Equal slots and aliases below `k` give equal measures.
#[verifier::spinoff_prover]
pub proof fn lemma_pot_sum_same(s1: Seq<CompactSlot>, a1: Seq<u32>, s2: Seq<CompactSlot>, a2: Seq<u32>, n: int, k: int)
    requires
        forall|j: int| 0 <= j < k ==> #[trigger] s2[j] == s1[j] && a2[j] == a1[j],
    ensures
        pot_sum(s2, a2, n, k) == pot_sum(s1, a1, n, k),
    decreases k,
{
    if k > 0 {
        lemma_pot_sum_same(s1, a1, s2, a2, n, k - 1);
    }
}

/// Slot `j` is left as folding leaves it: an unaliased gate keeps a table
/// that reads both inputs and is no negation, or is a negation gate over a
/// resolved node read twice.
pub open spec fn slot_folded(slots: Seq<CompactSlot>, aliases: Seq<u32>, j: int) -> bool {
    aliases[j] == NO_ALIAS && slots[j].kind == CompactSlotKind::Composed ==> {
        let tt = slots[j].truth_table;
        &&& tt != 0 && tt != 15 && tt != 10 && tt != 12 && tt != 5
        &&& tt == 3 ==> slots[j].a as int == resolve(aliases, slots[j].a as int) && slots[j].b == slots[j].a
    }
}

/// Every slot below `n` has, on every input, the value it has in the
/// reference state.
pub open spec fn values_kept(s: Seq<CompactSlot>, a: Seq<u32>, s0: Seq<CompactSlot>, a0: Seq<u32>, n: int) -> bool {
    forall|f: Seq<bool>, i: int| 0 <= i < n ==> #[trigger] slot_value(s, a, f, i) == slot_value(s0, a0, f, i)
}

/// Keeping values is transitive.
pub proof fn lemma_values_kept_trans(
    s1: Seq<CompactSlot>, a1: Seq<u32>, s2: Seq<CompactSlot>, a2: Seq<u32>, s3: Seq<CompactSlot>, a3: Seq<u32>, n: int,
)
    requires
        values_kept(s2, a2, s1, a1, n),
        values_kept(s3, a3, s2, a2, n),
    ensures
        values_kept(s3, a3, s1, a1, n),
{
    assert forall|f: Seq<bool>, i: int| 0 <= i < n implies #[trigger] slot_value(s3, a3, f, i) == slot_value(s1, a1, f, i) by {
        assert(slot_value(s3, a3, f, i) == slot_value(s2, a2, f, i));
        assert(slot_value(s2, a2, f, i) == slot_value(s1, a1, f, i));
    }
}

/// Rewriting slot `k` without changing its value changes no value.
pub proof fn lemma_rewrite_keeps_values(s1: Seq<CompactSlot>, a1: Seq<u32>, s2: Seq<CompactSlot>, a2: Seq<u32>, n: int, k: int)
    requires
        same_except(s1, a1, s2, a2, k),
        0 <= k < n,
        n <= s1.len(),
        n <= a1.len(),
        forall|f: Seq<bool>| #[trigger] slot_value(s1, a1, f, k) == slot_value(s2, a2, f, k),
    ensures
        values_kept(s2, a2, s1, a1, n),
{
    assert forall|f: Seq<bool>, j: int| 0 <= j < n implies #[trigger] slot_value(s2, a2, f, j) == slot_value(s1, a1, f, j) by {
        assert(slot_value(s1, a1, f, k) == slot_value(s2, a2, f, k));
        lemma_values_agree(s1, a1, s2, a2, f, k, j);
    }
}

/// Value of an unaliased gate slot: its table over its inputs' values.
pub proof fn lemma_gate_value(s: Seq<CompactSlot>, a: Seq<u32>, f: Seq<bool>, k: int)
    requires
        0 <= k < s.len(),
        k < a.len(),
        a[k] == NO_ALIAS,
        s[k].kind == CompactSlotKind::Composed,
        s[k].a < k,
        s[k].b < k,
    ensures
        slot_value(s, a, f, k) == gate_output(s[k].truth_table, slot_value(s, a, f, s[k].a as int), slot_value(s, a, f, s[k].b as int)),
{
}

/// Folding an unaliased gate with a constant table to that constant keeps
/// its value.
pub proof fn lemma_constant_step(s1: Seq<CompactSlot>, a1: Seq<u32>, k: int, value: bool)
    requires
        0 <= k < s1.len(),
        k < a1.len(),
        a1[k] == NO_ALIAS,
        s1[k].kind == CompactSlotKind::Composed,
        s1[k].a < k,
        s1[k].b < k,
        s1[k].truth_table == 0 && !value || s1[k].truth_table == 15 && value,
    ensures
        forall|f: Seq<bool>| #[trigger] slot_value(s1, a1, f, k) == slot_value(
            s1.update(k, CompactSlot { kind: CompactSlotKind::Constant, a: if value { 1 } else { 0 }, b: 0, truth_table: 0 }), a1, f, k),
{
    let s2 = s1.update(k, CompactSlot { kind: CompactSlotKind::Constant, a: if value { 1 } else { 0 }, b: 0, truth_table: 0 });
    assert forall|f: Seq<bool>| #[trigger] slot_value(s1, a1, f, k) == slot_value(s2, a1, f, k) by {
        lemma_gate_value(s1, a1, f, k);
        lemma_fold_tables(slot_value(s1, a1, f, s1[k].a as int), slot_value(s1, a1, f, s1[k].b as int));
    }
}

/// Turning an unaliased gate that copies input `x` into an alias of `x`'s
/// resolved node keeps its value.
pub proof fn lemma_alias_step(s1: Seq<CompactSlot>, a1: Seq<u32>, n: int, k: int, target: int)
    requires
        0 <= k < n,
        n <= s1.len(),
        n <= a1.len(),
        n < 0xffff_ffff,
        aliases_ok(a1, n),
        a1[k] == NO_ALIAS,
        s1[k].kind == CompactSlotKind::Composed,
        s1[k].a < k,
        s1[k].b < k,
        s1[k].truth_table == 10 && target == resolve(a1, s1[k].b as int)
            || s1[k].truth_table == 12 && target == resolve(a1, s1[k].a as int),
    ensures
        0 <= target < k,
        resolve(a1, target) == target,
        forall|f: Seq<bool>| #[trigger] slot_value(s1, a1, f, k) == slot_value(s1, a1.update(k, target as u32), f, k),
{
    lemma_resolve(a1, n, s1[k].a as int);
    lemma_resolve(a1, n, s1[k].b as int);
    let a2 = a1.update(k, target as u32);
    assert forall|f: Seq<bool>| #[trigger] slot_value(s1, a1, f, k) == slot_value(s1, a2, f, k) by {
        lemma_gate_value(s1, a1, f, k);
        lemma_fold_tables(slot_value(s1, a1, f, s1[k].a as int), slot_value(s1, a1, f, s1[k].b as int));
        lemma_value_resolve(s1, a1, f, s1[k].a as int);
        lemma_value_resolve(s1, a1, f, s1[k].b as int);
        assert(same_except(s1, a1, s1, a2, k));
        lemma_values_agree(s1, a1, s1, a2, f, k, target);
        assert(slot_value(s1, a2, f, k) == slot_value(s1, a2, f, target));
    }
}

/// Turning an unaliased gate that negates input `x` into a negation gate
/// over `x`'s resolved node keeps its value.
pub proof fn lemma_negation_step(s1: Seq<CompactSlot>, a1: Seq<u32>, n: int, k: int, x: int)
    requires
        0 <= k < n,
        n <= s1.len(),
        n <= a1.len(),
        aliases_ok(a1, n),
        a1[k] == NO_ALIAS,
        s1[k].kind == CompactSlotKind::Composed,
        s1[k].a < k,
        s1[k].b < k,
        s1[k].truth_table == 3 && x == s1[k].a || s1[k].truth_table == 5 && x == s1[k].b,
    ensures
        forall|f: Seq<bool>| #[trigger] slot_value(s1, a1, f, k) == slot_value(s1.update(k, CompactSlot {
            kind: CompactSlotKind::Composed,
            a: resolve(a1, x) as usize,
            b: resolve(a1, x) as usize,
            truth_table: 3,
        }), a1, f, k),
{
    lemma_resolve(a1, n, x);
    let rx = resolve(a1, x);
    let s2 = s1.update(k, CompactSlot { kind: CompactSlotKind::Composed, a: rx as usize, b: rx as usize, truth_table: 3 });
    assert forall|f: Seq<bool>| #[trigger] slot_value(s1, a1, f, k) == slot_value(s2, a1, f, k) by {
        lemma_gate_value(s1, a1, f, k);
        lemma_fold_tables(slot_value(s1, a1, f, s1[k].a as int), slot_value(s1, a1, f, s1[k].b as int));
        lemma_value_resolve(s1, a1, f, x);
        lemma_gate_value(s2, a1, f, k);
        assert(same_except(s1, a1, s2, a1, k));
        lemma_values_agree(s1, a1, s2, a1, f, k, rx);
        lemma_fold_tables(slot_value(s2, a1, f, rx), slot_value(s2, a1, f, rx));
    }
}

/// Rewrites the slots until a full pass changes nothing: constant tables
/// fold, copies become aliases, negations become negation gates over
/// resolved nodes.
fn fold_slots(aliases: &mut Vec<u32>, slots: &mut Vec<CompactSlot>, n: usize, Ghost(inputs): Ghost<int>)
    requires
        n <= old(aliases)@.len(),
        n <= old(slots)@.len(),
        n < 0xffff_ffff,
        aliases_ok(old(aliases)@, n as int),
        slots_ok(old(slots)@, n as int, inputs),
    ensures
        final(aliases)@.len() == old(aliases)@.len(),
        final(slots)@.len() == old(slots)@.len(),
        aliases_ok(final(aliases)@, n as int),
        slots_ok(final(slots)@, n as int, inputs),
        forall|j: int| n <= j < final(slots)@.len() ==> #[trigger] final(slots)@[j] == old(slots)@[j],
        forall|j: int| n <= j < final(aliases)@.len() ==> #[trigger] final(aliases)@[j] == old(aliases)@[j],
        forall|j: int| 0 <= j < n ==> slot_folded(final(slots)@, final(aliases)@, j),
        values_kept(final(slots)@, final(aliases)@, old(slots)@, old(aliases)@, n as int),
{
    let ghost alen = aliases@.len();
    let ghost slen = slots@.len();
    let ghost slots0 = slots@;
    let ghost aliases0 = aliases@;
    loop
        invariant
            n <= alen,
            n <= slen,
            aliases@.len() == alen,
            slots@.len() == slen,
            n < 0xffff_ffff,
            aliases_ok(aliases@, n as int),
            slots_ok(slots@, n as int, inputs),
            forall|j: int| n <= j < slen ==> #[trigger] slots@[j] == slots0[j],
            forall|j: int| n <= j < alen ==> #[trigger] aliases@[j] == aliases0[j],
            values_kept(slots@, aliases@, slots0, aliases0, n as int),
        ensures
            forall|j: int| 0 <= j < n ==> slot_folded(slots@, aliases@, j),
        decreases pot_sum(slots@, aliases@, n as int, n as int),
    {
        let ghost start = pot_sum(slots@, aliases@, n as int, n as int);
        let ghost pass_slots = slots@;
        let ghost pass_aliases = aliases@;
        let mut changed = false;
        let mut index: usize = n;
        while index > 0
            invariant
                n <= alen,
                n <= slen,
                aliases@.len() == alen,
                slots@.len() == slen,
                n < 0xffff_ffff,
                index <= n,
                aliases_ok(aliases@, n as int),
                slots_ok(slots@, n as int, inputs),
                forall|j: int| n <= j < slen ==> #[trigger] slots@[j] == slots0[j],
                forall|j: int| n <= j < alen ==> #[trigger] aliases@[j] == aliases0[j],
                pot_sum(slots@, aliases@, n as int, n as int) + (if changed { 1int } else { 0int }) <= start,
                !changed ==> slots@ == pass_slots && aliases@ == pass_aliases,
                !changed ==> forall|j: int| index <= j < n ==> slot_folded(slots@, aliases@, j),
                values_kept(slots@, aliases@, slots0, aliases0, n as int),
            decreases index,
        {
            index = index - 1;
            if aliases[index] == NO_ALIAS {
                let slot = slots[index];
                if slot.kind == CompactSlotKind::Composed {
                    assert(slots@[index as int] == slot);
                    let ra = resolve_alias_u32(slot.a, aliases.as_slice(), Ghost(n as int));
                    let rb = resolve_alias_u32(slot.b, aliases.as_slice(), Ghost(n as int));
                    let ghost s_before = slots@;
                    let ghost a_before = aliases@;
                    match simplify(ra, rb, slot.truth_table) {
                        SimplifyResult::Keep => {},
                        SimplifyResult::Constant(value) => {
                            let a: usize = if value { 1 } else { 0 };
                            slots.set(index, CompactSlot { kind: CompactSlotKind::Constant, a, b: 0, truth_table: 0 });
                            proof {
                                lemma_constant_step(s_before, a_before, index as int, value);
                                lemma_rewrite_keeps_values(s_before, a_before, slots@, aliases@, n as int, index as int);
                                lemma_values_kept_trans(slots0, aliases0, s_before, a_before, slots@, aliases@, n as int);
                                lemma_pot_sum_update(s_before, a_before, slots@, aliases@, n as int, index as int, n as int);
                            }
                            changed = true;
                        },
                        SimplifyResult::Alias(target) => {
                            proof {
                                lemma_alias_step(s_before, a_before, n as int, index as int, target as int);
                            }
                            let resolved = resolve_alias_u32(target, aliases.as_slice(), Ghost(n as int));
                            if aliases[index] != resolved as u32 {
                                aliases.set(index, resolved as u32);
                                proof {
                                    lemma_rewrite_keeps_values(s_before, a_before, slots@, aliases@, n as int, index as int);
                                    lemma_values_kept_trans(slots0, aliases0, s_before, a_before, slots@, aliases@, n as int);
                                    lemma_pot_sum_update(s_before, a_before, slots@, aliases@, n as int, index as int, n as int);
                                }
                                changed = true;
                            }
                        },
                        SimplifyResult::Gate { first, second, truth_table } => {
                            let f = resolve_alias_u32(first, aliases.as_slice(), Ghost(n as int));
                            let g = resolve_alias_u32(second, aliases.as_slice(), Ghost(n as int));
                            proof {
                                lemma_resolve(aliases@, n as int, slot.a as int);
                                lemma_resolve(aliases@, n as int, slot.b as int);
                            }
                            let next = CompactSlot { kind: CompactSlotKind::Composed, a: f, b: g, truth_table };
                            if slots[index] != next {
                                slots.set(index, next);
                                proof {
                                    if slot.truth_table == 3 {
                                        lemma_negation_step(s_before, a_before, n as int, index as int, slot.a as int);
                                    } else {
                                        lemma_negation_step(s_before, a_before, n as int, index as int, slot.b as int);
                                    }
                                    lemma_rewrite_keeps_values(s_before, a_before, slots@, aliases@, n as int, index as int);
                                    lemma_values_kept_trans(slots0, aliases0, s_before, a_before, slots@, aliases@, n as int);
                                    lemma_pot_sum_update(s_before, a_before, slots@, aliases@, n as int, index as int, n as int);
                                }
                                changed = true;
                            }
                        },
                    }
                }
            }
        }
        if !changed {
            break;
        }
        proof {
            lemma_pot_sum_nonneg(slots@, aliases@, n as int, n as int);
        }
    }
}

/// Setting an unset entry below `n` adds one to the count of set entries.
pub proof fn lemma_count_true_set(s: Seq<bool>, i: int, n: int)
    requires
        0 <= i < n <= s.len(),
        !s[i],
    ensures
        count_true_upto(s.update(i, true), n) == count_true_upto(s, n) + 1,
    decreases n,
{
    if n - 1 > i {
        lemma_count_true_set(s, i, n - 1);
    } else {
        lemma_count_true_same(s, s.update(i, true), i);
    }
}

/// Sequences equal below `n` count the same set entries below `n`.
pub proof fn lemma_count_true_same(a: Seq<bool>, b: Seq<bool>, n: int)
    requires
        forall|j: int| 0 <= j < n ==> #[trigger] a[j] == b[j],
    ensures
        count_true_upto(a, n) == count_true_upto(b, n),
    decreases n,
{
    if n > 0 {
        lemma_count_true_same(a, b, n - 1);
    }
}

/// Node `to` is reached from node `from`: it is `from`, or is reached from
/// the resolved input of an unaliased gate `from`.
pub open spec fn reaches(aliases: Seq<u32>, slots: Seq<CompactSlot>, from: int, to: int) -> bool
    decreases from,
{
    if from == to {
        true
    } else if 0 <= from < slots.len() && from < aliases.len() && aliases[from] == NO_ALIAS
        && slots[from].kind == CompactSlotKind::Composed {
        let ra = resolve(aliases, slots[from].a as int);
        let rb = resolve(aliases, slots[from].b as int);
        (0 <= ra < from && reaches(aliases, slots, ra, to)) || (0 <= rb < from && reaches(aliases, slots, rb, to))
    } else {
        false
    }
}

/// Which of the first `n` nodes `root` reaches.
pub open spec fn reached_from(aliases: Seq<u32>, slots: Seq<CompactSlot>, n: int, root: int) -> Seq<bool> {
    Seq::new(n as nat, |r: int| reaches(aliases, slots, root, r))
}

/// Number of the first `n` nodes that `root` reaches.
pub open spec fn reach_count(aliases: Seq<u32>, slots: Seq<CompactSlot>, n: int, root: int) -> nat {
    count_true_upto(reached_from(aliases, slots, n, root), n)
}

/// Reaching is transitive.
pub proof fn lemma_reaches_trans(aliases: Seq<u32>, slots: Seq<CompactSlot>, x: int, y: int, z: int)
    requires
        reaches(aliases, slots, x, y),
        reaches(aliases, slots, y, z),
    ensures
        reaches(aliases, slots, x, z),
    decreases x,
{
    if x != y {
        let ra = resolve(aliases, slots[x].a as int);
        let rb = resolve(aliases, slots[x].b as int);
        if 0 <= ra < x && reaches(aliases, slots, ra, y) {
            lemma_reaches_trans(aliases, slots, ra, y, z);
        } else {
            lemma_reaches_trans(aliases, slots, rb, y, z);
        }
    }
}

/// A marked set closed under resolved gate inputs holds everything a marked
/// node reaches.
pub proof fn lemma_closed_holds_reached(marked: Seq<bool>, aliases: Seq<u32>, slots: Seq<CompactSlot>, n: int, inputs: int, x: int, to: int)
    requires
        reach_closed(marked, aliases, slots, n),
        slots_ok(slots, n, inputs),
        aliases_ok(aliases, n),
        n <= aliases.len(),
        n <= slots.len(),
        n <= marked.len(),
        0 <= x < n,
        marked[x],
        reaches(aliases, slots, x, to),
    ensures
        marked[to],
    decreases x,
{
    if x != to {
        let ra = resolve(aliases, slots[x].a as int);
        let rb = resolve(aliases, slots[x].b as int);
        assert(slots[x].kind is Composed);
        assert(marked[ra] && marked[rb]);
        if 0 <= ra < x && reaches(aliases, slots, ra, to) {
            lemma_closed_holds_reached(marked, aliases, slots, n, inputs, ra, to);
        } else {
            lemma_closed_holds_reached(marked, aliases, slots, n, inputs, rb, to);
        }
    }
}

/// Every marked node among the first `n` is resolved, and the nodes that a
/// marked gate reads resolve to marked nodes.
pub open spec fn reach_closed(marked: Seq<bool>, aliases: Seq<u32>, slots: Seq<CompactSlot>, n: int) -> bool {
    forall|r: int| 0 <= r < n && #[trigger] marked[r] ==> aliases[r] == NO_ALIAS && (slots[r].kind is Composed ==>
        marked[resolve(aliases, slots[r].a as int)] && marked[resolve(aliases, slots[r].b as int)])
}

/// Marks every node that the output reaches through resolved gate inputs,
/// with `stack` as the traversal stack.
fn mark_reachable(
    aliases: &[u32],
    slots: &[CompactSlot],
    reachable: &mut Vec<bool>,
    stack: &mut Vec<u16>,
    n: usize,
    output: usize,
    Ghost(inputs): Ghost<int>,
)
    requires
        n <= aliases@.len(),
        n <= slots@.len(),
        n <= old(reachable)@.len(),
        2 * n + 1 <= old(stack)@.len(),
        n <= 0xffff,
        output < n,
        aliases_ok(aliases@, n as int),
        slots_ok(slots@, n as int, inputs),
    ensures
        final(reachable)@.len() == old(reachable)@.len(),
        final(stack)@.len() == old(stack)@.len(),
        reach_closed(final(reachable)@, aliases@, slots@, n as int),
        final(reachable)@[resolve(aliases@, output as int)],
        forall|r: int| n <= r < final(reachable)@.len() ==> !#[trigger] final(reachable)@[r],
        forall|r: int| 0 <= r < n && #[trigger] final(reachable)@[r] ==> reaches(aliases@, slots@, resolve(aliases@, output as int), r),
{
    let len = reachable.len();
    let mut i: usize = 0;
    while i < len
        invariant
            len == reachable@.len(),
            i <= len,
            forall|r: int| 0 <= r < i ==> !#[trigger] reachable@[r],
        decreases len - i,
    {
        reachable.set(i, false);
        i = i + 1;
    }
    let root = resolve_alias_u32(output, aliases, Ghost(n as int));
    proof {
        lemma_resolve(aliases@, n as int, output as int);
        assert(count_true_upto(reachable@, n as int) == 0) by {
            lemma_count_true_zero(reachable@, n as int);
        }
    }
    stack.set(0, root as u16);
    let mut stack_len: usize = 1;
    assert(stack@[0] as int == root as int);
    proof {
        lemma_resolve(aliases@, n as int, root as int);
        assert(reaches(aliases@, slots@, root as int, resolve(aliases@, stack@[0] as int)));
    }
    while stack_len > 0
        invariant
            n <= aliases@.len(),
            n <= slots@.len(),
            len == reachable@.len(),
            n <= len,
            2 * n + 1 <= stack@.len(),
            stack@.len() == old(stack)@.len(),
            n <= 0xffff,
            aliases_ok(aliases@, n as int),
            slots_ok(slots@, n as int, inputs),
            root == resolve(aliases@, output as int),
            root < n,
            aliases@[root as int] == NO_ALIAS,
            count_true_upto(reachable@, n as int) <= n,
            stack_len <= 1 + 2 * count_true_upto(reachable@, n as int),
            forall|j: int| 0 <= j < stack_len ==> (#[trigger] stack@[j]) < n,
            forall|r: int| 0 <= r < len && #[trigger] reachable@[r] ==> r < n && aliases@[r] == NO_ALIAS,
            forall|r: int| 0 <= r < n && #[trigger] reachable@[r] && slots@[r].kind is Composed ==>
                (reachable@[resolve(aliases@, slots@[r].a as int)] || exists|j: int| 0 <= j < stack_len && stack@[j] as int == slots@[r].a as int)
                && (reachable@[resolve(aliases@, slots@[r].b as int)] || exists|j: int| 0 <= j < stack_len && stack@[j] as int == slots@[r].b as int),
            reachable@[root as int] || exists|j: int| 0 <= j < stack_len && stack@[j] as int == root as int,
            forall|r: int| 0 <= r < n && #[trigger] reachable@[r] ==> reaches(aliases@, slots@, root as int, r),
            forall|j: int| 0 <= j < stack_len ==> reaches(aliases@, slots@, root as int, resolve(aliases@, #[trigger] stack@[j] as int)),
        decreases n - count_true_upto(reachable@, n as int), stack_len,
    {
        let ghost st0 = stack@;
        let ghost len0 = stack_len as int;
        let ghost marked0 = reachable@;
        stack_len = stack_len - 1;
        let index = stack[stack_len] as usize;
        let resolved = resolve_alias_u32(index, aliases, Ghost(n as int));
        proof {
            lemma_resolve(aliases@, n as int, index as int);
            assert(st0[len0 - 1] == stack@[stack_len as int]);
            assert(reaches(aliases@, slots@, root as int, resolved as int));
        }
        if !reachable[resolved] {
            let ghost before = reachable@;
            let ghost stack_before = stack@;
            let ghost top = stack_len;
            reachable.set(resolved, true);
            proof {
                lemma_count_true_set(before, resolved as int, n as int);
                lemma_count_true_upto_bound(reachable@, n as int);
            }
            let slot = slots[resolved];
            if slot.kind == CompactSlotKind::Composed {
                assert(slots@[resolved as int] == slot);
                stack.set(stack_len, slot.a as u16);
                stack_len = stack_len + 1;
                stack.set(stack_len, slot.b as u16);
                stack_len = stack_len + 1;
                proof {
                    assert(stack@[top as int] as int == slot.a as int);
                    assert(stack@[top + 1] as int == slot.b as int);
                    assert forall|j: int| 0 <= j < top implies #[trigger] stack@[j] == stack_before[j] by {}
                    assert forall|r: int| 0 <= r < n && #[trigger] reachable@[r] && slots@[r].kind is Composed implies
                        (reachable@[resolve(aliases@, slots@[r].a as int)] || exists|j: int| 0 <= j < stack_len && stack@[j] as int == slots@[r].a as int)
                        && (reachable@[resolve(aliases@, slots@[r].b as int)] || exists|j: int| 0 <= j < stack_len && stack@[j] as int == slots@[r].b as int) by {
                        assert(slots@[r].a < r && slots@[r].b < r);
                        lemma_resolve(aliases@, n as int, slots@[r].a as int);
                        lemma_resolve(aliases@, n as int, slots@[r].b as int);
                        if r == resolved as int {
                        } else {
                            assert(before[r]);
                            if !reachable@[resolve(aliases@, slots@[r].a as int)] {
                                assert(!before[resolve(aliases@, slots@[r].a as int)]);
                                assert(exists|j: int| 0 <= j < top + 1 && stack_before[j] as int == slots@[r].a as int);
                                let j = choose|j: int| 0 <= j < top + 1 && stack_before[j] as int == slots@[r].a as int;
                                if j < top {
                                    assert(stack@[j] == stack_before[j]);
                                } else {
                                    lemma_resolve(aliases@, n as int, slots@[r].a as int);
                                }
                            }
                            if !reachable@[resolve(aliases@, slots@[r].b as int)] {
                                let j = choose|j: int| 0 <= j < top + 1 && stack_before[j] as int == slots@[r].b as int;
                                if j < top {
                                    assert(stack@[j] == stack_before[j]);
                                } else {
                                    lemma_resolve(aliases@, n as int, slots@[r].b as int);
                                }
                            }
                        }
                    }
                    if !reachable@[root as int] {
                        let j = choose|j: int| 0 <= j < top + 1 && stack_before[j] as int == root as int;
                        if j < top {
                            assert(stack@[j] == stack_before[j]);
                        } else {
                            lemma_resolve(aliases@, n as int, root as int);
                        }
                    }
                    let ra = resolve(aliases@, slot.a as int);
                    let rb = resolve(aliases@, slot.b as int);
                    assert(slots@[resolved as int].a < resolved && slots@[resolved as int].b < resolved);
                    lemma_resolve(aliases@, n as int, slot.a as int);
                    lemma_resolve(aliases@, n as int, slot.b as int);
                    assert(reaches(aliases@, slots@, ra, ra));
                    assert(reaches(aliases@, slots@, rb, rb));
                    assert(reaches(aliases@, slots@, resolved as int, ra));
                    assert(reaches(aliases@, slots@, resolved as int, rb));
                    lemma_reaches_trans(aliases@, slots@, root as int, resolved as int, ra);
                    lemma_reaches_trans(aliases@, slots@, root as int, resolved as int, rb);
                    assert forall|j: int| 0 <= j < stack_len implies reaches(aliases@, slots@, root as int, resolve(aliases@, #[trigger] stack@[j] as int)) by {
                        if j < top {
                            assert(stack@[j] == st0[j]);
                        }
                    }
                    assert forall|r: int| 0 <= r < n && #[trigger] reachable@[r] implies reaches(aliases@, slots@, root as int, r) by {
                        if r != resolved as int {
                            assert(marked0[r]);
                        }
                    }
                }
            } else {
                proof {
                    assert forall|r: int| 0 <= r < n && #[trigger] reachable@[r] && slots@[r].kind is Composed implies
                        (reachable@[resolve(aliases@, slots@[r].a as int)] || exists|j: int| 0 <= j < stack_len && stack@[j] as int == slots@[r].a as int)
                        && (reachable@[resolve(aliases@, slots@[r].b as int)] || exists|j: int| 0 <= j < stack_len && stack@[j] as int == slots@[r].b as int) by {
                        assert(slots@[r].a < r && slots@[r].b < r);
                        lemma_resolve(aliases@, n as int, slots@[r].a as int);
                        lemma_resolve(aliases@, n as int, slots@[r].b as int);
                        if r != resolved as int {
                            assert(before[r]);
                            if !reachable@[resolve(aliases@, slots@[r].a as int)] {
                                let j = choose|j: int| 0 <= j < top + 1 && stack_before[j] as int == slots@[r].a as int;
                                if j == top {
                                    lemma_resolve(aliases@, n as int, slots@[r].a as int);
                                }
                            }
                            if !reachable@[resolve(aliases@, slots@[r].b as int)] {
                                let j = choose|j: int| 0 <= j < top + 1 && stack_before[j] as int == slots@[r].b as int;
                                if j == top {
                                    lemma_resolve(aliases@, n as int, slots@[r].b as int);
                                }
                            }
                        }
                    }
                    if !reachable@[root as int] {
                        let j = choose|j: int| 0 <= j < top + 1 && stack_before[j] as int == root as int;
                        if j == top {
                            lemma_resolve(aliases@, n as int, root as int);
                        }
                    }
                    assert forall|j: int| 0 <= j < stack_len implies reaches(aliases@, slots@, root as int, resolve(aliases@, #[trigger] stack@[j] as int)) by {
                        assert(stack@[j] == st0[j]);
                    }
                    assert forall|r: int| 0 <= r < n && #[trigger] reachable@[r] implies reaches(aliases@, slots@, root as int, r) by {
                        if r != resolved as int {
                            assert(marked0[r]);
                        }
                    }
                }
            }
        } else {
            proof {
                let top = stack_len as int;
                assert forall|r: int| 0 <= r < n && #[trigger] reachable@[r] && slots@[r].kind is Composed implies
                    (reachable@[resolve(aliases@, slots@[r].a as int)] || exists|j: int| 0 <= j < stack_len && stack@[j] as int == slots@[r].a as int)
                    && (reachable@[resolve(aliases@, slots@[r].b as int)] || exists|j: int| 0 <= j < stack_len && stack@[j] as int == slots@[r].b as int) by {
                        assert(slots@[r].a < r && slots@[r].b < r);
                        lemma_resolve(aliases@, n as int, slots@[r].a as int);
                        lemma_resolve(aliases@, n as int, slots@[r].b as int);
                    if !reachable@[resolve(aliases@, slots@[r].a as int)] {
                        let j = choose|j: int| 0 <= j < top + 1 && stack@[j] as int == slots@[r].a as int;
                        if j == top {
                            lemma_resolve(aliases@, n as int, slots@[r].a as int);
                        }
                    }
                    if !reachable@[resolve(aliases@, slots@[r].b as int)] {
                        let j = choose|j: int| 0 <= j < top + 1 && stack@[j] as int == slots@[r].b as int;
                        if j == top {
                            lemma_resolve(aliases@, n as int, slots@[r].b as int);
                        }
                    }
                }
                if !reachable@[root as int] {
                    let j = choose|j: int| 0 <= j < top + 1 && stack@[j] as int == root as int;
                    if j == top {
                        lemma_resolve(aliases@, n as int, root as int);
                    }
                }
                assert forall|j: int| 0 <= j < stack_len implies reaches(aliases@, slots@, root as int, resolve(aliases@, #[trigger] stack@[j] as int)) by {
                    assert(stack@[j] == st0[j]);
                }
            }
        }
    }
}

/// No entry is set when none of the first `n` is.
pub proof fn lemma_count_true_zero(s: Seq<bool>, n: int)
    requires
        0 <= n <= s.len(),
        forall|r: int| 0 <= r < n ==> !#[trigger] s[r],
    ensures
        count_true_upto(s, n) == 0,
    decreases n,
{
    if n > 0 {
        lemma_count_true_zero(s, n - 1);
    }
}

/// Distinct values all below `c` are at most `c` many.
pub proof fn lemma_distinct_below(s: Seq<usize>, c: int)
    requires
        forall|i: int, j: int| 0 <= i < j < s.len() ==> #[trigger] s[i] != #[trigger] s[j],
        forall|i: int| 0 <= i < s.len() ==> (#[trigger] s[i] as int) < c,
        0 <= c,
    ensures
        s.len() <= c,
    decreases s.len(),
{
    if s.len() > 0 {
        let last = s[s.len() - 1];
        assert((s[0] as int) < c);
        let t = s.drop_last();
        let u = t.map_values(|x: usize| if x as int == c - 1 { last } else { x });
        assert forall|i: int, j: int| 0 <= i < j < u.len() implies #[trigger] u[i] != #[trigger] u[j] by {
            assert(t[i] == s[i] && t[j] == s[j]);
            assert(s[i] != s[j]);
            assert(s[i] != last && s[j] != last);
        }
        assert forall|i: int| 0 <= i < u.len() implies (#[trigger] u[i] as int) < c - 1 by {
            assert(t[i] == s[i]);
            assert(s[i] != last);
        }
        lemma_distinct_below(u, c - 1);
    }
}

/// The marked nodes among the first `n`, in increasing order.
fn collect_order(reachable: &[bool], order: &mut Vec<u16>, n: usize) -> (order_len: usize)
    requires
        n <= reachable@.len(),
        n <= old(order)@.len(),
        n <= 0xffff,
    ensures
        final(order)@.len() == old(order)@.len(),
        order_len <= n,
        forall|p: int| 0 <= p < order_len ==> (#[trigger] final(order)@[p]) < n && reachable@[final(order)@[p] as int],
        forall|p: int, q: int| 0 <= p < q < order_len ==> #[trigger] final(order)@[p] < #[trigger] final(order)@[q],
        forall|r: int| 0 <= r < n && #[trigger] reachable@[r] ==> exists|p: int| 0 <= p < order_len && final(order)@[p] as int == r,
        order_len == count_true_upto(reachable@, n as int),
{
    let mut order_len: usize = 0;
    let mut index: usize = 0;
    while index < n
        invariant
            n <= reachable@.len(),
            n <= order@.len(),
            order@.len() == old(order)@.len(),
            n <= 0xffff,
            index <= n,
            order_len <= index,
            forall|p: int| 0 <= p < order_len ==> (#[trigger] order@[p]) < index && reachable@[order@[p] as int],
            forall|p: int, q: int| 0 <= p < q < order_len ==> #[trigger] order@[p] < #[trigger] order@[q],
            forall|r: int| 0 <= r < index && #[trigger] reachable@[r] ==> exists|p: int| 0 <= p < order_len && order@[p] as int == r,
            order_len == count_true_upto(reachable@, index as int),
        decreases n - index,
    {
        if reachable[index] {
            let ghost before = order@;
            order.set(order_len, index as u16);
            proof {
                assert(order@[order_len as int] as int == index as int);
                assert forall|r: int| 0 <= r < index + 1 && #[trigger] reachable@[r] implies exists|p: int| 0 <= p < order_len + 1 && order@[p] as int == r by {
                    if r < index {
                        let p = choose|p: int| 0 <= p < order_len && before[p] as int == r;
                        assert(order@[p] == before[p]);
                    }
                }
            }
            order_len = order_len + 1;
        }
        index = index + 1;
    }
    order_len
}

/// Nodes `[0, k)` of a compact list read earlier nodes and sources below `sources`.
pub open spec fn compact_prefix_ok(nodes: Seq<CompactNode>, k: int, sources: int) -> bool {
    forall|p: int| 0 <= p < k ==> match #[trigger] nodes[p] {
        CompactNode::Source(s) => s < sources,
        CompactNode::Constant(_) => true,
        CompactNode::Composed { first, second, truth_table } => first < p && second < p,
    }
}

/// Compact lists that agree on their first `m` nodes, which read sources
/// below `sc`, and source lists that agree below `sc`, give those nodes the
/// same values.
pub proof fn lemma_compact_value_same(
    n1: Seq<CompactNode>, src1: Seq<usize>, n2: Seq<CompactNode>, src2: Seq<usize>, f: Seq<bool>, m: int, sc: int, p: int,
)
    requires
        0 <= p < m,
        m <= n1.len(),
        m <= n2.len(),
        forall|i: int| 0 <= i < m ==> #[trigger] n1[i] == n2[i],
        compact_prefix_ok(n1, m, sc),
        forall|s: int| 0 <= s < sc ==> #[trigger] src1[s] == src2[s],
    ensures
        compact_value(n1, src1, f, p) == compact_value(n2, src2, f, p),
    decreases p,
{
    assert(n1[p] == n2[p]);
    match n1[p] {
        CompactNode::Source(s) => {
            assert(src1[s as int] == src2[s as int]);
        },
        CompactNode::Constant(_) => {},
        CompactNode::Composed { first, second, truth_table } => {
            lemma_compact_value_same(n1, src1, n2, src2, f, m, sc, first as int);
            lemma_compact_value_same(n1, src1, n2, src2, f, m, sc, second as int);
        },
    }
}

/// Writes the marked nodes, in order, as compact nodes: sources get the slot
/// of their input index, gates read the new positions of their resolved
/// inputs. Returns the number of source slots.
fn renumber(
    aliases: &[u32],
    slots: &[CompactSlot],
    order: &[u16],
    order_len: usize,
    old_to_new: &mut Vec<u16>,
    sources: &mut Vec<usize>,
    nodes: &mut Vec<CompactNode>,
    n: usize,
    Ghost(marked): Ghost<Seq<bool>>,
    Ghost(inputs): Ghost<int>,
) -> (source_count: usize)
    requires
        n <= aliases@.len(),
        n <= slots@.len(),
        n <= marked.len(),
        n <= old(old_to_new)@.len(),
        n <= old(sources)@.len(),
        n <= old(nodes)@.len(),
        n <= 0xffff,
        order_len <= n,
        order_len <= order@.len(),
        aliases_ok(aliases@, n as int),
        slots_ok(slots@, n as int, inputs),
        reach_closed(marked, aliases@, slots@, n as int),
        forall|p: int| 0 <= p < order_len ==> (#[trigger] order@[p]) < n && marked[order@[p] as int],
        forall|p: int, q: int| 0 <= p < q < order_len ==> #[trigger] order@[p] < #[trigger] order@[q],
        forall|r: int| 0 <= r < n && #[trigger] marked[r] ==> exists|p: int| 0 <= p < order_len && order@[p] as int == r,
    ensures
        final(old_to_new)@.len() == old(old_to_new)@.len(),
        final(sources)@.len() == old(sources)@.len(),
        final(nodes)@.len() == old(nodes)@.len(),
        source_count <= order_len,
        compact_prefix_ok(final(nodes)@, order_len as int, source_count as int),
        forall|p: int| 0 <= p < order_len ==> #[trigger] final(old_to_new)@[order@[p] as int] as int == p,
        forall|i: int, j: int| 0 <= i < j < source_count ==> #[trigger] final(sources)@[i] != #[trigger] final(sources)@[j],
        forall|i: int| 0 <= i < source_count ==> (#[trigger] final(sources)@[i] as int) < inputs,
        forall|f: Seq<bool>, p: int| 0 <= p < order_len ==> #[trigger] compact_value(final(nodes)@, final(sources)@, f, p)
            == slot_value(slots@, aliases@, f, order@[p] as int),
{
    let mut source_count: usize = 0;
    let mut oi: usize = 0;
    while oi < order_len
        invariant
            n <= aliases@.len(),
            n <= slots@.len(),
            n <= marked.len(),
            n <= old_to_new@.len(),
            n <= sources@.len(),
            n <= nodes@.len(),
            old_to_new@.len() == old(old_to_new)@.len(),
            sources@.len() == old(sources)@.len(),
            nodes@.len() == old(nodes)@.len(),
            n <= 0xffff,
            order_len <= n,
            order_len <= order@.len(),
            aliases_ok(aliases@, n as int),
            slots_ok(slots@, n as int, inputs),
            reach_closed(marked, aliases@, slots@, n as int),
            forall|p: int| 0 <= p < order_len ==> (#[trigger] order@[p]) < n && marked[order@[p] as int],
            forall|p: int, q: int| 0 <= p < q < order_len ==> #[trigger] order@[p] < #[trigger] order@[q],
            forall|r: int| 0 <= r < n && #[trigger] marked[r] ==> exists|p: int| 0 <= p < order_len && order@[p] as int == r,
            oi <= order_len,
            source_count <= oi,
            compact_prefix_ok(nodes@, oi as int, source_count as int),
            forall|p: int| 0 <= p < oi ==> #[trigger] old_to_new@[order@[p] as int] as int == p,
            forall|i: int, j: int| 0 <= i < j < source_count ==> #[trigger] sources@[i] != #[trigger] sources@[j],
            forall|i: int| 0 <= i < source_count ==> (#[trigger] sources@[i] as int) < inputs,
            forall|f: Seq<bool>, p: int| 0 <= p < oi ==> #[trigger] compact_value(nodes@, sources@, f, p)
                == slot_value(slots@, aliases@, f, order@[p] as int),
        decreases order_len - oi,
    {
        let old_index = order[oi] as usize;
        let resolved = resolve_alias_u32(old_index, aliases, Ghost(n as int));
        proof {
            assert(marked[old_index as int]);
            assert(resolved == old_index);
        }
        let ghost map_before = old_to_new@;
        old_to_new.set(old_index, oi as u16);
        proof {
            assert forall|p: int| 0 <= p < oi + 1 implies #[trigger] old_to_new@[order@[p] as int] as int == p by {
                if p < oi {
                    assert(order@[p] < order@[oi as int]);
                    assert(old_to_new@[order@[p] as int] == map_before[order@[p] as int]);
                }
            }
        }
        let slot = slots[resolved];
        let ghost nodes_before = nodes@;
        let ghost count_before = source_count;
        let ghost sources_before = sources@;
        if slot.kind == CompactSlotKind::Source {
            proof {
                assert(slots@[resolved as int] == slot);
                if sources@.subrange(0, source_count as int).contains(slot.a) {
                } else {
                    assert(source_count < sources@.len());
                }
            }
            let compact_source = find_or_insert_source(sources, &mut source_count, slot.a);
            nodes.set(oi, CompactNode::Source(compact_source));
            proof {
                assert forall|i: int, j: int| 0 <= i < j < source_count implies #[trigger] sources@[i] != #[trigger] sources@[j] by {
                    if source_count == count_before + 1 && j == count_before {
                        assert(sources_before.subrange(0, count_before as int)[i] == sources_before[i]);
                    }
                }
            }
        } else if slot.kind == CompactSlotKind::Constant {
            nodes.set(oi, CompactNode::Constant(slot.a != 0));
        } else {
            proof {
                assert(slots@[resolved as int] == slot);
                assert(slot.kind is Composed);
                lemma_resolve(aliases@, n as int, slot.a as int);
                lemma_resolve(aliases@, n as int, slot.b as int);
            }
            let first_resolved = resolve_alias_u32(slot.a, aliases, Ghost(n as int));
            let second_resolved = resolve_alias_u32(slot.b, aliases, Ghost(n as int));
            let first = old_to_new[first_resolved] as usize;
            let second = old_to_new[second_resolved] as usize;
            proof {
                assert(marked[first_resolved as int]);
                assert(marked[second_resolved as int]);
                let pf = choose|p: int| 0 <= p < order_len && order@[p] as int == first_resolved as int;
                let ps = choose|p: int| 0 <= p < order_len && order@[p] as int == second_resolved as int;
                if pf >= oi {
                    if pf > oi {
                        assert(order@[oi as int] < order@[pf]);
                    }
                }
                if ps >= oi {
                    if ps > oi {
                        assert(order@[oi as int] < order@[ps]);
                    }
                }
                assert(first == pf);
                assert(second == ps);
            }
            nodes.set(oi, CompactNode::Composed { first, second, truth_table: slot.truth_table });
        }
        proof {
            assert forall|p: int| 0 <= p < oi + 1 implies match #[trigger] nodes@[p] {
                CompactNode::Source(s) => s < source_count,
                CompactNode::Constant(_) => true,
                CompactNode::Composed { first, second, truth_table } => first < p && second < p,
            } by {
                if p < oi {
                    assert(nodes@[p] == nodes_before[p]);
                }
            }
            assert forall|s: int| 0 <= s < count_before implies #[trigger] sources_before[s] == sources@[s] by {}
            assert forall|i: int| 0 <= i < oi implies #[trigger] nodes_before[i] == nodes@[i] by {}
            assert forall|f: Seq<bool>, p: int| 0 <= p < oi + 1 implies #[trigger] compact_value(nodes@, sources@, f, p)
                == slot_value(slots@, aliases@, f, order@[p] as int) by {
                if p < oi {
                    lemma_compact_value_same(nodes_before, sources_before, nodes@, sources@, f, oi as int, count_before as int, p);
                } else {
                    assert(order@[p] as int == old_index as int);
                    assert(aliases@[old_index as int] == NO_ALIAS);
                    assert(slots@[old_index as int] == slot);
                    match nodes@[p] {
                        CompactNode::Source(cs) => {},
                        CompactNode::Constant(_) => {},
                        CompactNode::Composed { first, second, truth_table } => {
                            lemma_gate_value(slots@, aliases@, f, old_index as int);
                            lemma_value_resolve(slots@, aliases@, f, slot.a as int);
                            lemma_value_resolve(slots@, aliases@, f, slot.b as int);
                            lemma_compact_value_same(nodes_before, sources_before, nodes@, sources@, f, oi as int, count_before as int, first as int);
                            lemma_compact_value_same(nodes_before, sources_before, nodes@, sources@, f, oi as int, count_before as int, second as int);
                            assert(old_to_new@[order@[first as int] as int] as int == first as int);
                        },
                    }
                }
            }
        }
        oi = oi + 1;
    }
    source_count
}

/// Marks every entry of the renumbering table as not kept.
fn clear_map(map: &mut Vec<u16>)
    ensures
        final(map)@.len() == old(map)@.len(),
        forall|k: int| 0 <= k < final(map)@.len() ==> #[trigger] final(map)@[k] == NO_MAP,
{
    let len = map.len();
    let mut k: usize = 0;
    while k < len
        invariant
            len == map@.len(),
            k <= len,
            forall|j: int| 0 <= j < k ==> #[trigger] map@[j] == NO_MAP,
        decreases len - k,
    {
        map.set(k, NO_MAP);
        k = k + 1;
    }
}

/// Every source among the first `n` nodes reads an input below `bound`.
pub open spec fn source_inputs_below(nodes: Seq<EphemeralNode>, n: int, bound: int) -> bool {
    forall|i: int| 0 <= i < n ==> match #[trigger] nodes[i] {
        EphemeralNode::Source { input_index } => input_index < bound,
        EphemeralNode::Composed { first, second, truth_table } => true,
    }
}

/// Only the compaction buffers differ, and they keep their sizes.
pub open spec fn same_but_compaction(a: BuildWorkspace, b: BuildWorkspace) -> bool {
    &&& b.nodes == a.nodes
    &&& b.node_len == a.node_len
    &&& b.layers == a.layers
    &&& b.association_scores == a.association_scores
    &&& b.accuracy_scores == a.accuracy_scores
    &&& b.columns == a.columns
    &&& b.pair_candidates == a.pair_candidates
    &&& b.compact_aliases@.len() == a.compact_aliases@.len()
    &&& b.compact_slots@.len() == a.compact_slots@.len()
    &&& b.compact_reachable@.len() == a.compact_reachable@.len()
    &&& b.compact_order@.len() == a.compact_order@.len()
    &&& b.compact_old_to_new@.len() == a.compact_old_to_new@.len()
    &&& b.compact_sources@.len() == a.compact_sources@.len()
    &&& b.compact_nodes@.len() == a.compact_nodes@.len()
}

/// A compacted function: evaluable, no larger than `max_nodes` nor than the
/// `built` nodes it came from, keeping the capacities of `before`.
pub open spec fn compacted(graph: FunctionGraph, before: FunctionGraph, max_nodes: int, built: int, invert_output: bool) -> bool {
    &&& graph.wf()
    &&& nodes_topological(graph.node_list(), graph.sources().len() as int)
    &&& graph.output_node() < graph.node_list().len()
    &&& graph.node_list().len() <= max_nodes
    &&& graph.node_list().len() <= built
    &&& graph.inverts() == invert_output
    &&& graph.source_capacity() == before.source_capacity()
    &&& graph.node_capacity() == before.node_capacity()
}

/// `s` and `a` are the built nodes folded: every gate reads earlier slots,
/// aliases point back, every slot has its node's value, and no rule of
/// folding applies any more.
pub open spec fn folded_nodes(nodes: Seq<EphemeralNode>, n: int, s: Seq<CompactSlot>, a: Seq<u32>) -> bool {
    &&& n <= s.len()
    &&& n <= a.len()
    &&& aliases_ok(a, n)
    &&& forall|i: int| 0 <= i < n && (#[trigger] s[i]).kind == CompactSlotKind::Composed ==> s[i].a < i && s[i].b < i
    &&& forall|f: Seq<bool>, i: int| 0 <= i < n ==> #[trigger] slot_value(s, a, f, i) == built_value(nodes, f, i)
    &&& forall|j: int| 0 <= j < n ==> #[trigger] slot_folded(s, a, j)
}

/// The nodes the output reaches after folding are among the built nodes,
/// and include the resolved output itself: a compacted graph has at least
/// one and at most `n` nodes.
pub proof fn law_reach_count_bounds(nodes: Seq<EphemeralNode>, n: int, s: Seq<CompactSlot>, a: Seq<u32>, output: int)
    requires
        folded_nodes(nodes, n, s, a),
        0 <= output < n,
    ensures
        1 <= reach_count(a, s, n, resolve(a, output)) <= n,
{
    lemma_resolve(a, n, output);
    let root = resolve(a, output);
    let seen = reached_from(a, s, n, root);
    lemma_count_true_upto_bound(seen, n);
    assert(seen[root]);
    lemma_count_true_at_least_one(seen, root, n);
}

/// A sequence with a set entry below `n` counts at least one.
pub proof fn lemma_count_true_at_least_one(v: Seq<bool>, i: int, n: int)
    requires
        0 <= i < n <= v.len(),
        v[i],
    ensures
        count_true_upto(v, n) >= 1,
    decreases n,
{
    if n - 1 > i {
        lemma_count_true_at_least_one(v, i, n - 1);
    }
}

/// Lowers the built nodes to `graph`: gates are simplified until nothing
/// changes, only the nodes that the output reaches are kept, in order, and
/// sources share one slot per input index.
pub fn compact_build_workspace_into(
    workspace: &mut BuildWorkspace,
    output: BuildNodeId,
    invert_output: bool,
    max_expert_nodes: usize,
    graph: &mut FunctionGraph,
) -> (r: Result<(), CompactError>)
    requires
        old(workspace).wf(),
        prefix_topological(old(workspace).nodes@, old(workspace).node_len as int),
        old(workspace).node_len <= 0xffff,
        old(graph).wf(),
        max_expert_nodes <= old(graph).node_capacity(),
        source_inputs_below(old(workspace).nodes@, old(workspace).node_len as int, old(graph).source_capacity() as int),
    ensures
        final(workspace).wf(),
        same_but_compaction(*old(workspace), *final(workspace)),
        (r == Err::<(), CompactError>(CompactError::InvalidOutput)) <==> output.0 >= old(workspace).node_len,
        r == Err::<(), CompactError>(CompactError::ExpertTooLarge) ==> old(workspace).node_len > max_expert_nodes,
        output.0 < old(workspace).node_len && old(workspace).node_len <= max_expert_nodes ==> r is Ok,
        r is Err ==> *final(graph) == *old(graph),
        r is Ok ==> compacted(*final(graph), *old(graph), max_expert_nodes as int, old(workspace).node_len as int, invert_output),
        r is Ok ==> forall|f: Seq<bool>| #[trigger] final(graph).value(f)
            == (built_value(old(workspace).nodes@, f, output.0 as int) != invert_output),
        output.0 < old(workspace).node_len ==> exists|s: Seq<CompactSlot>, a: Seq<u32>| {
            &&& #[trigger] folded_nodes(old(workspace).nodes@, old(workspace).node_len as int, s, a)
            &&& (r == Err::<(), CompactError>(CompactError::ExpertTooLarge)
                <==> reach_count(a, s, old(workspace).node_len as int, resolve(a, output.0 as int)) > max_expert_nodes)
            &&& (r is Ok ==> final(graph).node_list().len() == reach_count(a, s, old(workspace).node_len as int, resolve(a, output.0 as int)))
        },
{
    if output.0 >= workspace.node_len {
        return Err(CompactError::InvalidOutput);
    }
    let n = workspace.node_len;
    let ghost inputs = graph.source_capacity() as int;
    let ghost start = *workspace;
    let mut index: usize = 0;
    while index < n
        invariant
            n == workspace.node_len,
            n <= 0xffff,
            workspace.wf(),
            same_but_compaction(start, *workspace),
            prefix_topological(workspace.nodes@, n as int),
            source_inputs_below(workspace.nodes@, n as int, inputs),
            index <= n,
            aliases_ok(workspace.compact_aliases@, index as int),
            slots_ok(workspace.compact_slots@, index as int, inputs),
            forall|i: int| 0 <= i < index ==> #[trigger] workspace.compact_aliases@[i] == NO_ALIAS,
            forall|i: int| 0 <= i < index ==> #[trigger] workspace.compact_slots@[i] == slot_spec(workspace.nodes@[i]),
        decreases n - index,
    {
        workspace.compact_aliases.set(index, NO_ALIAS);
        let slot = slot_of(workspace.nodes[index]);
        workspace.compact_slots.set(index, slot);
        proof {
            assert forall|i: int| 0 <= i < index + 1 implies match (#[trigger] workspace.compact_slots@[i]).kind {
                CompactSlotKind::Composed => workspace.compact_slots@[i].a < i && workspace.compact_slots@[i].b < i,
                CompactSlotKind::Constant => workspace.compact_slots@[i].a <= 1,
                CompactSlotKind::Source => workspace.compact_slots@[i].a < inputs,
            } by {
                if i == index {
                    assert(workspace.nodes@[i] == workspace.nodes@[index as int]);
                }
            }
        }
        index = index + 1;
    }
    let ghost s_init = workspace.compact_slots@;
    let ghost a_init = workspace.compact_aliases@;
    proof {
        assert forall|f: Seq<bool>, i: int| 0 <= i < n implies #[trigger] slot_value(s_init, a_init, f, i)
            == built_value(start.nodes@, f, i) by {
            lemma_initial_values(start.nodes@, s_init, a_init, n as int, f, i);
        }
    }
    fold_slots(&mut workspace.compact_aliases, &mut workspace.compact_slots, n, Ghost(inputs));
    mark_reachable(
        workspace.compact_aliases.as_slice(),
        workspace.compact_slots.as_slice(),
        &mut workspace.compact_reachable,
        &mut workspace.compact_order,
        n,
        output.0,
        Ghost(inputs),
    );
    let order_len = collect_order(workspace.compact_reachable.as_slice(), &mut workspace.compact_order, n);
    clear_map(&mut workspace.compact_old_to_new);
    let ghost marked = workspace.compact_reachable@;
    let source_count = renumber(
        workspace.compact_aliases.as_slice(),
        workspace.compact_slots.as_slice(),
        workspace.compact_order.as_slice(),
        order_len,
        &mut workspace.compact_old_to_new,
        &mut workspace.compact_sources,
        &mut workspace.compact_nodes,
        n,
        Ghost(marked),
        Ghost(inputs),
    );
    let root = resolve_alias_u32(output.0, workspace.compact_aliases.as_slice(), Ghost(n as int));
    let ghost s_f = workspace.compact_slots@;
    let ghost a_f = workspace.compact_aliases@;
    proof {
        assert forall|r: int| 0 <= r < n implies #[trigger] marked[r] == reached_from(a_f, s_f, n as int, root as int)[r] by {
            if reaches(a_f, s_f, root as int, r) {
                lemma_closed_holds_reached(marked, a_f, s_f, n as int, inputs, root as int, r);
            }
        }
        lemma_count_true_same(marked, reached_from(a_f, s_f, n as int, root as int), n as int);
        assert(order_len == reach_count(a_f, s_f, n as int, root as int));
        assert forall|f: Seq<bool>, i: int| 0 <= i < n implies #[trigger] slot_value(s_f, a_f, f, i) == built_value(start.nodes@, f, i) by {
            assert(slot_value(s_f, a_f, f, i) == slot_value(s_init, a_init, f, i));
            assert(slot_value(s_init, a_init, f, i) == built_value(start.nodes@, f, i));
        }
        assert forall|i: int| 0 <= i < n && (#[trigger] s_f[i]).kind == CompactSlotKind::Composed implies s_f[i].a < i && s_f[i].b < i by {
            assert(slots_ok(s_f, n as int, inputs));
        }
        assert(folded_nodes(start.nodes@, n as int, s_f, a_f));
    }
    let compact_output = workspace.compact_old_to_new[root] as usize;
    proof {
        let p = choose|p: int| 0 <= p < order_len && workspace.compact_order@[p] as int == root as int;
        assert(compact_output == p);
    }
    if order_len > max_expert_nodes {
        return Err(CompactError::ExpertTooLarge);
    }
    proof {
        let used = workspace.compact_sources@.subrange(0, source_count as int);
        assert forall|i: int, j: int| 0 <= i < j < used.len() implies #[trigger] used[i] != #[trigger] used[j] by {
            assert(used[i] == workspace.compact_sources@[i] && used[j] == workspace.compact_sources@[j]);
        }
        assert forall|i: int| 0 <= i < used.len() implies (#[trigger] used[i] as int) < inputs by {
            assert(used[i] == workspace.compact_sources@[i]);
        }
        lemma_distinct_below(used, inputs);
    }
    let kept_sources = vstd::slice::slice_subrange(workspace.compact_sources.as_slice(), 0, source_count);
    let kept_nodes = vstd::slice::slice_subrange(workspace.compact_nodes.as_slice(), 0, order_len);
    graph.reset_from_parts(kept_sources, kept_nodes, compact_output, invert_output);
    proof {
        let ghost s_fold = workspace.compact_slots@;
        let ghost a_fold = workspace.compact_aliases@;
        let ghost p_out = compact_output as int;
        graph.lemma_sources_prefix();
        assert forall|s: int| 0 <= s < source_count implies #[trigger] workspace.compact_sources@[s] == graph.source_slots()[s] by {
            assert(graph.sources()[s] == kept_sources@[s]);
        }
        assert forall|i: int| 0 <= i < order_len implies #[trigger] workspace.compact_nodes@[i] == graph.node_list()[i] by {
            assert(graph.node_list()[i] == kept_nodes@[i]);
        }
        assert forall|f: Seq<bool>| #[trigger] graph.value(f) == (built_value(start.nodes@, f, output.0 as int) != invert_output) by {
            lemma_compact_value_same(workspace.compact_nodes@, workspace.compact_sources@, graph.node_list(), graph.source_slots(),
                f, order_len as int, source_count as int, p_out);
            assert(compact_value(workspace.compact_nodes@, workspace.compact_sources@, f, p_out)
                == slot_value(s_fold, a_fold, f, workspace.compact_order@[p_out] as int));
            lemma_value_resolve(s_fold, a_fold, f, output.0 as int);
            assert(slot_value(s_fold, a_fold, f, output.0 as int) == slot_value(s_init, a_init, f, output.0 as int));
        }
        assert forall|p: int| 0 <= p < graph.node_list().len() implies match #[trigger] graph.node_list()[p] {
            CompactNode::Source(s) => s < graph.sources().len(),
            CompactNode::Constant(_) => true,
            CompactNode::Composed { first, second, truth_table } => first < p && second < p,
        } by {
            assert(graph.node_list()[p] == workspace.compact_nodes@[p]);
        }
    }
    Ok(())
}

} // verus!
