//! What a beam-search conjunction means on a batch, and facts about literal sets.

use vstd::prelude::*;
use crate::association::{association, count_eq_upto};
use crate::batch::SignBatch;
use crate::binary_truth_table::abs_int;
use crate::conjunction_build_common::{ConjunctionKey, constant_column, key_words_for};
use crate::workspace::ConjunctionBuildWorkspace;

verus! {

/// Value of the literal on feature `f` of `key` at `row`.
pub open spec fn key_literal_value(key: ConjunctionKey, batch: SignBatch, f: int, row: int) -> bool {
    if key.has_pos(f) { batch.col(f)[row] } else { !batch.col(f)[row] }
}

/// Value of the conjunction `key` on row `row`: every literal of the key on a
/// feature of the batch holds.
pub open spec fn key_row(key: ConjunctionKey, word_count: int, batch: SignBatch, row: int) -> bool {
    forall|f: int|
        0 <= f < batch.spec_feature_count() && #[trigger] key.has(f, word_count)
            ==> key_literal_value(key, batch, f, row)
}

/// Column of the conjunction `key` over the `batch_size` rows of the batch.
pub open spec fn key_column(key: ConjunctionKey, word_count: int, batch: SignBatch, batch_size: int) -> Seq<bool> {
    Seq::new(batch_size as nat, |row: int| key_row(key, word_count, batch, row))
}

/// A beam key: `n` literals, all on features below `feature_count`, never
/// two literals on one feature.
pub open spec fn key_ok(key: ConjunctionKey, word_count: int, feature_count: int, n: int) -> bool {
    &&& forall|f: int| #[trigger] key.has(f, word_count) ==> f < feature_count
    &&& forall|f: int| !(#[trigger] key.has_pos(f) && key.has_neg(f))
    &&& key.lits_upto(word_count, feature_count) == n
}

/// `abs_assoc` and `accuracy` are the absolute association and the number
/// of matching rows of `column` against the labels.
pub open spec fn scores_of(abs_assoc: i64, accuracy: u8, column: Seq<bool>, signs: Seq<bool>) -> bool {
    &&& abs_assoc == abs_int(association(column, signs))
    &&& accuracy == count_eq_upto(column, signs, signs.len() as int)
}

pub proof fn lemma_empty_lits(key: ConjunctionKey, word_count: int, n: int)
    requires
        forall|g: int| !(#[trigger] key.has_pos(g)),
        forall|g: int| !(#[trigger] key.has_neg(g)),
    ensures
        key.lits_upto(word_count, n) == 0,
    decreases n,
{
    if n > 0 {
        lemma_empty_lits(key, word_count, n - 1);
    }
}

/// A key extended by one fresh literal holds one more literal.
pub proof fn lemma_lits_add(parent: ConjunctionKey, child: ConjunctionKey, word_count: int, n: int, f: int)
    requires
        forall|g: int| #[trigger] child.has(g, word_count) == (parent.has(g, word_count) || g == f),
        !parent.has(f, word_count),
        0 <= f,
    ensures
        child.lits_upto(word_count, n) == parent.lits_upto(word_count, n) + if f < n { 1int } else { 0int },
    decreases n,
{
    if n > 0 {
        lemma_lits_add(parent, child, word_count, n - 1, f);
        assert(child.has(n - 1, word_count) == (parent.has(n - 1, word_count) || n - 1 == f));
    }
}

/// Negating a column keeps it constant or not.
pub proof fn lemma_constant_negated(column: Seq<bool>, negated: Seq<bool>)
    requires
        column.len() == negated.len(),
        forall|i: int| 0 <= i < column.len() ==> #[trigger] negated[i] == !column[i],
    ensures
        constant_column(negated) == constant_column(column),
{
    if constant_column(column) {
        assert forall|i: int| 0 <= i < negated.len() implies #[trigger] negated[i] == negated[0] by {
            assert(column[i] == column[0]);
        }
    }
    if constant_column(negated) {
        assert forall|i: int| 0 <= i < column.len() implies #[trigger] column[i] == column[0] by {
            assert(negated[i] == negated[0]);
        }
    }
}

/// Literal column `l` of the batch over its first `batch_size` rows.
pub open spec fn literal_column(batch: SignBatch, l: int, batch_size: int) -> Seq<bool> {
    Seq::new(batch_size as nat, |row: int| ConjunctionBuildWorkspace::literal_value(batch, l, row))
}

/// Literal index of feature `f`, negated or not.
pub open spec fn literal_of(f: int, negated: bool) -> int {
    2 * f + if negated { 1int } else { 0int }
}

/// Every feature column of the batch is constant.
pub open spec fn all_columns_constant(batch: SignBatch) -> bool {
    forall|f: int| 0 <= f < batch.spec_feature_count() ==> constant_column(#[trigger] batch.col(f))
}

/// With at most 256 features, every feature lies within the key words.
pub proof fn lemma_feature_in_words(f: int, feature_count: int)
    requires
        0 <= f < feature_count <= 256,
    ensures
        f / 64 < key_words_for(feature_count),
        key_words_for(feature_count) <= 4,
{
}

/// A key holding one more literal, on a fresh feature `f`, holds the
/// conjunction of its parent and that literal.
pub proof fn lemma_child_key(
    parent: ConjunctionKey,
    child: ConjunctionKey,
    wc: int,
    fc: int,
    n: int,
    f: int,
    negated: bool,
    batch: SignBatch,
)
    requires
        key_ok(parent, wc, fc, n),
        0 <= f < fc,
        fc <= batch.spec_feature_count(),
        f / 64 < wc,
        !parent.has(f, wc),
        forall|g: int| #[trigger] child.has_pos(g) == (parent.has_pos(g) || (g == f && !negated)),
        forall|g: int| #[trigger] child.has_neg(g) == (parent.has_neg(g) || (g == f && negated)),
    ensures
        key_ok(child, wc, fc, n + 1),
        forall|row: int| #[trigger] key_row(child, wc, batch, row) == (key_row(parent, wc, batch, row)
            && ConjunctionBuildWorkspace::literal_value(batch, literal_of(f, negated), row)),
{
    assert forall|g: int| #[trigger] child.has(g, wc) == (parent.has(g, wc) || g == f) by {
        assert(child.has_pos(g) == (parent.has_pos(g) || (g == f && !negated)));
        assert(child.has_neg(g) == (parent.has_neg(g) || (g == f && negated)));
    }
    lemma_lits_add(parent, child, wc, fc, f);
    assert forall|g: int| !(#[trigger] child.has_pos(g) && child.has_neg(g)) by {
        assert(child.has_pos(g) == (parent.has_pos(g) || (g == f && !negated)));
        assert(child.has_neg(g) == (parent.has_neg(g) || (g == f && negated)));
        assert(!(parent.has_pos(g) && parent.has_neg(g)));
        if g == f {
            assert(!parent.has_pos(f) && !parent.has_neg(f));
        }
    }
    assert forall|g: int| #[trigger] child.has(g, wc) implies g < fc by {
        if g != f {
            assert(parent.has(g, wc));
        }
    }
    let lit = literal_of(f, negated);
    assert(lit / 2 == f);
    assert(lit % 2 == if negated { 1int } else { 0int });
    assert forall|row: int| #[trigger] key_row(child, wc, batch, row) == (key_row(parent, wc, batch, row)
        && ConjunctionBuildWorkspace::literal_value(batch, lit, row)) by {
        assert(child.has_pos(f) == !negated);
        assert(key_literal_value(child, batch, f, row) == ConjunctionBuildWorkspace::literal_value(batch, lit, row));
        assert forall|g: int| 0 <= g < batch.spec_feature_count() && #[trigger] parent.has(g, wc) implies
            key_literal_value(parent, batch, g, row) == key_literal_value(child, batch, g, row) by {
            assert(child.has_pos(g) == (parent.has_pos(g) || (g == f && !negated)));
            assert(g != f);
        }
        if key_row(child, wc, batch, row) {
            assert forall|g: int| 0 <= g < batch.spec_feature_count() && #[trigger] parent.has(g, wc) implies
                key_literal_value(parent, batch, g, row) by {
                assert(child.has(g, wc));
            }
            assert(child.has(f, wc));
        }
        if key_row(parent, wc, batch, row) && ConjunctionBuildWorkspace::literal_value(batch, lit, row) {
            assert forall|g: int| 0 <= g < batch.spec_feature_count() && #[trigger] child.has(g, wc) implies
                key_literal_value(child, batch, g, row) by {
                if g != f {
                    assert(parent.has(g, wc));
                }
            }
        }
    }
}

} // verus!
