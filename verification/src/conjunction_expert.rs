//! Stored conjunction experts: an AND of signed literals.

use vstd::prelude::*;
use crate::conjunction_build_common::{
    ConjunctionBuildError, ConjunctionKey, MAX_KEY_WORDS, MAX_LITERALS, lemma_lits_bound,
};
use crate::batch::slice_range;

verus! {

/// The literals of `key` on features `f < n`, in increasing feature order;
/// a literal is negated when the key holds no positive literal on its feature.
pub open spec fn key_literals(key: ConjunctionKey, word_count: int, n: int) -> Seq<(u8, bool)>
    decreases n,
{
    if n <= 0 {
        Seq::empty()
    } else if key.has(n - 1, word_count) {
        key_literals(key, word_count, n - 1).push(((n - 1) as u8, !key.has_pos(n - 1)))
    } else {
        key_literals(key, word_count, n - 1)
    }
}

/// Value of feature `index`, `false` when it is missing.
pub open spec fn feature_value(features: Seq<bool>, index: int) -> bool {
    if 0 <= index < features.len() { features[index] } else { false }
}

/// A literal holds: its feature is set, or unset when it is negated.
pub open spec fn literal_holds(literal: (u8, bool), features: Seq<bool>) -> bool {
    let value = feature_value(features, literal.0 as int);
    if literal.1 { !value } else { value }
}

/// Every literal holds.
pub open spec fn conjunction_holds(literals: Seq<(u8, bool)>, features: Seq<bool>) -> bool {
    forall|k: int| 0 <= k < literals.len() ==> #[trigger] literal_holds(literals[k], features)
}

pub open spec fn min_int(a: int, b: int) -> int {
    if a <= b { a } else { b }
}

/// Stored conjunction expert: AND of signed literals, sorted by feature index.
#[derive(Debug, Clone, Copy, PartialEq, Eq)]
pub struct ConjunctionExpert {
    len: u8,
    literals: [(u8, bool); 64],
}

impl ConjunctionExpert {
    /// The expert's literals `(feature, negated)`.
    pub closed spec fn view_literals(self) -> Seq<(u8, bool)> {
        self.literals@.subrange(0, self.len as int)
    }

    pub closed spec fn wf(self) -> bool {
        self.len <= 64
    }

    pub fn empty() -> (r: Self)
        ensures
            r.wf(),
            r.view_literals() == Seq::<(u8, bool)>::empty(),
    {
        let r = Self { len: 0, literals: [(0u8, false); 64] };
        assert(r.view_literals() =~= Seq::<(u8, bool)>::empty());
        r
    }

    pub fn from_key(
        key: &ConjunctionKey,
        word_count: usize,
        feature_count: usize,
        max_conjunction_length: usize,
    ) -> (r: Result<Self, ConjunctionBuildError>)
        requires
            word_count <= MAX_KEY_WORDS,
            max_conjunction_length <= MAX_LITERALS || key.key_len(word_count as int) <= MAX_LITERALS,
        ensures
            r is Err <==> (key.key_len(word_count as int) == 0 || key.key_len(word_count as int)
                > max_conjunction_length),
            r is Err ==> r == Err::<Self, ConjunctionBuildError>(ConjunctionBuildError::ExpertTooLarge),
            r matches Ok(expert) ==> expert.wf() && expert.view_literals() == key_literals(
                *key,
                word_count as int,
                min_int(feature_count as int, 64 * word_count),
            ),
    {
        let len = key.len(word_count);
        if len == 0 || len > max_conjunction_length {
            return Err(ConjunctionBuildError::ExpertTooLarge);
        }
        let ghost wc = word_count as int;
        let mut expert = Self::empty();
        let mut slot: usize = 0;
        let mut feature_index: usize = 0;
        while feature_index < feature_count
            invariant
                word_count <= 4,
                wc == word_count,
                len == key.key_len(wc),
                len <= 64,
                feature_index <= feature_count,
                feature_index <= 64 * word_count,
                slot == key.lits_upto(wc, feature_index as int),
                slot <= 64,
                expert.literals@.subrange(0, slot as int) == key_literals(*key, wc, feature_index as int),
            ensures
                feature_index == feature_count || feature_index / 64 >= word_count,
                feature_index <= feature_count,
                feature_index <= 64 * word_count,
                slot == key.lits_upto(wc, feature_index as int),
                slot <= 64,
                expert.literals@.subrange(0, slot as int) == key_literals(*key, wc, feature_index as int),
            decreases feature_count - feature_index,
        {
            let word = feature_index / 64;
            if word >= word_count {
                break;
            }
            proof {
                lemma_lits_bound(*key, wc, feature_index + 1);
            }
            let mask_shift = (feature_index % 64) as u64;
            let positive = (key.positive[word] >> mask_shift) & 1 == 1;
            let negative = (key.negative[word] >> mask_shift) & 1 == 1;
            let ghost before = expert.literals@;
            if positive {
                expert.literals[slot] = (feature_index as u8, false);
                slot = slot + 1;
            } else if negative {
                expert.literals[slot] = (feature_index as u8, true);
                slot = slot + 1;
            }
            proof {
                assert(expert.literals@.subrange(0, slot as int) =~= key_literals(*key, wc, feature_index + 1)) by {
                    if positive || negative {
                        assert(expert.literals@.subrange(0, slot - 1) =~= before.subrange(0, slot - 1));
                    }
                }
            }
            feature_index = feature_index + 1;
        }
        proof {
            assert(feature_index == min_int(feature_count as int, 64 * word_count));
        }
        expert.len = slot as u8;
        Ok(expert)
    }

    pub fn copy_from(&mut self, other: &Self)
        ensures
            final(self).view_literals() == other.view_literals(),
            final(self).wf() == other.wf(),
    {
        self.len = other.len;
        self.literals = other.literals;
    }

    pub fn clear(&mut self)
        requires
            old(self).wf(),
        ensures
            final(self).wf(),
            final(self).view_literals() == Seq::<(u8, bool)>::empty(),
    {
        self.len = 0;
        assert(self.view_literals() =~= Seq::<(u8, bool)>::empty());
    }

    /// The AND of the expert's literals on `features`; a missing feature reads
    /// as `false`.
    pub fn evaluate(&self, features: &[bool]) -> (r: bool)
        requires
            self.wf(),
        ensures
            r == conjunction_holds(self.view_literals(), features@),
    {
        let mut index: usize = 0;
        let n = self.len as usize;
        while index < n
            invariant
                n == self.len,
                n <= 64,
                index <= n,
                forall|k: int|
                    0 <= k < index ==> #[trigger] literal_holds(self.literals@[k], features@),
            decreases n - index,
        {
            let (feature_index, negated) = self.literals[index];
            let value = if (feature_index as usize) < features.len() {
                features[feature_index as usize]
            } else {
                false
            };
            let literal = if negated { !value } else { value };
            if !literal {
                assert(!literal_holds(self.view_literals()[index as int], features@));
                return false;
            }
            index = index + 1;
        }
        assert forall|k: int| 0 <= k < self.view_literals().len() implies #[trigger] literal_holds(
            self.view_literals()[k],
            features@,
        ) by {
            assert(self.view_literals()[k] == self.literals@[k]);
        }
        true
    }

    pub fn literal_count(&self) -> (r: usize)
        requires
            self.wf(),
        ensures
            r == self.view_literals().len(),
    {
        self.len as usize
    }

    pub fn literals(&self) -> (r: &[(u8, bool)])
        requires
            self.wf(),
        ensures
            r@ == self.view_literals(),
    {
        slice_range(self.literals.as_slice(), 0, self.len as usize)
    }
}

} // verus!
