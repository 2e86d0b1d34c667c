//! Configuration, literal-set keys and scoring helpers of the conjunction beam search.

use vstd::prelude::*;
use crate::association::{
    association, count_and_upto, count_eq_upto, count_true, count_true_upto, min_len,
    lemma_count_and_upto_bound, lemma_count_true_upto_bound, lemma_count_eq_upto_bound,
};
use crate::batch::SignBatch;
use crate::binary_truth_table::abs_int;
use crate::seq_perm::{swapped, lemma_swap_prefix};
use crate::bits64::{
    bit_set, bits_upto, popcount, count_ones_u64, lemma_mask_test, lemma_or_bit, lemma_set_bit,
    lemma_bits_upto_bound,
};

verus! {

pub const MAX_KEY_WORDS: usize = 4;

pub const MAX_LITERALS: usize = 64;

pub const DEFAULT_MAX_CONJUNCTION_LENGTH: usize = 7;

pub const DEFAULT_MAX_EXPERTS: usize = 64;

pub const DEFAULT_STALE_LAYERS: usize = 2;

pub const MAX_BATCH_SIZE: usize = 255;

#[derive(Debug, Clone, Copy)]
pub struct ConjunctionBuildConfig {
    pub batch_size: usize,
    pub max_conjunctions: usize,
    pub max_conjunction_length: usize,
    pub max_experts: usize,
    pub stale_layers: usize,
}

impl ConjunctionBuildConfig {
    pub fn new(
        batch_size: usize,
        max_conjunctions: usize,
        max_conjunction_length: usize,
        max_experts: usize,
        stale_layers: usize,
    ) -> (r: Self)
        ensures
            r.batch_size == batch_size,
            r.max_conjunctions == max_conjunctions,
            r.max_conjunction_length == max_conjunction_length,
            r.max_experts == max_experts,
            r.stale_layers == stale_layers,
    {
        Self { batch_size, max_conjunctions, max_conjunction_length, max_experts, stale_layers }
    }

    /// Every size is positive, batches fit a `u8` counter and conjunctions
    /// fit an expert.
    pub open spec fn valid(self) -> bool {
        &&& self.batch_size != 0
        &&& self.max_conjunctions != 0
        &&& self.max_conjunction_length != 0
        &&& self.max_conjunction_length <= MAX_LITERALS
        &&& self.stale_layers != 0
        &&& self.max_experts != 0
        &&& self.batch_size <= MAX_BATCH_SIZE
    }
}

#[derive(Debug, Clone, Copy)]
pub struct ConjunctionCapacity {
    pub feature_count: usize,
    pub batch_size: usize,
    pub max_conjunctions: usize,
    pub max_conjunction_length: usize,
    pub max_extensions: usize,
    pub key_words: usize,
}

/// `ceil(n / 64)`.
pub open spec fn words_for(n: int) -> int {
    if n % 64 == 0 { n / 64 } else { n / 64 + 1 }
}

/// Extension-buffer length for a beam: each beam parent can emit two
/// literals per feature.
pub open spec fn extension_capacity(feature_count: int, max_conjunctions: int) -> int {
    max_conjunctions * 2 * (if feature_count >= 1 { feature_count } else { 1 })
}

pub open spec fn key_words_for(feature_count: int) -> int {
    if words_for(feature_count) <= MAX_KEY_WORDS { words_for(feature_count) } else { MAX_KEY_WORDS as int }
}

pub fn derive_conjunction_capacity(feature_count: usize, config: ConjunctionBuildConfig) -> (r:
    ConjunctionCapacity)
    requires
        extension_capacity(feature_count as int, config.max_conjunctions as int) <= usize::MAX,
    ensures
        r.feature_count == feature_count,
        r.batch_size == config.batch_size,
        r.max_conjunctions == config.max_conjunctions,
        r.max_conjunction_length == config.max_conjunction_length,
        r.max_extensions == extension_capacity(feature_count as int, config.max_conjunctions as int),
        r.key_words == key_words_for(feature_count as int),
{
    let features = if feature_count >= 1 { feature_count } else { 1 };
    proof {
        assert(config.max_conjunctions * 2 <= config.max_conjunctions * 2 * features) by (nonlinear_arith)
            requires features >= 1;
    }
    let max_extensions = config.max_conjunctions * 2 * features;
    let words = feature_count / 64 + if feature_count % 64 == 0 { 0 } else { 1 };
    let key_words = if words <= MAX_KEY_WORDS { words } else { MAX_KEY_WORDS };
    ConjunctionCapacity {
        feature_count,
        batch_size: config.batch_size,
        max_conjunctions: config.max_conjunctions,
        max_conjunction_length: config.max_conjunction_length,
        max_extensions,
        key_words,
    }
}

#[derive(Debug, Clone, Copy, PartialEq, Eq, Structural)]
pub enum ConjunctionBuildError {
    InvalidConfig,
    InvalidBatch,
    BatchTooLarge,
    ExpertTooLarge,
}

/// A set of literals: bit `f % 64` of word `f / 64` of `positive` (resp.
/// `negative`) marks the literal `x_f` (resp. `!x_f`).
#[derive(Debug, Clone, Copy, PartialEq, Eq)]
pub struct ConjunctionKey {
    pub positive: [u64; 4],
    pub negative: [u64; 4],
}

/// Lexicographic three-way comparison of `a[i..]` and `b[i..]` (`-1`, `0`, `1`).
pub open spec fn lex_from(a: Seq<u64>, b: Seq<u64>, i: int) -> int
    decreases a.len() - i,
{
    if i >= a.len() || i < 0 {
        0
    } else if a[i] < b[i] {
        -1
    } else if a[i] > b[i] {
        1
    } else {
        lex_from(a, b, i + 1)
    }
}

pub proof fn lemma_lex_antisym(a: Seq<u64>, b: Seq<u64>, i: int)
    requires
        a.len() == b.len(),
        0 <= i,
    ensures
        lex_from(a, b, i) == -lex_from(b, a, i),
    decreases a.len() - i,
{
    if i < a.len() {
        lemma_lex_antisym(a, b, i + 1);
    }
}

pub proof fn lemma_lex_trans(a: Seq<u64>, b: Seq<u64>, c: Seq<u64>, i: int)
    requires
        a.len() == b.len(),
        b.len() == c.len(),
        0 <= i,
        lex_from(a, b, i) <= 0,
        lex_from(b, c, i) <= 0,
    ensures
        lex_from(a, c, i) <= 0,
        lex_from(a, b, i) < 0 || lex_from(b, c, i) < 0 ==> lex_from(a, c, i) < 0,
    decreases a.len() - i,
{
    if i < a.len() {
        if a[i] == b[i] && b[i] == c[i] {
            lemma_lex_trans(a, b, c, i + 1);
        }
    }
}

pub proof fn lemma_lex_eq(a: Seq<u64>, b: Seq<u64>, i: int)
    requires
        a.len() == b.len(),
        0 <= i <= a.len(),
        lex_from(a, b, i) == 0,
    ensures
        a.subrange(i, a.len() as int) == b.subrange(i, b.len() as int),
    decreases a.len() - i,
{
    if i < a.len() {
        lemma_lex_eq(a, b, i + 1);
        assert(a.subrange(i, a.len() as int) =~= seq![a[i]] + a.subrange(i + 1, a.len() as int));
        assert(b.subrange(i, b.len() as int) =~= seq![b[i]] + b.subrange(i + 1, b.len() as int));
    } else {
        assert(a.subrange(i, a.len() as int) =~= b.subrange(i, b.len() as int));
    }
}

pub proof fn lemma_zero_bit(j: u64)
    requires
        j < 64,
    ensures
        !bit_set(0u64, j as int),
{
    assert((0u64 >> j) & 1u64 == 0u64) by (bit_vector);
}

impl ConjunctionKey {
    /// The key with no literal.
    pub fn empty() -> (r: Self)
        ensures
            forall|g: int| !(#[trigger] r.has_pos(g)),
            forall|g: int| !(#[trigger] r.has_neg(g)),
            r.positive@ == seq![0u64, 0u64, 0u64, 0u64],
            r.negative@ == seq![0u64, 0u64, 0u64, 0u64],
    {
        let r = Self { positive: [0u64; 4], negative: [0u64; 4] };
        assert(r.positive@ =~= seq![0u64, 0u64, 0u64, 0u64]);
        assert(r.negative@ =~= seq![0u64, 0u64, 0u64, 0u64]);
        assert forall|g: int| !(#[trigger] r.has_pos(g)) by {
            if 0 <= g < 256 {
                lemma_zero_bit((g % 64) as u64);
            }
        }
        assert forall|g: int| !(#[trigger] r.has_neg(g)) by {
            if 0 <= g < 256 {
                lemma_zero_bit((g % 64) as u64);
            }
        }
        r
    }

    /// The compared words: the first `word_count` positive words, then the
    /// first `word_count` negative words.
    pub open spec fn words(self, word_count: int) -> Seq<u64> {
        self.positive@.subrange(0, word_count) + self.negative@.subrange(0, word_count)
    }

    /// Lexicographic comparison of the compared words.
    pub open spec fn compare(left: Self, right: Self, word_count: int) -> int {
        lex_from(left.words(word_count), right.words(word_count), 0)
    }

    pub open spec fn has_pos(self, f: int) -> bool {
        0 <= f < 256 && bit_set(self.positive@[f / 64], f % 64)
    }

    pub open spec fn has_neg(self, f: int) -> bool {
        0 <= f < 256 && bit_set(self.negative@[f / 64], f % 64)
    }

    /// The key holds a literal on feature `f` within its first `word_count` words.
    pub open spec fn has(self, f: int, word_count: int) -> bool {
        0 <= f && f / 64 < word_count && (self.has_pos(f) || self.has_neg(f))
    }

    /// Number of literals in the first `word_count` words.
    pub open spec fn key_len(self, word_count: int) -> nat
        decreases word_count,
    {
        if word_count <= 0 {
            0
        } else {
            self.key_len(word_count - 1) + popcount(
                self.positive@[word_count - 1] | self.negative@[word_count - 1],
            )
        }
    }

    /// Number of features `f < n` on which the key holds a literal.
    pub open spec fn lits_upto(self, word_count: int, n: int) -> nat
        decreases n,
    {
        if n <= 0 {
            0
        } else {
            self.lits_upto(word_count, n - 1) + if self.has(n - 1, word_count) {
                1nat
            } else {
                0nat
            }
        }
    }

    pub fn cmp_keys(left: Self, right: Self, word_count: usize) -> (r: std::cmp::Ordering)
        requires
            word_count <= MAX_KEY_WORDS,
        ensures
            (r == std::cmp::Ordering::Less) == (Self::key_order(left, right, word_count) < 0),
            (r == std::cmp::Ordering::Equal) == (Self::key_order(left, right, word_count) == 0),
            (r == std::cmp::Ordering::Greater) == (Self::key_order(left, right, word_count) > 0),
    {
        let mut index: usize = 0;
        while index < word_count
            invariant
                word_count <= 4,
                index <= word_count,
                Self::key_order(left, right, word_count) == Self::key_order_from(
                    left,
                    right,
                    word_count,
                    index,
                ),
            decreases word_count - index,
        {
            proof {
                Self::lemma_positive_step(left, right, word_count, index);
            }
            if left.positive[index] < right.positive[index] {
                return std::cmp::Ordering::Less;
            }
            if left.positive[index] > right.positive[index] {
                return std::cmp::Ordering::Greater;
            }
            index = index + 1;
        }
        proof {
            Self::lemma_order_end(left, right, word_count);
        }
        let mut index: usize = 0;
        while index < word_count
            invariant
                word_count <= 4,
                index <= word_count,
                Self::key_order(left, right, word_count) == Self::negative_order_from(
                    left,
                    right,
                    word_count,
                    index,
                ),
            decreases word_count - index,
        {
            proof {
                Self::lemma_negative_step(left, right, word_count, index);
            }
            if left.negative[index] < right.negative[index] {
                return std::cmp::Ordering::Less;
            }
            if left.negative[index] > right.negative[index] {
                return std::cmp::Ordering::Greater;
            }
            index = index + 1;
        }
        proof {
            Self::lemma_order_end(left, right, word_count);
        }
        std::cmp::Ordering::Equal
    }

    /// Order of two keys over their first `word_count` words (`-1`, `0`, `1`).
    pub open spec fn key_order(left: Self, right: Self, word_count: usize) -> int {
        Self::compare(left, right, word_count as int)
    }

    /// Key order is antisymmetric: swapping the keys negates it.
    pub proof fn law_key_order_antisymmetric(left: Self, right: Self, word_count: usize)
        requires
            word_count <= MAX_KEY_WORDS,
        ensures
            Self::key_order(left, right, word_count) == -Self::key_order(right, left, word_count),
    {
        lemma_lex_antisym(left.words(word_count as int), right.words(word_count as int), 0);
    }

    /// Key order is transitive, strictly when either step is strict.
    pub proof fn law_key_order_transitive(a: Self, b: Self, c: Self, word_count: usize)
        requires
            word_count <= MAX_KEY_WORDS,
            Self::key_order(a, b, word_count) <= 0,
            Self::key_order(b, c, word_count) <= 0,
        ensures
            Self::key_order(a, c, word_count) <= 0,
            Self::key_order(a, b, word_count) < 0 || Self::key_order(b, c, word_count) < 0 ==> Self::key_order(a, c, word_count) < 0,
    {
        lemma_lex_trans(a.words(word_count as int), b.words(word_count as int), c.words(word_count as int), 0);
    }

    /// Keys equal in order have the same compared words.
    pub proof fn law_key_order_equal(left: Self, right: Self, word_count: usize)
        requires
            word_count <= MAX_KEY_WORDS,
            Self::key_order(left, right, word_count) == 0,
        ensures
            left.words(word_count as int) == right.words(word_count as int),
    {
        let a = left.words(word_count as int);
        let b = right.words(word_count as int);
        lemma_lex_eq(a, b, 0);
        assert(a.subrange(0, a.len() as int) =~= a);
        assert(b.subrange(0, b.len() as int) =~= b);
    }

    pub open spec fn key_order_from(left: Self, right: Self, word_count: usize, i: usize) -> int {
        lex_from(left.words(word_count as int), right.words(word_count as int), i as int)
    }

    proof fn lemma_positive_step(left: Self, right: Self, word_count: usize, i: usize)
        requires
            i < word_count <= 4,
        ensures
            Self::key_order_from(left, right, word_count, i) == if left.positive@[i as int]
                < right.positive@[i as int] {
                -1
            } else if left.positive@[i as int] > right.positive@[i as int] {
                1
            } else {
                Self::key_order_from(left, right, word_count, (i + 1) as usize)
            },
    {
        let a = left.words(word_count as int);
        let b = right.words(word_count as int);
        assert(a[i as int] == left.positive@[i as int]);
        assert(b[i as int] == right.positive@[i as int]);
    }

    pub open spec fn negative_order_from(left: Self, right: Self, word_count: usize, i: usize) -> int {
        lex_from(left.words(word_count as int), right.words(word_count as int), word_count + i)
    }

    proof fn lemma_negative_step(left: Self, right: Self, word_count: usize, i: usize)
        requires
            i < word_count <= 4,
        ensures
            Self::negative_order_from(left, right, word_count, i) == if left.negative@[i as int]
                < right.negative@[i as int] {
                -1
            } else if left.negative@[i as int] > right.negative@[i as int] {
                1
            } else {
                Self::negative_order_from(left, right, word_count, (i + 1) as usize)
            },
    {
        let a = left.words(word_count as int);
        let b = right.words(word_count as int);
        assert(a[word_count + i] == left.negative@[i as int]);
        assert(b[word_count + i] == right.negative@[i as int]);
    }

    proof fn lemma_order_end(left: Self, right: Self, word_count: usize)
        requires
            word_count <= 4,
        ensures
            Self::key_order_from(left, right, word_count, word_count) == Self::negative_order_from(left, right, word_count, 0),
            Self::negative_order_from(left, right, word_count, word_count) == 0,
    {
    }

    pub fn contains(&self, feature_index: usize, word_count: usize) -> (r: bool)
        requires
            word_count <= MAX_KEY_WORDS || feature_index < 64 * MAX_KEY_WORDS,
        ensures
            r == self.has(feature_index as int, word_count as int),
    {
        let word = feature_index / 64;
        if word >= word_count {
            return false;
        }
        let shift = (feature_index % 64) as u64;
        proof {
            lemma_mask_test(self.positive@[word as int], self.negative@[word as int], shift);
        }
        let mask = 1u64 << shift;
        (self.positive[word] | self.negative[word]) & mask != 0
    }

    pub fn len(&self, word_count: usize) -> (r: usize)
        requires
            word_count <= MAX_KEY_WORDS,
        ensures
            r == self.key_len(word_count as int),
            r <= 64 * word_count,
    {
        let mut total: usize = 0;
        let mut word: usize = 0;
        while word < word_count
            invariant
                word_count <= 4,
                word <= word_count,
                total == self.key_len(word as int),
                total <= 64 * word,
            decreases word_count - word,
        {
            let ones = count_ones_u64(self.positive[word] | self.negative[word]);
            proof {
                lemma_bits_upto_bound(self.positive@[word as int] | self.negative@[word as int], 64);
            }
            total = total + ones as usize;
            word = word + 1;
        }
        total
    }

    pub fn with_literal(&self, feature_index: usize, negated: bool, word_count: usize) -> (r:
        Option<Self>)
        requires
            word_count <= MAX_KEY_WORDS || feature_index < 64 * MAX_KEY_WORDS,
        ensures
            r is None <==> (self.has(feature_index as int, word_count as int) || feature_index / 64
                >= word_count),
            r matches Some(key) ==> {
                &&& forall|g: int| #[trigger]
                    key.has_pos(g) == (self.has_pos(g) || (g == feature_index && !negated))
                &&& forall|g: int| #[trigger]
                    key.has_neg(g) == (self.has_neg(g) || (g == feature_index && negated))
            },
    {
        if self.contains(feature_index, word_count) {
            return None;
        }
        let word = feature_index / 64;
        if word >= word_count {
            return None;
        }
        let shift = (feature_index % 64) as u64;
        let mask = 1u64 << shift;
        let mut key = *self;
        if negated {
            key.negative[word] = key.negative[word] | mask;
        } else {
            key.positive[word] = key.positive[word] | mask;
        }
        proof {
            assert forall|g: int| #[trigger]
                key.has_pos(g) == (self.has_pos(g) || (g == feature_index && !negated)) by {
                if 0 <= g < 256 {
                    if g / 64 == word && !negated {
                        lemma_set_bit(self.positive@[word as int], shift, (g % 64) as u64);
                    }
                }
            }
            assert forall|g: int| #[trigger]
                key.has_neg(g) == (self.has_neg(g) || (g == feature_index && negated)) by {
                if 0 <= g < 256 {
                    if g / 64 == word && negated {
                        lemma_set_bit(self.negative@[word as int], shift, (g % 64) as u64);
                    }
                }
            }
        }
        Some(key)
    }
}


/// A scored conjunction in one depth of the beam; its column is stored at
/// `column_slot` of that depth.
#[derive(Debug, Clone, Copy)]
pub struct BeamEntry {
    pub key: ConjunctionKey,
    pub abs_assoc: i64,
    pub accuracy: u8,
    pub column_slot: usize,
}

/// A scored one-literal extension of a beam parent.
#[derive(Debug, Clone, Copy)]
pub struct ExtensionCandidate {
    pub key: ConjunctionKey,
    pub abs_assoc: i64,
    pub accuracy: u8,
    pub parent_slot: u16,
    pub literal_index: u16,
}

/// Three-way comparison of two integers.
pub open spec fn sign3(a: int, b: int) -> int {
    if a < b { -1 } else if a > b { 1 } else { 0 }
}

/// Winner order of beam entries: higher accuracy, then higher association,
/// then the smaller key.
pub open spec fn beam_order(left: BeamEntry, right: BeamEntry) -> int {
    if left.accuracy != right.accuracy {
        sign3(left.accuracy as int, right.accuracy as int)
    } else if left.abs_assoc != right.abs_assoc {
        sign3(left.abs_assoc as int, right.abs_assoc as int)
    } else {
        -ConjunctionKey::compare(left.key, right.key, MAX_KEY_WORDS as int)
    }
}

/// Pruning order of extensions: higher association, then higher accuracy,
/// then the larger key (positive when `left` ranks before `right`).
pub open spec fn prune_order(left: ExtensionCandidate, right: ExtensionCandidate, word_count: int) -> int {
    if left.abs_assoc != right.abs_assoc {
        sign3(left.abs_assoc as int, right.abs_assoc as int)
    } else if left.accuracy != right.accuracy {
        sign3(left.accuracy as int, right.accuracy as int)
    } else {
        ConjunctionKey::compare(left.key, right.key, word_count)
    }
}

/// `left` scores at least as well as `right`: higher association, or equal
/// association and at least the accuracy.
pub open spec fn scores_at_least(left: ExtensionCandidate, right: ExtensionCandidate) -> bool {
    left.abs_assoc > right.abs_assoc || (left.abs_assoc == right.abs_assoc && left.accuracy
        >= right.accuracy)
}

pub proof fn lemma_compare_antisym(a: ConjunctionKey, b: ConjunctionKey, word_count: int)
    requires
        0 <= word_count <= 4,
    ensures
        ConjunctionKey::compare(a, b, word_count) == -ConjunctionKey::compare(b, a, word_count),
{
    lemma_lex_antisym(a.words(word_count), b.words(word_count), 0);
}

pub proof fn lemma_compare_trans(a: ConjunctionKey, b: ConjunctionKey, c: ConjunctionKey, word_count: int)
    requires
        0 <= word_count <= 4,
        ConjunctionKey::compare(a, b, word_count) <= 0,
        ConjunctionKey::compare(b, c, word_count) <= 0,
    ensures
        ConjunctionKey::compare(a, c, word_count) <= 0,
{
    lemma_lex_trans(a.words(word_count), b.words(word_count), c.words(word_count), 0);
}

/// Keys that compare equal have the same compared words.
pub proof fn lemma_compare_eq(a: ConjunctionKey, b: ConjunctionKey, word_count: int)
    requires
        0 <= word_count <= 4,
        ConjunctionKey::compare(a, b, word_count) == 0,
    ensures
        a.words(word_count) == b.words(word_count),
{
    lemma_lex_eq(a.words(word_count), b.words(word_count), 0);
    assert(a.words(word_count) =~= a.words(word_count).subrange(0, 2 * word_count));
    assert(b.words(word_count) =~= b.words(word_count).subrange(0, 2 * word_count));
}

pub proof fn lemma_compare_refl(a: ConjunctionKey, word_count: int)
    requires
        0 <= word_count <= 4,
    ensures
        ConjunctionKey::compare(a, a, word_count) == 0,
{
    lemma_compare_antisym(a, a, word_count);
}

pub proof fn lemma_prune_antisym(a: ExtensionCandidate, b: ExtensionCandidate, word_count: int)
    requires
        0 <= word_count <= 4,
    ensures
        prune_order(a, b, word_count) == -prune_order(b, a, word_count),
{
    lemma_compare_antisym(a.key, b.key, word_count);
}

pub proof fn lemma_prune_trans(a: ExtensionCandidate, b: ExtensionCandidate, c: ExtensionCandidate, word_count: int)
    requires
        0 <= word_count <= 4,
        prune_order(a, b, word_count) >= 0,
        prune_order(b, c, word_count) >= 0,
    ensures
        prune_order(a, c, word_count) >= 0,
{
    if a.abs_assoc == b.abs_assoc && b.abs_assoc == c.abs_assoc && a.accuracy == b.accuracy
        && b.accuracy == c.accuracy {
        lemma_compare_antisym(a.key, b.key, word_count);
        lemma_compare_antisym(b.key, c.key, word_count);
        lemma_compare_antisym(a.key, c.key, word_count);
        lemma_compare_trans(c.key, b.key, a.key, word_count);
    }
}

pub proof fn lemma_beam_antisym(a: BeamEntry, b: BeamEntry)
    ensures
        beam_order(a, b) == -beam_order(b, a),
{
    lemma_compare_antisym(a.key, b.key, 4);
}

pub proof fn lemma_beam_trans(a: BeamEntry, b: BeamEntry, c: BeamEntry)
    requires
        beam_order(a, b) >= 0,
        beam_order(b, c) >= 0,
    ensures
        beam_order(a, c) >= 0,
{
    if a.accuracy == b.accuracy && b.accuracy == c.accuracy && a.abs_assoc == b.abs_assoc
        && b.abs_assoc == c.abs_assoc {
        lemma_compare_trans(a.key, b.key, c.key, 4);
    }
}

/// `values` has more than one entry and they are all equal.
pub open spec fn constant_column(column: Seq<bool>) -> bool {
    column.len() > 1 && forall|i: int| 0 <= i < column.len() ==> #[trigger] column[i] == column[0]
}

pub fn validate_build_config(config: ConjunctionBuildConfig) -> (r: Result<(), ConjunctionBuildError>)
    ensures
        r is Ok <==> config.valid(),
        r is Err ==> r == Err::<(), ConjunctionBuildError>(ConjunctionBuildError::InvalidConfig),
{
    if config.batch_size == 0 || config.max_conjunctions == 0 || config.max_conjunction_length == 0
        || config.max_conjunction_length > MAX_LITERALS || config.stale_layers == 0
        || config.max_experts == 0 || config.batch_size > MAX_BATCH_SIZE {
        return Err(ConjunctionBuildError::InvalidConfig);
    }
    Ok(())
}

pub fn is_constant_column(column: &[bool]) -> (r: bool)
    ensures
        r == constant_column(column@),
{
    if column.len() <= 1 {
        return false;
    }
    let first = column[0];
    let mut i: usize = 1;
    while i < column.len()
        invariant
            1 <= i <= column.len(),
            first == column@[0],
            forall|k: int| 0 <= k < i ==> column@[k] == first,
        decreases column.len() - i,
    {
        if column[i] != first {
            return false;
        }
        i = i + 1;
    }
    true
}

/// Number of positions (over the common prefix) where `values` matches `signs`.
pub fn correct_count(values: &[bool], signs: &[bool]) -> (r: u8)
    requires
        count_eq_upto(values@, signs@, min_len(values@, signs@)) <= 255,
    ensures
        r == count_eq_upto(values@, signs@, min_len(values@, signs@)),
{
    let common = if values.len() <= signs.len() { values.len() } else { signs.len() };
    let mut count: u8 = 0;
    let mut i: usize = 0;
    while i < common
        invariant
            common == min_len(values@, signs@),
            common <= values.len(),
            common <= signs.len(),
            i <= common,
            count == count_eq_upto(values@, signs@, i as int),
            count_eq_upto(values@, signs@, common as int) <= 255,
        decreases common - i,
    {
        proof {
            lemma_count_eq_upto_mono(values@, signs@, i + 1, common as int);
        }
        if values[i] == signs[i] {
            count = count + 1;
        }
        i = i + 1;
    }
    count
}

pub proof fn lemma_count_eq_upto_mono(a: Seq<bool>, b: Seq<bool>, n: int, m: int)
    requires
        0 <= n <= m,
    ensures
        count_eq_upto(a, b, n) <= count_eq_upto(a, b, m),
    decreases m - n,
{
    if n < m {
        lemma_count_eq_upto_mono(a, b, n, m - 1);
    }
}

/// The batch holds `batch_size` labels, at least one feature, and every
/// feature column holds `batch_size` rows.
pub open spec fn batch_valid(batch: SignBatch, batch_size: int) -> bool {
    &&& batch.signs@.len() == batch_size
    &&& batch.spec_feature_count() != 0
    &&& batch.columns_have_len(batch_size)
}

pub fn validate_batch(batch: SignBatch<'_>, batch_size: usize) -> (r: Result<(), ConjunctionBuildError>)
    requires
        batch.wf(),
    ensures
        r is Ok <==> batch_valid(batch, batch_size as int),
        r is Err ==> r == Err::<(), ConjunctionBuildError>(ConjunctionBuildError::InvalidBatch),
{
    if batch.signs.len() != batch_size || batch.feature_count() == 0 {
        return Err(ConjunctionBuildError::InvalidBatch);
    }
    let count = batch.feature_count();
    let mut index: usize = 0;
    while index < count
        invariant
            batch.wf(),
            count == batch.spec_feature_count(),
            index <= count,
            forall|i: int|
                0 <= i < index ==> (#[trigger] batch.spec_column(i)) is Some && batch.col(i).len()
                    == batch_size,
        decreases count - index,
    {
        match batch.column(index) {
            None => {
                return Err(ConjunctionBuildError::InvalidBatch);
            },
            Some(column) => {
                if column.len() != batch_size {
                    return Err(ConjunctionBuildError::InvalidBatch);
                }
            },
        }
        index = index + 1;
    }
    Ok(())
}

/// Row count of a batch: the length of its first column, or 0.
pub open spec fn first_column_len(batch: SignBatch) -> int {
    match batch.spec_column(0) {
        Some(c) => c.len() as int,
        None => 0,
    }
}

pub fn validate_feature_batch(batch: SignBatch<'_>) -> (r: Result<(), ConjunctionBuildError>)
    requires
        batch.wf(),
    ensures
        r is Ok <==> (first_column_len(batch) != 0 && batch.columns_have_len(first_column_len(batch))),
        r is Err ==> r == Err::<(), ConjunctionBuildError>(ConjunctionBuildError::InvalidBatch),
{
    let batch_size = match batch.column(0) {
        Some(column) => column.len(),
        None => 0,
    };
    if batch_size == 0 {
        return Err(ConjunctionBuildError::InvalidBatch);
    }
    let count = batch.feature_count();
    let mut index: usize = 0;
    while index < count
        invariant
            batch.wf(),
            count == batch.spec_feature_count(),
            batch_size == first_column_len(batch),
            index <= count,
            forall|i: int|
                0 <= i < index ==> (#[trigger] batch.spec_column(i)) is Some && batch.col(i).len()
                    == batch_size,
        decreases count - index,
    {
        match batch.column(index) {
            None => {
                return Err(ConjunctionBuildError::InvalidBatch);
            },
            Some(column) => {
                if column.len() != batch_size {
                    return Err(ConjunctionBuildError::InvalidBatch);
                }
            },
        }
        index = index + 1;
    }
    Ok(())
}

/// Accuracy implied by the counts: rows where both are set plus rows where
/// neither is set.
pub open spec fn implied_accuracy(values: Seq<bool>, signs: Seq<bool>, ny: int) -> int {
    signs.len() - count_true_upto(values, min_len(values, signs)) - ny + 2 * count_and_upto(
        values,
        signs,
        min_len(values, signs),
    )
}

/// Absolute association and accuracy of a column against the labels, given
/// the number `ny` of set labels.
pub fn score_column(values: &[bool], signs: &[bool], ny: i64) -> (r: (i64, u8))
    requires
        signs.len() <= 255,
        -0x1_0000_0000 <= ny <= 0x1_0000_0000,
        0 <= implied_accuracy(values@, signs@, ny as int) <= 255,
    ensures
        r.0 == abs_int(
            signs.len() * count_and_upto(values@, signs@, min_len(values@, signs@)) - count_true_upto(
                values@,
                min_len(values@, signs@),
            ) * ny,
        ),
        r.1 == implied_accuracy(values@, signs@, ny as int),
{
    let batch_size = signs.len() as i64;
    let common = if values.len() <= signs.len() { values.len() } else { signs.len() };
    let mut nz: i64 = 0;
    let mut nyz: i64 = 0;
    let mut i: usize = 0;
    while i < common
        invariant
            common == min_len(values@, signs@),
            common <= values.len(),
            common <= signs.len(),
            signs.len() <= 255,
            i <= common,
            nz == count_true_upto(values@, i as int),
            nyz == count_and_upto(values@, signs@, i as int),
        decreases common - i,
    {
        proof {
            lemma_count_true_upto_bound(values@, i as int);
            lemma_count_and_upto_bound(values@, signs@, i as int);
        }
        if values[i] {
            nz = nz + 1;
            if signs[i] {
                nyz = nyz + 1;
            }
        }
        i = i + 1;
    }
    proof {
        lemma_count_true_upto_bound(values@, common as int);
        lemma_count_and_upto_bound(values@, signs@, common as int);
        assert(-0x1_0000_0000 * 255 <= nz * ny <= 0x1_0000_0000 * 255) by (nonlinear_arith)
            requires
                0 <= nz <= 255,
                -0x1_0000_0000 <= ny <= 0x1_0000_0000;
        assert(0 <= batch_size * nyz <= 255 * 255) by (nonlinear_arith)
            requires
                0 <= batch_size <= 255,
                0 <= nyz <= 255;
    }
    let assoc = batch_size * nyz - nz * ny;
    let abs_assoc = if assoc < 0 { -assoc } else { assoc };
    let accuracy = (batch_size - nz - ny + 2 * nyz) as u8;
    (abs_assoc, accuracy)
}

/// With the true label count, the implied accuracy is the number of rows
/// where the column matches the labels.
pub proof fn lemma_implied_accuracy(values: Seq<bool>, signs: Seq<bool>)
    requires
        values.len() == signs.len(),
    ensures
        implied_accuracy(values, signs, count_true(signs) as int) == count_eq_upto(
            values,
            signs,
            values.len() as int,
        ),
{
    lemma_accuracy_upto(values, signs, values.len() as int);
}

proof fn lemma_accuracy_upto(values: Seq<bool>, signs: Seq<bool>, n: int)
    requires
        0 <= n,
    ensures
        n - count_true_upto(values, n) - count_true_upto(signs, n) + 2 * count_and_upto(values, signs, n)
            == count_eq_upto(values, signs, n),
    decreases n,
{
    if n > 0 {
        lemma_accuracy_upto(values, signs, n - 1);
    }
}


/// Whether `left` orders strictly before `right` over the first `word_count` words.
pub fn key_precedes(left: &ConjunctionKey, right: &ConjunctionKey, word_count: usize) -> (r: bool)
    requires
        word_count <= MAX_KEY_WORDS,
    ensures
        r == (ConjunctionKey::key_order(*left, *right, word_count) < 0),
{
    match ConjunctionKey::cmp_keys(*left, *right, word_count) {
        std::cmp::Ordering::Less => true,
        _ => false,
    }
}

/// Whether the keys compare equal over the first `word_count` words.
pub fn key_equal(left: &ConjunctionKey, right: &ConjunctionKey, word_count: usize) -> (r: bool)
    requires
        word_count <= MAX_KEY_WORDS,
    ensures
        r == (ConjunctionKey::key_order(*left, *right, word_count) == 0),
{
    match ConjunctionKey::cmp_keys(*left, *right, word_count) {
        std::cmp::Ordering::Equal => true,
        _ => false,
    }
}

/// Key order of the extensions that `order[a]` and `order[b]` point to.
pub open spec fn order_key_rank(extensions: Seq<ExtensionCandidate>, order: Seq<usize>, a: int, b: int, word_count: int) -> int {
    ConjunctionKey::compare(extensions[order[a] as int].key, extensions[order[b] as int].key, word_count)
}

/// Sorts `order[..count]` by the keys of the extensions it points to.
pub fn sort_extension_indices(
    extensions: &[ExtensionCandidate],
    order: &mut [usize],
    count: usize,
    word_count: usize,
)
    requires
        count <= old(order)@.len(),
        word_count <= MAX_KEY_WORDS,
        forall|i: int| 0 <= i < count ==> #[trigger] old(order)@[i] < extensions@.len(),
    ensures
        final(order)@.len() == old(order)@.len(),
        final(order)@.subrange(0, count as int).to_multiset() == old(order)@.subrange(0, count as int).to_multiset(),
        final(order)@.subrange(count as int, final(order)@.len() as int) == old(order)@.subrange(count as int, old(order)@.len() as int),
        forall|i: int| 0 <= i < count ==> #[trigger] final(order)@[i] < extensions@.len(),
        forall|a: int, b: int|
            0 <= a < b < count ==> order_key_rank(extensions@, final(order)@, a, b, word_count as int) <= 0,
{
    let ghost initial = order@;
    let ghost wc = word_count as int;
    let mut i: usize = 1;
    while i < count
        invariant
            1 <= i,
            count <= order@.len(),
            order@.len() == initial.len(),
            word_count <= 4,
            wc == word_count,
            order@.subrange(0, count as int).to_multiset() == initial.subrange(0, count as int).to_multiset(),
            order@.subrange(count as int, order@.len() as int) == initial.subrange(count as int, initial.len() as int),
            forall|k: int| 0 <= k < count ==> #[trigger] order@[k] < extensions@.len(),
            forall|a: int, b: int|
                0 <= a < b < i && b < count ==> order_key_rank(extensions@, order@, a, b, wc) <= 0,
        decreases count - i,
    {
        let mut j: usize = i;
        while j > 0 && key_precedes(&extensions[order[j]].key, &extensions[order[j - 1]].key, word_count)
            invariant
                j <= i < count,
                count <= order@.len(),
                order@.len() == initial.len(),
                word_count <= 4,
                wc == word_count,
                order@.subrange(0, count as int).to_multiset() == initial.subrange(0, count as int).to_multiset(),
                order@.subrange(count as int, order@.len() as int) == initial.subrange(count as int, initial.len() as int),
                forall|k: int| 0 <= k < count ==> #[trigger] order@[k] < extensions@.len(),
                forall|a: int, b: int|
                    0 <= a < b <= i && a != j && b != j ==> order_key_rank(extensions@, order@, a, b, wc) <= 0,
                forall|b: int| j < b <= i ==> order_key_rank(extensions@, order@, j as int, b, wc) < 0,
            decreases j,
        {
            let ghost before = order@;
            proof {
                lemma_swap_prefix(before, j - 1, j as int, count as int);
                lemma_compare_antisym(extensions@[before[j - 1] as int].key, extensions@[before[j as int] as int].key, wc);
            }
            let tmp = order[j];
            order[j] = order[j - 1];
            order[j - 1] = tmp;
            assert(order@ == swapped(before, j - 1, j as int));
            proof {
                let jm: int = j - 1;
                let jj: int = j as int;
                assert forall|b: int| jm < b <= i implies #[trigger] order_key_rank(extensions@, order@, jm, b, wc) < 0 by {
                    if b > jj {
                        assert(order_key_rank(extensions@, before, jj, b, wc) < 0);
                    }
                }
                assert forall|a: int, b: int|
                    0 <= a < b <= i && a != jm && b != jm implies #[trigger] order_key_rank(extensions@, order@, a, b, wc) <= 0 by {
                    let a0 = if a == jj { jm } else { a };
                    let b0 = if b == jj { jm } else { b };
                    assert(order@[a] == before[a0]);
                    assert(order@[b] == before[b0]);
                    assert(order_key_rank(extensions@, before, a0, b0, wc) <= 0);
                }
            }
            j = j - 1;
        }
        proof {
            assert forall|a: int, b: int|
                0 <= a < b < i + 1 && b < count implies order_key_rank(extensions@, order@, a, b, wc) <= 0 by {
                if b == j && a < j {
                    let ka = extensions@[order@[a] as int].key;
                    let kp = extensions@[order@[j - 1] as int].key;
                    let kj = extensions@[order@[j as int] as int].key;
                    if a < j - 1 {
                        assert(order_key_rank(extensions@, order@, a, j - 1, wc) <= 0);
                    }
                    lemma_compare_antisym(kj, kp, wc);
                    if a < j - 1 {
                        lemma_compare_trans(ka, kp, kj, wc);
                    }
                } else if a == j && b > j {
                } else {
                }
            }
        }
        i = i + 1;
    }
}

/// Sorts `extensions[..count]` by descending association, then accuracy,
/// then key, and returns how many survive the beam width.
pub fn prune_extensions(
    extensions: &mut [ExtensionCandidate],
    count: usize,
    max_conjunctions: usize,
    word_count: usize,
) -> (r: usize)
    requires
        count <= old(extensions)@.len(),
        word_count <= MAX_KEY_WORDS,
    ensures
        r == if count <= max_conjunctions { count } else { max_conjunctions },
        final(extensions)@.len() == old(extensions)@.len(),
        final(extensions)@.subrange(0, count as int).to_multiset() == old(extensions)@.subrange(0, count as int).to_multiset(),
        final(extensions)@.subrange(count as int, final(extensions)@.len() as int) == old(extensions)@.subrange(count as int, old(extensions)@.len() as int),
        forall|a: int, b: int|
            0 <= a < b < count ==> prune_order(final(extensions)@[a], final(extensions)@[b], word_count as int) >= 0,
{
    let ghost initial = extensions@;
    let ghost wc = word_count as int;
    let mut i: usize = 1;
    while i < count
        invariant
            1 <= i,
            count <= extensions@.len(),
            extensions@.len() == initial.len(),
            word_count <= 4,
            wc == word_count,
            extensions@.subrange(0, count as int).to_multiset() == initial.subrange(0, count as int).to_multiset(),
            extensions@.subrange(count as int, extensions@.len() as int) == initial.subrange(count as int, initial.len() as int),
            forall|a: int, b: int|
                0 <= a < b < i && b < count ==> prune_order(extensions@[a], extensions@[b], wc) >= 0,
        decreases count - i,
    {
        let mut j: usize = i;
        while j > 0 && ranks_after(&extensions[j - 1], &extensions[j], word_count)
            invariant
                j <= i < count,
                count <= extensions@.len(),
                extensions@.len() == initial.len(),
                word_count <= 4,
                wc == word_count,
                extensions@.subrange(0, count as int).to_multiset() == initial.subrange(0, count as int).to_multiset(),
                extensions@.subrange(count as int, extensions@.len() as int) == initial.subrange(count as int, initial.len() as int),
                forall|a: int, b: int|
                    0 <= a < b <= i && a != j && b != j ==> prune_order(extensions@[a], extensions@[b], wc) >= 0,
                forall|b: int| j < b <= i ==> prune_order(extensions@[j as int], extensions@[b], wc) > 0,
            decreases j,
        {
            let ghost before = extensions@;
            proof {
                lemma_swap_prefix(before, j - 1, j as int, count as int);
                lemma_prune_antisym(before[j - 1], before[j as int], wc);
            }
            let tmp = extensions[j];
            extensions[j] = extensions[j - 1];
            extensions[j - 1] = tmp;
            assert(extensions@ == swapped(before, j - 1, j as int));
            proof {
                let jm: int = j - 1;
                let jj: int = j as int;
                assert forall|b: int| jm < b <= i implies prune_order(extensions@[jm], #[trigger] extensions@[b], wc) > 0 by {
                    if b > jj {
                        assert(prune_order(before[jj], before[b], wc) > 0);
                    }
                }
                assert forall|a: int, b: int|
                    0 <= a < b <= i && a != jm && b != jm implies prune_order(#[trigger] extensions@[a], #[trigger] extensions@[b], wc) >= 0 by {
                    let a0 = if a == jj { jm } else { a };
                    let b0 = if b == jj { jm } else { b };
                    assert(extensions@[a] == before[a0]);
                    assert(extensions@[b] == before[b0]);
                    assert(prune_order(before[a0], before[b0], wc) >= 0);
                }
            }
            j = j - 1;
        }
        proof {
            assert forall|a: int, b: int|
                0 <= a < b < i + 1 && b < count implies prune_order(extensions@[a], extensions@[b], wc) >= 0 by {
                if b == j && a < j {
                    lemma_prune_antisym(extensions@[j - 1], extensions@[j as int], wc);
                    if a < j - 1 {
                        lemma_prune_trans(extensions@[a], extensions@[j - 1], extensions@[j as int], wc);
                    }
                } else if a == j && b > j {
                    lemma_prune_antisym(extensions@[j as int], extensions@[b], wc);
                }
            }
        }
        i = i + 1;
    }
    if count <= max_conjunctions {
        count
    } else {
        max_conjunctions
    }
}

/// Whether `left` ranks strictly after `right` in pruning order.
fn ranks_after(left: &ExtensionCandidate, right: &ExtensionCandidate, word_count: usize) -> (r: bool)
    requires
        word_count <= MAX_KEY_WORDS,
    ensures
        r == (prune_order(*left, *right, word_count as int) < 0),
{
    if left.abs_assoc != right.abs_assoc {
        left.abs_assoc < right.abs_assoc
    } else if left.accuracy != right.accuracy {
        left.accuracy < right.accuracy
    } else {
        key_precedes(&left.key, &right.key, word_count)
    }
}

/// Whether `left` wins over or ties with `right` in winner order.
pub(crate) fn beam_at_least(left: &BeamEntry, right: &BeamEntry) -> (r: bool)
    ensures
        r == (beam_order(*left, *right) >= 0),
{
    if left.accuracy != right.accuracy {
        left.accuracy > right.accuracy
    } else if left.abs_assoc != right.abs_assoc {
        left.abs_assoc > right.abs_assoc
    } else {
        proof {
            lemma_compare_antisym(left.key, right.key, 4);
        }
        !key_precedes(&right.key, &left.key, MAX_KEY_WORDS)
    }
}

/// The best entry of `beam[..beam_len]` in winner order; the last one among
/// entries that tie.
pub fn pick_winner(beam: &[BeamEntry], beam_len: usize) -> (r: BeamEntry)
    requires
        1 <= beam_len <= beam@.len(),
    ensures
        exists|k: int|
            0 <= k < beam_len && r == beam@[k] && (forall|j: int|
                k < j < beam_len ==> beam_order(#[trigger] beam@[j], r) < 0),
        forall|j: int| 0 <= j < beam_len ==> beam_order(#[trigger] beam@[j], r) <= 0,
{
    let mut best = beam[0];
    let ghost mut best_index: int = 0;
    proof {
        lemma_compare_refl(best.key, 4);
    }
    let mut i: usize = 1;
    while i < beam_len
        invariant
            1 <= i <= beam_len <= beam@.len(),
            0 <= best_index < i,
            best == beam@[best_index],
            forall|j: int| best_index < j < i ==> beam_order(#[trigger] beam@[j], best) < 0,
            forall|j: int| 0 <= j < i ==> beam_order(#[trigger] beam@[j], best) <= 0,
        decreases beam_len - i,
    {
        if beam_at_least(&beam[i], &best) {
            proof {
                assert forall|j: int| 0 <= j < i + 1 implies beam_order(#[trigger] beam@[j], beam@[i as int]) <= 0 by {
                    lemma_beam_antisym(beam@[i as int], best);
                    lemma_beam_antisym(beam@[j], best);
                    lemma_beam_antisym(beam@[j], beam@[i as int]);
                    if j < i {
                        lemma_beam_trans(beam@[i as int], best, beam@[j]);
                    } else {
                        lemma_compare_refl(beam@[j].key, 4);
                    }
                }
                best_index = i as int;
            }
            best = beam[i];
        } else {
            proof {
                lemma_beam_antisym(beam@[i as int], best);
            }
        }
        i = i + 1;
    }
    best
}

/// `x` is one of the extensions that `order[..count]` points to.
pub open spec fn drawn_from(extensions: Seq<ExtensionCandidate>, order: Seq<usize>, count: int, x: ExtensionCandidate) -> bool {
    exists|i: int| 0 <= i < count && x == extensions[#[trigger] order[i] as int]
}

/// Some survivor among `dedup[..out]` has the key of `e` and scores at least as well.
pub open spec fn represented(dedup: Seq<ExtensionCandidate>, out: int, e: ExtensionCandidate, word_count: int) -> bool {
    exists|j: int|
        0 <= j < out && ConjunctionKey::compare(#[trigger] dedup[j].key, e.key, word_count) == 0
            && scores_at_least(dedup[j], e)
}

/// Keeps, for each run of equal keys in `order[..count]`, the extension with
/// the highest association (then accuracy; the first on a tie), writing the
/// survivors to `dedup` and returning their number.
pub fn dedup_extensions(
    extensions: &[ExtensionCandidate],
    order: &[usize],
    count: usize,
    dedup: &mut [ExtensionCandidate],
    word_count: usize,
) -> (r: usize)
    requires
        count <= order@.len(),
        count <= old(dedup)@.len(),
        word_count <= MAX_KEY_WORDS,
        forall|i: int| 0 <= i < count ==> #[trigger] order@[i] < extensions@.len(),
    ensures
        r <= count,
        count > 0 ==> r > 0,
        final(dedup)@.len() == old(dedup)@.len(),
        forall|j: int| r <= j < final(dedup)@.len() ==> #[trigger] final(dedup)@[j] == old(dedup)@[j],
        forall|j: int|
            0 <= j < r ==> drawn_from(extensions@, order@, count as int, #[trigger] final(dedup)@[j]),
        forall|i: int|
            0 <= i < count ==> represented(
                final(dedup)@,
                r as int,
                #[trigger] extensions@[order@[i] as int],
                word_count as int,
            ),
        forall|j: int|
            0 <= j && j + 1 < r ==> ConjunctionKey::compare(
                #[trigger] final(dedup)@[j].key,
                final(dedup)@[j + 1].key,
                word_count as int,
            ) != 0,
{
    let ghost wc = word_count as int;
    let ghost old_dedup = dedup@;
    let mut out: usize = 0;
    let mut index: usize = 0;
    while index < count
        invariant
            count <= order@.len(),
            count <= dedup@.len(),
            dedup@.len() == old_dedup.len(),
            word_count <= 4,
            wc == word_count,
            forall|i: int| 0 <= i < count ==> #[trigger] order@[i] < extensions@.len(),
            out <= index <= count,
            index > 0 ==> out > 0,
            forall|j: int| out <= j < dedup@.len() ==> #[trigger] dedup@[j] == old_dedup[j],
            forall|j: int|
                0 <= j < out ==> drawn_from(extensions@, order@, count as int, #[trigger] dedup@[j]),
            forall|i: int|
                0 <= i < index ==> represented(dedup@, out as int, #[trigger] extensions@[order@[i] as int], wc),
            forall|j: int|
                0 <= j && j + 1 < out ==> ConjunctionKey::compare(
                    #[trigger] dedup@[j].key,
                    dedup@[j + 1].key,
                    wc,
                ) != 0,
            out > 0 && index < count ==> ConjunctionKey::compare(
                dedup@[out - 1].key,
                extensions@[order@[index as int] as int].key,
                wc,
            ) != 0,
        decreases count - index,
    {
        let first = order[index];
        let mut best = extensions[first];
        let ghost run_key = best.key;
        let ghost mut best_pos: int = index as int;
        proof {
            lemma_compare_refl(run_key, wc);
        }
        let mut next = index + 1;
        while next < count && key_equal(&extensions[order[next]].key, &best.key, word_count)
            invariant
                index < next <= count,
                count <= order@.len(),
                word_count <= 4,
                wc == word_count,
                forall|i: int| 0 <= i < count ==> #[trigger] order@[i] < extensions@.len(),
                index <= best_pos < next,
                best == extensions@[order@[best_pos] as int],
                ConjunctionKey::compare(best.key, run_key, wc) == 0,
                forall|i: int|
                    index <= i < next ==> ConjunctionKey::compare(
                        best.key,
                        #[trigger] extensions@[order@[i] as int].key,
                        wc,
                    ) == 0 && scores_at_least(best, extensions@[order@[i] as int]),
            decreases count - next,
        {
            let candidate = extensions[order[next]];
            proof {
                lemma_compare_eq(candidate.key, best.key, wc);
                lemma_compare_eq(best.key, run_key, wc);
            }
            if candidate.abs_assoc > best.abs_assoc || (candidate.abs_assoc == best.abs_assoc
                && candidate.accuracy > best.accuracy) {
                proof {
                    lemma_compare_refl(candidate.key, wc);
                    assert forall|i: int| index <= i < next + 1 implies ConjunctionKey::compare(
                        candidate.key,
                        #[trigger] extensions@[order@[i] as int].key,
                        wc,
                    ) == 0 && scores_at_least(candidate, extensions@[order@[i] as int]) by {
                        if i < next {
                            lemma_compare_eq(best.key, extensions@[order@[i] as int].key, wc);
                        }
                    }
                    best_pos = next as int;
                }
                best = candidate;
            } else {
                proof {
                    lemma_compare_antisym(candidate.key, best.key, wc);
                }
            }
            next = next + 1;
        }
        proof {
            if next < count {
                lemma_compare_antisym(extensions@[order@[next as int] as int].key, best.key, wc);
            }
        }
        let ghost prev = dedup@;
        dedup[out] = best;
        proof {
            assert forall|j: int|
                0 <= j < out + 1 implies drawn_from(extensions@, order@, count as int, #[trigger] dedup@[j]) by {
                if j < out {
                    assert(dedup@[j] == prev[j]);
                } else {
                    assert(dedup@[j] == extensions@[order@[best_pos] as int]);
                }
            }
            assert forall|i: int|
                0 <= i < next implies represented(dedup@, out + 1, #[trigger] extensions@[order@[i] as int], wc) by {
                let e = extensions@[order@[i] as int];
                if i < index {
                    assert(represented(prev, out as int, e, wc));
                    let j = choose|j: int|
                        0 <= j < out && ConjunctionKey::compare(
                            #[trigger] prev[j].key,
                            e.key,
                            wc,
                        ) == 0 && scores_at_least(prev[j], e);
                    assert(dedup@[j] == prev[j]);
                } else {
                    assert(dedup@[out as int] == best);
                    assert(ConjunctionKey::compare(dedup@[out as int].key, e.key, wc) == 0);
                }
            }
            if out > 0 {
                assert(dedup@[out - 1] == prev[out - 1]);
                lemma_compare_eq(best.key, run_key, wc);
                lemma_compare_antisym(run_key, dedup@[out - 1].key, wc);
                assert(ConjunctionKey::compare(dedup@[out - 1].key, run_key, wc) != 0);
                assert(ConjunctionKey::compare(dedup@[out - 1].key, best.key, wc) != 0);
            }
            assert forall|j: int|
                0 <= j && j + 1 < out + 1 implies ConjunctionKey::compare(
                    #[trigger] dedup@[j].key,
                    dedup@[j + 1].key,
                    wc,
                ) != 0 by {
                if j + 1 < out {
                    assert(dedup@[j] == prev[j]);
                    assert(dedup@[j + 1] == prev[j + 1]);
                }
            }
            if next < count {
                lemma_compare_antisym(best.key, extensions@[order@[next as int] as int].key, wc);
            }
        }
        out = out + 1;
        index = next;
    }
    out
}


/// Within one word, the literal features count the set bits of the word.
proof fn lemma_lits_in_word(key: ConjunctionKey, word_count: int, w: int, k: int)
    requires
        0 <= w < word_count <= 4,
        0 <= k <= 64,
    ensures
        key.lits_upto(word_count, 64 * w + k) == key.lits_upto(word_count, 64 * w) + bits_upto(
            key.positive@[w] | key.negative@[w],
            k,
        ),
    decreases k,
{
    if k > 0 {
        lemma_lits_in_word(key, word_count, w, k - 1);
        let f = 64 * w + k - 1;
        assert(f / 64 == w);
        assert(f % 64 == k - 1);
        lemma_or_bit(key.positive@[w], key.negative@[w], (k - 1) as u64);
    }
}

/// Literal features below `64 * w` number `key_len(w)`.
pub proof fn lemma_lits_words(key: ConjunctionKey, word_count: int, w: int)
    requires
        0 <= w <= word_count <= 4,
    ensures
        key.lits_upto(word_count, 64 * w) == key.key_len(w),
    decreases w,
{
    if w > 0 {
        lemma_lits_words(key, word_count, w - 1);
        lemma_lits_in_word(key, word_count, w - 1, 64);
        assert(64 * (w - 1) + 64 == 64 * w);
    }
}

pub proof fn lemma_lits_mono(key: ConjunctionKey, word_count: int, n: int, m: int)
    requires
        0 <= n <= m,
    ensures
        key.lits_upto(word_count, n) <= key.lits_upto(word_count, m),
    decreases m - n,
{
    if n < m {
        lemma_lits_mono(key, word_count, n, m - 1);
    }
}

/// Past the key words no feature holds a literal.
pub proof fn lemma_lits_beyond(key: ConjunctionKey, word_count: int, n: int)
    requires
        0 <= word_count,
        64 * word_count <= n,
    ensures
        key.lits_upto(word_count, n) == key.lits_upto(word_count, 64 * word_count),
    decreases n,
{
    if n > 64 * word_count {
        lemma_lits_beyond(key, word_count, n - 1);
    }
}

/// No prefix of the features holds more literals than the key.
pub proof fn lemma_lits_bound(key: ConjunctionKey, word_count: int, n: int)
    requires
        0 <= word_count <= 4,
        0 <= n,
    ensures
        key.lits_upto(word_count, n) <= key.key_len(word_count),
{
    lemma_lits_words(key, word_count, word_count);
    if n <= 64 * word_count {
        lemma_lits_mono(key, word_count, n, 64 * word_count);
    } else {
        lemma_lits_beyond(key, word_count, n);
    }
}

} // verus!
