//! Counting helpers over boolean sequences and the signed association score.

use vstd::prelude::*;

verus! {

/// Number of `true` entries among the first `n` entries of `s`.
pub open spec fn count_true_upto(s: Seq<bool>, n: int) -> nat
    decreases n,
{
    if n <= 0 {
        0
    } else {
        count_true_upto(s, n - 1) + if s[n - 1] { 1nat } else { 0nat }
    }
}

/// Number of `true` entries of `s`.
pub open spec fn count_true(s: Seq<bool>) -> nat {
    count_true_upto(s, s.len() as int)
}

/// Number of positions `i < n` where both `a[i]` and `b[i]` hold.
pub open spec fn count_and_upto(a: Seq<bool>, b: Seq<bool>, n: int) -> nat
    decreases n,
{
    if n <= 0 {
        0
    } else {
        count_and_upto(a, b, n - 1) + if a[n - 1] && b[n - 1] { 1nat } else { 0nat }
    }
}

/// Number of positions `i < n` where `a[i] == b[i]`.
pub open spec fn count_eq_upto(a: Seq<bool>, b: Seq<bool>, n: int) -> nat
    decreases n,
{
    if n <= 0 {
        0
    } else {
        count_eq_upto(a, b, n - 1) + if a[n - 1] == b[n - 1] { 1nat } else { 0nat }
    }
}

pub open spec fn min_len(a: Seq<bool>, b: Seq<bool>) -> int {
    if a.len() <= b.len() { a.len() as int } else { b.len() as int }
}

/// The signed association `n * n_xy - n_x * n_y` between a value stream and
/// its sign labels, where `n` is the number of labels, `n_x` and `n_y` count
/// the set values and set labels, and `n_xy` counts positions (over the common
/// prefix) where both are set.
pub open spec fn association(values: Seq<bool>, signs: Seq<bool>) -> int {
    signs.len() * count_and_upto(values, signs, min_len(values, signs))
        - count_true(values) * count_true(signs)
}

pub proof fn lemma_count_true_upto_bound(s: Seq<bool>, n: int)
    requires
        0 <= n,
    ensures
        count_true_upto(s, n) <= n,
    decreases n,
{
    if n > 0 {
        lemma_count_true_upto_bound(s, n - 1);
    }
}

pub proof fn lemma_count_and_upto_bound(a: Seq<bool>, b: Seq<bool>, n: int)
    requires
        0 <= n,
    ensures
        count_and_upto(a, b, n) <= n,
        count_and_upto(a, b, n) <= count_true_upto(b, n),
        count_and_upto(a, b, n) <= count_true_upto(a, n),
    decreases n,
{
    if n > 0 {
        lemma_count_and_upto_bound(a, b, n - 1);
    }
}

pub proof fn lemma_count_eq_upto_bound(a: Seq<bool>, b: Seq<bool>, n: int)
    requires
        0 <= n,
    ensures
        count_eq_upto(a, b, n) <= n,
    decreases n,
{
    if n > 0 {
        lemma_count_eq_upto_bound(a, b, n - 1);
    }
}

/// Counts the `true` entries of `values`.
pub fn count_true_exec(values: &[bool]) -> (r: usize)
    ensures
        r == count_true(values@),
{
    let mut count: usize = 0;
    let mut i: usize = 0;
    while i < values.len()
        invariant
            i <= values.len(),
            count == count_true_upto(values@, i as int),
        decreases values.len() - i,
    {
        proof {
            lemma_count_true_upto_bound(values@, i as int);
        }
        if values[i] {
            count = count + 1;
        }
        i = i + 1;
    }
    count
}

/// Signed association between a boolean stream and residual-sign labels.
pub fn association_score(values: &[bool], signs: &[bool]) -> (r: i64)
    requires
        values.len() < 0x8000_0000,
        signs.len() < 0x8000_0000,
    ensures
        r == association(values@, signs@),
{
    let n = signs.len() as i64;
    let nx = count_true_exec(values) as i64;
    let ny = count_true_exec(signs) as i64;
    let common = if values.len() <= signs.len() { values.len() } else { signs.len() };
    let mut nxy: i64 = 0;
    let mut i: usize = 0;
    while i < common
        invariant
            common == min_len(values@, signs@),
            common <= values.len(),
            common <= signs.len(),
            i <= common,
            nxy == count_and_upto(values@, signs@, i as int),
            common < 0x8000_0000,
        decreases common - i,
    {
        proof {
            lemma_count_and_upto_bound(values@, signs@, i as int);
        }
        if values[i] && signs[i] {
            nxy = nxy + 1;
        }
        i = i + 1;
    }
    proof {
        lemma_count_true_upto_bound(values@, values.len() as int);
        lemma_count_true_upto_bound(signs@, signs.len() as int);
        lemma_count_and_upto_bound(values@, signs@, common as int);
        assert(0 <= n * nxy <= 0x8000_0000 * 0x8000_0000) by (nonlinear_arith)
            requires
                0 <= n < 0x8000_0000,
                0 <= nxy < 0x8000_0000;
        assert(0 <= nx * ny <= 0x8000_0000 * 0x8000_0000) by (nonlinear_arith)
            requires
                0 <= nx < 0x8000_0000,
                0 <= ny < 0x8000_0000;
    }
    n * nxy - nx * ny
}

} // verus!
