//! Gate weight packing and `i8` activation helpers.

use vstd::prelude::*;

verus! {

/// Boolean sign of an activation: 1 when `x >= 0`, else 0.
pub open spec fn sign_of(x: i8) -> u8 {
    if x >= 0 { 1 } else { 0 }
}

/// Cost to move activation `v` to sign `want`; the negation wraps at `-128`.
pub open spec fn flip_cost_of(v: i8, want: u8) -> int {
    if sign_of(v) == want {
        0
    } else if want != 0 {
        (256 - v) % 256
    } else {
        v + 1
    }
}

/// Distance between two weights.
pub open spec fn weight_distance(a: i8, b: i8) -> int {
    if a >= b { a - b } else { b - a }
}

/// Total cost to realize row `s` for target `target`, wrapped to a byte.
pub open spec fn row_total_of(s: u8, act_a: i8, act_b: i8, weights: Seq<i8>, target: i8) -> int {
    (flip_cost_of(act_a, s >> 1) + flip_cost_of(act_b, s & 1) + weight_distance(weights[s as int], target)) % 256
}

/// Number of parent signs that differ from row `s`.
pub open spec fn mismatches_of(s: u8, act_a: i8, act_b: i8) -> int {
    (if sign_of(act_a) != s >> 1 { 1int } else { 0int }) + (if sign_of(act_b) != s & 1 { 1int } else { 0int })
}

/// Weight of row `row` in a packed word: byte `row`, read as `i8`.
pub open spec fn weight_at(packed: u32, row: u8) -> i8 {
    (((packed >> (8 * row) as u32) & 0xFFu32) as u8) as i8
}

/// Boolean sign: 1 if `x >= 0`, else 0.
pub fn sign(x: i8) -> (r: u8)
    ensures
        r == sign_of(x),
{
    if x >= 0 { 1 } else { 0 }
}

/// Table lane from parent activations.
pub fn lane(act_a: i8, act_b: i8) -> (r: u8)
    ensures
        r == 2 * sign_of(act_a) + sign_of(act_b),
{
    2 * sign(act_a) + sign(act_b)
}

/// Pole target for a definite parent sign.
pub fn pole(sign_bit: u8) -> (r: i8)
    ensures
        r == if sign_bit != 0 { 127i8 } else { -128i8 },
{
    if sign_bit != 0 { 127 } else { -128 }
}

/// Stream boolean to sink target (`+1` / `-1`).
pub fn bool_target(y: bool) -> (r: i8)
    ensures
        r == if y { 1i8 } else { -1i8 },
{
    if y { 1 } else { -1 }
}

/// Cost to flip activation `v` to sign `want` (`0` or `1`).
pub fn flip_cost(v: i8, want: u8) -> (r: u8)
    ensures
        r == flip_cost_of(v, want),
{
    if sign(v) == want {
        0
    } else if want != 0 {
        ((256i16 - v as i16) % 256) as u8
    } else {
        (v as u8).saturating_add(1)
    }
}

/// `|a - b|`.
fn abs_diff(a: i8, b: i8) -> (r: u8)
    ensures
        r == weight_distance(a, b),
{
    if a >= b { (a as i16 - b as i16) as u8 } else { (b as i16 - a as i16) as u8 }
}

/// Total cost to realize row `s` for target `target` (byte arithmetic wraps).
pub fn row_total(s: u8, act_a: i8, act_b: i8, weights: [i8; 4], target: i8) -> (r: u8)
    requires
        s < 4,
    ensures
        r == row_total_of(s, act_a, act_b, weights@, target),
{
    let s_a = s >> 1;
    let s_b = s & 1;
    let input = flip_cost(act_a, s_a).wrapping_add(flip_cost(act_b, s_b));
    let weight = abs_diff(weights[s as usize], target);
    let r = input.wrapping_add(weight);
    proof {
        let fa = flip_cost_of(act_a, s_a);
        let fb = flip_cost_of(act_b, s_b);
        let w = weight_distance(weights@[s as int], target);
        assert(input == (fa + fb) % 256);
        assert(r == (input + w) % 256);
        assert(((fa + fb) % 256 + w) % 256 == (fa + fb + w) % 256) by (nonlinear_arith)
            requires fa >= 0, fb >= 0, w >= 0;
    }
    r
}

/// Minimum total cost over all four rows.
pub fn min_total(act_a: i8, act_b: i8, weights: [i8; 4], target: i8) -> (r: u8)
    ensures
        exists|s: u8| s < 4 && r == #[trigger] row_total_of(s, act_a, act_b, weights@, target),
        forall|s: u8| s < 4 ==> r <= #[trigger] row_total_of(s, act_a, act_b, weights@, target),
{
    let mut best = row_total(0, act_a, act_b, weights, target);
    let mut s: u8 = 1;
    while s < 4
        invariant
            1 <= s <= 4,
            exists|k: u8| k < s && best == #[trigger] row_total_of(k, act_a, act_b, weights@, target),
            forall|k: u8| k < s ==> best <= #[trigger] row_total_of(k, act_a, act_b, weights@, target),
        decreases 4 - s,
    {
        let total = row_total(s, act_a, act_b, weights, target);
        if total < best {
            best = total;
        }
        s = s + 1;
    }
    best
}

/// Number of parent signs that must flip to realize row `s`.
pub fn sign_mismatches(s: u8, act_a: i8, act_b: i8) -> (r: u8)
    ensures
        r == mismatches_of(s, act_a, act_b),
{
    let s_a = s >> 1;
    let s_b = s & 1;
    (if sign(act_a) != s_a { 1u8 } else { 0u8 }) + (if sign(act_b) != s_b { 1u8 } else { 0u8 })
}

/// The row reachable with at most one sign flip: row `s` itself realizes
/// the current signs.
proof fn lemma_current_row(act_a: i8, act_b: i8)
    ensures
        mismatches_of((2 * sign_of(act_a) + sign_of(act_b)) as u8, act_a, act_b) == 0,
{
    let s: u8 = (2 * sign_of(act_a) + sign_of(act_b)) as u8;
    let sa = sign_of(act_a);
    let sb = sign_of(act_b);
    assert(sa <= 1 && sb <= 1);
    assert((((2 * sa + sb) as u8) >> 1) == sa && (((2 * sa + sb) as u8) & 1) == sb) by (bit_vector)
        requires sa <= 1, sb <= 1;
}

/// Row `r` is reachable with at most one parent sign flip, costs no more
/// than any other such row, and less than every such row before it.
pub open spec fn is_best_row(r: u8, act_a: i8, act_b: i8, weights: Seq<i8>, target: i8) -> bool {
    &&& r < 4
    &&& mismatches_of(r, act_a, act_b) <= 1
    &&& forall|s: u8| s < 4 && mismatches_of(s, act_a, act_b) <= 1
        ==> row_total_of(r, act_a, act_b, weights, target) <= #[trigger] row_total_of(s, act_a, act_b, weights, target)
    &&& forall|s: u8| s < r && mismatches_of(s, act_a, act_b) <= 1
        ==> row_total_of(r, act_a, act_b, weights, target) < #[trigger] row_total_of(s, act_a, act_b, weights, target)
}

/// The cheapest row reachable with at most one parent sign flip, the first
/// on a tie.
pub open spec fn best_row_of(act_a: i8, act_b: i8, weights: Seq<i8>, target: i8) -> u8 {
    choose|r: u8| is_best_row(r, act_a, act_b, weights, target)
}

/// At most one row is the best.
pub proof fn lemma_best_row_unique(r1: u8, r2: u8, act_a: i8, act_b: i8, weights: Seq<i8>, target: i8)
    requires
        is_best_row(r1, act_a, act_b, weights, target),
        is_best_row(r2, act_a, act_b, weights, target),
    ensures
        r1 == r2,
{
    if r1 < r2 {
        assert(row_total_of(r2, act_a, act_b, weights, target) < row_total_of(r1, act_a, act_b, weights, target));
    } else if r2 < r1 {
        assert(row_total_of(r1, act_a, act_b, weights, target) < row_total_of(r2, act_a, act_b, weights, target));
    }
}

/// Row minimizing the total cost among rows reachable with at most one
/// parent sign flip; the first such row on a tie.
pub fn best_row_at_most_one_flip(act_a: i8, act_b: i8, weights: [i8; 4], target: i8) -> (r: u8)
    ensures
        r < 4,
        mismatches_of(r, act_a, act_b) <= 1,
        forall|s: u8| s < 4 && mismatches_of(s, act_a, act_b) <= 1
            ==> row_total_of(r, act_a, act_b, weights@, target) <= #[trigger] row_total_of(s, act_a, act_b, weights@, target),
        forall|s: u8| s < r && mismatches_of(s, act_a, act_b) <= 1
            ==> row_total_of(r, act_a, act_b, weights@, target) < #[trigger] row_total_of(s, act_a, act_b, weights@, target),
        r == best_row_of(act_a, act_b, weights@, target),
{
    proof {
        lemma_current_row(act_a, act_b);
    }
    let ghost current: u8 = (2 * sign_of(act_a) + sign_of(act_b)) as u8;
    let mut best: u8 = 0;
    let mut best_total: u8 = 0;
    let mut found = false;
    let mut s: u8 = 0;
    while s < 4
        invariant
            s <= 4,
            current < 4,
            mismatches_of(current, act_a, act_b) == 0,
            found ==> best < s && mismatches_of(best, act_a, act_b) <= 1
                && best_total == row_total_of(best, act_a, act_b, weights@, target),
            !found ==> forall|k: u8| k < s ==> mismatches_of(k, act_a, act_b) > 1,
            found ==> forall|k: u8| k < s && mismatches_of(k, act_a, act_b) <= 1
                ==> best_total <= #[trigger] row_total_of(k, act_a, act_b, weights@, target),
            found ==> forall|k: u8| k < best && mismatches_of(k, act_a, act_b) <= 1
                ==> best_total < #[trigger] row_total_of(k, act_a, act_b, weights@, target),
        decreases 4 - s,
    {
        if sign_mismatches(s, act_a, act_b) <= 1 {
            let total = row_total(s, act_a, act_b, weights, target);
            if !found || total < best_total {
                best = s;
                best_total = total;
                found = true;
            }
        }
        s = s + 1;
    }
    proof {
        assert(found) by {
            if !found {
                assert(mismatches_of(current, act_a, act_b) > 1);
            }
        }
        assert(is_best_row(best, act_a, act_b, weights@, target));
        let chosen = best_row_of(act_a, act_b, weights@, target);
        assert(is_best_row(chosen, act_a, act_b, weights@, target));
        lemma_best_row_unique(best, chosen, act_a, act_b, weights@, target);
    }
    best
}

pub fn get_weight(packed: u32, row: u8) -> (r: i8)
    requires
        row < 4,
    ensures
        r == weight_at(packed, row),
{
    let shift = 8 * (row as u32);
    (((packed >> shift) & 0xFF) as u8) as i8
}

pub fn set_weight(packed: &mut u32, row: u8, w: i8)
    requires
        row < 4,
    ensures
        forall|k: u8| k < 4 ==> #[trigger] weight_at(*final(packed), k) == if k == row { w } else { weight_at(*old(packed), k) },
{
    let shift = 8 * (row as u32);
    let mask = !(0xFFu32 << shift);
    let old_packed = *packed;
    let new_packed = (old_packed & mask) | (((w as u8) as u32) << shift);
    proof {
        assert forall|k: u8| k < 4 implies #[trigger] weight_at(new_packed, k) == if k == row { w } else { weight_at(old_packed, k) } by {
            assert((((((old_packed & !(0xFFu32 << (8 * row) as u32)) | (((w as u8) as u32) << (8 * row) as u32)) >> (8 * k) as u32) & 0xFFu32) as u8) as i8
                == if k == row { w } else { (((old_packed >> (8 * k) as u32) & 0xFFu32) as u8) as i8 }) by (bit_vector)
                requires row < 4, k < 4;
        }
    }
    *packed = new_packed;
}

/// Nudges a weight by one toward `target`.
pub fn nudge_weight(w: i8, target: i8) -> (r: i8)
    ensures
        r == if w < target { w + 1 } else if w > target { w - 1 } else { w as int },
{
    if w < target {
        w + 1
    } else if w > target {
        w - 1
    } else {
        w
    }
}

/// The four row weights of a packed word.
pub fn row_weights(packed: u32) -> (r: [i8; 4])
    ensures
        r@ == seq![weight_at(packed, 0), weight_at(packed, 1), weight_at(packed, 2), weight_at(packed, 3)],
{
    let r = [get_weight(packed, 0), get_weight(packed, 1), get_weight(packed, 2), get_weight(packed, 3)];
    assert(r@ =~= seq![weight_at(packed, 0), weight_at(packed, 1), weight_at(packed, 2), weight_at(packed, 3)]);
    r
}

} // verus!
