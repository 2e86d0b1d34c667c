//! Per-wire gate helpers: independent parent weights, summed output.

use vstd::prelude::*;
use crate::circuit_exp::gate::{get_weight, pole, sign, sign_of, weight_at};

verus! {

/// Stream boolean to pole target (`+127` / `-128`).
pub fn bool_target_pole(y: bool) -> (r: i8)
    ensures
        r == if y { 127i8 } else { -128i8 },
{
    pole(if y { 1 } else { 0 })
}

/// Lane for parent `a` given sign bit `sa`.
pub fn lane_a(sa: u8) -> (r: u8)
    ensures
        r == sa,
{
    sa
}

/// Lane for parent `b` given sign bit `sb`.
pub fn lane_b(sb: u8) -> (r: u8)
    requires
        sb <= 253,
    ensures
        r == 2 + sb,
{
    2 + sb
}

/// Packs `(sa, sb)` into one byte.
pub fn pack_signs(sa: u8, sb: u8) -> (r: u8)
    ensures
        r == sa | (sb << 1u8),
{
    sa | (sb << 1u8)
}

pub fn unpack_sa(packed: u8) -> (r: u8)
    ensures
        r == packed & 1,
{
    packed & 1
}

pub fn unpack_sb(packed: u8) -> (r: u8)
    ensures
        r == (packed >> 1u8) & 1,
{
    (packed >> 1u8) & 1
}

/// Unpacking a packed pair of sign bits gives the bits back.
pub proof fn law_unpack_pack(sa: u8, sb: u8)
    requires
        sa <= 1,
        sb <= 1,
    ensures
        (sa | (sb << 1u8)) & 1 == sa,
        ((sa | (sb << 1u8)) >> 1u8) & 1 == sb,
{
    assert((sa | (sb << 1u8)) & 1 == sa && ((sa | (sb << 1u8)) >> 1u8) & 1 == sb) by (bit_vector)
        requires sa <= 1, sb <= 1;
}

/// `x` clamped to the `i8` range.
pub fn clamp_i8(x: i16) -> (r: i8)
    ensures
        r == if x < -128 { -128 } else if x > 127 { 127 } else { x as int },
{
    if x < -128 {
        -128
    } else if x > 127 {
        127
    } else {
        x as i8
    }
}

/// Forward sum and packed parent signs from parent activations.
pub fn forward_sum(packed: u32, act_a: i8, act_b: i8) -> (r: (i16, u8))
    ensures
        r.0 == weight_at(packed, sign_of(act_a)) + weight_at(packed, (2 + sign_of(act_b)) as u8),
        r.1 == sign_of(act_a) | (sign_of(act_b) << 1u8),
{
    let sa = sign(act_a);
    let sb = sign(act_b);
    let wa = get_weight(packed, lane_a(sa)) as i16;
    let wb = get_weight(packed, lane_b(sb)) as i16;
    (wa + wb, pack_signs(sa, sb))
}

/// A boolean readout of activation `act` matches the pole target.
pub fn activation_matches_target(act: i8, target: i8) -> (r: bool)
    ensures
        r == ((act >= 0) == (target > 0)),
{
    (act >= 0) == (target > 0)
}

/// Nudges a weight toward the pole of `target`; no change at the `i8` bounds.
pub fn nudge_weight(w: i8, target: i8) -> (r: i8)
    ensures
        r == if target > 0 {
            if w < 127 { w + 1 } else { w as int }
        } else {
            if w > -128 { w - 1 } else { w as int }
        },
{
    if target > 0 {
        if w < 127 {
            w + 1
        } else {
            w
        }
    } else if w > -128 {
        w - 1
    } else {
        w
    }
}

/// Parent wire weights at a gate (`w0`, `w1`).
pub fn parent_weights(packed: u32, is_parent_b: bool) -> (r: (i8, i8))
    ensures
        r.0 == weight_at(packed, if is_parent_b { 2u8 } else { 0u8 }),
        r.1 == weight_at(packed, if is_parent_b { 3u8 } else { 1u8 }),
{
    let base: u8 = if is_parent_b { 2 } else { 0 };
    (get_weight(packed, base), get_weight(packed, base + 1))
}

/// Desired parent sign: the lane with the larger weight for a positive
/// target, the smaller one otherwise; none on a weight tie.
pub open spec fn want_sign_of(target: i8, w0: i8, w1: i8) -> Option<u8> {
    if w0 == w1 {
        None
    } else if target > 0 {
        Some(if w1 > w0 { 1u8 } else { 0u8 })
    } else {
        Some(if w1 < w0 { 1u8 } else { 0u8 })
    }
}

/// Desired parent sign from weight pair and gate target (argmax / argmin).
/// Tie on `w0 == w1`: keep current sign, no upstream write.
pub fn want_sign(target: i8, w0: i8, w1: i8, _act_p: i8) -> (r: Option<u8>)
    ensures
        r == want_sign_of(target, w0, w1),
{
    if w0 == w1 {
        return None;
    }
    Some(if target > 0 {
        if w1 > w0 { 1 } else { 0 }
    } else {
        if w1 < w0 { 1 } else { 0 }
    })
}

/// Why backprop did or did not fire for an internal parent.
#[derive(Debug, Clone, Copy, PartialEq, Eq, Structural)]
pub enum BackpropOutcome {
    Fired { want: u8 },
    AlreadyAligned,
    WeightTie,
}

pub open spec fn backprop_outcome_of(target: i8, w0: i8, w1: i8, act_p: i8) -> BackpropOutcome {
    match want_sign_of(target, w0, w1) {
        None => BackpropOutcome::WeightTie,
        Some(ws) => if sign_of(act_p) == ws {
            BackpropOutcome::AlreadyAligned
        } else {
            BackpropOutcome::Fired { want: ws }
        },
    }
}

/// Whether to propagate to the parent when a gate output mismatches its target.
pub fn backprop_outcome(target: i8, w0: i8, w1: i8, act_p: i8) -> (r: BackpropOutcome)
    ensures
        r == backprop_outcome_of(target, w0, w1, act_p),
{
    let ws = match want_sign(target, w0, w1, act_p) {
        Some(ws) => ws,
        None => {
            return BackpropOutcome::WeightTie;
        },
    };
    if sign(act_p) == ws {
        return BackpropOutcome::AlreadyAligned;
    }
    BackpropOutcome::Fired { want: ws }
}

/// Parent sign to request upstream, if any.
pub fn backprop_sign(target: i8, w0: i8, w1: i8, act_p: i8) -> (r: Option<u8>)
    ensures
        r == match backprop_outcome_of(target, w0, w1, act_p) {
            BackpropOutcome::Fired { want } => Some(want),
            _ => None,
        },
{
    match backprop_outcome(target, w0, w1, act_p) {
        BackpropOutcome::Fired { want } => Some(want),
        _ => None,
    }
}

/// A requested parent sign always differs from the parent's current sign.
pub proof fn law_backprop_flips_parent(target: i8, w0: i8, w1: i8, act_p: i8)
    ensures
        backprop_outcome_of(target, w0, w1, act_p) matches BackpropOutcome::Fired { want }
            ==> want != sign_of(act_p) && want <= 1,
{
}

} // verus!
