//! Multiples of a positive step on the integer line.
//!
//! Everything an axis needs to know about ticks reduces to questions about the
//! multiples of one positive integer `step` that fall into a closed interval
//! `[lo, hi]`: which is the first, which is the last, and how many there are.
//! This module states those notions as spec functions, proves the facts the
//! rest of the crate relies on, and offers the executable counterparts.

use vstd::prelude::*;
use vstd::arithmetic::div_mod::{
    lemma_fundamental_div_mod,
    lemma_fundamental_div_mod_converse,
    lemma_mod_bound,
};

verus! {

/// The largest multiple of `step` that is not above `v`.
pub open spec fn prev_multiple(v: int, step: int) -> int
    recommends
        step > 0,
{
    v - v % step
}

/// The smallest multiple of `step` that is not below `v`.
pub open spec fn next_multiple(v: int, step: int) -> int
    recommends
        step > 0,
{
    v + (-v) % step
}

/// How many multiples of `step` lie in the closed interval `[lo, hi]`:
/// the multiples from the first one at or above `lo` to the last one at or
/// below `hi`, counted with both ends.
pub open spec fn multiples_between(lo: int, hi: int, step: int) -> int
    recommends
        step > 0,
{
    (prev_multiple(hi, step) - next_multiple(lo, step)) / step + 1
}

/// The count a reader would make by hand: start at `start`, keep adding
/// `step`, and count every value that is still at or below `end`.
pub open spec fn steps_between(start: int, end: int, step: int) -> nat
    recommends
        step > 0,
    decreases
        (if start > end {
            0
        } else {
            end - start + 1
        }),
    when step > 0
{
    if start > end {
        0
    } else {
        1 + steps_between(start + step, end, step)
    }
}

/// `prev_multiple` is a multiple of `step`, is at most `v`, and lies less
/// than one step below it.
pub proof fn lemma_prev_multiple(v: int, step: int)
    requires
        step > 0,
    ensures
        prev_multiple(v, step) == step * (v / step),
        prev_multiple(v, step) % step == 0,
        prev_multiple(v, step) <= v < prev_multiple(v, step) + step,
{
    lemma_fundamental_div_mod(v, step);
    lemma_mod_bound(v, step);
    lemma_multiple_mod(v / step, step);
}

/// `next_multiple` is a multiple of `step`, is at least `v`, and lies less
/// than one step above it.
pub proof fn lemma_next_multiple(v: int, step: int)
    requires
        step > 0,
    ensures
        next_multiple(v, step) == -(step * ((-v) / step)),
        next_multiple(v, step) == -prev_multiple(-v, step),
        next_multiple(v, step) % step == 0,
        v <= next_multiple(v, step) < v + step,
{
    lemma_fundamental_div_mod(-v, step);
    lemma_mod_bound(-v, step);
    let q = (-v) / step;
    assert(-(step * q) == step * (-q)) by (nonlinear_arith);
    lemma_multiple_mod(-q, step);
}

/// A product with `step` leaves no remainder, and dividing it gives the
/// other factor back.
pub proof fn lemma_multiple_mod(k: int, step: int)
    requires
        step > 0,
    ensures
        (step * k) % step == 0,
        (step * k) / step == k,
{
    assert(step * k == k * step + 0) by (nonlinear_arith);
    lemma_fundamental_div_mod_converse(step * k, step, k, 0);
}

/// A value without remainder is the product of `step` and its quotient.
pub proof fn lemma_multiple_form(v: int, step: int)
    requires
        step > 0,
        v % step == 0,
    ensures
        v == step * (v / step),
        prev_multiple(v, step) == v,
        next_multiple(v, step) == v,
{
    lemma_fundamental_div_mod(v, step);
    let q = v / step;
    assert(-v == step * (-q)) by (nonlinear_arith)
        requires
            v == step * q,
    ;
    lemma_multiple_mod(-q, step);
}

/// The count as a sum of two floor quotients.
pub proof fn lemma_multiples_between_quotients(lo: int, hi: int, step: int)
    requires
        step > 0,
    ensures
        multiples_between(lo, hi, step) == hi / step + (-lo) / step + 1,
{
    lemma_prev_multiple(hi, step);
    lemma_next_multiple(lo, step);
    let a = hi / step;
    let b = (-lo) / step;
    assert(step * a - (-(step * b)) == step * (a + b)) by (nonlinear_arith);
    lemma_multiple_mod(a + b, step);
}

/// A multiple `k * step` lies in `[lo, hi]` exactly when `k` lies between the
/// index of the first multiple and the index of the last one.
pub proof fn lemma_multiple_in_interval(lo: int, hi: int, step: int, k: int)
    requires
        step > 0,
    ensures
        (lo <= step * k <= hi) <==> (next_multiple(lo, step) / step <= k <= prev_multiple(hi, step)
            / step),
{
    lemma_prev_multiple(hi, step);
    lemma_next_multiple(lo, step);
    let first = next_multiple(lo, step);
    let last = prev_multiple(hi, step);
    lemma_multiple_form(first, step);
    lemma_multiple_form(last, step);
    let kf = first / step;
    let kl = last / step;
    assert((step * kf <= step * k) <==> (kf <= k)) by (nonlinear_arith)
        requires
            step > 0,
    ;
    assert((step * k <= step * kl) <==> (k <= kl)) by (nonlinear_arith)
        requires
            step > 0,
    ;
    assert((lo <= step * k) <==> (first <= step * k)) by {
        if lo <= step * k && step * k < first {
            // a multiple strictly between first - step and first would sit in (lo - 1, first)
            assert(step * k > first - step);
            assert(step * kf - step == step * (kf - 1)) by (nonlinear_arith);
            assert(kf - 1 < k < kf) by (nonlinear_arith)
                requires
                    step > 0,
                    step * (kf - 1) < step * k,
                    step * k < step * kf,
            ;
        }
    }
    assert((step * k <= hi) <==> (step * k <= last)) by {
        if step * k <= hi && step * k > last {
            assert(step * k < last + step);
            assert(step * kl + step == step * (kl + 1)) by (nonlinear_arith);
            assert(kl < k < kl + 1) by (nonlinear_arith)
                requires
                    step > 0,
                    step * kl < step * k,
                    step * k < step * (kl + 1),
            ;
        }
    }
}

/// The count of multiples in an interval that is not empty is not negative.
pub proof fn lemma_multiples_between_nonnegative(lo: int, hi: int, step: int)
    requires
        step > 0,
        lo <= hi,
    ensures
        multiples_between(lo, hi, step) >= 0,
{
    lemma_multiples_between_bounds(lo, hi, step);
    vstd::arithmetic::div_mod::lemma_div_pos_is_pos(hi - lo, step);
}

/// The count differs from the number of whole steps that fit into the
/// interval's length by at most one.
pub proof fn lemma_multiples_between_bounds(lo: int, hi: int, step: int)
    requires
        step > 0,
    ensures
        (hi - lo) / step <= multiples_between(lo, hi, step) <= (hi - lo) / step + 1,
{
    lemma_multiples_between_quotients(lo, hi, step);
    lemma_fundamental_div_mod(hi, step);
    lemma_fundamental_div_mod(-lo, step);
    lemma_fundamental_div_mod(hi - lo, step);
    lemma_mod_bound(hi, step);
    lemma_mod_bound(-lo, step);
    lemma_mod_bound(hi - lo, step);
    let a = hi / step;
    let b = (-lo) / step;
    let c = (hi - lo) / step;
    let ra = hi % step;
    let rb = (-lo) % step;
    let rc = (hi - lo) % step;
    assert(a + b <= c <= a + b + 1) by (nonlinear_arith)
        requires
            step > 0,
            hi == step * a + ra,
            -lo == step * b + rb,
            hi - lo == step * c + rc,
            0 <= ra < step,
            0 <= rb < step,
            0 <= rc < step,
    ;
}

/// Measuring the interval and the step in a unit `c` times finer changes
/// nothing about the count.
pub proof fn lemma_multiples_between_scale(lo: int, hi: int, step: int, c: int)
    requires
        step > 0,
        c > 0,
    ensures
        multiples_between(lo * c, hi * c, step * c) == multiples_between(lo, hi, step),
{
    lemma_multiples_between_quotients(lo, hi, step);
    assert(step * c > 0) by (nonlinear_arith)
        requires
            step > 0,
            c > 0,
    ;
    lemma_multiples_between_quotients(lo * c, hi * c, step * c);
    lemma_div_scale(hi, step, c);
    lemma_div_scale(-lo, step, c);
    assert(-(lo * c) == (-lo) * c) by (nonlinear_arith);
}

/// A common positive factor of dividend and divisor cancels in a floor
/// quotient.
pub proof fn lemma_div_scale(x: int, d: int, c: int)
    requires
        d > 0,
        c > 0,
    ensures
        d * c > 0,
        (x * c) / (d * c) == x / d,
        (x * c) % (d * c) == (x % d) * c,
{
    lemma_fundamental_div_mod(x, d);
    lemma_mod_bound(x, d);
    let q = x / d;
    let r = x % d;
    assert(d * c > 0) by (nonlinear_arith)
        requires
            d > 0,
            c > 0,
    ;
    assert(x * c == q * (d * c) + r * c && 0 <= r * c < d * c) by (nonlinear_arith)
        requires
            x == d * q + r,
            0 <= r < d,
            c > 0,
    ;
    lemma_fundamental_div_mod_converse(x * c, d * c, q, r * c);
}

/// Every multiple of `q * step` is a multiple of `step`: where the coarser
/// step has a multiple in the interval, the finer step has at least as many.
pub proof fn lemma_multiples_between_refines(lo: int, hi: int, step: int, q: int)
    requires
        step > 0,
        q >= 1,
        multiples_between(lo, hi, step * q) >= 1,
    ensures
        multiples_between(lo, hi, step) >= multiples_between(lo, hi, step * q),
{
    assert(step * q > 0) by (nonlinear_arith)
        requires
            step > 0,
            q >= 1,
    ;
    lemma_multiples_between_quotients(lo, hi, step);
    lemma_multiples_between_quotients(lo, hi, step * q);
    lemma_div_of_multiple_step(hi, step, q);
    lemma_div_of_multiple_step(-lo, step, q);
    let a = hi / (step * q);
    let b = (-lo) / (step * q);
    assert(q * a + q * b >= a + b) by (nonlinear_arith)
        requires
            q >= 1,
            a + b >= 0,
    ;
}

/// The floor quotient by `step` is at least `q` times the floor quotient by
/// `step * q`.
proof fn lemma_div_of_multiple_step(x: int, step: int, q: int)
    requires
        step > 0,
        q >= 1,
    ensures
        step * q > 0,
        x / step >= q * (x / (step * q)),
{
    assert(step * q > 0) by (nonlinear_arith)
        requires
            step > 0,
            q >= 1,
    ;
    lemma_fundamental_div_mod(x, step * q);
    lemma_mod_bound(x, step * q);
    lemma_fundamental_div_mod(x, step);
    lemma_mod_bound(x, step);
    let big = x / (step * q);
    let rb = x % (step * q);
    let small = x / step;
    let rs = x % step;
    assert(small >= q * big) by (nonlinear_arith)
        requires
            step > 0,
            q >= 1,
            x == (step * q) * big + rb,
            0 <= rb,
            x == step * small + rs,
            0 <= rs < step,
    ;
}

/// Counting by repeated addition from one multiple to another gives the
/// number of steps between them plus one.
pub proof fn lemma_steps_between_multiples(first: int, last: int, step: int)
    requires
        step > 0,
        first % step == 0,
        last % step == 0,
        first <= last + step,
    ensures
        steps_between(first, last, step) == (last - first) / step + 1,
    decreases last - first + step,
{
    lemma_multiple_form(first, step);
    lemma_multiple_form(last, step);
    let kf = first / step;
    let kl = last / step;
    assert(last - first == step * (kl - kf)) by (nonlinear_arith)
        requires
            first == step * kf,
            last == step * kl,
    ;
    lemma_multiple_mod(kl - kf, step);
    if first > last {
        assert(kl - kf == -1) by (nonlinear_arith)
            requires
                step > 0,
                step * (kl - kf) < 0,
                step * (kl - kf) >= -step,
        ;
    } else {
        assert(first + step == step * (kf + 1)) by (nonlinear_arith)
            requires
                first == step * kf,
        ;
        lemma_multiple_mod(kf + 1, step);
        lemma_steps_between_multiples(first + step, last, step);
        assert(last - (first + step) == step * (kl - kf - 1)) by (nonlinear_arith)
            requires
                first == step * kf,
                last == step * kl,
        ;
        lemma_multiple_mod(kl - kf - 1, step);
    }
}

/// In an interval that is not empty the first multiple lies at most one step
/// above the last one.
pub proof fn lemma_first_last_gap(lo: int, hi: int, step: int)
    requires
        step > 0,
        lo <= hi,
    ensures
        next_multiple(lo, step) <= prev_multiple(hi, step) + step,
{
    lemma_next_multiple(lo, step);
    lemma_prev_multiple(hi, step);
    let first = next_multiple(lo, step);
    let last = prev_multiple(hi, step);
    lemma_multiple_form(first, step);
    lemma_multiple_form(last, step);
    let kf = first / step;
    let kl = last / step;
    assert(kf - kl <= 1) by (nonlinear_arith)
        requires
            step > 0,
            first == step * kf,
            last == step * kl,
            first - last < 2 * step,
    ;
    assert(first - last <= step) by (nonlinear_arith)
        requires
            step > 0,
            first == step * kf,
            last == step * kl,
            kf - kl <= 1,
    ;
}

/// The closed form of the count agrees with counting by repeated addition
/// from the first multiple in the interval up to the last.
pub proof fn lemma_multiples_between_is_steps(lo: int, hi: int, step: int)
    requires
        step > 0,
        lo <= hi,
    ensures
        multiples_between(lo, hi, step) == steps_between(
            next_multiple(lo, step),
            prev_multiple(hi, step),
            step,
        ),
{
    lemma_next_multiple(lo, step);
    lemma_prev_multiple(hi, step);
    lemma_first_last_gap(lo, hi, step);
    lemma_steps_between_multiples(next_multiple(lo, step), prev_multiple(hi, step), step);
}

/// The remainder of a negated value: zero where the value leaves none, else
/// what the value's remainder lacks to a full step.
pub proof fn lemma_mod_negated(v: int, step: int)
    requires
        step > 0,
    ensures
        (-v) % step == if v % step == 0 {
            0
        } else {
            step - v % step
        },
{
    lemma_fundamental_div_mod(v, step);
    lemma_mod_bound(v, step);
    let q = v / step;
    let r = v % step;
    if r == 0 {
        assert(-v == (-q) * step + 0) by (nonlinear_arith)
            requires
                v == step * q + r,
                r == 0,
        ;
        lemma_fundamental_div_mod_converse(-v, step, -q, 0);
    } else {
        assert(-v == (-q - 1) * step + (step - r)) by (nonlinear_arith)
            requires
                v == step * q + r,
        ;
        lemma_fundamental_div_mod_converse(-v, step, -q - 1, step - r);
    }
}

/// The largest multiple of `step` that is not above `v`, computed.
pub fn floor_to_multiple(v: i128, step: i128) -> (multiple: i128)
    requires
        step > 0,
        i128::MIN + step <= v,
    ensures
        multiple == prev_multiple(v as int, step as int),
{
    let r = v % step;
    proof {
        lemma_mod_bound(v as int, step as int);
        if v < 0 {
            lemma_mod_negated(-(v as int), step as int);
        }
    }
    if r < 0 {
        v - r - step
    } else {
        v - r
    }
}

/// The smallest multiple of `step` that is not below `v`, computed.
pub fn ceil_to_multiple(v: i128, step: i128) -> (multiple: i128)
    requires
        step > 0,
        v <= i128::MAX - step,
    ensures
        multiple == next_multiple(v as int, step as int),
{
    let r = v % step;
    proof {
        lemma_mod_bound(-(v as int), step as int);
        if v >= 0 {
            lemma_mod_negated(v as int, step as int);
        }
    }
    if r > 0 {
        v - r + step
    } else {
        v - r
    }
}

} // verus!
