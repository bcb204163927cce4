//! The forgetting curve in whole numbers.
//!
//! Time is counted in seconds, a half-life in seconds, and an estimate of
//! recall in millionths: `RECALL_SCALE` stands for certainty. The curve is the
//! exponential decay `2^(-elapsed / half_life)`: each whole half-life that has
//! passed halves the estimate, and within a half-life the estimate follows
//! straight lines between sixteen points of the exact curve.

use vstd::prelude::*;
use vstd::arithmetic::div_mod::{
    lemma_div_is_ordered,
    lemma_fundamental_div_mod,
    lemma_fundamental_div_mod_converse,
    lemma_mod_bound,
    lemma_multiply_divide_le,
    lemma_multiply_divide_lt,
    lemma_div_pos_is_pos,
};

verus! {

/// The estimate of a word that is certainly remembered.
pub const RECALL_SCALE: u32 = 1_000_000;

/// The shortest half-life a word can have: ten minutes.
pub const MIN_HALF_LIFE: u64 = 600;

/// The half-life of a word that was known when first seen: two days.
pub const FIRST_HALF_LIFE: u64 = 172_800;

/// `RECALL_SCALE * 2^(-k / 16)`, rounded, for `k` from 0 to 16.
pub open spec fn decay_point(k: int) -> int {
    if k <= 0 {
        1_000_000
    } else if k == 1 {
        957_603
    } else if k == 2 {
        917_004
    } else if k == 3 {
        878_126
    } else if k == 4 {
        840_896
    } else if k == 5 {
        805_245
    } else if k == 6 {
        771_105
    } else if k == 7 {
        738_413
    } else if k == 8 {
        707_107
    } else if k == 9 {
        677_128
    } else if k == 10 {
        648_420
    } else if k == 11 {
        620_929
    } else if k == 12 {
        594_604
    } else if k == 13 {
        569_394
    } else if k == 14 {
        545_254
    } else if k == 15 {
        522_137
    } else {
        500_000
    }
}

/// The estimate after `rest` seconds of a half-life of `half_life` seconds,
/// where `rest` is less than the half-life: the point of the curve at the
/// last sixteenth that has passed, less the share of the way to the next
/// point that `rest` has gone beyond it.
pub open spec fn decay_within(rest: int, half_life: int) -> int
    recommends
        0 <= rest < half_life,
{
    let step = (16 * rest) / half_life;
    let part = (16 * rest) % half_life;
    decay_point(step) - ((decay_point(step) - decay_point(step + 1)) * part) / half_life
}

/// `value` halved `times` times, rounding down each time.
pub open spec fn halved(value: int, times: nat) -> int
    decreases times,
{
    if times == 0 {
        value
    } else {
        halved(value / 2, (times - 1) as nat)
    }
}

/// The estimate, in millionths, that a word is still remembered `elapsed`
/// seconds after it was practised, when its half-life is `half_life` seconds.
/// No time passed is certainty; a half-life of nothing forgets at once.
pub open spec fn recall(elapsed: int, half_life: int) -> int {
    if elapsed <= 0 {
        RECALL_SCALE as int
    } else if half_life <= 0 {
        0
    } else {
        halved(decay_within(elapsed % half_life, half_life), (elapsed / half_life) as nat)
    }
}

/// The estimate at time `now` for a word last practised at `last`: nothing for
/// a word never practised.
pub open spec fn recall_at(last: Option<i64>, half_life: u64, now: i64) -> int {
    match last {
        None => 0,
        Some(then) => recall(now - then, half_life as int),
    }
}

/// `value`, but no less than the shortest and no more than the longest
/// half-life that can be stored.
pub open spec fn kept_half_life(value: int) -> u64 {
    if value < MIN_HALF_LIFE {
        MIN_HALF_LIFE
    } else if value > u64::MAX {
        u64::MAX
    } else {
        value as u64
    }
}

/// The half-life after an answer given `elapsed` seconds after the last
/// practice.
///
/// With `factor = elapsed / half_life` and `multiplier = 1 + factor`, a right
/// answer multiplies the half-life by the multiplier, which gives
/// `half_life + elapsed`, and a wrong answer divides by it, which gives
/// `half_life^2 / (half_life + elapsed)`, rounded down to whole seconds. So a
/// wrong answer exactly one half-life after the last practice halves the
/// half-life. Where the clock ran backwards so far that the multiplier is not
/// positive, the result is the shortest half-life.
pub open spec fn next_half_life(half_life: u64, elapsed: int, correct: bool) -> u64 {
    if correct {
        kept_half_life(half_life + elapsed)
    } else if half_life + elapsed > 0 {
        kept_half_life((half_life * half_life) / (half_life + elapsed))
    } else {
        MIN_HALF_LIFE
    }
}

/// The half-life after an answer at time `now`. A word seen for the first time
/// gets the two days if the answer was right and the ten minutes if not.
pub open spec fn practiced_half_life(last: Option<i64>, half_life: u64, now: i64, correct: bool) -> u64 {
    match last {
        None => if correct {
            FIRST_HALF_LIFE
        } else {
            MIN_HALF_LIFE
        },
        Some(then) => next_half_life(half_life, now - then, correct),
    }
}

/// A wrong answer given exactly one half-life after the last practice halves
/// the half-life, rounding down, but leaves it no shorter than the shortest
/// half-life: the factor is 1 and the multiplier one half.
pub proof fn lemma_wrong_after_one_half_life(then: i64, half_life: u64, now: i64)
    requires
        now - then == half_life,
    ensures
        practiced_half_life(Some(then), half_life, now, false) == if half_life / 2
            < MIN_HALF_LIFE {
            MIN_HALF_LIFE
        } else {
            (half_life / 2) as u64
        },
{
    let h = half_life as int;
    if h > 0 {
        assert((h * h) / (h + h) == h / 2) by (nonlinear_arith)
            requires
                h > 0,
        ;
    }
}

/// A right answer adds the time that has passed since the last practice to
/// the half-life, within the shortest and the longest half-life.
pub proof fn lemma_right_answer_adds(then: i64, half_life: u64, now: i64)
    ensures
        practiced_half_life(Some(then), half_life, now, true) == kept_half_life(
            half_life + (now - then),
        ),
{
}

/// The points of the curve descend from certainty to one half.
proof fn lemma_decay_points_descend(k: int)
    requires
        0 <= k < 16,
    ensures
        500_000 <= decay_point(k + 1) < decay_point(k) <= 1_000_000,
{
}

/// Within a half-life the estimate stays between the two points that its
/// sixteenth lies between.
proof fn lemma_decay_within_bounds(rest: int, half_life: int)
    requires
        0 <= rest < half_life,
    ensures
        0 <= (16 * rest) / half_life < 16,
        decay_point((16 * rest) / half_life + 1) <= decay_within(rest, half_life) <= decay_point(
            (16 * rest) / half_life,
        ),
        500_000 <= decay_within(rest, half_life) <= 1_000_000,
{
    let x = 16 * rest;
    let step = x / half_life;
    let part = x % half_life;
    lemma_div_pos_is_pos(x, half_life);
    assert(x < half_life * 16);
    lemma_multiply_divide_lt(x, half_life, 16);
    lemma_mod_bound(x, half_life);
    lemma_decay_points_descend(step);
    let gap = decay_point(step) - decay_point(step + 1);
    assert(gap * part <= half_life * gap) by (nonlinear_arith)
        requires
            0 <= part < half_life,
            0 <= gap,
    ;
    assert(0 <= gap * part) by (nonlinear_arith)
        requires
            0 <= part,
            0 <= gap,
    ;
    lemma_multiply_divide_le(gap * part, half_life, gap);
    lemma_div_pos_is_pos(gap * part, half_life);
    if step + 1 < 16 {
        lemma_decay_points_descend(step + 1);
    }
}

/// Within a half-life the estimate never rises as time passes.
proof fn lemma_decay_within_descends(earlier: int, later: int, half_life: int)
    requires
        0 <= earlier <= later < half_life,
    ensures
        decay_within(later, half_life) <= decay_within(earlier, half_life),
{
    let x1 = 16 * earlier;
    let x2 = 16 * later;
    let s1 = x1 / half_life;
    let s2 = x2 / half_life;
    lemma_decay_within_bounds(earlier, half_life);
    lemma_decay_within_bounds(later, half_life);
    lemma_div_is_ordered(x1, x2, half_life);
    if s1 == s2 {
        let p1 = x1 % half_life;
        let p2 = x2 % half_life;
        lemma_fundamental_div_mod(x1, half_life);
        lemma_fundamental_div_mod(x2, half_life);
        assert(p1 <= p2);
        lemma_decay_points_descend(s1);
        let gap = decay_point(s1) - decay_point(s1 + 1);
        assert(gap * p1 <= gap * p2) by (nonlinear_arith)
            requires
                p1 <= p2,
                0 <= gap,
        ;
        lemma_div_is_ordered(gap * p1, gap * p2, half_life);
    } else {
        lemma_decay_points_between(s1 + 1, s2);
    }
}

/// A later point of the curve is no higher than an earlier one.
proof fn lemma_decay_points_between(low: int, high: int)
    requires
        0 <= low <= high <= 16,
    ensures
        decay_point(high) <= decay_point(low),
    decreases high - low,
{
    if low < high {
        lemma_decay_points_descend(high - 1);
        lemma_decay_points_between(low, high - 1);
    }
}

/// Halving keeps the order of two values, and keeps a value that is not
/// negative from becoming negative.
proof fn lemma_halved_ordered(low: int, high: int, times: nat)
    requires
        0 <= low <= high,
    ensures
        0 <= halved(low, times) <= halved(high, times) <= high,
    decreases times,
{
    if times > 0 {
        lemma_halved_ordered(low / 2, high / 2, (times - 1) as nat);
    }
}

/// Halving once more never gives more.
proof fn lemma_halved_more(value: int, fewer: nat, more: nat)
    requires
        0 <= value,
        fewer <= more,
    ensures
        halved(value, more) <= halved(value, fewer),
    decreases fewer,
{
    if fewer == 0 {
        lemma_halved_ordered(value, value, more);
    } else {
        lemma_halved_more(value / 2, (fewer - 1) as nat, (more - 1) as nat);
    }
}

/// The estimate lies between nothing and certainty.
pub proof fn lemma_recall_bounds(elapsed: int, half_life: int)
    ensures
        0 <= recall(elapsed, half_life) <= RECALL_SCALE,
{
    if elapsed > 0 && half_life > 0 {
        lemma_mod_bound(elapsed, half_life);
        lemma_div_pos_is_pos(elapsed, half_life);
        lemma_decay_within_bounds(elapsed % half_life, half_life);
        let within = decay_within(elapsed % half_life, half_life);
        lemma_halved_ordered(within, within, (elapsed / half_life) as nat);
    }
}

/// The estimate at any time lies between nothing and certainty, and is
/// nothing for a word that was never practised.
pub proof fn lemma_recall_at_bounds(last: Option<i64>, half_life: u64, now: i64)
    ensures
        0 <= recall_at(last, half_life, now) <= RECALL_SCALE,
        last is None ==> recall_at(last, half_life, now) == 0,
{
    if let Some(then) = last {
        lemma_recall_bounds(now - then, half_life as int);
    }
}

/// For a fixed half-life the estimate never rises as time passes.
pub proof fn lemma_recall_descends(earlier: int, later: int, half_life: int)
    requires
        earlier <= later,
    ensures
        recall(later, half_life) <= recall(earlier, half_life),
{
    lemma_recall_bounds(later, half_life);
    if earlier > 0 && half_life > 0 {
        let q1 = earlier / half_life;
        let q2 = later / half_life;
        let r1 = earlier % half_life;
        let r2 = later % half_life;
        lemma_div_is_ordered(earlier, later, half_life);
        lemma_div_pos_is_pos(earlier, half_life);
        lemma_mod_bound(earlier, half_life);
        lemma_mod_bound(later, half_life);
        lemma_decay_within_bounds(r1, half_life);
        lemma_decay_within_bounds(r2, half_life);
        let w1 = decay_within(r1, half_life);
        let w2 = decay_within(r2, half_life);
        if q1 == q2 {
            lemma_fundamental_div_mod(earlier, half_life);
            lemma_fundamental_div_mod(later, half_life);
            lemma_decay_within_descends(r1, r2, half_life);
            lemma_halved_ordered(w2, w1, q1 as nat);
        } else {
            // one more half-life has passed: the later estimate is at most
            // half of certainty halved as often as the earlier one
            lemma_halved_ordered(w2, 1_000_000, q2 as nat);
            lemma_halved_more(1_000_000, (q1 + 1) as nat, q2 as nat);
            assert(halved(1_000_000, (q1 + 1) as nat) == halved(500_000, q1 as nat));
            lemma_halved_ordered(500_000, w1, q1 as nat);
        }
    }
}

/// Each whole half-life that passes halves the estimate.
pub proof fn lemma_recall_halves(elapsed: int, half_life: int)
    requires
        0 < elapsed,
        0 < half_life,
    ensures
        recall(elapsed + half_life, half_life) == recall(elapsed, half_life) / 2,
{
    let q = elapsed / half_life;
    let r = elapsed % half_life;
    lemma_fundamental_div_mod(elapsed, half_life);
    lemma_mod_bound(elapsed, half_life);
    lemma_div_pos_is_pos(elapsed, half_life);
    assert(elapsed + half_life == (q + 1) * half_life + r) by (nonlinear_arith)
        requires
            elapsed == half_life * q + r,
    ;
    lemma_fundamental_div_mod_converse(elapsed + half_life, half_life, q + 1, r);
    lemma_halved_last(decay_within(r, half_life), q as nat);
}

/// For a fixed half-life the estimate, while it is not nothing, is strictly
/// less a whole half-life or more later.
pub proof fn lemma_recall_falls(earlier: int, later: int, half_life: int)
    requires
        0 <= earlier,
        0 < half_life,
        earlier + half_life <= later,
        recall(earlier, half_life) > 0,
    ensures
        recall(later, half_life) < recall(earlier, half_life),
{
    lemma_recall_descends(earlier + half_life, later, half_life);
    if earlier == 0 {
        lemma_recall_at_half_lives(1, half_life);
        assert(1 * half_life == half_life);
        assert(halved(1_000_000, 1) == halved(500_000, 0));
    } else {
        lemma_recall_halves(earlier, half_life);
    }
}

/// The longest half-life for which the estimate falls with every second of
/// the first half-life: sixteen times the least step between two points of
/// the curve, a little more than four days.
pub const STEEP_HALF_LIFE: u64 = 354_192;

/// Two neighbouring points of the curve are at least 22137 apart.
proof fn lemma_decay_points_apart(k: int)
    requires
        0 <= k < 16,
    ensures
        decay_point(k) - decay_point(k + 1) >= 22_137,
{
}

/// Within a half-life that is not longer than `STEEP_HALF_LIFE` the estimate
/// falls strictly as time passes.
proof fn lemma_decay_within_falls(earlier: int, later: int, half_life: int)
    requires
        0 <= earlier < later < half_life <= STEEP_HALF_LIFE,
    ensures
        decay_within(later, half_life) < decay_within(earlier, half_life),
{
    let x1 = 16 * earlier;
    let x2 = 16 * later;
    let s1 = x1 / half_life;
    let s2 = x2 / half_life;
    let p1 = x1 % half_life;
    let p2 = x2 % half_life;
    lemma_decay_within_bounds(earlier, half_life);
    lemma_decay_within_bounds(later, half_life);
    lemma_div_is_ordered(x1, x2, half_life);
    lemma_fundamental_div_mod(x1, half_life);
    lemma_fundamental_div_mod(x2, half_life);
    lemma_mod_bound(x1, half_life);
    lemma_mod_bound(x2, half_life);
    lemma_decay_points_descend(s1);
    lemma_decay_points_apart(s1);
    let gap = decay_point(s1) - decay_point(s1 + 1);
    if s1 == s2 {
        assert(p2 >= p1 + 16);
        assert(gap * p2 >= gap * p1 + half_life) by (nonlinear_arith)
            requires
                p2 >= p1 + 16,
                gap >= 22_137,
                half_life <= 354_192,
        ;
        assert(0 <= gap * p1) by (nonlinear_arith)
            requires
                0 <= p1,
                0 <= gap,
        ;
        lemma_div_is_ordered(gap * p1 + half_life, gap * p2, half_life);
        assert((gap * p1 + half_life) / half_life == (gap * p1) / half_life + 1) by {
            lemma_fundamental_div_mod(gap * p1, half_life);
            lemma_mod_bound(gap * p1, half_life);
            let q = (gap * p1) / half_life;
            let r = (gap * p1) % half_life;
            assert(gap * p1 + half_life == (q + 1) * half_life + r) by (nonlinear_arith)
                requires
                    gap * p1 == half_life * q + r,
            ;
            lemma_fundamental_div_mod_converse(gap * p1 + half_life, half_life, q + 1, r);
        }
    } else {
        // the earlier time has not reached the next point, which the later
        // time has reached or passed
        assert(gap * p1 <= gap * (half_life - 1)) by (nonlinear_arith)
            requires
                p1 <= half_life - 1,
                0 <= gap,
        ;
        assert(gap * (half_life - 1) < half_life * gap) by (nonlinear_arith)
            requires
                0 < gap,
                0 < half_life,
        ;
        lemma_multiply_divide_lt(gap * p1, half_life, gap);
        lemma_decay_points_between(s1 + 1, s2);
    }
}

/// For a half-life that is not longer than `STEEP_HALF_LIFE` the estimate
/// falls strictly as time passes within the first half-life.
pub proof fn lemma_recall_falls_at_first(earlier: int, later: int, half_life: int)
    requires
        0 <= earlier < later < half_life <= STEEP_HALF_LIFE,
    ensures
        recall(later, half_life) < recall(earlier, half_life),
{
    lemma_decay_within_falls(earlier, later, half_life);
    lemma_fundamental_div_mod_converse(later, half_life, 0, later);
    lemma_fundamental_div_mod_converse(earlier, half_life, 0, earlier);
    if earlier == 0 {
        assert((decay_point(0) - decay_point(1)) * 0 == 0);
        lemma_fundamental_div_mod_converse(0, half_life, 0, 0);
        assert(decay_within(0, half_life) == 1_000_000);
    }
}

/// Halving once more is halving the result.
proof fn lemma_halved_last(value: int, times: nat)
    ensures
        halved(value, times + 1) == halved(value, times) / 2,
    decreases times,
{
    assert(halved(value, times + 1) == halved(value / 2, times));
    if times > 0 {
        lemma_halved_last(value / 2, (times - 1) as nat);
        assert(halved(value, times) == halved(value / 2, (times - 1) as nat));
    } else {
        assert(halved(value / 2, 0) == value / 2);
    }
}

/// After exactly `n` half-lives the estimate is certainty halved `n` times:
/// one half after one half-life.
pub proof fn lemma_recall_at_half_lives(n: nat, half_life: int)
    requires
        0 < n,
        0 < half_life,
    ensures
        recall(n * half_life, half_life) == halved(RECALL_SCALE as int, n),
{
    assert(n * half_life == n * half_life + 0);
    assert(0 < n * half_life) by (nonlinear_arith)
        requires
            0 < n,
            0 < half_life,
    ;
    lemma_fundamental_div_mod_converse(n * half_life, half_life, n as int, 0);
    assert(decay_within(0, half_life) == 1_000_000) by {
        assert((decay_point(0) - decay_point(1)) * 0 == 0);
        lemma_fundamental_div_mod_converse(0, half_life, 0, 0);
    }
}

/// The point of the curve after `k` sixteenths of a half-life.
fn decay_point_at(k: u8) -> (v: u32)
    requires
        k <= 16,
    ensures
        v == decay_point(k as int),
{
    match k {
        0 => 1_000_000,
        1 => 957_603,
        2 => 917_004,
        3 => 878_126,
        4 => 840_896,
        5 => 805_245,
        6 => 771_105,
        7 => 738_413,
        8 => 707_107,
        9 => 677_128,
        10 => 648_420,
        11 => 620_929,
        12 => 594_604,
        13 => 569_394,
        14 => 545_254,
        15 => 522_137,
        _ => 500_000,
    }
}

/// The estimate, in millionths, that a word last practised at `last` with a
/// half-life of `half_life` seconds is still remembered at time `now`.
pub fn recall_estimate(last: Option<i64>, half_life: u64, now: i64) -> (p: u32)
    ensures
        p == recall_at(last, half_life, now),
        p <= RECALL_SCALE,
{
    proof {
        lemma_recall_at_bounds(last, half_life, now);
    }
    let then = match last {
        None => {
            return 0;
        },
        Some(then) => then,
    };
    let elapsed: i128 = now as i128 - then as i128;
    if elapsed <= 0 {
        return RECALL_SCALE;
    }
    if half_life == 0 {
        return 0;
    }
    let e: u128 = elapsed as u128;
    let h: u128 = half_life as u128;
    let q: u128 = e / h;
    let r: u128 = e % h;
    let x: u128 = 16 * r;
    let step: u128 = x / h;
    let part: u128 = x % h;
    proof {
        lemma_decay_within_bounds(r as int, h as int);
        lemma_decay_points_descend(step as int);
        lemma_mod_bound(x as int, h as int);
    }
    let high: u32 = decay_point_at(step as u8);
    let low: u32 = decay_point_at((step + 1) as u8);
    let gap: u128 = (high - low) as u128;
    assert(0 <= gap * part <= 1_000_000 * 0xffff_ffff_ffff_ffff) by (nonlinear_arith)
        requires
            0 <= gap <= 1_000_000,
            0 <= part <= 0xffff_ffff_ffff_ffff,
    ;
    let fall: u128 = (gap * part) / h;
    let start: u32 = high - (fall as u32);
    let mut value: u32 = start;
    let mut left: u128 = q;
    while left > 0 && value > 0
        invariant
            halved(value as int, left as nat) == halved(start as int, q as nat),
        decreases left,
    {
        value = value / 2;
        left = left - 1;
    }
    proof {
        if left > 0 {
            lemma_halved_ordered(0, 0, left as nat);
        }
    }
    value
}

/// The half-life, in seconds, of a word after an answer at time `now`, where
/// the word was last practised at `last` and had the half-life `half_life`.
pub fn updated_half_life(last: Option<i64>, half_life: u64, now: i64, correct: bool) -> (next: u64)
    ensures
        next == practiced_half_life(last, half_life, now, correct),
{
    let then = match last {
        None => {
            return if correct {
                FIRST_HALF_LIFE
            } else {
                MIN_HALF_LIFE
            };
        },
        Some(then) => then,
    };
    let diff: i128 = now as i128 - then as i128;
    let backwards: bool = diff < 0;
    let elapsed: u128 = if backwards {
        (-diff) as u128
    } else {
        diff as u128
    };
    let h: u128 = half_life as u128;
    assert(h * h <= 0xffff_ffff_ffff_ffff * 0xffff_ffff_ffff_ffff) by (nonlinear_arith)
        requires
            0 <= h <= 0xffff_ffff_ffff_ffff,
    ;
    let grown: u128 = if correct {
        if !backwards {
            h + elapsed
        } else if h > elapsed {
            h - elapsed
        } else {
            0
        }
    } else {
        if !backwards {
            if h + elapsed > 0 {
                (h * h) / (h + elapsed)
            } else {
                0
            }
        } else if h > elapsed {
            (h * h) / (h - elapsed)
        } else {
            0
        }
    };
    if grown < MIN_HALF_LIFE as u128 {
        MIN_HALF_LIFE
    } else if grown > u64::MAX as u128 {
        u64::MAX
    } else {
        grown as u64
    }
}

} // verus!
