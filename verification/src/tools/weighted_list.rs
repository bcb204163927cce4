//! Drawing one item of a list, each with the chance its weight gives it.

use vstd::prelude::*;

verus! {

/// The sum of the weights of the first `i` items of `list`.
pub open spec fn weight_before<T>(list: Seq<(u64, T)>, i: int) -> int
    decreases i,
{
    if i <= 0 {
        0
    } else {
        weight_before(list, i - 1) + list[i - 1].0
    }
}

/// The sum of all weights of `list`.
pub open spec fn total_weight<T>(list: Seq<(u64, T)>) -> int {
    weight_before(list, list.len() as int)
}

/// The draw `draw` falls on the item at position `i`: it is the first item
/// whose weight, added to the weights before it, exceeds the draw.
pub open spec fn is_drawn<T>(list: Seq<(u64, T)>, draw: int, i: int) -> bool {
    &&& 0 <= i < list.len()
    &&& weight_before(list, i) <= draw < weight_before(list, i + 1)
}

/// The position on which the draw `draw` falls, where it falls on one: a draw
/// from zero up to the total weight falls on one position only.
pub open spec fn drawn_position<T>(list: Seq<(u64, T)>, draw: int) -> int {
    choose|i: int| is_drawn(list, draw, i)
}

/// The sum of the weights grows with the number of items and stays within
/// what that many weights can hold.
pub proof fn lemma_weight_before_grows<T>(list: Seq<(u64, T)>, i: int, j: int)
    requires
        0 <= i <= j <= list.len(),
    ensures
        0 <= weight_before(list, i) <= weight_before(list, j) <= j * 0xffff_ffff_ffff_ffff,
    decreases j,
{
    if j > 0 {
        if i < j {
            lemma_weight_before_grows(list, i, j - 1);
        } else {
            lemma_weight_before_grows(list, i - 1, j - 1);
        }
        assert((j - 1) * 0xffff_ffff_ffff_ffff + 0xffff_ffff_ffff_ffff == j * 0xffff_ffff_ffff_ffff)
            by (nonlinear_arith);
    }
}

/// Of the equally likely draws below the total weight, exactly as many fall
/// on an item as its weight says, and each draw falls on one item only. So an
/// item of weight 3 beside one of weight 1 is drawn three times in four.
pub proof fn lemma_draws_follow_weights<T>(list: Seq<(u64, T)>, i: int)
    requires
        0 <= i < list.len(),
    ensures
        forall|draw: int|
            is_drawn(list, draw, i) <==> weight_before(list, i) <= draw < weight_before(list, i)
                + list[i].0,
        forall|draw: int, j: int|
            is_drawn(list, draw, i) && is_drawn(list, draw, j) ==> i == j,
        forall|draw: int| is_drawn(list, draw, i) ==> 0 <= draw < total_weight(list),
{
    assert forall|draw: int, j: int| is_drawn(list, draw, i) && is_drawn(list, draw, j) implies i
        == j by {
        if i < j {
            lemma_weight_before_grows(list, i + 1, j);
        } else if j < i {
            lemma_weight_before_grows(list, j + 1, i);
        }
    }
    lemma_weight_before_grows(list, i, i);
    lemma_weight_before_grows(list, i + 1, list.len() as int);
}

/// A draw below the weight of the first `n` items falls on one of them.
proof fn lemma_draw_falls_below<T>(list: Seq<(u64, T)>, draw: int, n: int)
    requires
        0 <= n <= list.len(),
        0 <= draw < weight_before(list, n),
    ensures
        exists|i: int| is_drawn(list, draw, i),
    decreases n,
{
    if n > 0 {
        if draw < weight_before(list, n - 1) {
            lemma_draw_falls_below(list, draw, n - 1);
        } else {
            assert(is_drawn(list, draw, n - 1));
        }
    }
}

/// A draw from zero up to the total weight falls on a position.
pub proof fn lemma_draw_falls<T>(list: Seq<(u64, T)>, draw: int)
    requires
        0 <= draw < total_weight(list),
    ensures
        is_drawn(list, draw, drawn_position(list, draw)),
{
    lemma_draw_falls_below(list, draw, list.len() as int);
}

/// A draw falls on one position only, and that position has some weight.
pub proof fn lemma_drawn_position<T>(list: Seq<(u64, T)>, draw: int, i: int)
    requires
        is_drawn(list, draw, i),
    ensures
        drawn_position(list, draw) == i,
        list[i].0 > 0,
{
    let j = drawn_position(list, draw);
    assert(is_drawn(list, draw, j));
    lemma_draws_follow_weights(list, i);
}

/// The position on which the draw `draw` falls.
pub fn pick_at<T>(list: &[(u64, T)], draw: u128) -> (i: usize)
    requires
        draw < total_weight(list@),
    ensures
        is_drawn(list@, draw as int, i as int),
        i == drawn_position(list@, draw as int),
        list[i as int].0 > 0,
{
    let i = pick_at_inner(list, draw);
    proof {
        lemma_drawn_position(list@, draw as int, i as int);
    }
    i
}

/// The position on which the draw `draw` falls, found by adding up the
/// weights.
fn pick_at_inner<T>(list: &[(u64, T)], draw: u128) -> (i: usize)
    requires
        draw < total_weight(list@),
    ensures
        is_drawn(list@, draw as int, i as int),
{
    let mut i: usize = 0;
    let mut reached: u128 = 0;
    proof {
        lemma_weight_before_grows(list@, 0, list.len() as int);
    }
    loop
        invariant
            i < list.len(),
            reached == weight_before(list@, i as int),
            reached <= draw < total_weight(list@),
        decreases list.len() - i,
    {
        proof {
            lemma_weight_before_grows(list@, i as int + 1, list.len() as int);
            assert((i + 1) * 0xffff_ffff_ffff_ffff <= 0xffff_ffff_ffff_ffff * 0xffff_ffff_ffff_ffff)
                by (nonlinear_arith)
                requires
                    i + 1 <= 0xffff_ffff_ffff_ffff,
            ;
        }
        let next: u128 = reached + list[i].0 as u128;
        if draw < next {
            return i;
        }
        reached = next;
        i = i + 1;
    }
}

/// The sum of all weights of `list`.
pub fn sum_weights<T>(list: &[(u64, T)]) -> (total: u128)
    ensures
        total == total_weight(list@),
{
    let mut total: u128 = 0;
    let mut i: usize = 0;
    while i < list.len()
        invariant
            i <= list.len(),
            total == weight_before(list@, i as int),
        decreases list.len() - i,
    {
        proof {
            lemma_weight_before_grows(list@, i as int + 1, i as int + 1);
            assert((i + 1) * 0xffff_ffff_ffff_ffff <= 0xffff_ffff_ffff_ffff * 0xffff_ffff_ffff_ffff)
                by (nonlinear_arith)
                requires
                    i + 1 <= 0xffff_ffff_ffff_ffff,
            ;
        }
        total = total + list[i].0 as u128;
        i = i + 1;
    }
    total
}

/// A number below `bound`, drawn by `rand::Rng::gen_range` from the range
/// `0..bound` with the generator of the thread, `rand::thread_rng`. The range
/// must not be empty: `gen_range` panics on an empty range. The draw is
/// meant to give each number the same chance; what is claimed is only that
/// the result lies in the range.
#[verifier::external_body]
pub(crate) fn random_below(bound: u128) -> (draw: u128)
    requires
        bound > 0,
    ensures
        draw < bound,
{
    rand::Rng::gen_range(&mut rand::thread_rng(), 0..bound)
}

/// Draws one position of `list` at random, each with the chance its weight
/// gives it: a number is drawn below the total weight, each with the same
/// chance, and the position it falls on is returned. The list must hold some
/// weight.
pub fn pick_by_weight<T>(list: &[(u64, T)]) -> (i: usize)
    requires
        total_weight(list@) > 0,
    ensures
        exists|draw: int| 0 <= draw < total_weight(list@) && is_drawn(list@, draw, i as int),
        i < list.len(),
        list[i as int].0 > 0,
{
    let total = sum_weights(list);
    let draw = random_below(total);
    let i = pick_at(list, draw);
    assert(is_drawn(list@, draw as int, i as int));
    i
}

} // verus!
