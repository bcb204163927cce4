//! A practice session: the pool of words to ask, drawn from what the user
//! knows least, and the knowledge that the answers go into.

use vstd::prelude::*;
use vstd::set_lib::lemma_int_range;
use vstd::set_lib::lemma_len_subset;
use vstd::set_lib::set_int_range;
use crate::program::app::PracticeDirection;
use crate::tools::clock::current_timestamp;
use crate::tools::weighted_list::{
    drawn_position,
    is_drawn,
    lemma_draw_falls,
    lemma_drawn_position,
    lemma_weight_before_grows,
    pick_at,
    random_below,
    sum_weights,
    total_weight,
};
use crate::words::curve::{lemma_recall_at_bounds, RECALL_SCALE};
use crate::words::dictionary::{Dictionary, DictionaryView, WordID};
use crate::words::knowledge::{Knowledge, KnowledgeView};
use crate::words::word_knowledge::v0_3::WordKnowledge;

verus! {

/// A word is a candidate in a direction while its estimate of recall in that
/// direction is below this: six tenths.
pub const RECALL_THRESHOLD: u32 = 600_000;

/// The number of words a session asks at most.
pub const SESSION_SIZE: usize = 20;

/// From this many candidates on, the obscurity of the words is weighed too.
pub const LARGE_POOL: usize = 100;

/// The number of candidates that are drawn by weight before one of them is
/// drawn by obscurity.
pub const SHORTLIST_SIZE: usize = 10;

/// The candidates that one word gives at time `now`: one for each direction
/// in which its estimate of recall is below the threshold, weighted by what
/// the estimate lacks to certainty; forward first.
pub open spec fn candidates_of_word(k: WordKnowledge, id: WordID, now: i64) -> Seq<
    (u64, (WordID, PracticeDirection)),
> {
    let forward = k.p_value(PracticeDirection::Forward, now);
    let backward = k.p_value(PracticeDirection::Backward, now);
    let first = if forward < RECALL_THRESHOLD {
        seq![((RECALL_SCALE - forward) as u64, (id, PracticeDirection::Forward))]
    } else {
        seq![]
    };
    let second = if backward < RECALL_THRESHOLD {
        seq![((RECALL_SCALE - backward) as u64, (id, PracticeDirection::Backward))]
    } else {
        seq![]
    };
    first + second
}

/// The candidates that the words `ids` give at time `now`, in the order of
/// `ids`.
pub open spec fn candidates_of(ids: Seq<WordID>, knowledge: Seq<WordKnowledge>, now: i64) -> Seq<
    (u64, (WordID, PracticeDirection)),
>
    decreases ids.len(),
{
    if ids.len() == 0 {
        seq![]
    } else {
        candidates_of(ids.drop_last(), knowledge, now) + candidates_of_word(
            knowledge[ids.last()@ as int],
            ids.last(),
            now,
        )
    }
}

/// Every candidate has some weight and points to a word of `dict`.
pub open spec fn usable(
    candidates: Seq<(u64, (WordID, PracticeDirection))>,
    dict: DictionaryView,
) -> bool {
    forall|k: int|
        0 <= k < candidates.len() ==> (#[trigger] candidates[k]).0 > 0 && candidates[k].1.0@
            < dict.words.len()
}

/// `pool` is a session drawn from `candidates`: all of them, in their order,
/// where they are no more than a session asks; otherwise as many as a session
/// asks, no candidate twice.
pub open spec fn is_selection(
    pool: Seq<(WordID, PracticeDirection)>,
    candidates: Seq<(u64, (WordID, PracticeDirection))>,
) -> bool {
    if candidates.len() <= SESSION_SIZE {
        pool == candidates.map_values(|c: (u64, (WordID, PracticeDirection))| c.1)
    } else {
        exists|picks: Seq<int>| is_selected_by(pool, candidates, picks)
    }
}

/// `pool` holds the candidates at the positions `picks`, which are as many as
/// a session asks and all different.
pub open spec fn is_selected_by(
    pool: Seq<(WordID, PracticeDirection)>,
    candidates: Seq<(u64, (WordID, PracticeDirection))>,
    picks: Seq<int>,
) -> bool {
    &&& pool.len() == SESSION_SIZE
    &&& picks.len() == SESSION_SIZE
    &&& picks.no_duplicates()
    &&& forall|i: int|
        0 <= i < picks.len() ==> 0 <= #[trigger] picks[i] < candidates.len() && pool[i]
            == candidates[picks[i]].1
}

/// The candidates of words that `dict` holds below the cutoff are usable.
proof fn lemma_candidates_usable(
    ids: Seq<WordID>,
    knowledge: Seq<WordKnowledge>,
    now: i64,
    dict: DictionaryView,
    score: u32,
)
    requires
        forall|k: int| 0 <= k < ids.len() ==> dict.within(#[trigger] ids[k], score),
    ensures
        usable(candidates_of(ids, knowledge, now), dict),
    decreases ids.len(),
{
    if ids.len() > 0 {
        let rest = ids.drop_last();
        assert forall|k: int| 0 <= k < rest.len() implies dict.within(#[trigger] rest[k], score) by {
            assert(rest[k] == ids[k]);
        }
        lemma_candidates_usable(rest, knowledge, now, dict, score);
        let id = ids.last();
        let k = knowledge[id@ as int];
        assert(dict.within(ids[ids.len() - 1], score));
        lemma_recall_at_bounds(k.last_practice, k.half_life, now);
        lemma_recall_at_bounds(k.last_practice_reverse, k.half_life_reverse, now);
        let before = candidates_of(rest, knowledge, now);
        let added = candidates_of_word(k, id, now);
        let all = candidates_of(ids, knowledge, now);
        assert forall|j: int| 0 <= j < all.len() implies (#[trigger] all[j]).0 > 0 && all[j].1.0@
            < dict.words.len() by {
            if j < before.len() {
                assert(all[j] == before[j]);
            } else {
                assert(all[j] == added[j - before.len()]);
            }
        }
    }
}

/// A list that is not empty and whose weights are all positive holds some
/// weight.
proof fn lemma_positive_total<T>(list: Seq<(u64, T)>, k: int)
    requires
        0 <= k < list.len(),
        list[k].0 > 0,
    ensures
        total_weight(list) > 0,
{
    lemma_weight_before_grows(list, 0, k);
    lemma_weight_before_grows(list, k + 1, list.len() as int);
}

/// Fewer different positions than there are leave one position free.
proof fn lemma_position_left(taken: Seq<usize>, n: usize)
    requires
        taken.no_duplicates(),
        forall|i: int| 0 <= i < taken.len() ==> (#[trigger] taken[i]) < n,
        taken.len() < n,
    ensures
        exists|k: usize| k < n && !(#[trigger] taken.contains(k)),
{
    let all = set_int_range(0, n as int);
    let ints = taken.map_values(|x: usize| x as int);
    let used = ints.to_set();
    lemma_int_range(0, n as int);
    if forall|k: usize| k < n ==> #[trigger] taken.contains(k) {
        assert forall|k: int| all.contains(k) implies used.contains(k) by {
            assert(taken.contains(k as usize));
            let i = choose|i: int| 0 <= i < taken.len() && taken[i] == k as usize;
            assert(ints[i] == k);
        }
        assert(ints.no_duplicates()) by {
            assert forall|i: int, j: int|
                0 <= i < ints.len() && 0 <= j < ints.len() && i != j implies ints[i] != ints[j] by {
                assert(taken[i] != taken[j]);
            }
        }
        ints.unique_seq_to_set();
        vstd::seq_lib::seq_to_set_is_finite(ints);
        lemma_len_subset(all, used);
    }
}

/// Appends the candidates that the word `id` gives at time `now`.
fn push_word_candidates(
    out: &mut Vec<(u64, (WordID, PracticeDirection))>,
    k: &WordKnowledge,
    id: WordID,
    now: i64,
)
    ensures
        final(out)@ == old(out)@ + candidates_of_word(*k, id, now),
{
    let forward = k.calculate_p_value_forward(now);
    let backward = k.calculate_p_value_backward(now);
    if forward < RECALL_THRESHOLD {
        out.push(((RECALL_SCALE - forward) as u64, (id, PracticeDirection::Forward)));
    }
    if backward < RECALL_THRESHOLD {
        out.push(((RECALL_SCALE - backward) as u64, (id, PracticeDirection::Backward)));
    }
    assert(out@ =~= old(out)@ + candidates_of_word(*k, id, now));
}

/// The candidates for a session at time `now`: for every word of `dict` whose
/// obscurity is at most `score_max`, in ascending order of obscurity, each
/// direction in which the estimate of recall is below the threshold.
pub fn build_candidates(dict: &Dictionary, knowledge: &Knowledge, score_max: u32, now: i64) -> (out:
    Vec<(u64, (WordID, PracticeDirection))>)
    requires
        dict@.words.len() <= knowledge@.knowledge.len(),
    ensures
        out@ == candidates_of(dict@.leq_list(score_max), knowledge@.knowledge, now),
        usable(out@, dict@),
{
    let ids = dict.get_words_leq_score(score_max);
    let mut out: Vec<(u64, (WordID, PracticeDirection))> = Vec::new();
    let mut i: usize = 0;
    while i < ids.len()
        invariant
            i <= ids.len(),
            dict@.is_leq_list(ids@, score_max),
            ids@ == dict@.leq_list(score_max),
            dict@.words.len() <= knowledge@.knowledge.len(),
            out@ == candidates_of(ids@.take(i as int), knowledge@.knowledge, now),
        decreases ids.len() - i,
    {
        let id = ids[i];
        assert(dict@.within(ids@[i as int], score_max));
        let k = knowledge.get_word_knowledge(id);
        push_word_candidates(&mut out, k, id, now);
        proof {
            let next = ids@.take(i as int + 1);
            assert(next.drop_last() =~= ids@.take(i as int));
            assert(next.last() == id);
        }
        i += 1;
    }
    proof {
        assert(ids@.take(ids.len() as int) =~= ids@);
        lemma_candidates_usable(ids@, knowledge@.knowledge, now, dict@, score_max);
    }
    out
}

/// What the loops that draw a session keep true: `pool` holds the candidates
/// not yet drawn, `origin` their positions among all candidates, in ascending
/// order; `drawn` holds the candidates drawn so far and `picks` their
/// positions, all different.
spec fn drawing(
    candidates: Seq<(u64, (WordID, PracticeDirection))>,
    pool: Seq<(u64, (WordID, PracticeDirection))>,
    origin: Seq<int>,
    drawn: Seq<(WordID, PracticeDirection)>,
    picks: Seq<int>,
) -> bool {
    &&& origin.len() == pool.len()
    &&& picks.len() == drawn.len()
    &&& pool.len() + drawn.len() == candidates.len()
    &&& forall|k: int|
        0 <= k < origin.len() ==> 0 <= #[trigger] origin[k] < candidates.len() && pool[k]
            == candidates[origin[k]]
    &&& forall|k: int, l: int| 0 <= k < l < origin.len() ==> origin[k] < origin[l]
    &&& forall|i: int|
        0 <= i < picks.len() ==> 0 <= #[trigger] picks[i] < candidates.len() && drawn[i]
            == candidates[picks[i]].1
    &&& picks.no_duplicates()
    &&& forall|i: int, k: int|
        0 <= i < picks.len() && 0 <= k < origin.len() ==> #[trigger] picks[i] != #[trigger] origin[k]
}

/// Moves the candidate at `position` from the pool to the session.
fn draw_candidate(
    pool: &mut Vec<(u64, (WordID, PracticeDirection))>,
    word_pool: &mut Vec<(WordID, PracticeDirection)>,
    position: usize,
    Ghost(candidates): Ghost<Seq<(u64, (WordID, PracticeDirection))>>,
    Ghost(origin): Ghost<Seq<int>>,
    Ghost(picks): Ghost<Seq<int>>,
) -> (next: (Ghost<Seq<int>>, Ghost<Seq<int>>))
    requires
        position < old(pool).len(),
        drawing(candidates, old(pool)@, origin, old(word_pool)@, picks),
    ensures
        drawing(candidates, final(pool)@, next.0@, final(word_pool)@, next.1@),
        final(pool)@ == old(pool)@.remove(position as int),
        final(word_pool)@ == old(word_pool)@.push(old(pool)@[position as int].1),
        final(word_pool).len() == old(word_pool).len() + 1,
{
    let choice = pool.remove(position);
    word_pool.push(choice.1);
    let ghost new_origin = origin.remove(position as int);
    let ghost new_picks = picks.push(origin[position as int]);
    proof {
        assert forall|k: int| 0 <= k < new_origin.len() implies 0 <= #[trigger] new_origin[k]
            < candidates.len() && pool@[k] == candidates[new_origin[k]] by {
            if k < position {
                assert(new_origin[k] == origin[k]);
            } else {
                assert(new_origin[k] == origin[k + 1]);
            }
        }
        assert forall|k: int, l: int| 0 <= k < l < new_origin.len() implies new_origin[k]
            < new_origin[l] by {
            let a = if k < position {
                k
            } else {
                k + 1
            };
            let b = if l < position {
                l
            } else {
                l + 1
            };
            assert(new_origin[k] == origin[a] && new_origin[l] == origin[b]);
        }
        assert forall|i: int| 0 <= i < new_picks.len() implies 0 <= #[trigger] new_picks[i]
            < candidates.len() && word_pool@[i] == candidates[new_picks[i]].1 by {
            if i < picks.len() {
                assert(new_picks[i] == picks[i]);
            }
        }
        assert forall|i: int, j: int|
            0 <= i < new_picks.len() && 0 <= j < new_picks.len() && i != j implies new_picks[i]
            != new_picks[j] by {
            if i < picks.len() && j < picks.len() {
                assert(picks[i] != picks[j]);
            } else if i < picks.len() {
                assert(picks[i] != origin[position as int]);
            } else {
                assert(picks[j] != origin[position as int]);
            }
        }
        assert forall|i: int, k: int|
            0 <= i < new_picks.len() && 0 <= k < new_origin.len() implies #[trigger] new_picks[i]
            != #[trigger] new_origin[k] by {
            let a = if k < position {
                k
            } else {
                k + 1
            };
            assert(new_origin[k] == origin[a]);
            if i < picks.len() {
                assert(picks[i] != origin[a]);
            } else {
                assert(a != position);
                if a < position {
                    assert(origin[a] < origin[position as int]);
                } else {
                    assert(origin[position as int] < origin[a]);
                }
            }
        }
    }
    (Ghost(new_origin), Ghost(new_picks))
}

/// The pool in which the candidate at position `j` weighs nothing.
pub open spec fn without_weight(
    pool: Seq<(u64, (WordID, PracticeDirection))>,
    j: int,
) -> Seq<(u64, (WordID, PracticeDirection))> {
    pool.update(j, (0u64, pool[j].1))
}

/// The pool as it is left after the draws `draws` for a shortlist: each draw
/// falls on one position, by weight, and the candidate there weighs nothing
/// for the draws after it.
pub open spec fn left_after(
    pool: Seq<(u64, (WordID, PracticeDirection))>,
    draws: Seq<u128>,
) -> Seq<(u64, (WordID, PracticeDirection))>
    decreases draws.len(),
{
    if draws.len() == 0 {
        pool
    } else {
        let before = left_after(pool, draws.drop_last());
        without_weight(before, drawn_position(before, draws.last() as int))
    }
}

/// The positions that the draws `draws` put on the shortlist, in the order
/// of the draws.
pub open spec fn shortlist_of(
    pool: Seq<(u64, (WordID, PracticeDirection))>,
    draws: Seq<u128>,
) -> Seq<usize>
    decreases draws.len(),
{
    if draws.len() == 0 {
        Seq::empty()
    } else {
        shortlist_of(pool, draws.drop_last()).push(
            drawn_position(left_after(pool, draws.drop_last()), draws.last() as int) as usize,
        )
    }
}

/// Each of the draws `draws` is below the weight that is left in the pool
/// when it is made.
pub open spec fn draws_fit(
    pool: Seq<(u64, (WordID, PracticeDirection))>,
    draws: Seq<u128>,
) -> bool {
    forall|t: int|
        0 <= t < draws.len() ==> (#[trigger] draws[t]) < total_weight(
            left_after(pool, draws.take(t)),
        )
}

/// The greatest obscurity among the words of the candidates at the positions
/// `shortlist`.
pub open spec fn greatest_obscurity(
    pool: Seq<(u64, (WordID, PracticeDirection))>,
    shortlist: Seq<usize>,
    dict: DictionaryView,
) -> int
    decreases shortlist.len(),
{
    if shortlist.len() == 0 {
        0
    } else {
        let rest = greatest_obscurity(pool, shortlist.drop_last(), dict);
        let last = dict.obscurity_of(pool[shortlist.last() as int].1.0);
        if last > rest {
            last as int
        } else {
            rest
        }
    }
}

/// The positions `shortlist`, each with the weight it has in the second
/// draw: one more than the obscurity of its word lacks to the greatest
/// obscurity among them.
pub open spec fn obscurity_weights(
    pool: Seq<(u64, (WordID, PracticeDirection))>,
    shortlist: Seq<usize>,
    dict: DictionaryView,
) -> Seq<(u64, usize)> {
    Seq::new(
        shortlist.len(),
        |j: int|
            (
                (greatest_obscurity(pool, shortlist, dict) - dict.obscurity_of(
                    pool[shortlist[j] as int].1.0,
                ) + 1) as u64,
                shortlist[j],
            ),
    )
}

/// The numbers `draws` and `second` can be drawn in a round on a large pool:
/// as many first draws as the shortlist is long, each below the weight left
/// in the pool, and a second draw below the weight of the shortlist.
pub open spec fn large_draws_fit(
    pool: Seq<(u64, (WordID, PracticeDirection))>,
    dict: DictionaryView,
    draws: Seq<u128>,
    second: u128,
) -> bool {
    &&& draws.len() == SHORTLIST_SIZE
    &&& draws_fit(pool, draws)
    &&& second < total_weight(obscurity_weights(pool, shortlist_of(pool, draws), dict))
}

/// The position that leaves the pool in a round on a large pool in which the
/// numbers `draws` and `second` are drawn: the draws put ten different
/// positions on the shortlist, by the weight of the candidates, and the
/// second draw falls on one of the ten, by obscurity.
pub open spec fn large_round(
    pool: Seq<(u64, (WordID, PracticeDirection))>,
    dict: DictionaryView,
    draws: Seq<u128>,
    second: u128,
) -> int {
    let shortlist = shortlist_of(pool, draws);
    shortlist[drawn_position(obscurity_weights(pool, shortlist, dict), second as int)] as int
}

/// The position `position` can leave the pool in one round: on a pool that
/// was small, some draw below the weight of the pool falls on it; on a pool
/// that was large, it is the position of the round for some numbers that can
/// be drawn.
pub open spec fn is_round(
    pool: Seq<(u64, (WordID, PracticeDirection))>,
    dict: DictionaryView,
    large: bool,
    position: int,
) -> bool {
    if large {
        exists|draws: Seq<u128>, second: u128|
            large_draws_fit(pool, dict, draws, second) && position == #[trigger] large_round(
                pool,
                dict,
                draws,
                second,
            )
    } else {
        exists|draw: int| 0 <= draw < total_weight(pool) && #[trigger] is_drawn(pool, draw, position)
    }
}

/// `left` is the pool `pool` in which the candidates at the positions
/// `listed` weigh nothing and all others are as they were; the positions are
/// positions of the pool and all different.
pub open spec fn is_left(
    pool: Seq<(u64, (WordID, PracticeDirection))>,
    left: Seq<(u64, (WordID, PracticeDirection))>,
    listed: Seq<usize>,
) -> bool {
    &&& left.len() == pool.len()
    &&& listed.no_duplicates()
    &&& forall|t: int| 0 <= t < listed.len() ==> (#[trigger] listed[t]) < pool.len()
    &&& forall|j: int|
        0 <= j < pool.len() ==> #[trigger] left[j] == if listed.contains(j as usize) {
            (0u64, pool[j].1)
        } else {
            pool[j]
        }
}

/// One more draw for the shortlist falls on a position that is not on it
/// yet, and leaves the pool with that position weighing nothing too.
proof fn lemma_shortlist_step(
    pool: Seq<(u64, (WordID, PracticeDirection))>,
    left: Seq<(u64, (WordID, PracticeDirection))>,
    listed: Seq<usize>,
    draw: int,
)
    requires
        pool.len() <= usize::MAX,
        is_left(pool, left, listed),
        0 <= draw < total_weight(left),
    ensures
        is_left(
            pool,
            without_weight(left, drawn_position(left, draw)),
            listed.push(drawn_position(left, draw) as usize),
        ),
        0 <= drawn_position(left, draw) < pool.len(),
{
    let i = pick_exists(left, draw);
    lemma_drawn_position(left, draw, i);
    let after = without_weight(left, i);
    let longer = listed.push(i as usize);
    assert(!listed.contains(i as usize));
    assert forall|a: int, b: int|
        0 <= a < longer.len() && 0 <= b < longer.len() && a != b implies longer[a] != longer[b] by {
        if a < listed.len() && b < listed.len() {
            assert(listed[a] != listed[b]);
        } else if a < listed.len() {
            assert(listed.contains(listed[a]));
        } else {
            assert(listed.contains(listed[b]));
        }
    }
    assert forall|j: int| 0 <= j < pool.len() implies #[trigger] after[j] == if longer.contains(
        j as usize,
    ) {
        (0u64, pool[j].1)
    } else {
        pool[j]
    } by {
        if j == i {
            assert(longer[listed.len() as int] == i as usize);
        } else {
            assert(after[j] == left[j]);
            if listed.contains(j as usize) {
                let t = choose|t: int| 0 <= t < listed.len() && listed[t] == j as usize;
                assert(longer[t] == j as usize);
            }
            if longer.contains(j as usize) {
                let t = choose|t: int| 0 <= t < longer.len() && longer[t] == j as usize;
                if t == listed.len() {
                    assert(longer[t] == i as usize);
                } else {
                    assert(listed[t] == j as usize);
                }
            }
        }
    }
}

/// The pool as it is left after the candidates at the positions `positions`
/// have left it, one after the other, each position counted in the pool as
/// it stood when its candidate left.
pub open spec fn remaining_after(
    candidates: Seq<(u64, (WordID, PracticeDirection))>,
    positions: Seq<int>,
) -> Seq<(u64, (WordID, PracticeDirection))>
    decreases positions.len(),
{
    if positions.len() == 0 {
        candidates
    } else {
        remaining_after(candidates, positions.drop_last()).remove(positions.last())
    }
}

/// The candidates that leave the pool at the positions `positions`, in the
/// order in which they leave.
pub open spec fn drawn_by(
    candidates: Seq<(u64, (WordID, PracticeDirection))>,
    positions: Seq<int>,
) -> Seq<(WordID, PracticeDirection)> {
    Seq::new(
        positions.len(),
        |t: int| remaining_after(candidates, positions.take(t))[positions[t]].1,
    )
}

/// Each of the positions `positions` can leave the pool in its round.
pub open spec fn is_rounds(
    candidates: Seq<(u64, (WordID, PracticeDirection))>,
    dict: DictionaryView,
    large: bool,
    positions: Seq<int>,
) -> bool {
    forall|t: int|
        0 <= t < positions.len() ==> {
            &&& 0 <= #[trigger] positions[t] < remaining_after(candidates, positions.take(t)).len()
            &&& is_round(remaining_after(candidates, positions.take(t)), dict, large, positions[t])
        }
}

/// `pool` is drawn from `candidates` as a session draws it: all candidates,
/// in their order, where they are no more than a session asks; otherwise as
/// many as a session asks, each leaving the pool in a round of its own.
/// Below `LARGE_POOL` candidates a round draws by the weight of the
/// candidates; from there on it draws a shortlist by weight and one of the
/// shortlist by obscurity.
pub open spec fn is_drawn_pool(
    pool: Seq<(WordID, PracticeDirection)>,
    candidates: Seq<(u64, (WordID, PracticeDirection))>,
    dict: DictionaryView,
) -> bool {
    if candidates.len() <= SESSION_SIZE {
        pool == candidates.map_values(|c: (u64, (WordID, PracticeDirection))| c.1)
    } else {
        exists|positions: Seq<int>|
            {
                &&& positions.len() == SESSION_SIZE
                &&& is_rounds(candidates, dict, candidates.len() >= LARGE_POOL, positions)
                &&& pool == #[trigger] drawn_by(candidates, positions)
            }
    }
}

/// What the draws for a shortlist leave and give: the positions on the
/// shortlist are positions of the pool and all different, and the candidates
/// there weigh nothing while all others are as they were.
pub proof fn lemma_shortlist(pool: Seq<(u64, (WordID, PracticeDirection))>, draws: Seq<u128>)
    requires
        pool.len() <= usize::MAX,
        draws_fit(pool, draws),
    ensures
        is_left(pool, left_after(pool, draws), shortlist_of(pool, draws)),
        shortlist_of(pool, draws).len() == draws.len(),
    decreases draws.len(),
{
    if draws.len() > 0 {
        let earlier = draws.drop_last();
        assert forall|t: int| 0 <= t < earlier.len() implies (#[trigger] earlier[t]) < total_weight(
            left_after(pool, earlier.take(t)),
        ) by {
            assert(earlier[t] == draws[t]);
            assert(earlier.take(t) =~= draws.take(t));
        }
        lemma_shortlist(pool, earlier);
        assert(draws.take(draws.len() - 1) =~= earlier);
        assert(draws[draws.len() - 1] < total_weight(left_after(pool, earlier)));
        lemma_shortlist_step(
            pool,
            left_after(pool, earlier),
            shortlist_of(pool, earlier),
            draws.last() as int,
        );
    } else {
        assert(is_left(pool, pool, Seq::<usize>::empty()));
    }
}

/// A draw below the total weight falls on a position.
proof fn pick_exists<T>(list: Seq<(u64, T)>, draw: int) -> (i: int)
    requires
        0 <= draw < total_weight(list),
    ensures
        is_drawn(list, draw, i),
{
    lemma_draw_falls(list, draw);
    drawn_position(list, draw)
}

/// Each draw for a shortlist falls, by weight, on the position that it puts
/// on the shortlist, in the pool as the draws before it have left it.
pub proof fn lemma_shortlist_drawn(
    pool: Seq<(u64, (WordID, PracticeDirection))>,
    draws: Seq<u128>,
    t: int,
)
    requires
        pool.len() <= usize::MAX,
        draws_fit(pool, draws),
        0 <= t < draws.len(),
    ensures
        shortlist_of(pool, draws).len() == draws.len(),
        is_drawn(
            left_after(pool, draws.take(t)),
            draws[t] as int,
            shortlist_of(pool, draws)[t] as int,
        ),
    decreases draws.len(),
{
    let earlier = draws.drop_last();
    assert forall|k: int| 0 <= k < earlier.len() implies (#[trigger] earlier[k]) < total_weight(
        left_after(pool, earlier.take(k)),
    ) by {
        assert(earlier[k] == draws[k]);
        assert(earlier.take(k) =~= draws.take(k));
    }
    lemma_shortlist_len(pool, draws);
    lemma_shortlist_len(pool, earlier);
    if t < draws.len() - 1 {
        lemma_shortlist_drawn(pool, earlier, t);
        assert(earlier.take(t) =~= draws.take(t));
        assert(shortlist_of(pool, draws)[t] == shortlist_of(pool, earlier)[t]);
    } else {
        assert(draws.take(t) =~= earlier);
        lemma_shortlist(pool, earlier);
        let left = left_after(pool, earlier);
        lemma_draw_falls(left, draws[t] as int);
    }
}

/// A shortlist has as many positions as there were draws.
proof fn lemma_shortlist_len(pool: Seq<(u64, (WordID, PracticeDirection))>, draws: Seq<u128>)
    ensures
        shortlist_of(pool, draws).len() == draws.len(),
    decreases draws.len(),
{
    if draws.len() > 0 {
        lemma_shortlist_len(pool, draws.drop_last());
    }
}

/// The position that leaves a small pool when `draw` is drawn: the one on
/// which the draw falls, by the weight of the candidates.
pub fn small_round_position(pool: &Vec<(u64, (WordID, PracticeDirection))>, draw: u128) -> (position:
    usize)
    requires
        draw < total_weight(pool@),
    ensures
        is_drawn(pool@, draw as int, position as int),
        position == drawn_position(pool@, draw as int),
        position < pool.len(),
{
    pick_at(pool.as_slice(), draw)
}

/// Takes the draw `draw` for the shortlist: the position it falls on joins
/// the shortlist and weighs nothing from then on.
fn shortlist_step(
    left: &mut Vec<(u64, (WordID, PracticeDirection))>,
    shortlist: &mut Vec<usize>,
    draw: u128,
    Ghost(pool): Ghost<Seq<(u64, (WordID, PracticeDirection))>>,
    Ghost(draws): Ghost<Seq<u128>>,
)
    requires
        old(left)@ == left_after(pool, draws),
        old(shortlist)@ == shortlist_of(pool, draws),
        draw < total_weight(old(left)@),
    ensures
        final(left)@ == left_after(pool, draws.push(draw)),
        final(shortlist)@ == shortlist_of(pool, draws.push(draw)),
{
    let j = pick_at(left.as_slice(), draw);
    let item = left[j].1;
    left.set(j, (0, item));
    shortlist.push(j);
    proof {
        assert(draws.push(draw).drop_last() =~= draws);
    }
}

/// A copy of the pool.
fn copy_pool(pool: &Vec<(u64, (WordID, PracticeDirection))>) -> (copy: Vec<
    (u64, (WordID, PracticeDirection)),
>)
    ensures
        copy@ == pool@,
{
    let mut copy: Vec<(u64, (WordID, PracticeDirection))> = Vec::new();
    let mut k: usize = 0;
    while k < pool.len()
        invariant
            k <= pool.len(),
            copy@ == pool@.take(k as int),
        decreases pool.len() - k,
    {
        copy.push(pool[k]);
        assert(pool@.take(k + 1) =~= pool@.take(k as int).push(pool@[k as int]));
        k += 1;
    }
    assert(pool@.take(pool.len() as int) =~= pool@);
    copy
}

/// The shortlist that the draws `draws` give: each draw falls on one
/// position of the pool, by the weight of the candidates, among the positions
/// that no draw before it fell on.
pub fn shortlist_at(pool: &Vec<(u64, (WordID, PracticeDirection))>, draws: &[u128]) -> (shortlist:
    Vec<usize>)
    requires
        draws_fit(pool@, draws@),
    ensures
        shortlist@ == shortlist_of(pool@, draws@),
        shortlist.len() == draws.len(),
        shortlist@.no_duplicates(),
        forall|t: int| 0 <= t < shortlist.len() ==> (#[trigger] shortlist[t]) < pool.len(),
{
    let mut left = copy_pool(pool);
    let mut shortlist: Vec<usize> = Vec::new();
    let mut t: usize = 0;
    while t < draws.len()
        invariant
            t <= draws.len(),
            draws_fit(pool@, draws@),
            left@ == left_after(pool@, draws@.take(t as int)),
            shortlist@ == shortlist_of(pool@, draws@.take(t as int)),
        decreases draws.len() - t,
    {
        let ghost earlier = draws@.take(t as int);
        assert(draws@[t as int] < total_weight(left_after(pool@, earlier)));
        shortlist_step(&mut left, &mut shortlist, draws[t], Ghost(pool@), Ghost(earlier));
        assert(draws@.take(t + 1) =~= earlier.push(draws@[t as int]));
        t += 1;
    }
    let size: usize = pool.len();
    proof {
        assert(draws@.take(draws.len() as int) =~= draws@);
        lemma_shortlist(pool@, draws@);
    }
    shortlist
}

/// The position among `shortlist` on which the second draw `draw` falls,
/// each position with a weight of one more than the obscurity of its word
/// lacks to the greatest obscurity among them.
pub fn position_by_obscurity(
    pool: &Vec<(u64, (WordID, PracticeDirection))>,
    shortlist: &Vec<usize>,
    dict: &Dictionary,
    draw: u128,
) -> (position: usize)
    requires
        forall|t: int| 0 <= t < shortlist.len() ==> (#[trigger] shortlist[t]) < pool.len(),
        usable(pool@, dict@),
        draw < total_weight(obscurity_weights(pool@, shortlist@, dict@)),
    ensures
        position == shortlist[drawn_position(
            obscurity_weights(pool@, shortlist@, dict@),
            draw as int,
        )],
        is_drawn(
            obscurity_weights(pool@, shortlist@, dict@),
            draw as int,
            drawn_position(obscurity_weights(pool@, shortlist@, dict@), draw as int),
        ),
        position < pool.len(),
        shortlist@.contains(position),
{
    let reweighted = weigh_by_obscurity(pool, shortlist, dict);
    let choice = pick_at(reweighted.as_slice(), draw);
    reweighted[choice].1
}

/// The greatest obscurity among the positions is no less than that of any of
/// them.
proof fn lemma_greatest_obscurity(
    pool: Seq<(u64, (WordID, PracticeDirection))>,
    shortlist: Seq<usize>,
    dict: DictionaryView,
    j: int,
)
    requires
        0 <= j < shortlist.len(),
    ensures
        dict.obscurity_of(pool[shortlist[j] as int].1.0) <= greatest_obscurity(pool, shortlist, dict)
            <= u32::MAX,
    decreases shortlist.len(),
{
    let rest = shortlist.drop_last();
    if j < shortlist.len() - 1 {
        lemma_greatest_obscurity(pool, rest, dict, j);
        assert(rest[j] == shortlist[j]);
    } else if shortlist.len() > 1 {
        lemma_greatest_obscurity(pool, rest, dict, 0);
    }
}

/// The positions `shortlist` with their weights for the second draw.
fn weigh_by_obscurity(
    pool: &Vec<(u64, (WordID, PracticeDirection))>,
    shortlist: &Vec<usize>,
    dict: &Dictionary,
) -> (reweighted: Vec<(u64, usize)>)
    requires
        forall|t: int| 0 <= t < shortlist.len() ==> (#[trigger] shortlist[t]) < pool.len(),
        usable(pool@, dict@),
    ensures
        reweighted@ == obscurity_weights(pool@, shortlist@, dict@),
{
    let mut max_obs: u32 = 0;
    let mut i: usize = 0;
    while i < shortlist.len()
        invariant
            i <= shortlist.len(),
            forall|t: int| 0 <= t < shortlist.len() ==> (#[trigger] shortlist[t]) < pool.len(),
            usable(pool@, dict@),
            max_obs == greatest_obscurity(pool@, shortlist@.take(i as int), dict@),
        decreases shortlist.len() - i,
    {
        let w = dict.get_word_from_id(pool[shortlist[i]].1.0);
        proof {
            assert(shortlist@.take(i + 1).drop_last() =~= shortlist@.take(i as int));
        }
        if w.obscurity > max_obs {
            max_obs = w.obscurity;
        }
        i += 1;
    }
    assert(shortlist@.take(shortlist.len() as int) =~= shortlist@);
    let mut reweighted: Vec<(u64, usize)> = Vec::new();
    let mut i: usize = 0;
    while i < shortlist.len()
        invariant
            i <= shortlist.len(),
            reweighted.len() == i,
            forall|t: int| 0 <= t < shortlist.len() ==> (#[trigger] shortlist[t]) < pool.len(),
            usable(pool@, dict@),
            max_obs == greatest_obscurity(pool@, shortlist@, dict@),
            forall|j: int|
                0 <= j < i ==> #[trigger] reweighted[j] == obscurity_weights(
                    pool@,
                    shortlist@,
                    dict@,
                )[j],
        decreases shortlist.len() - i,
    {
        let w = dict.get_word_from_id(pool[shortlist[i]].1.0);
        proof {
            lemma_greatest_obscurity(pool@, shortlist@, dict@, i as int);
        }
        reweighted.push(((max_obs - w.obscurity) as u64 + 1, shortlist[i]));
        i += 1;
    }
    assert(reweighted@ =~= obscurity_weights(pool@, shortlist@, dict@));
    reweighted
}

/// The position that leaves a large pool in a round in which the numbers
/// `draws` and `second` are drawn.
pub fn large_round_position(
    pool: &Vec<(u64, (WordID, PracticeDirection))>,
    dict: &Dictionary,
    draws: &[u128],
    second: u128,
) -> (position: usize)
    requires
        usable(pool@, dict@),
        large_draws_fit(pool@, dict@, draws@, second),
    ensures
        position == large_round(pool@, dict@, draws@, second),
        position < pool.len(),
{
    let shortlist = shortlist_at(pool, draws);
    position_by_obscurity(pool, &shortlist, dict, second)
}

/// Draws the numbers of a round on a small pool and gives the position that
/// leaves the pool.
fn draw_small_round(pool: &Vec<(u64, (WordID, PracticeDirection))>, Ghost(dict): Ghost<DictionaryView>) -> (position:
    usize)
    requires
        pool.len() > 0,
        usable(pool@, dict),
    ensures
        position < pool.len(),
        is_round(pool@, dict, false, position as int),
{
    proof {
        lemma_positive_total(pool@, 0);
    }
    let total = sum_weights(pool.as_slice());
    let draw = random_below(total);
    let position = small_round_position(pool, draw);
    assert(is_drawn(pool@, draw as int, position as int));
    position
}

/// Draws the numbers of a round on a large pool and gives the position that
/// leaves the pool.
fn draw_large_round(pool: &Vec<(u64, (WordID, PracticeDirection))>, dict: &Dictionary) -> (position:
    usize)
    requires
        pool.len() > SHORTLIST_SIZE,
        usable(pool@, dict@),
    ensures
        position < pool.len(),
        is_round(pool@, dict@, true, position as int),
{
    let mut left = copy_pool(pool);
    let mut shortlist: Vec<usize> = Vec::new();
    let mut draws: Vec<u128> = Vec::new();
    while draws.len() < SHORTLIST_SIZE
        invariant
            draws.len() <= SHORTLIST_SIZE,
            pool.len() > SHORTLIST_SIZE,
            usable(pool@, dict@),
            draws_fit(pool@, draws@),
            left@ == left_after(pool@, draws@),
            shortlist@ == shortlist_of(pool@, draws@),
        decreases SHORTLIST_SIZE - draws.len(),
    {
        proof {
            lemma_shortlist(pool@, draws@);
            lemma_position_left(shortlist@, pool.len());
            let free = choose|free: usize| free < pool.len() && !(#[trigger] shortlist@.contains(free));
            assert(left@[free as int] == pool@[free as int]);
            assert(pool@[free as int].0 > 0);
            lemma_positive_total(left@, free as int);
        }
        let total = sum_weights(left.as_slice());
        let draw = random_below(total);
        let ghost earlier = draws@;
        shortlist_step(&mut left, &mut shortlist, draw, Ghost(pool@), Ghost(earlier));
        draws.push(draw);
        proof {
            assert forall|t: int| 0 <= t < draws@.len() implies (#[trigger] draws@[t]) < total_weight(
                left_after(pool@, draws@.take(t)),
            ) by {
                if t < earlier.len() {
                    assert(draws@[t] == earlier[t]);
                    assert(draws@.take(t) =~= earlier.take(t));
                } else {
                    assert(draws@.take(t) =~= earlier);
                }
            }
        }
    }
    proof {
        lemma_shortlist(pool@, draws@);
        let weights = obscurity_weights(pool@, shortlist@, dict@);
        lemma_greatest_obscurity(pool@, shortlist@, dict@, 0);
        assert(weights[0].0 > 0);
        lemma_positive_total(weights, 0);
    }
    let reweighted = weigh_by_obscurity(pool, &shortlist, dict);
    let second = random_below(sum_weights(reweighted.as_slice()));
    let position = position_by_obscurity(pool, &shortlist, dict, second);
    assert(large_draws_fit(pool@, dict@, draws@, second));
    assert(position == large_round(pool@, dict@, draws@, second));
    position
}

/// Draws the pool of a session from `candidates`.
///
/// Twenty candidates or fewer all go into the session, in their order. Of
/// more, twenty are drawn without putting any back. Below a hundred
/// candidates each is drawn by its weight. From a hundred on, each of the
/// twenty is found by drawing ten different candidates by weight and, among
/// those, one with a weight of one more than its word's obscurity lacks to
/// the greatest obscurity of the ten.
pub fn select_pool(candidates: Vec<(u64, (WordID, PracticeDirection))>, dict: &Dictionary) -> (word_pool:
    Vec<(WordID, PracticeDirection)>)
    requires
        usable(candidates@, dict@),
    ensures
        is_selection(word_pool@, candidates@),
        is_drawn_pool(word_pool@, candidates@, dict@),
{
    let ghost all = candidates@;
    let mut word_pool: Vec<(WordID, PracticeDirection)> = Vec::new();
    if candidates.len() <= SESSION_SIZE {
        let mut i: usize = 0;
        while i < candidates.len()
            invariant
                i <= candidates.len(),
                word_pool.len() == i,
                forall|j: int| 0 <= j < i ==> #[trigger] word_pool[j] == candidates[j].1,
            decreases candidates.len() - i,
        {
            word_pool.push(candidates[i].1);
            i += 1;
        }
        assert(word_pool@ =~= all.map_values(|c: (u64, (WordID, PracticeDirection))| c.1));
        return word_pool;
    }
    let large = candidates.len() >= LARGE_POOL;
    let mut pool = candidates;
    let ghost mut origin: Seq<int> = Seq::new(all.len(), |i: int| i);
    let ghost mut picks: Seq<int> = Seq::empty();
    let ghost mut positions: Seq<int> = Seq::empty();
    let mut round: usize = 0;
    assert(word_pool@ =~= drawn_by(all, positions));
    while round < SESSION_SIZE
        invariant
            round <= SESSION_SIZE,
            word_pool.len() == round,
            all.len() > SESSION_SIZE,
            large == (all.len() >= LARGE_POOL),
            usable(all, dict@),
            drawing(all, pool@, origin, word_pool@, picks),
            positions.len() == round,
            pool@ == remaining_after(all, positions),
            word_pool@ == drawn_by(all, positions),
            is_rounds(all, dict@, large, positions),
        decreases SESSION_SIZE - round,
    {
        assert(usable(pool@, dict@)) by {
            assert forall|k: int| 0 <= k < pool.len() implies (#[trigger] pool@[k]).0 > 0
                && pool@[k].1.0@ < dict@.words.len() by {
                assert(pool@[k] == all[origin[k]]);
            }
        }
        let position = if large {
            draw_large_round(&pool, dict)
        } else {
            draw_small_round(&pool, Ghost(dict@))
        };
        let next = draw_candidate(
            &mut pool,
            &mut word_pool,
            position,
            Ghost(all),
            Ghost(origin),
            Ghost(picks),
        );
        proof {
            origin = next.0@;
            picks = next.1@;
            let longer = positions.push(position as int);
            assert(longer.drop_last() =~= positions);
            assert forall|t: int| 0 <= t < longer.len() implies remaining_after(all, longer.take(t))
                == remaining_after(all, positions.take(t)) by {
                if t < positions.len() {
                    assert(longer.take(t) =~= positions.take(t));
                } else {
                    assert(longer.take(t) =~= positions);
                    assert(positions.take(t) =~= positions);
                }
            }
            assert(word_pool@ =~= drawn_by(all, longer));
            positions = longer;
        }
        round += 1;
    }
    assert(is_selected_by(word_pool@, all, picks));
    word_pool
}

/// A running practice session: the words still to be asked, the knowledge of
/// the user who practises, and the time the session started.
#[derive(Debug)]
pub struct PracticeSession {
    word_pool: Vec<(WordID, PracticeDirection)>,
    knowledge: Knowledge,
    start_time: i64,
}

/// What a [`PracticeSession`] holds, as mathematical values.
pub struct PracticeSessionView {
    pub word_pool: Seq<(WordID, PracticeDirection)>,
    pub knowledge: KnowledgeView,
    pub start_time: i64,
}

impl PracticeSessionView {
    /// This is a session on the words of `dict` up to the obscurity
    /// `score_max`, started at `now` with the knowledge `knowledge`: its pool
    /// is drawn from the candidates that those words give at that time.
    pub open spec fn is_session_of(
        self,
        dict: DictionaryView,
        knowledge: KnowledgeView,
        score_max: u32,
        now: i64,
    ) -> bool {
        &&& self.knowledge == knowledge
        &&& self.start_time == now
        &&& is_selection(
            self.word_pool,
            candidates_of(dict.leq_list(score_max), knowledge.knowledge, now),
        )
        &&& is_drawn_pool(
            self.word_pool,
            candidates_of(dict.leq_list(score_max), knowledge.knowledge, now),
            dict,
        )
    }

    /// The session after the word at position `choice` has left the pool.
    pub open spec fn without(self, choice: int) -> PracticeSessionView {
        PracticeSessionView { word_pool: self.word_pool.remove(choice), ..self }
    }
}

impl View for PracticeSession {
    type V = PracticeSessionView;

    closed spec fn view(&self) -> PracticeSessionView {
        PracticeSessionView {
            word_pool: self.word_pool@,
            knowledge: self.knowledge@,
            start_time: self.start_time,
        }
    }
}

impl PracticeSession {
    /// Starts a session now on the words of `dict` whose obscurity is at most
    /// `score_max`, taking custody of `knowledge`.
    pub fn new(dict: &Dictionary, knowledge: Knowledge, score_max: u32) -> (session: PracticeSession)
        requires
            dict@.words.len() <= knowledge@.knowledge.len(),
        ensures
            exists|now: i64| session@.is_session_of(dict@, knowledge@, score_max, now),
    {
        let start_time = current_timestamp();
        let session = PracticeSession::new_at(dict, knowledge, score_max, start_time);
        assert(session@.is_session_of(dict@, knowledge@, score_max, start_time));
        session
    }

    /// Starts a session at time `start_time` on the words of `dict` whose
    /// obscurity is at most `score_max`, taking custody of `knowledge`.
    pub fn new_at(dict: &Dictionary, knowledge: Knowledge, score_max: u32, start_time: i64) -> (session:
        PracticeSession)
        requires
            dict@.words.len() <= knowledge@.knowledge.len(),
        ensures
            session@.is_session_of(dict@, knowledge@, score_max, start_time),
    {
        let potential_word_pool = build_candidates(dict, &knowledge, score_max, start_time);
        let word_pool = select_pool(potential_word_pool, dict);
        PracticeSession { word_pool, knowledge, start_time }
    }

    /// Takes one word out of the pool, each with the same chance, and
    /// returns it. The pool must not be empty.
    pub fn pick_word(&mut self) -> (word: (WordID, PracticeDirection))
        requires
            old(self)@.word_pool.len() > 0,
        ensures
            exists|choice: int|
                0 <= choice < old(self)@.word_pool.len() && word == #[trigger] old(
                    self,
                )@.word_pool[choice] && final(self)@ == old(self)@.without(choice),
    {
        let choice = random_below(self.word_pool.len() as u128) as usize;
        let word = self.pick_word_at(choice);
        assert(word == old(self)@.word_pool[choice as int]);
        word
    }

    /// Takes the word at position `choice` out of the pool and returns it.
    pub fn pick_word_at(&mut self, choice: usize) -> (word: (WordID, PracticeDirection))
        requires
            choice < old(self)@.word_pool.len(),
        ensures
            word == old(self)@.word_pool[choice as int],
            final(self)@ == old(self)@.without(choice as int),
    {
        self.word_pool.remove(choice)
    }

    /// The number of words still in the pool.
    pub fn get_pool_size(&self) -> (size: usize)
        ensures
            size == self@.word_pool.len(),
    {
        self.word_pool.len()
    }

    /// The knowledge that the session holds.
    pub fn get_knowledge(&self) -> (knowledge: &Knowledge)
        ensures
            knowledge@ == self@.knowledge,
    {
        &self.knowledge
    }

    /// The time the session started, in seconds since 1970.
    pub fn get_start_time(&self) -> (start: i64)
        ensures
            start == self@.start_time,
    {
        self.start_time
    }

    /// Records an answer for `word` in `direction`, given now, in the
    /// knowledge that the session holds.
    pub fn practice(&mut self, word: WordID, direction: PracticeDirection, correct: bool)
        requires
            word@ < old(self)@.knowledge.knowledge.len(),
        ensures
            exists|now: i64|
                final(self)@ == (PracticeSessionView {
                    knowledge: #[trigger] old(self)@.knowledge.practiced(
                        word,
                        direction,
                        correct,
                        now,
                    ),
                    ..old(self)@
                }),
    {
        self.knowledge.practice(word, direction, correct);
    }

    /// Ends the session and gives the knowledge back.
    pub fn recover_knowledge(self) -> (knowledge: Knowledge)
        ensures
            knowledge@ == self@.knowledge,
    {
        self.knowledge
    }
}

} // verus!
