//! The index from obscurity to the words of that obscurity: an ordered map
//! from the obscurity to the set of the positions of its words.

use std::collections::{BTreeMap, BTreeSet};
use vstd::prelude::*;
use vstd::laws_cmp::group_laws_cmp;
use vstd::std_specs::btree::{
    axiom_increasing_seq_meaning,
    group_btree_axioms,
    increasing_seq,
    spec_btree_keys_iter,
    spec_btree_map_iter,
};
use vstd::std_specs::iter::IteratorSpec;
use vstd::std_specs::cmp::OrdSpec;
use crate::words::dictionary::WordID;

verus! {

/// The position `i` is filed under the obscurity `obs`.
pub open spec fn files(index: Map<u32, BTreeSet<usize>>, obs: u32, i: usize) -> bool {
    index.contains_key(obs) && index[obs]@.contains(i)
}

/// The positions that are filed under the obscurity `obs`.
pub open spec fn filed_under(index: Map<u32, BTreeSet<usize>>, obs: u32) -> Set<usize> {
    if index.contains_key(obs) {
        index[obs]@
    } else {
        Set::empty()
    }
}

/// The entry `a` comes before the entry `b`: its obscurity is less, or the
/// same and its position is less.
pub open spec fn entry_before(a: (u32, usize), b: (u32, usize)) -> bool {
    a.0 < b.0 || (a.0 == b.0 && a.1 < b.1)
}

/// `out` lists what is filed under an obscurity of at most `score`, each
/// entry once, in ascending order of obscurity and, under one obscurity, of
/// position.
pub open spec fn is_listing(index: Map<u32, BTreeSet<usize>>, score: u32, out: Seq<(u32, usize)>) -> bool {
    &&& forall|k: int| 0 <= k < out.len() ==> files(index, (#[trigger] out[k]).0, out[k].1) && out[k].0 <= score
    &&& forall|obs: u32, i: usize| #[trigger] files(index, obs, i) && obs <= score ==> out.contains((obs, i))
    &&& forall|k: int, l: int| 0 <= k < l < out.len() ==> entry_before(#[trigger] out[k], #[trigger] out[l])
}

/// `after` is `before` with the position `id` filed under the obscurity
/// `obs`: the set under `obs` has gained the position, a set that was not
/// there has been started, no obscurity is gone, and the sets under all other
/// obscurities are the sets they were.
pub open spec fn is_filed(
    before: Map<u32, BTreeSet<usize>>,
    after: Map<u32, BTreeSet<usize>>,
    id: usize,
    obs: u32,
) -> bool {
    &&& after.dom() == before.dom().insert(obs)
    &&& filed_under(after, obs) == filed_under(before, obs).insert(id)
    &&& forall|k: u32| k != obs && before.contains_key(k) ==> #[trigger] after[k] == before[k]
}

/// After a position was filed, what is filed is what was filed and that
/// position under its obscurity. So filing a position that is filed already
/// leaves what is filed as it is.
pub proof fn lemma_filed(
    before: Map<u32, BTreeSet<usize>>,
    after: Map<u32, BTreeSet<usize>>,
    id: usize,
    obs: u32,
)
    requires
        is_filed(before, after, id, obs),
    ensures
        forall|o: u32, i: usize|
            #[trigger] files(after, o, i) <==> files(before, o, i) || (o == obs && i == id),
        files(before, obs, id) ==> forall|o: u32| #[trigger]
            filed_under(after, o) == filed_under(before, o),
{
    assert forall|o: u32, i: usize| #[trigger]
        files(after, o, i) <==> files(before, o, i) || (o == obs && i == id) by {
        if o == obs {
            assert(filed_under(after, obs).contains(i) <==> filed_under(before, obs).contains(i)
                || i == id);
        } else if before.contains_key(o) {
            assert(after[o] == before[o]);
        } else {
            assert(!after.dom().contains(o));
        }
    }
    if files(before, obs, id) {
        assert forall|o: u32| #[trigger] filed_under(after, o) == filed_under(before, o) by {
            if o == obs {
                assert(filed_under(before, obs).insert(id) =~= filed_under(before, obs));
            } else if before.contains_key(o) {
                assert(after[o] == before[o]);
            } else {
                assert(!after.dom().contains(o));
            }
        }
    }
}

/// Files the word `id` under the obscurity `obs`: the set under `obs` gains
/// its position, a set that was not there is started, and what is filed
/// under every other obscurity stays. A word that is filed there already
/// changes nothing in what is filed.
pub fn insert_obs(obscurity_index: &mut BTreeMap<u32, BTreeSet<usize>>, id: WordID, obs: u32)
    ensures
        is_filed(old(obscurity_index)@, final(obscurity_index)@, id@, obs),
{
    broadcast use group_laws_cmp;

    let mut set = match obscurity_index.remove(&obs) {
        Some(s) => s,
        None => BTreeSet::new(),
    };
    set.insert(id.into());
    obscurity_index.insert(obs, set);
    assert(final(obscurity_index)@.dom() =~= old(obscurity_index)@.dom().insert(obs));
}

/// Numbers in increasing order are each less than those after them.
proof fn lemma_increasing_keys(s: Seq<u32>)
    requires
        increasing_seq(s),
    ensures
        forall|i: int, j: int| 0 <= i < j < s.len() ==> s[i] < s[j],
{
    broadcast use group_laws_cmp;

    axiom_increasing_seq_meaning::<u32>(s);
    assert forall|i: int, j: int| 0 <= i < j < s.len() implies s[i] < s[j] by {
        assert(s[i].cmp_spec(&s[j]) is Less);
    }
}

/// Positions in increasing order are each less than those after them.
proof fn lemma_increasing_positions(s: Seq<&usize>)
    requires
        increasing_seq(s),
    ensures
        forall|i: int, j: int| 0 <= i < j < s.len() ==> *s[i] < *s[j],
{
    broadcast use group_laws_cmp;

    assert(vstd::laws_cmp::obeys_cmp::<usize>());
    assert(vstd::laws_cmp::obeys_cmp::<&usize>());
    axiom_increasing_seq_meaning::<&usize>(s);
    assert forall|i: int, j: int| 0 <= i < j < s.len() implies *s[i] < *s[j] by {
        assert((&s[i]).cmp_spec(&s[j]) is Less);
    }
}

/// Appends to `out` the positions in `set`, in ascending order, each with
/// the obscurity `key`.
fn list_set(out: &mut Vec<(u32, usize)>, key: u32, set: &BTreeSet<usize>)
    ensures
        final(out)@.len() >= old(out)@.len(),
        forall|k: int| 0 <= k < old(out)@.len() ==> final(out)@[k] == old(out)@[k],
        forall|k: int|
            old(out)@.len() <= k < final(out)@.len() ==> (#[trigger] final(out)@[k]).0 == key
                && set@.contains(final(out)@[k].1),
        forall|k: int, l: int|
            old(out)@.len() <= k < l < final(out)@.len() ==> (#[trigger] final(out)@[k]).1 < (
            #[trigger] final(out)@[l]).1,
        forall|i: usize| set@.contains(i) ==> final(out)@.contains((key, i)),
{
    broadcast use group_laws_cmp;
    broadcast use group_btree_axioms;

    let ghost before = out@;
    let ghost positions = spec_btree_keys_iter(set).remaining();
    let ghost mut n: int = 0;
    proof {
        lemma_increasing_positions(positions);
    }
    for i in jt: set.iter()
        invariant
            jt.seq() == positions,
            n == jt.index(),
            forall|a: int, b: int| 0 <= a < b < positions.len() ==> *positions[a] < *positions[b],
            out@.len() == before.len() + n,
            forall|k: int| 0 <= k < before.len() ==> out@[k] == before[k],
            forall|k: int| 0 <= k < n ==> #[trigger] out@[before.len() + k] == (key, *positions[k]),
    {
        out.push((key, *i));
        proof {
            n = n + 1;
        }
    }
    proof {
        assert(n == positions.len());
        assert forall|k: int| before.len() <= k < out@.len() implies (#[trigger] out@[k]).0 == key
            && set@.contains(out@[k].1) by {
            let j = k - before.len();
            assert(out@[before.len() + j] == (key, *positions[j]));
            assert(positions.unref()[j] == *positions[j]);
            assert(positions.unref().to_set().contains(*positions[j]));
        }
        assert forall|k: int, l: int| before.len() <= k < l < out@.len() implies (
        #[trigger] out@[k]).1 < (#[trigger] out@[l]).1 by {
            let a = k - before.len();
            let b = l - before.len();
            assert(out@[before.len() + a] == (key, *positions[a]));
            assert(out@[before.len() + b] == (key, *positions[b]));
        }
        assert forall|i: usize| set@.contains(i) implies out@.contains((key, i)) by {
            assert(positions.unref().to_set().contains(i));
            let j = choose|j: int| 0 <= j < positions.unref().len() && positions.unref()[j] == i;
            assert(out@[before.len() + j] == (key, *positions[j]));
        }
    }
}

/// What is filed under an obscurity of at most `score`: each entry once, in
/// ascending order of obscurity and, under one obscurity, of position. The
/// index is walked from its least obscurity up to the first beyond `score`.
pub fn entries_up_to(index: &BTreeMap<u32, BTreeSet<usize>>, score: u32) -> (out: Vec<(u32, usize)>)
    ensures
        is_listing(index@, score, out@),
{
    broadcast use group_laws_cmp;
    broadcast use group_btree_axioms;

    let mut out: Vec<(u32, usize)> = Vec::new();
    let entries = index.iter();
    let ghost all = spec_btree_map_iter(index).remaining();
    let ghost mut done: int = 0;
    let ghost mut stopped: bool = false;
    proof {
        assert(entries.remaining() == all);
        lemma_increasing_keys(all.map_values(|kv: (&u32, &BTreeSet<usize>)| *kv.0));
        assert forall|a: int, b: int| 0 <= a < b < all.len() implies *all[a].0 < *all[b].0 by {
            let keys = all.map_values(|kv: (&u32, &BTreeSet<usize>)| *kv.0);
            assert(keys[a] == *all[a].0 && keys[b] == *all[b].0);
        }
    }
    for entry in it: entries
        invariant_except_break
            !stopped,
        invariant
            it.seq() == all,
            all == spec_btree_map_iter(index).remaining(),
            0 <= done <= all.len(),
            !stopped ==> done == it.index(),
            stopped ==> done < all.len() && *all[done].0 > score,
            forall|a: int, b: int| 0 <= a < b < all.len() ==> *all[a].0 < *all[b].0,
            forall|k: int|
                0 <= k < out.len() ==> files(index@, (#[trigger] out@[k]).0, out@[k].1) && out@[k].0
                    <= score,
            forall|k: int, l: int|
                0 <= k < l < out.len() ==> entry_before(#[trigger] out@[k], #[trigger] out@[l]),
            forall|k: int, p: int|
                0 <= k < out.len() && done <= p < all.len() ==> (#[trigger] out@[k]).0 < *(
                #[trigger] all[p]).0,
            forall|p: int, i: usize|
                0 <= p < done && #[trigger] (*all[p].1)@.contains(i) ==> out@.contains(
                    (*all[p].0, i),
                ),
        ensures
            stopped || done == all.len(),
    {
        let (key, set) = entry;
        assert(entry == all[done]);
        if *key > score {
            proof {
                stopped = true;
            }
            break;
        }
        let ghost listed = out@;
        list_set(&mut out, *key, set);
        proof {
            assert(index@.contains_key(*all[done].0) && index@[*all[done].0] == *all[done].1);
            assert forall|x: (u32, usize)| listed.contains(x) implies out@.contains(x) by {
                let k = choose|k: int| 0 <= k < listed.len() && listed[k] == x;
                assert(out@[k] == x);
            }
            done = done + 1;
        }
    }
    assert(stopped || done == all.len());
    proof {
        assert forall|obs: u32, i: usize| #[trigger] files(index@, obs, i) && obs <= score implies out@.contains(
            (obs, i),
        ) by {
            assert(all.contains((&obs, &index@[obs])));
            let p = choose|p: int| 0 <= p < all.len() && all[p] == (&obs, &index@[obs]);
            if p >= done {
                assert(done < all.len());
            } else {
                assert((*all[p].1)@.contains(i));
            }
        }
    }
    out
}

} // verus!
