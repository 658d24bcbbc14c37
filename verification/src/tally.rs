//! Counting tents by height, whatever their order: why the landscapes of a
//! set of intervals do not depend on the order in which the intervals come.

use crate::birthdeath::{lemma_proper_pairs, proper_pairs, BirthDeath};
use crate::correctness::{lemma_generate_right, lemma_landscape_on_grid};
use crate::levels::{at_least, height, higher, lemma_level_unique, level, value_at};
use crate::persistencelandscape::{generate_spec, mountains_of};
use vstd::prelude::*;

verus! {

/// Whether the tent over the interval is higher than `v` over the place `t`
/// of the half grid, or, where `strict` is not asked for, at least as high.
pub open spec fn tall(bd: BirthDeath, t: int, v: int, strict: bool) -> bool {
    let up = t - 2 * bd.birth;
    let down = 2 * bd.death - t;
    let least = if up <= down {
        up
    } else {
        down
    };
    let h = if least > 0 {
        least
    } else {
        0
    };
    if strict {
        h > v
    } else {
        h >= v
    }
}

/// How many of the intervals have a tall tent.
pub open spec fn tally(pairs: Seq<BirthDeath>, t: int, v: int, strict: bool) -> nat
    decreases pairs.len(),
{
    if pairs.len() == 0 {
        0
    } else {
        let one: nat = if tall(pairs.last(), t, v, strict) {
            1
        } else {
            0
        };
        tally(pairs.drop_last(), t, v, strict) + one
    }
}

/// The places in the sequence of the intervals that have a tall tent.
pub open spec fn tall_places(pairs: Seq<BirthDeath>, t: int, v: int, strict: bool) -> Set<int> {
    Set::new(|i: int| 0 <= i < pairs.len() && tall(pairs[i], t, v, strict))
}

/// The tally counts the places.
pub proof fn lemma_tally_counts(pairs: Seq<BirthDeath>, t: int, v: int, strict: bool)
    ensures
        tall_places(pairs, t, v, strict).finite(),
        tall_places(pairs, t, v, strict).len() == tally(pairs, t, v, strict),
    decreases pairs.len(),
{
    if pairs.len() == 0 {
        assert(tall_places(pairs, t, v, strict) =~= Set::<int>::empty());
    } else {
        let front = pairs.drop_last();
        lemma_tally_counts(front, t, v, strict);
        let last = pairs.len() - 1;
        if tall(pairs.last(), t, v, strict) {
            assert(tall_places(pairs, t, v, strict) =~= tall_places(front, t, v, strict).insert(
                last,
            ));
        } else {
            assert(tall_places(pairs, t, v, strict) =~= tall_places(front, t, v, strict));
        }
    }
}

/// Without one interval the tally is less by one if its tent is tall.
pub proof fn lemma_tally_remove(pairs: Seq<BirthDeath>, i: int, t: int, v: int, strict: bool)
    requires
        0 <= i < pairs.len(),
    ensures
        tally(pairs, t, v, strict) == tally(pairs.remove(i), t, v, strict) + if tall(
            pairs[i],
            t,
            v,
            strict,
        ) {
            1nat
        } else {
            0nat
        },
    decreases pairs.len(),
{
    if i == pairs.len() - 1 {
        assert(pairs.remove(i) =~= pairs.drop_last());
    } else {
        lemma_tally_remove(pairs.drop_last(), i, t, v, strict);
        assert(pairs.remove(i).drop_last() =~= pairs.drop_last().remove(i));
        assert(pairs.remove(i).last() == pairs.last());
    }
}

/// The tally does not depend on the order of the intervals.
pub proof fn lemma_tally_any_order(a: Seq<BirthDeath>, b: Seq<BirthDeath>, t: int, v: int, strict: bool)
    requires
        a.to_multiset() =~= b.to_multiset(),
    ensures
        tally(a, t, v, strict) == tally(b, t, v, strict),
    decreases a.len(),
{
    a.to_multiset_ensures();
    b.to_multiset_ensures();
    if a.len() == 0 {
        assert(b.len() == 0);
    } else {
        let x = a.last();
        let front = a.drop_last();
        assert(front.push(x) =~= a);
        front.to_multiset_ensures();
        assert(a.to_multiset() =~= front.to_multiset().insert(x));
        assert(b.to_multiset().count(x) > 0);
        assert(b.contains(x));
        let i = choose|i: int| 0 <= i < b.len() && b[i] == x;
        let rest = b.remove(i);
        assert(rest.to_multiset() =~= b.to_multiset().remove(x));
        assert(front.to_multiset() =~= rest.to_multiset());
        lemma_tally_any_order(front, rest, t, v, strict);
        lemma_tally_remove(b, i, t, v, strict);
    }
}

/// As many tents of a set of intervals are higher than `v` as proper
/// intervals of the set have a tall tent.
pub proof fn lemma_tents_tally(bd_pairs: Seq<BirthDeath>, t: int, v: int)
    ensures
        higher(mountains_of(bd_pairs), t, v).finite(),
        higher(mountains_of(bd_pairs), t, v).len() == tally(proper_pairs(bd_pairs), t, v, true),
        at_least(mountains_of(bd_pairs), t, v).finite(),
        at_least(mountains_of(bd_pairs), t, v).len() == tally(proper_pairs(bd_pairs), t, v, false),
{
    let kept = proper_pairs(bd_pairs);
    let tents = mountains_of(bd_pairs);
    lemma_proper_pairs(bd_pairs);
    lemma_tally_counts(kept, t, v, true);
    lemma_tally_counts(kept, t, v, false);
    assert forall|m: int| 0 <= m < tents.len() implies height(#[trigger] tents[m], t) == {
        let up = t - 2 * kept[m].birth;
        let down = 2 * kept[m].death - t;
        let least = if up <= down {
            up
        } else {
            down
        };
        if least > 0 {
            least
        } else {
            0
        }
    } by {
        assert(kept[m].proper());
    }
    assert(higher(tents, t, v) =~= tall_places(kept, t, v, true));
    assert(at_least(tents, t, v) =~= tall_places(kept, t, v, false));
}

/// Two sets of intervals with the same proper intervals, in whatever order,
/// have the same landscapes: over every place the polylines that the sweep
/// returns for the one have the values of those that it returns for the
/// other.
pub proof fn lemma_generate_any_order(
    a: Seq<BirthDeath>,
    b: Seq<BirthDeath>,
    k: usize,
    j: int,
    t: int,
)
    requires
        a.len() <= usize::MAX,
        b.len() <= usize::MAX,
        proper_pairs(a).to_multiset() =~= proper_pairs(b).to_multiset(),
        0 <= j < k,
    ensures
        value_at(generate_spec(a, k).unwrap()[j], t) == value_at(generate_spec(b, k).unwrap()[j], t),
{
    lemma_generate_right(a, k);
    lemma_generate_right(b, k);
    let va = value_at(generate_spec(a, k).unwrap()[j], t);
    let vb = value_at(generate_spec(b, k).unwrap()[j], t);
    lemma_landscape_on_grid(generate_spec(a, k).unwrap()[j], mountains_of(a), j, t);
    lemma_landscape_on_grid(generate_spec(b, k).unwrap()[j], mountains_of(b), j, t);
    lemma_tents_tally(a, t, vb);
    lemma_tents_tally(b, t, vb);
    lemma_tally_any_order(proper_pairs(a), proper_pairs(b), t, vb, true);
    lemma_tally_any_order(proper_pairs(a), proper_pairs(b), t, vb, false);
    assert(level(mountains_of(a), j, t, vb));
    lemma_level_unique(mountains_of(a), j, t, va, vb);
}

} // verus!
