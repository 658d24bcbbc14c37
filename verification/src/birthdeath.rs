//! Birth-death intervals on the integer grid.

use vstd::prelude::*;

verus! {

/// The largest magnitude of a finite coordinate. Sums and differences of two
/// finite coordinates fit in an `i64`.
pub const LIMIT: i64 = 0x3fff_ffff_ffff_ffff;

/// A persistence interval: a feature born at `birth` that dies at `death`,
/// both in grid units.
#[derive(Debug, Clone, Copy, PartialEq, Eq, Structural)]
pub struct BirthDeath {
    pub birth: i64,
    pub death: i64,
}

impl BirthDeath {
    /// Both endpoints lie within `LIMIT` of zero.
    pub open spec fn finite(self) -> bool {
        &&& -LIMIT <= self.birth <= LIMIT
        &&& -LIMIT <= self.death <= LIMIT
    }

    /// Finite, and of positive length: the interval spans a tent.
    pub open spec fn proper(self) -> bool {
        self.finite() && self.birth < self.death
    }

    /// Whether both endpoints lie within `LIMIT` of zero.
    pub fn is_finite(&self) -> (b: bool)
        ensures
            b == self.finite(),
    {
        -LIMIT <= self.birth && self.birth <= LIMIT && -LIMIT <= self.death && self.death <= LIMIT
    }

    /// Whether the interval is finite and of positive length.
    pub fn is_proper(&self) -> (b: bool)
        ensures
            b == self.proper(),
    {
        self.is_finite() && self.birth < self.death
    }
}

/// The proper intervals among `pairs`, in their order.
pub open spec fn proper_pairs(pairs: Seq<BirthDeath>) -> Seq<BirthDeath>
    decreases pairs.len(),
{
    if pairs.len() == 0 {
        pairs
    } else if pairs.last().proper() {
        proper_pairs(pairs.drop_last()).push(pairs.last())
    } else {
        proper_pairs(pairs.drop_last())
    }
}

/// Every interval that `proper_pairs` keeps is proper and was in `pairs`.
pub proof fn lemma_proper_pairs(pairs: Seq<BirthDeath>)
    ensures
        proper_pairs(pairs).len() <= pairs.len(),
        forall|i: int|
            0 <= i < proper_pairs(pairs).len() ==> (#[trigger] proper_pairs(pairs)[i]).proper()
                && pairs.contains(proper_pairs(pairs)[i]),
        (forall|i: int| 0 <= i < pairs.len() ==> (#[trigger] pairs[i]).proper()) ==> proper_pairs(
            pairs,
        ) == pairs,
    decreases pairs.len(),
{
    if pairs.len() > 0 {
        let front = pairs.drop_last();
        lemma_proper_pairs(front);
        assert forall|i: int| 0 <= i < proper_pairs(pairs).len() implies (
        #[trigger] proper_pairs(pairs)[i]).proper() && pairs.contains(proper_pairs(pairs)[i]) by {
            let p = proper_pairs(pairs)[i];
            if i < proper_pairs(front).len() {
                assert(p == proper_pairs(front)[i]);
                let j = choose|j: int| 0 <= j < front.len() && front[j] == p;
                assert(pairs[j] == p);
            } else {
                assert(pairs[pairs.len() - 1] == p);
            }
        }
        if forall|i: int| 0 <= i < pairs.len() ==> (#[trigger] pairs[i]).proper() {
            assert forall|i: int| 0 <= i < front.len() implies (#[trigger] front[i]).proper() by {
                assert(front[i] == pairs[i]);
            }
            assert(pairs.last() == pairs[pairs.len() - 1]);
            assert(front.push(pairs.last()) =~= pairs);
        }
    }
}

/// Drops the intervals that are not proper.
pub fn retain_proper(pairs: &Vec<BirthDeath>) -> (kept: Vec<BirthDeath>)
    ensures
        kept@ == proper_pairs(pairs@),
{
    let mut kept: Vec<BirthDeath> = Vec::new();
    let mut i: usize = 0;
    while i < pairs.len()
        invariant
            i <= pairs.len(),
            kept@ == proper_pairs(pairs@.take(i as int)),
        decreases pairs.len() - i,
    {
        proof {
            assert(pairs@.take(i as int + 1).drop_last() == pairs@.take(i as int));
        }
        if pairs[i].is_proper() {
            kept.push(pairs[i]);
        }
        i = i + 1;
    }
    proof {
        assert(pairs@.take(pairs@.len() as int) == pairs@);
    }
    kept
}

} // verus!
