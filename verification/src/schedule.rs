//! Ordering of sweep events: a lexicographic rank, and a merge sort by it.

use vstd::prelude::*;
use vstd::seq_lib::lemma_multiset_commutative;

verus! {

/// The rank of an event: sweep coordinate, priority of its kind, a tie key and
/// the id of the tent it belongs to, compared in that order.
pub struct Rank {
    pub x: int,
    pub kind: int,
    pub tie: int,
    pub id: int,
}

/// Strict lexicographic order on ranks.
pub open spec fn rank_lt(a: Rank, b: Rank) -> bool {
    a.x < b.x || (a.x == b.x && (a.kind < b.kind || (a.kind == b.kind && (a.tie < b.tie || (a.tie
        == b.tie && a.id < b.id)))))
}

/// Something that is scheduled by rank.
pub trait Ranked: Copy {
    /// The rank by which `self` is scheduled.
    spec fn rank(&self) -> Rank;

    /// Whether `self` is scheduled strictly before `other`.
    fn before(&self, other: &Self) -> (b: bool)
        ensures
            b == rank_lt(self.rank(), other.rank()),
    ;
}

/// The merge of two sequences: repeatedly the smaller head; on equal rank the head of `a`.
pub open spec fn merged<T: Ranked>(a: Seq<T>, b: Seq<T>) -> Seq<T>
    decreases a.len() + b.len(),
{
    if a.len() == 0 {
        b
    } else if b.len() == 0 {
        a
    } else if rank_lt(b[0].rank(), a[0].rank()) {
        seq![b[0]] + merged(a, b.skip(1))
    } else {
        seq![a[0]] + merged(a.skip(1), b)
    }
}

/// The sequence `s` put in rank order.
pub open spec fn sorted<T: Ranked>(s: Seq<T>) -> Seq<T>
    decreases s.len(),
{
    if s.len() <= 1 {
        s
    } else {
        let mid = s.len() as int / 2;
        merged(sorted(s.take(mid)), sorted(s.skip(mid)))
    }
}

/// No element is ranked strictly after a later one.
pub open spec fn ordered<T: Ranked>(s: Seq<T>) -> bool {
    forall|i: int, j: int| 0 <= i < j < s.len() ==> !rank_lt(s[j].rank(), s[i].rank())
}

/// A merge holds exactly the elements of its two inputs.
pub proof fn lemma_merged_permutes<T: Ranked>(a: Seq<T>, b: Seq<T>)
    ensures
        merged(a, b).to_multiset() =~= a.to_multiset().add(b.to_multiset()),
    decreases a.len() + b.len(),
{
    if a.len() == 0 {
        assert(a.to_multiset().len() == 0) by {
            a.to_multiset_ensures();
        }
    } else if b.len() == 0 {
        assert(b.to_multiset().len() == 0) by {
            b.to_multiset_ensures();
        }
    } else if rank_lt(b[0].rank(), a[0].rank()) {
        lemma_merged_permutes(a, b.skip(1));
        lemma_multiset_commutative(seq![b[0]], merged(a, b.skip(1)));
        lemma_multiset_commutative(seq![b[0]], b.skip(1));
        assert(seq![b[0]] + b.skip(1) =~= b);
    } else {
        lemma_merged_permutes(a.skip(1), b);
        lemma_multiset_commutative(seq![a[0]], merged(a.skip(1), b));
        lemma_multiset_commutative(seq![a[0]], a.skip(1));
        assert(seq![a[0]] + a.skip(1) =~= a);
    }
}

/// Sorting keeps every element, each as often as it occurred.
pub proof fn lemma_sorted_permutes<T: Ranked>(s: Seq<T>)
    ensures
        sorted(s).to_multiset() =~= s.to_multiset(),
        sorted(s).len() == s.len(),
    decreases s.len(),
{
    if s.len() > 1 {
        let mid = s.len() as int / 2;
        lemma_sorted_permutes(s.take(mid));
        lemma_sorted_permutes(s.skip(mid));
        lemma_merged_permutes(sorted(s.take(mid)), sorted(s.skip(mid)));
        lemma_multiset_commutative(s.take(mid), s.skip(mid));
        assert(s.take(mid) + s.skip(mid) =~= s);
    }
    sorted(s).to_multiset_ensures();
    s.to_multiset_ensures();
}

/// Sorting neither adds an element nor loses one.
pub proof fn lemma_sorted_contains<T: Ranked>(s: Seq<T>, e: T)
    ensures
        sorted(s).contains(e) <==> s.contains(e),
{
    lemma_sorted_permutes(s);
    sorted(s).to_multiset_ensures();
    s.to_multiset_ensures();
    assert(sorted(s).to_multiset().count(e) == s.to_multiset().count(e));
}

/// Sorting a sequence without repetitions gives one without repetitions.
pub proof fn lemma_sorted_no_duplicates<T: Ranked>(s: Seq<T>)
    requires
        s.no_duplicates(),
    ensures
        sorted(s).no_duplicates(),
{
    lemma_sorted_permutes(s);
    s.lemma_multiset_has_no_duplicates();
    sorted(s).lemma_multiset_has_no_duplicates_conv();
}

/// Each element of a merge comes from one of its inputs.
proof fn lemma_merged_source<T: Ranked>(a: Seq<T>, b: Seq<T>, k: int)
    requires
        0 <= k < merged(a, b).len(),
    ensures
        a.contains(merged(a, b)[k]) || b.contains(merged(a, b)[k]),
    decreases a.len() + b.len(),
{
    if a.len() == 0 {
    } else if b.len() == 0 {
    } else if rank_lt(b[0].rank(), a[0].rank()) {
        if k > 0 {
            lemma_merged_source(a, b.skip(1), k - 1);
            let e = merged(a, b.skip(1))[k - 1];
            if b.skip(1).contains(e) {
                let j = choose|j: int| 0 <= j < b.skip(1).len() && b.skip(1)[j] == e;
                assert(b[j + 1] == e);
            }
        } else {
            assert(b[0] == merged(a, b)[k]);
        }
    } else {
        if k > 0 {
            lemma_merged_source(a.skip(1), b, k - 1);
            let e = merged(a.skip(1), b)[k - 1];
            if a.skip(1).contains(e) {
                let j = choose|j: int| 0 <= j < a.skip(1).len() && a.skip(1)[j] == e;
                assert(a[j + 1] == e);
            }
        } else {
            assert(a[0] == merged(a, b)[k]);
        }
    }
}

/// The merge of two ordered sequences is ordered.
pub proof fn lemma_merged_ordered<T: Ranked>(a: Seq<T>, b: Seq<T>)
    requires
        ordered(a),
        ordered(b),
    ensures
        ordered(merged(a, b)),
    decreases a.len() + b.len(),
{
    if a.len() == 0 || b.len() == 0 {
    } else {
        let m = merged(a, b);
        let from_b = rank_lt(b[0].rank(), a[0].rank());
        let (a1, b1) = if from_b {
            (a, b.skip(1))
        } else {
            (a.skip(1), b)
        };
        lemma_merged_ordered(a1, b1);
        let rest = merged(a1, b1);
        assert(m =~= seq![m[0]] + rest);
        assert forall|i: int, j: int| 0 <= i < j < m.len() implies !rank_lt(
            m[j].rank(),
            m[i].rank(),
        ) by {
            if i == 0 {
                lemma_merged_source(a1, b1, j - 1);
                let e = rest[j - 1];
                assert(m[j] == e);
                if a1.contains(e) {
                    let p = choose|p: int| 0 <= p < a1.len() && a1[p] == e;
                    if from_b {
                        assert(!rank_lt(a[p].rank(), a[0].rank()) || p == 0);
                    } else {
                        assert(a[p + 1] == e);
                    }
                } else {
                    let p = choose|p: int| 0 <= p < b1.len() && b1[p] == e;
                    if from_b {
                        assert(b[p + 1] == e);
                    } else {
                        assert(!rank_lt(b[p].rank(), b[0].rank()) || p == 0);
                    }
                }
            } else {
                assert(m[i] == rest[i - 1]);
                assert(m[j] == rest[j - 1]);
            }
        }
    }
}

/// A sorted sequence is ordered.
pub proof fn lemma_sorted_ordered<T: Ranked>(s: Seq<T>)
    ensures
        ordered(sorted(s)),
    decreases s.len(),
{
    if s.len() > 1 {
        let mid = s.len() as int / 2;
        lemma_sorted_ordered(s.take(mid));
        lemma_sorted_ordered(s.skip(mid));
        lemma_merged_ordered(sorted(s.take(mid)), sorted(s.skip(mid)));
    }
}

fn merge<T: Ranked>(a: &Vec<T>, b: &Vec<T>) -> (out: Vec<T>)
    ensures
        out@ == merged(a@, b@),
{
    let mut out: Vec<T> = Vec::new();
    let mut i: usize = 0;
    let mut j: usize = 0;
    proof {
        assert(a@.skip(0) == a@);
        assert(b@.skip(0) == b@);
        assert(Seq::<T>::empty() + merged(a@, b@) == merged(a@, b@));
    }
    while i < a.len() || j < b.len()
        invariant
            i <= a.len(),
            j <= b.len(),
            out@ + merged(a@.skip(i as int), b@.skip(j as int)) == merged(a@, b@),
        decreases (a.len() - i) + (b.len() - j),
    {
        let ghost rest_a = a@.skip(i as int);
        let ghost rest_b = b@.skip(j as int);
        if i < a.len() && (j >= b.len() || !b[j].before(&a[i])) {
            proof {
                assert(rest_a.skip(1) == a@.skip(i as int + 1));
                assert(merged(rest_a, rest_b) == seq![a@[i as int]] + merged(rest_a.skip(1), rest_b));
                assert(out@.push(a@[i as int]) + merged(rest_a.skip(1), rest_b) == out@ + (
                seq![a@[i as int]] + merged(rest_a.skip(1), rest_b)));
            }
            out.push(a[i]);
            i = i + 1;
        } else {
            proof {
                assert(rest_b.skip(1) == b@.skip(j as int + 1));
                assert(merged(rest_a, rest_b) == seq![b@[j as int]] + merged(rest_a, rest_b.skip(1)));
                assert(out@.push(b@[j as int]) + merged(rest_a, rest_b.skip(1)) == out@ + (
                seq![b@[j as int]] + merged(rest_a, rest_b.skip(1))));
            }
            out.push(b[j]);
            j = j + 1;
        }
    }
    proof {
        assert(a@.skip(i as int).len() == 0);
        assert(b@.skip(j as int) == Seq::<T>::empty());
        assert(out@ + Seq::<T>::empty() == out@);
    }
    out
}

fn sort_range<T: Ranked>(v: &Vec<T>, lo: usize, hi: usize) -> (out: Vec<T>)
    requires
        lo <= hi <= v.len(),
    ensures
        out@ == sorted(v@.subrange(lo as int, hi as int)),
    decreases hi - lo,
{
    let ghost s = v@.subrange(lo as int, hi as int);
    if hi - lo <= 1 {
        let mut out: Vec<T> = Vec::new();
        if lo < hi {
            out.push(v[lo]);
        }
        assert(out@ == s);
        out
    } else {
        let mid = lo + (hi - lo) / 2;
        let left = sort_range(v, lo, mid);
        let right = sort_range(v, mid, hi);
        proof {
            let m = s.len() as int / 2;
            assert(s.take(m) == v@.subrange(lo as int, mid as int));
            assert(s.skip(m) == v@.subrange(mid as int, hi as int));
        }
        merge(&left, &right)
    }
}

/// Sorts `v` by rank: the result is in rank order and holds what `v` holds.
pub fn sort<T: Ranked>(v: &Vec<T>) -> (out: Vec<T>)
    ensures
        out@ == sorted(v@),
        ordered(out@),
        out@.to_multiset() =~= v@.to_multiset(),
{
    proof {
        assert(v@.subrange(0, v@.len() as int) == v@);
        lemma_sorted_ordered(v@);
        lemma_sorted_permutes(v@);
    }
    sort_range(v, 0, v.len())
}

} // verus!
