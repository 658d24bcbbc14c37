//! From intervals to landscapes in one call.

use crate::areas::lemma_generate_norm;
use crate::barcode::{filter, filter_spec};
use crate::birthdeath::BirthDeath;
use crate::correctness::landscapes_right;
use crate::persistencelandscape::{generate, generate_spec, mountains_of, polylines};
use core::cmp::Ordering;
use vstd::prelude::*;
use vstd::std_specs::cmp::PartialOrdSpec;

verus! {

/// Why no landscape came out.
#[derive(Debug, Clone, Copy, PartialEq, Eq, Structural)]
pub enum LandscapeError {
    /// No interval of non-zero length was given.
    NoPairs,
}

/// Why the landscapes of a set of intervals have no norm.
#[derive(Debug, Clone, Copy, PartialEq, Eq, Structural)]
pub enum PairsNormError {
    /// No interval of non-zero length was given.
    NoPairs,
    /// An area does not fit in a `u128`.
    Overflow,
}

/// Why a family of polylines has no norm.
#[derive(Debug, Clone, Copy, PartialEq, Eq, Structural)]
pub enum NormError {
    /// A polyline goes leftward or below the floor.
    Malformed,
    /// A polyline has more area under it than the one before.
    NotDecreasing,
    /// An area does not fit in a `u128`.
    Overflow,
}

/// The intervals of non-zero length among `pairs`, in their order.
pub open spec fn lasting(pairs: Seq<BirthDeath>) -> Seq<BirthDeath>
    decreases pairs.len(),
{
    if pairs.len() == 0 {
        pairs
    } else if pairs.last().birth != pairs.last().death {
        lasting(pairs.drop_last()).push(pairs.last())
    } else {
        lasting(pairs.drop_last())
    }
}

fn retain_lasting(pairs: &Vec<BirthDeath>) -> (kept: Vec<BirthDeath>)
    ensures
        kept@ == lasting(pairs@),
{
    let mut kept: Vec<BirthDeath> = Vec::new();
    let mut i: usize = 0;
    while i < pairs.len()
        invariant
            i <= pairs.len(),
            kept@ == lasting(pairs@.take(i as int)),
        decreases pairs.len() - i,
    {
        proof {
            assert(pairs@.take(i as int + 1).drop_last() == pairs@.take(i as int));
        }
        if pairs[i].birth != pairs[i].death {
            kept.push(pairs[i]);
        }
        i = i + 1;
    }
    proof {
        assert(pairs@.take(pairs@.len() as int) == pairs@);
    }
    kept
}

/// The intervals that go into the sweep: those of non-zero length, past the
/// prefilter unless it is disabled.
pub open spec fn selected(bd_pairs: Seq<BirthDeath>, k: usize, disable_filter: bool) -> Seq<
    BirthDeath,
> {
    if disable_filter {
        lasting(bd_pairs)
    } else {
        filter_spec(lasting(bd_pairs), k)
    }
}

/// The landscapes of `bd_pairs`: intervals of zero length are dropped, and
/// there must be others; these pass the prefilter, unless it is disabled,
/// and then the sweep.
pub open spec fn pairs_to_landscape_spec(
    bd_pairs: Seq<BirthDeath>,
    k: usize,
    disable_filter: bool,
) -> Result<Seq<Seq<(i64, i64)>>, LandscapeError> {
    if lasting(bd_pairs).len() == 0 {
        Err(LandscapeError::NoPairs)
    } else {
        Ok(generate_spec(selected(bd_pairs, k, disable_filter), k).unwrap())
    }
}

/// The first `k` landscapes of `bd_pairs`, in half grid units: intervals of
/// zero length are dropped, and there must be others; these pass the prefilter,
/// unless it is disabled, and then the sweep.
pub fn pairs_to_landscape(bd_pairs: Vec<BirthDeath>, k: usize, disable_filter: bool) -> (r: Result<
    Vec<Vec<(i64, i64)>>,
    LandscapeError,
>)
    ensures
        match r {
            Ok(landscape) => pairs_to_landscape_spec(bd_pairs@, k, disable_filter) == Ok::<
                Seq<Seq<(i64, i64)>>,
                LandscapeError,
            >(polylines(landscape@)) && landscapes_right(
                polylines(landscape@),
                mountains_of(selected(bd_pairs@, k, disable_filter)),
                k,
            ),
            Err(e) => pairs_to_landscape_spec(bd_pairs@, k, disable_filter) == Err::<
                Seq<Seq<(i64, i64)>>,
                LandscapeError,
            >(e),
        },
        r.is_ok() ==> selected(bd_pairs@, k, disable_filter).len() <= usize::MAX,
{
    let kept = retain_lasting(&bd_pairs);
    if kept.len() == 0 {
        return Err(LandscapeError::NoPairs);
    }
    let filtered_pairs = if disable_filter {
        kept
    } else {
        filter(kept, k)
    };
    let _ = filtered_pairs.len();
    Ok(generate(filtered_pairs, k))
}

/// `a <= b`, as the order of `T` has it.
pub open spec fn at_most<T: PartialOrd>(a: T, b: T) -> bool {
    a.partial_cmp_spec(&b) matches Some(Ordering::Less | Ordering::Equal)
}

/// Whether no element of `data` is greater than the next.
pub fn is_sorted<T: Ord>(data: &[T]) -> (b: bool)
    ensures
        T::obeys_partial_cmp_spec() ==> (b <==> forall|i: int|
            0 <= i && i + 1 < data@.len() ==> at_most(data@[i], #[trigger] data@[i + 1])),
{
    let mut i: usize = 1;
    while i < data.len()
        invariant
            1 <= i,
            T::obeys_partial_cmp_spec() ==> forall|j: int|
                0 <= j && j + 1 < i ==> at_most(data@[j], #[trigger] data@[j + 1]),
        decreases data.len() - i,
    {
        if !(data[i - 1] <= data[i]) {
            proof {
                let j: int = i - 1;
                assert(T::obeys_partial_cmp_spec() ==> !at_most(data@[j], data@[j + 1]));
            }
            return false;
        }
        i = i + 1;
    }
    true
}

/// A polyline under which an area lies: no point below the floor, none to
/// the left of the one before.
pub open spec fn drawable(line: Seq<(i64, i64)>) -> bool {
    &&& forall|i: int| 0 <= i < line.len() ==> (#[trigger] line[i]).1 >= 0
    &&& forall|i: int, j: int|
        0 <= i <= j < line.len() ==> (#[trigger] line[i]).0 <= (#[trigger] line[j]).0
}

/// The area between the segment from `a` to `b` and the floor, in eighths of
/// a grid square: the points are in half grid units, and the trapezoid is
/// counted twice.
pub open spec fn segment_area(a: (i64, i64), b: (i64, i64)) -> int {
    (b.0 - a.0) * (a.1 + b.1)
}

/// The area under a polyline, in eighths of a grid square.
pub open spec fn line_area(line: Seq<(i64, i64)>) -> int
    decreases line.len(),
{
    if line.len() <= 1 {
        0
    } else {
        line_area(line.drop_last()) + segment_area(line[line.len() - 2], line.last())
    }
}

/// The area under a polyline, if it is drawable and the area fits.
pub open spec fn line_norm(line: Seq<(i64, i64)>) -> Result<u128, NormError> {
    if !drawable(line) {
        Err(NormError::Malformed)
    } else if line_area(line) > u128::MAX {
        Err(NormError::Overflow)
    } else {
        Ok(line_area(line) as u128)
    }
}

/// The areas under the polylines, or what is wrong with the first that has none.
pub open spec fn line_norms(lines: Seq<Seq<(i64, i64)>>) -> Result<Seq<u128>, NormError>
    decreases lines.len(),
{
    if lines.len() == 0 {
        Ok(Seq::empty())
    } else {
        match line_norms(lines.drop_last()) {
            Err(e) => Err(e),
            Ok(areas) => match line_norm(lines.last()) {
                Err(e) => Err(e),
                Ok(area) => Ok(areas.push(area)),
            },
        }
    }
}

/// The sum of the areas.
pub open spec fn total(areas: Seq<u128>) -> int
    decreases areas.len(),
{
    if areas.len() == 0 {
        0
    } else {
        total(areas.drop_last()) + areas.last()
    }
}

/// No area is greater than the one before.
pub open spec fn non_increasing(areas: Seq<u128>) -> bool {
    forall|i: int| 0 <= i && i + 1 < areas.len() ==> areas[i] >= (#[trigger] areas[i + 1])
}

/// The sum of the areas under the polylines, in eighths of a grid square:
/// every polyline must have an area, none more than the one before, and the
/// sum must fit.
pub open spec fn l2_norm_spec(lines: Seq<Seq<(i64, i64)>>) -> Result<u128, NormError> {
    match line_norms(lines) {
        Err(e) => Err(e),
        Ok(areas) => if !non_increasing(areas) {
            Err(NormError::NotDecreasing)
        } else if total(areas) > u128::MAX {
            Err(NormError::Overflow)
        } else {
            Ok(total(areas) as u128)
        },
    }
}

proof fn lemma_segment_area_bound(a: (i64, i64), b: (i64, i64))
    requires
        a.0 <= b.0,
        a.1 >= 0,
        b.1 >= 0,
    ensures
        0 <= segment_area(a, b) <= u128::MAX,
{
    let base = b.0 - a.0;
    let height = a.1 + b.1;
    assert(0 <= base <= 0xffff_ffff_ffff_ffff);
    assert(0 <= height <= 0xffff_ffff_ffff_ffff);
    assert(0 <= base * height <= 0xffff_ffff_ffff_ffff * 0xffff_ffff_ffff_ffff) by (nonlinear_arith)
        requires
            0 <= base <= 0xffff_ffff_ffff_ffff,
            0 <= height <= 0xffff_ffff_ffff_ffff,
    ;
}

fn area_under_line_segment(a: (i64, i64), b: (i64, i64)) -> (area: u128)
    requires
        a.0 <= b.0,
        a.1 >= 0,
        b.1 >= 0,
    ensures
        area == segment_area(a, b),
{
    let base = (b.0 as i128 - a.0 as i128) as u128;
    let height = (a.1 as i128 + b.1 as i128) as u128;
    proof {
        lemma_segment_area_bound(a, b);
    }
    base * height
}

/// The area under a drawable polyline does not shrink as the polyline grows.
proof fn lemma_line_area_grows(line: Seq<(i64, i64)>, n: int)
    requires
        drawable(line),
        0 <= n <= line.len(),
    ensures
        0 <= line_area(line.take(n)) <= line_area(line),
    decreases line.len() - n,
{
    if n < line.len() {
        lemma_line_area_grows(line, n + 1);
        assert(line.take(n + 1).drop_last() == line.take(n));
        if n >= 1 {
            lemma_segment_area_bound(line[n - 1], line[n]);
        }
        lemma_area_not_negative(line.take(n));
    } else {
        assert(line.take(n) == line);
        lemma_area_not_negative(line);
    }
}

/// The area under a drawable polyline is not negative.
pub proof fn lemma_area_not_negative(line: Seq<(i64, i64)>)
    requires
        drawable(line),
    ensures
        0 <= line_area(line),
    decreases line.len(),
{
    if line.len() > 1 {
        let front = line.drop_last();
        assert(drawable(front)) by {
            assert forall|i: int| 0 <= i < front.len() implies (#[trigger] front[i]).1 >= 0 by {
                assert(line[i].1 >= 0);
            }
            assert forall|i: int, j: int| 0 <= i <= j < front.len() implies (
            #[trigger] front[i]).0 <= (#[trigger] front[j]).0 by {
                assert(line[i].0 <= line[j].0);
            }
        }
        lemma_area_not_negative(front);
        lemma_segment_area_bound(line[line.len() - 2], line[line.len() - 1]);
    }
}

fn is_drawable(landscape: &[(i64, i64)]) -> (b: bool)
    ensures
        b == drawable(landscape@),
{
    let mut i: usize = 0;
    while i < landscape.len()
        invariant
            i <= landscape.len(),
            drawable(landscape@.take(i as int)),
        decreases landscape.len() - i,
    {
        if landscape[i].1 < 0 || (i > 0 && landscape[i - 1].0 > landscape[i].0) {
            proof {
                if landscape@[i as int].1 >= 0 {
                    assert(landscape@[i - 1].0 > landscape@[i as int].0);
                }
            }
            return false;
        }
        proof {
            let longer = landscape@.take(i as int + 1);
            let shorter = landscape@.take(i as int);
            assert forall|j: int| 0 <= j < longer.len() implies (#[trigger] longer[j]).1 >= 0 by {
                if j < i {
                    assert(shorter[j].1 >= 0);
                }
            }
            assert forall|j: int, l: int| 0 <= j <= l < longer.len() implies (
            #[trigger] longer[j]).0 <= (#[trigger] longer[l]).0 by {
                if l < i {
                    assert(shorter[j].0 <= shorter[l].0);
                } else if j < i {
                    assert(shorter[j].0 <= shorter[i - 1].0);
                }
            }
        }
        i = i + 1;
    }
    proof {
        assert(landscape@.take(landscape@.len() as int) == landscape@);
    }
    true
}

fn landscape_norm(landscape: &[(i64, i64)]) -> (r: Result<u128, NormError>)
    ensures
        r == line_norm(landscape@),
{
    if !is_drawable(landscape) {
        return Err(NormError::Malformed);
    }
    if landscape.len() == 0 {
        return Ok(0);
    }
    let mut area: u128 = 0;
    let mut i: usize = 1;
    while i < landscape.len()
        invariant
            1 <= i <= landscape.len(),
            drawable(landscape@),
            area == line_area(landscape@.take(i as int)),
        decreases landscape.len() - i,
    {
        let piece = area_under_line_segment(landscape[i - 1], landscape[i]);
        proof {
            assert(landscape@.take(i as int + 1).drop_last() == landscape@.take(i as int));
            lemma_line_area_grows(landscape@, i as int + 1);
        }
        match area.checked_add(piece) {
            None => {
                return Err(NormError::Overflow);
            },
            Some(sum) => {
                area = sum;
            },
        }
        i = i + 1;
    }
    proof {
        assert(landscape@.take(landscape@.len() as int) == landscape@);
    }
    Ok(area)
}

/// Once a polyline has no area, the family has no areas.
proof fn lemma_line_norms_stay_broken(lines: Seq<Seq<(i64, i64)>>, n: int)
    requires
        0 <= n <= lines.len(),
        line_norms(lines.take(n)).is_err(),
    ensures
        line_norms(lines) == line_norms(lines.take(n)),
    decreases lines.len() - n,
{
    if n < lines.len() {
        assert(lines.take(n + 1).drop_last() == lines.take(n));
        lemma_line_norms_stay_broken(lines, n + 1);
    } else {
        assert(lines.take(n) == lines);
    }
}

/// A sum of areas does not shrink as more are added.
proof fn lemma_total_grows(areas: Seq<u128>, n: int)
    requires
        0 <= n <= areas.len(),
    ensures
        0 <= total(areas.take(n)) <= total(areas),
    decreases areas.len() - n,
{
    if n < areas.len() {
        lemma_total_grows(areas, n + 1);
        assert(areas.take(n + 1).drop_last() == areas.take(n));
        lemma_total_grows_base(areas.take(n));
    } else {
        assert(areas.take(n) == areas);
        lemma_total_grows_base(areas);
    }
}

proof fn lemma_total_grows_base(areas: Seq<u128>)
    ensures
        0 <= total(areas),
    decreases areas.len(),
{
    if areas.len() > 0 {
        lemma_total_grows_base(areas.drop_last());
    }
}

/// Whether no area is greater than the one before.
fn is_non_increasing(areas: &Vec<u128>) -> (b: bool)
    ensures
        b == non_increasing(areas@),
{
    let n = areas.len();
    let mut reversed: Vec<u128> = Vec::new();
    let mut i: usize = n;
    while i > 0
        invariant
            i <= n,
            n == areas@.len(),
            reversed@.len() == n - i,
            forall|j: int| 0 <= j < reversed@.len() ==> reversed@[j] == areas@[n - 1 - j],
        decreases i,
    {
        i = i - 1;
        reversed.push(areas[i]);
    }
    let b = is_sorted(reversed.as_slice());
    proof {
        let rev = reversed@;
        if b {
            assert forall|l: int| 0 <= l && l + 1 < n implies areas@[l] >= (
            #[trigger] areas@[l + 1]) by {
                let j = n - 2 - l;
                assert(at_most(rev[j], rev[j + 1]));
            }
        } else {
            if non_increasing(areas@) {
                assert forall|j: int| 0 <= j && j + 1 < rev.len() implies at_most(
                    rev[j],
                    #[trigger] rev[j + 1],
                ) by {
                    let l = n - 2 - j;
                    assert(areas@[l] >= areas@[l + 1]);
                }
            }
        }
    }
    b
}

/// The sum of the areas under the polylines, in eighths of a grid square.
pub fn l2_norm(landscapes: &[Vec<(i64, i64)>]) -> (r: Result<u128, NormError>)
    ensures
        r == l2_norm_spec(polylines(landscapes@)),
{
    let ghost lines = polylines(landscapes@);
    let mut areas: Vec<u128> = Vec::new();
    let mut j: usize = 0;
    while j < landscapes.len()
        invariant
            j <= landscapes.len(),
            lines == polylines(landscapes@),
            line_norms(lines.take(j as int)) == Ok::<Seq<u128>, NormError>(areas@),
        decreases landscapes.len() - j,
    {
        proof {
            assert(lines.take(j as int + 1).drop_last() == lines.take(j as int));
            assert(lines.take(j as int + 1).last() == landscapes@[j as int]@);
        }
        match landscape_norm(landscapes[j].as_slice()) {
            Err(e) => {
                proof {
                    lemma_line_norms_stay_broken(lines, j as int + 1);
                }
                return Err(e);
            },
            Ok(area) => {
                areas.push(area);
            },
        }
        j = j + 1;
    }
    proof {
        assert(lines.take(lines.len() as int) == lines);
    }
    if !is_non_increasing(&areas) {
        return Err(NormError::NotDecreasing);
    }
    let mut sum: u128 = 0;
    let mut i: usize = 0;
    while i < areas.len()
        invariant
            i <= areas.len(),
            sum == total(areas@.take(i as int)),
            lines == polylines(landscapes@),
            line_norms(lines) == Ok::<Seq<u128>, NormError>(areas@),
            non_increasing(areas@),
        decreases areas.len() - i,
    {
        proof {
            assert(areas@.take(i as int + 1).drop_last() == areas@.take(i as int));
            lemma_total_grows(areas@, i as int + 1);
        }
        match sum.checked_add(areas[i]) {
            None => {
                return Err(NormError::Overflow);
            },
            Some(more) => {
                sum = more;
            },
        }
        i = i + 1;
    }
    proof {
        assert(areas@.take(areas@.len() as int) == areas@);
    }
    Ok(sum)
}

/// The norm of the landscapes of `bd_pairs`: the sum of the areas under
/// them, in eighths of a grid square. Landscapes have a norm unless an area
/// does not fit.
pub open spec fn pairs_to_l2_norm_spec(bd_pairs: Seq<BirthDeath>, k: usize, disable_filter: bool) -> Result<
    u128,
    PairsNormError,
> {
    match pairs_to_landscape_spec(bd_pairs, k, disable_filter) {
        Err(_) => Err(PairsNormError::NoPairs),
        Ok(landscape) => match l2_norm_spec(landscape) {
            Err(_) => Err(PairsNormError::Overflow),
            Ok(norm) => Ok(norm),
        },
    }
}

/// The norm of the first `k` landscapes of `bd_pairs`, in eighths of a grid
/// square.
pub fn pairs_to_l2_norm(bd_pairs: Vec<BirthDeath>, k: usize, disable_filter: bool) -> (r: Result<
    u128,
    PairsNormError,
>)
    ensures
        r == pairs_to_l2_norm_spec(bd_pairs@, k, disable_filter),
        r == Err::<u128, PairsNormError>(PairsNormError::Overflow) ==> l2_norm_spec(
            generate_spec(selected(bd_pairs@, k, disable_filter), k).unwrap(),
        ) == Err::<u128, NormError>(NormError::Overflow),
{
    proof {
        if selected(bd_pairs@, k, disable_filter).len() <= usize::MAX {
            lemma_generate_norm(selected(bd_pairs@, k, disable_filter), k);
        }
    }
    match pairs_to_landscape(bd_pairs, k, disable_filter) {
        Err(_) => Err(PairsNormError::NoPairs),
        Ok(landscape) => match l2_norm(landscape.as_slice()) {
            Err(_) => Err(PairsNormError::Overflow),
            Ok(norm) => Ok(norm),
        },
    }
}

} // verus!
