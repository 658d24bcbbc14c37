//! The area under a polyline, place by place, and why no landscape has more
//! area under it than the one before.

use crate::birthdeath::BirthDeath;
use crate::correctness::{lemma_generate_right, lemma_landscape_on_grid};
use crate::levels::{along, lemma_level_nested, stepwise, unit_step, value_at};
use crate::persistencelandscape::{generate_spec, mountains_of};
use crate::rpls::{
    drawable, l2_norm_spec, line_area, line_norm, line_norms, segment_area, NormError,
};
use crate::soundness::{rightward, settled, well_drawn};
use vstd::prelude::*;

verus! {

/// The values of the polyline over the places from `lo` to `hi`, each added
/// to the next: twice what lies under the polyline between the two places, in
/// squares of the half grid.
pub open spec fn strip_sum(line: Seq<(i64, i64)>, lo: int, hi: int) -> int
    decreases hi - lo,
{
    if hi <= lo {
        0
    } else {
        strip_sum(line, lo, hi - 1) + value_at(line, hi - 1) + value_at(line, hi)
    }
}

/// Without its last point a rightward polyline of unit steps is one still.
pub proof fn lemma_front_drawn(line: Seq<(i64, i64)>)
    requires
        line.len() > 0,
        rightward(line),
        stepwise(line),
    ensures
        rightward(line.drop_last()),
        stepwise(line.drop_last()),
{
    let front = line.drop_last();
    assert forall|i: int, j: int| 0 <= i < j < front.len() implies front[i].0 < front[j].0 by {
        assert(line[i].0 < line[j].0);
    }
    assert forall|i: int| 0 <= i && i + 1 < front.len() implies unit_step(
        front[i],
        #[trigger] front[i + 1],
    ) by {
        assert(unit_step(line[i], line[i + 1]));
    }
}

/// Over each of its points a polyline of unit steps that begins on the floor
/// has the height of the point as its value.
pub proof fn lemma_value_at_point(line: Seq<(i64, i64)>, i: int)
    requires
        rightward(line),
        stepwise(line),
        line.len() > 0 ==> line[0].1 == 0,
        0 <= i < line.len(),
    ensures
        value_at(line, line[i].0 as int) == line[i].1,
    decreases line.len(),
{
    if line.len() >= 2 {
        let p = line[line.len() - 2];
        let q = line[line.len() - 1];
        assert(p.0 < q.0);
        assert(unit_step(line[line.len() - 2], line[line.len() - 2 + 1]));
        if i < line.len() - 1 {
            if i < line.len() - 2 {
                assert(line[i].0 < p.0);
            }
            lemma_front_drawn(line);
            lemma_value_at_point(line.drop_last(), i);
        }
    }
}

/// To the right of its last point a polyline has the value zero.
pub proof fn lemma_value_past(line: Seq<(i64, i64)>, t: int)
    requires
        rightward(line),
        line.len() > 0 ==> line.last().0 < t,
    ensures
        value_at(line, t) == 0,
    decreases line.len(),
{
    if line.len() >= 2 {
        assert(line[line.len() - 2].0 < line[line.len() - 1].0);
        let front = line.drop_last();
        assert(rightward(front)) by {
            assert forall|i: int, j: int| 0 <= i < j < front.len() implies front[i].0
                < front[j].0 by {
                assert(line[i].0 < line[j].0);
            }
        }
        lemma_value_past(front, t);
    }
}

/// Up to its first point a polyline has the value zero.
pub proof fn lemma_value_before(line: Seq<(i64, i64)>, t: int)
    requires
        rightward(line),
        line.len() > 0 ==> t <= line[0].0,
    ensures
        value_at(line, t) == 0,
    decreases line.len(),
{
    if line.len() >= 2 {
        assert(line[0].0 < line[line.len() - 2].0 || line.len() == 2);
        let front = line.drop_last();
        assert(rightward(front)) by {
            assert forall|i: int, j: int| 0 <= i < j < front.len() implies front[i].0
                < front[j].0 by {
                assert(line[i].0 < line[j].0);
            }
        }
        lemma_value_before(front, t);
    }
}

/// The sum over a stretch is the sum over its two parts.
pub proof fn lemma_strip_split(line: Seq<(i64, i64)>, lo: int, mid: int, hi: int)
    requires
        lo <= mid <= hi,
    ensures
        strip_sum(line, lo, hi) == strip_sum(line, lo, mid) + strip_sum(line, mid, hi),
    decreases hi - mid,
{
    if mid < hi {
        lemma_strip_split(line, lo, mid, hi - 1);
    }
}

/// Where one polyline is nowhere lower than another, its sum is no less.
pub proof fn lemma_strip_nested(a: Seq<(i64, i64)>, b: Seq<(i64, i64)>, lo: int, hi: int)
    requires
        forall|t: int| lo <= t <= hi ==> #[trigger] value_at(a, t) >= value_at(b, t),
    ensures
        strip_sum(a, lo, hi) >= strip_sum(b, lo, hi),
    decreases hi - lo,
{
    if lo < hi {
        lemma_strip_nested(a, b, lo, hi - 1);
    }
}

/// Where two polylines have the same values, they have the same sum.
pub proof fn lemma_strip_same(a: Seq<(i64, i64)>, b: Seq<(i64, i64)>, lo: int, hi: int)
    requires
        forall|t: int| lo <= t <= hi ==> #[trigger] value_at(a, t) == value_at(b, t),
    ensures
        strip_sum(a, lo, hi) == strip_sum(b, lo, hi),
    decreases hi - lo,
{
    if lo < hi {
        lemma_strip_same(a, b, lo, hi - 1);
    }
}

/// Where a polyline has the value zero, its sum is zero.
pub proof fn lemma_strip_zero(line: Seq<(i64, i64)>, lo: int, hi: int)
    requires
        forall|t: int| lo <= t <= hi ==> #[trigger] value_at(line, t) == 0,
    ensures
        strip_sum(line, lo, hi) == 0,
    decreases hi - lo,
{
    if lo < hi {
        lemma_strip_zero(line, lo, hi - 1);
    }
}

/// Over the first `n` places of a unit step the values, each added to the
/// next, come to what the trapezoid under them holds.
pub proof fn lemma_strip_step(line: Seq<(i64, i64)>, p: (i64, i64), q: (i64, i64), n: int)
    requires
        unit_step(p, q),
        p.0 < q.0,
        0 <= n <= q.0 - p.0,
        forall|t: int| p.0 <= t <= q.0 ==> #[trigger] value_at(line, t) == along(p, q, t),
    ensures
        strip_sum(line, p.0 as int, p.0 + n) == n * (p.1 + along(p, q, p.0 + n)),
    decreases n,
{
    if n > 0 {
        lemma_strip_step(line, p, q, n - 1);
        let a = p.1 as int;
        let before = along(p, q, p.0 + n - 1);
        let now = along(p, q, p.0 + n);
        assert(value_at(line, p.0 + n - 1) == before);
        assert(value_at(line, p.0 + n) == now);
        if q.1 - p.1 == q.0 - p.0 {
            assert(before == a + n - 1 && now == a + n);
            assert((n - 1) * (a + (a + n - 1)) + (a + n - 1) + (a + n) == n * (a + (a + n)))
                by (nonlinear_arith);
        } else if p.1 - q.1 == q.0 - p.0 {
            assert(before == a - (n - 1) && now == a - n);
            assert((n - 1) * (a + (a - (n - 1))) + (a - (n - 1)) + (a - n) == n * (a + (a - n)))
                by (nonlinear_arith);
        } else {
            assert(before == 0 && now == 0 && a == 0);
            assert((n - 1) * (0 + 0) + 0 + 0 == n * (0 + 0)) by (nonlinear_arith);
        }
    } else {
        assert(0 * (p.1 + along(p, q, p.0 + 0)) == 0) by (nonlinear_arith);
    }
}

/// The area under a polyline of unit steps that begins on the floor is the
/// sum of its values from its first point to its last.
pub proof fn lemma_area_is_sum(line: Seq<(i64, i64)>)
    requires
        rightward(line),
        stepwise(line),
        line.len() > 0,
        line[0].1 == 0,
    ensures
        line_area(line) == strip_sum(line, line[0].0 as int, line.last().0 as int),
    decreases line.len(),
{
    if line.len() >= 2 {
        let front = line.drop_last();
        let p = line[line.len() - 2];
        let q = line[line.len() - 1];
        assert(p.0 < q.0);
        assert(line[0].0 <= p.0);
        assert(unit_step(line[line.len() - 2], line[line.len() - 2 + 1]));
        lemma_front_drawn(line);
        lemma_area_is_sum(front);
        lemma_strip_split(line, line[0].0 as int, p.0 as int, q.0 as int);
        assert forall|t: int| line[0].0 <= t <= p.0 implies #[trigger] value_at(line, t)
            == value_at(front, t) by {}
        lemma_strip_same(line, front, line[0].0 as int, p.0 as int);
        lemma_value_at_point(line, line.len() - 2);
        assert forall|t: int| p.0 <= t <= q.0 implies #[trigger] value_at(line, t) == along(
            p,
            q,
            t,
        ) by {}
        lemma_strip_step(line, p, q, q.0 - p.0);
        assert(along(p, q, p.0 + (q.0 - p.0)) == q.1);
        assert((q.0 - p.0) * (p.1 + q.1) == segment_area(p, q));
    }
}

/// The area under a polyline of unit steps that begins and ends on the
/// floor is the sum of its values over any stretch that holds it.
pub proof fn lemma_area_is_wide_sum(line: Seq<(i64, i64)>, lo: int, hi: int)
    requires
        well_drawn(line),
        settled(line),
        stepwise(line),
        lo <= hi,
        line.len() > 0 ==> lo <= line[0].0 && line.last().0 <= hi,
    ensures
        line_area(line) == strip_sum(line, lo, hi),
{
    if line.len() == 0 {
        assert forall|t: int| lo <= t <= hi implies #[trigger] value_at(line, t) == 0 by {}
        lemma_strip_zero(line, lo, hi);
    } else {
        let first = line[0].0 as int;
        let last = line.last().0 as int;
        assert(first <= last) by {
            if line.len() > 1 {
                assert(line[0].0 < line[line.len() - 1].0);
            }
        }
        lemma_area_is_sum(line);
        lemma_strip_split(line, lo, first, hi);
        lemma_strip_split(line, first, last, hi);
        assert forall|t: int| lo <= t <= first implies #[trigger] value_at(line, t) == 0 by {
            lemma_value_before(line, t);
        }
        lemma_strip_zero(line, lo, first);
        lemma_value_at_point(line, line.len() - 1);
        assert forall|t: int| last <= t <= hi implies #[trigger] value_at(line, t) == 0 by {
            if t > last {
                lemma_value_past(line, t);
            }
        }
        lemma_strip_zero(line, last, hi);
    }
}

/// Of two polylines of unit steps that begin and end on the floor, the one
/// that is nowhere lower has no less area under it.
pub proof fn lemma_area_nested(a: Seq<(i64, i64)>, b: Seq<(i64, i64)>)
    requires
        well_drawn(a),
        settled(a),
        stepwise(a),
        well_drawn(b),
        settled(b),
        stepwise(b),
        forall|t: int| #[trigger] value_at(a, t) >= value_at(b, t),
    ensures
        line_area(a) >= line_area(b),
{
    let lo_a = if a.len() > 0 {
        a[0].0 as int
    } else {
        0
    };
    let lo_b = if b.len() > 0 {
        b[0].0 as int
    } else {
        0
    };
    let hi_a = if a.len() > 0 {
        a.last().0 as int
    } else {
        0
    };
    let hi_b = if b.len() > 0 {
        b.last().0 as int
    } else {
        0
    };
    if a.len() > 1 {
        assert(a[0].0 < a[a.len() - 1].0);
    }
    if b.len() > 1 {
        assert(b[0].0 < b[b.len() - 1].0);
    }
    let lo = if lo_a <= lo_b {
        lo_a
    } else {
        lo_b
    };
    let hi = if hi_a >= hi_b {
        hi_a
    } else {
        hi_b
    };
    lemma_area_is_wide_sum(a, lo, hi);
    lemma_area_is_wide_sum(b, lo, hi);
    lemma_strip_nested(a, b, lo, hi);
}

/// Of the polylines that the sweep returns none has more area under it than
/// the one before.
pub proof fn lemma_generate_areas(bd_pairs: Seq<BirthDeath>, k: usize, j: int)
    requires
        bd_pairs.len() <= usize::MAX,
        0 <= j,
        j + 1 < k,
    ensures
        line_area(generate_spec(bd_pairs, k).unwrap()[j]) >= line_area(
            generate_spec(bd_pairs, k).unwrap()[j + 1],
        ),
{
    lemma_generate_right(bd_pairs, k);
    let landscapes = generate_spec(bd_pairs, k).unwrap();
    let tents = mountains_of(bd_pairs);
    let a = landscapes[j];
    let b = landscapes[j + 1];
    assert forall|t: int| #[trigger] value_at(a, t) >= value_at(b, t) by {
        lemma_landscape_on_grid(a, tents, j, t);
        lemma_landscape_on_grid(b, tents, j + 1, t);
        lemma_level_nested(tents, j, t, value_at(a, t), value_at(b, t));
    }
    lemma_area_nested(a, b);
}

/// Polylines that go rightward above the floor have areas, each its own,
/// unless one does not fit.
pub proof fn lemma_line_norms(lines: Seq<Seq<(i64, i64)>>)
    requires
        forall|j: int| 0 <= j < lines.len() ==> drawable(#[trigger] lines[j]),
    ensures
        match line_norms(lines) {
            Ok(areas) => areas.len() == lines.len() && forall|j: int|
                0 <= j < lines.len() ==> #[trigger] areas[j] == line_area(lines[j]),
            Err(e) => e == NormError::Overflow,
        },
    decreases lines.len(),
{
    if lines.len() > 0 {
        let front = lines.drop_last();
        assert forall|j: int| 0 <= j < front.len() implies drawable(#[trigger] front[j]) by {
            assert(front[j] == lines[j]);
        }
        lemma_line_norms(front);
        assert(drawable(lines[lines.len() - 1]));
        match line_norms(front) {
            Ok(areas) => {
                match line_norm(lines.last()) {
                    Ok(area) => {
                        let all = areas.push(area);
                        assert forall|j: int| 0 <= j < lines.len() implies #[trigger] all[j]
                            == line_area(lines[j]) by {
                            if j < front.len() {
                                assert(all[j] == areas[j]);
                                assert(front[j] == lines[j]);
                            } else {
                                crate::rpls::lemma_area_not_negative(lines[j]);
                            }
                        }
                    },
                    Err(_) => {},
                }
            },
            Err(_) => {},
        }
    }
}

/// The landscapes that the sweep returns have a norm, unless an area does
/// not fit.
pub proof fn lemma_generate_norm(bd_pairs: Seq<BirthDeath>, k: usize)
    requires
        bd_pairs.len() <= usize::MAX,
    ensures
        l2_norm_spec(generate_spec(bd_pairs, k).unwrap()) matches Err(e) ==> e
            == NormError::Overflow,
{
    lemma_generate_right(bd_pairs, k);
    let landscapes = generate_spec(bd_pairs, k).unwrap();
    assert forall|j: int| 0 <= j < landscapes.len() implies drawable(#[trigger] landscapes[j]) by {
        let line = landscapes[j];
        assert(well_drawn(line));
        assert forall|a: int, b: int| 0 <= a <= b < line.len() implies (#[trigger] line[a]).0 <= (
        #[trigger] line[b]).0 by {
            if a < b {
                assert(line[a].0 < line[b].0);
            }
        }
    }
    lemma_line_norms(landscapes);
    match line_norms(landscapes) {
        Ok(areas) => {
            assert forall|j: int| 0 <= j && j + 1 < areas.len() implies areas[j] >= (
            #[trigger] areas[j + 1]) by {
                lemma_generate_areas(bd_pairs, k, j);
                assert(areas[j] == line_area(landscapes[j]));
            }
        },
        Err(_) => {},
    }
}

/// Of the polylines none is, over any place, lower than the next, and none
/// has more area under it than the one before.
pub open spec fn landscapes_nested(landscapes: Seq<Seq<(i64, i64)>>) -> bool {
    &&& forall|j: int, t: int|
        0 <= j && j + 1 < landscapes.len() ==> #[trigger] value_at(landscapes[j], t) >= value_at(
            landscapes[j + 1],
            t,
        )
    &&& forall|j: int|
        0 <= j && j + 1 < landscapes.len() ==> line_area(landscapes[j]) >= line_area(
            #[trigger] landscapes[j + 1],
        )
}

/// The polylines that the sweep returns lie one below the other.
pub proof fn lemma_generate_nested_all(bd_pairs: Seq<BirthDeath>, k: usize)
    requires
        bd_pairs.len() <= usize::MAX,
    ensures
        landscapes_nested(generate_spec(bd_pairs, k).unwrap()),
{
    lemma_generate_right(bd_pairs, k);
    let landscapes = generate_spec(bd_pairs, k).unwrap();
    assert forall|j: int, t: int| 0 <= j && j + 1 < landscapes.len() implies #[trigger] value_at(
        landscapes[j],
        t,
    ) >= value_at(landscapes[j + 1], t) by {
        crate::correctness::lemma_generate_nested(bd_pairs, k, j, t);
    }
    assert forall|j: int| 0 <= j && j + 1 < landscapes.len() implies line_area(landscapes[j])
        >= line_area(#[trigger] landscapes[j + 1]) by {
        lemma_generate_areas(bd_pairs, k, j);
    }
}

} // verus!
