//! Laws of where tiles lie and how they compare.
use crate::align::is_center;
use crate::align::is_extracted_tile;
use crate::align::is_l1;
use crate::align::is_level_outcome;
use crate::align::is_report;
use crate::align::lemma_scan_in_window;
use crate::align::level_search;
use crate::align::search_stays_in_range;
use crate::align::tile_start;
use crate::align::AlignmentResult;
use crate::align::Progress;
use crate::align::Search;
use crate::align::TilePair;
use crate::burst::BurstFrame;
use crate::exact::is_exact;
use crate::exact::size_of_real;
use crate::laws::search::comes_below_the_limit;
use crate::laws::search::distance;
use crate::laws::search::distance_upto;
use crate::laws::search::has_positive_limit;
use crate::laws::search::is_behind;
use crate::laws::search::lemma_distance;
use crate::laws::search::lemma_no_distance;
use crate::laws::search::lemma_scan;
use crate::laws::search::search_finds_the_least_distance;
use crate::laws::shift::eighths;
use crate::laws::shift::is_found_only_at;
use crate::laws::shift::lemma_equal_tiles;
use crate::laws::shift::lemma_tile_origin;
use crate::laws::shift::search_finds_the_only_match;
use crate::laws::shift::shows_the_same;
use crate::plane::Plane;
use crate::sample::is_unlimited;
use crate::sample::Sample;
use vstd::prelude::*;

verus! {

/// A tile that would start before an image starts with it, and one that would end
/// after it ends with it.
pub proof fn tiles_beyond_an_edge_lie_at_it(origin: int, offset: int, size: int, tile: int)
    requires
        0 <= tile <= size,
    ensures
        origin + offset <= 0 ==> tile_start(origin, offset, size, tile) == 0,
        0 <= origin + offset <= size - tile ==> tile_start(origin, offset, size, tile) == origin
            + offset,
        origin + offset + tile >= size ==> tile_start(origin, offset, size, tile) + tile == size,
{
}

/// An extracted tile has its middle at the origin, moved by the offset, and where
/// that would take it beyond an edge, it lies at that edge.
pub proof fn extracted_tiles_are_centred<T>(
    image: Plane<T>,
    tile_origin: (usize, usize),
    offset: (i32, i32),
    tile_size: usize,
    tile: Plane<T>,
    i: int,
    j: int,
)
    requires
        is_extracted_tile(image, tile_origin, offset, tile_size, tile),
        tile_size <= image.height(),
        tile_size <= image.width(),
        0 <= i < tile_size,
        0 <= j < tile_size,
    ensures
        ({
            let h = image.height() as int;
            let w = image.width() as int;
            let n = tile_size as int;
            let top = tile_origin.0 + offset.0 - n / 2;
            let left = tile_origin.1 + offset.1 - n / 2;
            let r = if top < 0 {
                i
            } else if top + n > h {
                h - n + i
            } else {
                top + i
            };
            let c = if left < 0 {
                j
            } else if left + n > w {
                w - n + j
            } else {
                left + j
            };
            tile.height() == n && tile.width() == n && tile.at(i, j) == image.at(r, c)
        }),
{
    assert(tile.has(i, j));
}

/// How far the two tiles are apart at place `(i, j)`.
pub open spec fn gap<T>(value: spec_fn(T) -> real, p: TilePair<T>, i: int, j: int) -> real {
    size_of_real(
        value(p.a.at(p.a_at.0 + i, p.a_at.1 + j)) - value(p.b.at(p.b_at.0 + i, p.b_at.1 + j)),
    )
}

/// Two pairs of tiles that are equally far apart everywhere but at one place, up to
/// somewhere.
proof fn lemma_one_gap<T>(
    value: spec_fn(T) -> real,
    p: TilePair<T>,
    q: TilePair<T>,
    x: int,
    y: int,
    i: int,
    j: int,
)
    requires
        p.size == q.size,
        0 <= x < p.size,
        0 <= y < p.size,
        0 <= i <= p.size,
        0 <= j <= p.size,
        i == p.size ==> j == 0,
        forall|s: int, t: int|
            0 <= s < p.size && 0 <= t < p.size && !(s == x && t == y) ==> #[trigger] gap(
                value,
                p,
                s,
                t,
            ) == gap(value, q, s, t),
    ensures
        distance_upto(value, p, i, j) - distance_upto(value, q, i, j) == if is_behind(i, j, x, y) {
            gap(value, p, x, y) - gap(value, q, x, y)
        } else {
            0real
        },
    decreases i, j,
{
    if j > 0 {
        lemma_one_gap(value, p, q, x, y, i, j - 1);
        assert(p.a_at.1 + (j - 1) == p.a_at.1 + j - 1 && p.b_at.1 + (j - 1) == p.b_at.1 + j - 1);
        assert(q.a_at.1 + (j - 1) == q.a_at.1 + j - 1 && q.b_at.1 + (j - 1) == q.b_at.1 + j - 1);
        assert(distance_upto(value, p, i, j) == distance_upto(value, p, i, j - 1) + gap(
            value,
            p,
            i,
            j - 1,
        ));
        assert(distance_upto(value, q, i, j) == distance_upto(value, q, i, j - 1) + gap(
            value,
            q,
            i,
            j - 1,
        ));
    } else if i > 0 {
        lemma_one_gap(value, p, q, x, y, i - 1, p.size);
    }
}

/// The distance of two tiles adds up how far they are apart at each place: where
/// that changes at one place only, the distance changes by as much. It is zero
/// exactly where both tiles show the same.
pub proof fn distances_add_up_all_gaps<T: Sample>(
    value: spec_fn(T) -> real,
    p: TilePair<T>,
    q: TilePair<T>,
    x: int,
    y: int,
    s: T,
    t: T,
)
    requires
        is_exact(value),
        is_l1(p, s),
        is_l1(q, t),
        p.size == q.size,
        0 <= x < p.size,
        0 <= y < p.size,
        forall|i: int, j: int|
            0 <= i < p.size && 0 <= j < p.size && !(i == x && j == y) ==> #[trigger] gap(
                value,
                p,
                i,
                j,
            ) == gap(value, q, i, j),
    ensures
        value(s) - value(t) == gap(value, p, x, y) - gap(value, q, x, y),
        0real <= value(s),
        value(s) == 0real <==> shows_the_same(value, p.a, p.a_at, p.b, p.b_at, p.size),
{
    lemma_distance(value, p, p.size, 0, s);
    lemma_distance(value, q, q.size, 0, t);
    lemma_one_gap(value, p, q, x, y, p.size, 0);
    lemma_no_distance(value, p, p.size, 0);
    if shows_the_same(value, p.a, p.a_at, p.b, p.b_at, p.size) {
        lemma_equal_tiles(value, p, p.size, 0);
    }
    if value(s) == 0real {
        assert forall|i: int, j: int| 0 <= i < p.size && 0 <= j < p.size implies value(
            #[trigger] p.a.at(p.a_at.0 + i, p.a_at.1 + j),
        ) == value(p.b.at(p.b_at.0 + i, p.b_at.1 + j)) by {
            assert(is_behind(p.size, 0, i, j));
        }
    }
}

/// `x`, or the nearest of `0 ..= limit`.
pub open spec fn kept_within(x: int, limit: int) -> int {
    if x < 0 {
        0
    } else if x > limit {
        limit
    } else {
        x
    }
}

/// The tile of the reference and the one of the alternate that the offset leads to.
pub open spec fn compared_at<T>(s: Search<T>, offset: (int, int)) -> TilePair<T> {
    TilePair {
        a: s.reference,
        a_at: s.origin,
        b: s.alternate,
        b_at: (
            kept_within(s.origin.0 + offset.0, s.alternate.height() - s.size),
            kept_within(s.origin.1 + offset.1, s.alternate.width() - s.size),
        ),
        size: s.size,
    }
}

/// No offset within reach of a search is better than the one it settles on, and none
/// that comes before it, row by row, is as good: `best_cost` and `cost` are the
/// distances of the tiles that the two offsets lead to.
pub proof fn searches_leave_nothing_better<T: Sample>(
    value: spec_fn(T) -> real,
    s: Search<T>,
    best: (i32, i32),
    best_cost: T,
    offset: (int, int),
    cost: T,
)
    requires
        is_exact(value),
        s.is_outcome(best),
        s.range >= 0,
        s.initial.0 - s.range <= offset.0 <= s.initial.0 + s.range,
        s.initial.1 - s.range <= offset.1 <= s.initial.1 + s.range,
        is_l1(compared_at(s, (best.0 as int, best.1 as int)), best_cost),
        is_l1(compared_at(s, offset), cost),
        forall|u: T| #[trigger] is_unlimited(u) ==> value(cost) < value(u),
    ensures
        s.initial.0 - s.range <= best.0 <= s.initial.0 + s.range,
        s.initial.1 - s.range <= best.1 <= s.initial.1 + s.range,
        value(best_cost) <= value(cost),
        offset.0 < best.0 || (offset.0 == best.0 && offset.1 < best.1) ==> value(best_cost) < value(
            cost,
        ),
{
    let p = offset.0 - s.initial.0 + s.range;
    let q = offset.1 - s.initial.1 + s.range;
    assert(s.in_window(p, q));
    assert(s.pair(p, q) == compared_at(s, offset));
    lemma_distance(value, s.pair(p, q), s.size, 0, cost);
    assert(forall|u: T| #[trigger]
        is_unlimited(u) ==> distance(value, s.pair(p, q)) < value(u));
    assert(comes_below_the_limit(value, s));
    let at = search_finds_the_least_distance(value, s, best);
    assert(s.pair(at.0, at.1) == compared_at(s, (best.0 as int, best.1 as int)));
    lemma_distance(value, s.pair(at.0, at.1), s.size, 0, best_cost);
    assert(distance(value, s.pair(at.0, at.1)) <= distance(value, s.pair(p, q)));
}

/// At each level a tile is searched for four pixels around twice the offset of the
/// coarser level, or around zero at the coarsest: where it is found at one place
/// only and that lies within this reach, it gets the offset that leads there, and it
/// never gets one beyond it.
pub proof fn levels_refine_offsets_by_up_to_four<T: Sample>(
    value: spec_fn(T) -> real,
    a: Plane<T>,
    b: Plane<T>,
    level: int,
    cols: int,
    prev: Seq<(i32, i32)>,
    next: Seq<(i32, i32)>,
    tr: int,
    tc: int,
    d: (int, int),
)
    requires
        is_exact(value),
        has_positive_limit(value),
        0 <= level < 4,
        is_level_outcome(a, b, level, cols, prev, next),
        0 <= tr,
        0 <= tc < cols,
        tr * cols + tc < next.len(),
        ({
            let from = if level == 3 {
                (0, 0)
            } else {
                (2 * prev[tr * cols + tc].0, 2 * prev[tr * cols + tc].1)
            };
            -4 <= d.0 - from.0 <= 4 && -4 <= d.1 - from.1 <= 4
        }),
        0 < 2 * eighths(level) * tr + d.0 < b.height() - 2 * eighths(level),
        0 < 2 * eighths(level) * tc + d.1 < b.width() - 2 * eighths(level),
    ensures
        ({
            let k = tr * cols + tc;
            let u = eighths(level);
            let from = if level == 3 {
                (0, 0)
            } else {
                (2 * prev[k].0, 2 * prev[k].1)
            };
            let here = (2 * u * tr, 2 * u * tc);
            let there = (2 * u * tr + d.0, 2 * u * tc + d.1);
            &&& -4 <= next[k].0 - from.0 <= 4
            &&& -4 <= next[k].1 - from.1 <= 4
            &&& shows_the_same(value, a, here, b, there, 2 * u) && is_found_only_at(
                value,
                a,
                here,
                b,
                there,
                2 * u,
            ) ==> next[k].0 == d.0 && next[k].1 == d.1
        }),
{
    let idx = tr * cols + tc;
    assert(0 <= tr * cols) by (nonlinear_arith)
        requires
            0 <= tr,
            0 <= cols,
    ;
    let s = level_search(a, b, level, cols, idx, prev[idx]);
    assert(s.is_outcome(next[idx]));
    vstd::arithmetic::div_mod::lemma_fundamental_div_mod_converse(idx, cols, tr, tc);
    let u = eighths(level);
    assert(s.origin == (2 * u * tr, 2 * u * tc) && s.size == 2 * u) by {
        lemma_tile_origin(tr, level);
        lemma_tile_origin(tc, level);
    }
    assert(s.range == 4);
    search_stays_in_range(s, next[idx]);
    let there = (2 * u * tr + d.0, 2 * u * tc + d.1);
    if shows_the_same(value, a, s.origin, b, there, 2 * u) && is_found_only_at(
        value,
        a,
        s.origin,
        b,
        there,
        2 * u,
    ) {
        search_finds_the_only_match(value, s, next[idx], d);
    }
}

/// The middle tile has as many rows of tiles above it as below it and as many to its
/// left as to its right, or one more.
pub proof fn the_middle_tile_is_in_the_middle(a: AlignmentResult, o: (i32, i32), p: int, q: int)
    requires
        is_center(a, o),
        a.n_tile_rows - 1 - p <= p <= a.n_tile_rows - p,
        a.n_tile_cols - 1 - q <= q <= a.n_tile_cols - q,
    ensures
        o == a.offsets@[p * a.n_tile_cols + q],
{
    assert(p == a.n_tile_rows / 2 && q == a.n_tile_cols / 2);
}

/// A search of which no offset within reach comes below the number beyond all
/// distances stays where it started, and so does one without reach.
pub proof fn searches_without_a_match_stay<T: Sample>(
    value: spec_fn(T) -> real,
    s: Search<T>,
    best: (i32, i32),
    costs: spec_fn(int, int) -> T,
)
    requires
        is_exact(value),
        s.is_outcome(best),
        forall|dr: int, dc: int|
            s.initial.0 - s.range <= dr <= s.initial.0 + s.range && s.initial.1 - s.range <= dc
                <= s.initial.1 + s.range ==> is_l1(
                compared_at(s, (dr, dc)),
                #[trigger] costs(dr, dc),
            ) && forall|u: T| #[trigger] is_unlimited(u) ==> value(u) <= value(costs(dr, dc)),
    ensures
        best.0 == s.initial.0,
        best.1 == s.initial.1,
{
    let (limit, at) = choose|limit: T, at: Option<(int, int)>| #[trigger]
        s.is_scan(s.side(), 0, limit, at) && s.is_offset_at(at, best);
    let u = lemma_scan(value, s, s.side(), 0, limit, at);
    lemma_scan_in_window(s, s.side(), 0, limit, at);
    if let Some(b) = at {
        let (dr, dc) = s.candidate(b.0, b.1);
        assert(s.in_window(b.0, b.1));
        assert(is_l1(compared_at(s, (dr, dc)), costs(dr, dc)));
        assert(s.pair(b.0, b.1) == compared_at(s, (dr, dc)));
        lemma_distance(value, s.pair(b.0, b.1), s.size, 0, costs(dr, dc));
        assert(value(u) <= value(costs(dr, dc)));
    }
}

/// The tile of 16 pixels at row `tr` and column `tc` of the tiles, at a level where
/// eight pixels have come down to `u`, and the one of the alternate that the offset
/// leads to.
pub open spec fn compared_at_level<T>(
    a: Plane<T>,
    b: Plane<T>,
    u: int,
    tr: int,
    tc: int,
    offset: (int, int),
) -> TilePair<T> {
    TilePair {
        a,
        a_at: (2 * u * tr, 2 * u * tc),
        b,
        b_at: (
            kept_within(2 * u * tr + offset.0, b.height() - 2 * u),
            kept_within(2 * u * tc + offset.1, b.width() - 2 * u),
        ),
        size: 2 * u,
    }
}

/// At each level no tile is closer anywhere within four pixels of twice the offset of
/// the coarser level, or of zero at the coarsest, than where its offset leads.
pub proof fn levels_leave_nothing_better<T: Sample>(
    value: spec_fn(T) -> real,
    a: Plane<T>,
    b: Plane<T>,
    level: int,
    cols: int,
    prev: Seq<(i32, i32)>,
    next: Seq<(i32, i32)>,
    tr: int,
    tc: int,
    best_cost: T,
    d: (int, int),
    cost: T,
)
    requires
        is_exact(value),
        0 <= level < 4,
        is_level_outcome(a, b, level, cols, prev, next),
        0 <= tr,
        0 <= tc < cols,
        tr * cols + tc < next.len(),
        ({
            let k = tr * cols + tc;
            let from = if level == 3 {
                (0, 0)
            } else {
                (2 * prev[k].0, 2 * prev[k].1)
            };
            let best = (next[k].0 as int, next[k].1 as int);
            &&& -4 <= d.0 - from.0 <= 4
            &&& -4 <= d.1 - from.1 <= 4
            &&& is_l1(compared_at_level(a, b, eighths(level), tr, tc, best), best_cost)
            &&& is_l1(compared_at_level(a, b, eighths(level), tr, tc, d), cost)
        }),
        forall|u: T| #[trigger] is_unlimited(u) ==> value(cost) < value(u),
    ensures
        ({
            let k = tr * cols + tc;
            &&& value(best_cost) <= value(cost)
            &&& d.0 < next[k].0 || (d.0 == next[k].0 && d.1 < next[k].1) ==> value(best_cost)
                < value(cost)
        }),
{
    let idx = tr * cols + tc;
    assert(0 <= tr * cols) by (nonlinear_arith)
        requires
            0 <= tr,
            0 <= cols,
    ;
    let s = level_search(a, b, level, cols, idx, prev[idx]);
    assert(s.is_outcome(next[idx]));
    vstd::arithmetic::div_mod::lemma_fundamental_div_mod_converse(idx, cols, tr, tc);
    let u = eighths(level);
    assert(s.origin == (2 * u * tr, 2 * u * tc) && s.size == 2 * u) by {
        lemma_tile_origin(tr, level);
        lemma_tile_origin(tc, level);
    }
    assert(s.range == 4);
    let best = (next[idx].0 as int, next[idx].1 as int);
    assert(compared_at(s, best) == compared_at_level(a, b, u, tr, tc, best));
    assert(compared_at(s, d) == compared_at_level(a, b, u, tr, tc, d));
    searches_leave_nothing_better(value, s, next[idx], best_cost, d, cost);
}

/// Reports count the alternates from one to as many as there are frames after the
/// first.
pub proof fn reports_count_the_alternates<T: Sample>(
    frames: Seq<BurstFrame<T>>,
    frame: usize,
    total: usize,
)
    requires
        is_report(frames, Progress::PyramidBuilt { frame, total }),
    ensures
        total + 1 == frames.len(),
        1 <= frame,
        frame < frames.len(),
{
}

} // verus!
