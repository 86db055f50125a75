//! Laws of the search for offsets.
use crate::align::has_tiles;
use crate::align::is_alignable;
use crate::align::is_alignment;
use crate::align::is_l1;
use crate::align::is_l1_upto;
use crate::align::is_level_outcome;
use crate::align::is_pyramid;
use crate::align::lemma_pyramids_fit;
use crate::align::lemma_scan_in_window;
use crate::align::lemma_tile_end;
use crate::align::level_fits;
use crate::align::level_search;
use crate::align::scale_of;
use crate::align::tile_size_at;
use crate::align::tile_start;
use crate::align::Search;
use crate::align::TilePair;
use crate::align::PYRAMID_LEVELS;
use crate::align::TILE_SIZE;
use crate::exact::is_exact;
use crate::exact::size_of_real;
use crate::plane::Plane;
use crate::sample::is_difference;
use crate::sample::is_magnitude;
use crate::sample::is_sum;
use crate::sample::is_unlimited;
use crate::sample::Sample;
use vstd::prelude::*;

verus! {

/// The absolute differences of the two tiles over their first `i` rows and the
/// first `j` pixels of the row after those, added up.
pub open spec fn distance_upto<T>(
    value: spec_fn(T) -> real,
    p: TilePair<T>,
    i: int,
    j: int,
) -> real
    decreases i, j,
{
    if j > 0 {
        distance_upto(value, p, i, j - 1) + size_of_real(
            value(p.a.at(p.a_at.0 + i, p.a_at.1 + j - 1)) - value(
                p.b.at(p.b_at.0 + i, p.b_at.1 + j - 1),
            ),
        )
    } else if i > 0 {
        distance_upto(value, p, i - 1, p.size)
    } else {
        0real
    }
}

/// The L1 distance of the two tiles.
pub open spec fn distance<T>(value: spec_fn(T) -> real, p: TilePair<T>) -> real {
    distance_upto(value, p, p.size, 0)
}

/// An L1 norm has the value of the distance.
pub proof fn lemma_distance<T: Sample>(
    value: spec_fn(T) -> real,
    p: TilePair<T>,
    i: int,
    j: int,
    s: T,
)
    requires
        is_exact(value),
        is_l1_upto(p, i, j, s),
    ensures
        value(s) == distance_upto(value, p, i, j),
    decreases i, j,
{
    if j > 0 {
        let x = p.a.at(p.a_at.0 + i, p.a_at.1 + j - 1);
        let y = p.b.at(p.b_at.0 + i, p.b_at.1 + j - 1);
        let (t, d, m) = choose|t: T, d: T, m: T|
            is_l1_upto(p, i, j - 1, t) && #[trigger] is_difference(x, y, d) && is_magnitude(d, m)
                && #[trigger] is_sum(t, m, s);
        lemma_distance(value, p, i, j - 1, t);
    } else if i > 0 {
        lemma_distance(value, p, i - 1, p.size, s);
    } else {
        assert(value(s) * 1real == 0real);
    }
}

/// Has a search that has gone through `i` rows and `j` candidates of the next
/// one gone through candidate `(p, q)`?
pub open spec fn is_behind(i: int, j: int, p: int, q: int) -> bool {
    p < i || (p == i && q < j)
}

/// Where a search stands, over the distances.
pub proof fn lemma_scan<T: Sample>(
    value: spec_fn(T) -> real,
    s: Search<T>,
    i: int,
    j: int,
    limit: T,
    at: Option<(int, int)>,
) -> (u: T)
    requires
        is_exact(value),
        s.is_scan(i, j, limit, at),
        0 <= i,
        0 <= j <= s.side(),
        i < s.side() || (i == s.side() && j == 0),
    ensures
        is_unlimited(u),
        at is None ==> value(limit) == value(u) && forall|p: int, q: int|
            s.in_window(p, q) && is_behind(i, j, p, q) ==> value(u) <= distance(
                value,
                #[trigger] s.pair(p, q),
            ),
        at matches Some(b) ==> {
            &&& value(limit) == distance(value, s.pair(b.0, b.1))
            &&& value(limit) < value(u)
            &&& forall|p: int, q: int|
                s.in_window(p, q) && is_behind(i, j, p, q) ==> value(limit) <= distance(
                    value,
                    #[trigger] s.pair(p, q),
                ) && (is_behind(b.0, b.1, p, q) ==> value(limit) < distance(value, s.pair(p, q)))
        },
    decreases i, j,
{
    if j > 0 {
        let (before, was, cost, lower) = choose|
            before: T,
            was: Option<(int, int)>,
            cost: T,
            lower: bool,
        |
            {
                &&& s.is_scan(i, j - 1, before, was)
                &&& is_l1(s.pair(i, j - 1), cost)
                &&& #[trigger] s.is_step(before, was, cost, lower, (i, j - 1), limit, at)
            };
        let u = lemma_scan(value, s, i, j - 1, before, was);
        lemma_scan_in_window(s, i, j - 1, before, was);
        let pair = s.pair(i, j - 1);
        lemma_distance(value, pair, pair.size, 0, cost);
        assert(lower == (value(before) > distance(value, pair)));
        u
    } else if i > 0 {
        let u = lemma_scan(value, s, i - 1, s.side(), limit, at);
        assert forall|p: int, q: int| s.in_window(p, q) && is_behind(i, j, p, q) implies is_behind(
            i - 1,
            s.side(),
            p,
            q,
        ) by {
        }
        u
    } else {
        limit
    }
}

/// Some candidate of the search comes below the number beyond all distances.
pub open spec fn comes_below_the_limit<T: Sample>(
    value: spec_fn(T) -> real,
    s: Search<T>,
) -> bool {
    exists|p: int, q: int|
        s.in_window(p, q) && forall|u: T| #[trigger]
            is_unlimited(u) ==> distance(value, #[trigger] s.pair(p, q)) < value(u)
}

/// `(i, j)` is the first candidate of the search with the least distance.
pub open spec fn is_first_least<T: Sample>(
    value: spec_fn(T) -> real,
    s: Search<T>,
    i: int,
    j: int,
) -> bool {
    &&& s.in_window(i, j)
    &&& forall|p: int, q: int|
        s.in_window(p, q) ==> distance(value, s.pair(i, j)) <= distance(
            value,
            #[trigger] s.pair(p, q),
        ) && (is_behind(i, j, p, q) ==> distance(value, s.pair(i, j)) < distance(
            value,
            s.pair(p, q),
        ))
}

/// A search settles on the offset of least L1 distance between the tile of the
/// reference and the region of the alternate that the offset leads to; of several
/// such offsets it is the first.
pub proof fn search_finds_the_least_distance<T: Sample>(
    value: spec_fn(T) -> real,
    s: Search<T>,
    best: (i32, i32),
) -> (at: (int, int))
    requires
        is_exact(value),
        s.is_outcome(best),
        comes_below_the_limit(value, s),
    ensures
        is_first_least(value, s, at.0, at.1),
        best.0 == s.candidate(at.0, at.1).0,
        best.1 == s.candidate(at.0, at.1).1,
{
    let (p, q) = choose|p: int, q: int|
        s.in_window(p, q) && forall|u: T| #[trigger]
            is_unlimited(u) ==> distance(value, #[trigger] s.pair(p, q)) < value(u);
    let (limit, at) = choose|limit: T, at: Option<(int, int)>| #[trigger]
        s.is_scan(s.side(), 0, limit, at) && s.is_offset_at(at, best);
    let u = lemma_scan(value, s, s.side(), 0, limit, at);
    lemma_scan_in_window(s, s.side(), 0, limit, at);
    assert(distance(value, s.pair(p, q)) < value(u));
    at.unwrap()
}

/// A distance is not negative, and where it is zero the tiles have the same values.
pub proof fn lemma_no_distance<T>(value: spec_fn(T) -> real, p: TilePair<T>, i: int, j: int)
    requires
        0 <= i,
        0 <= j <= p.size,
    ensures
        0real <= distance_upto(value, p, i, j),
        distance_upto(value, p, i, j) == 0real ==> forall|x: int, y: int|
            0 <= x && 0 <= y < p.size && is_behind(i, j, x, y) ==> value(
                #[trigger] p.a.at(p.a_at.0 + x, p.a_at.1 + y),
            ) == value(p.b.at(p.b_at.0 + x, p.b_at.1 + y)),
    decreases i, j,
{
    if j > 0 {
        lemma_no_distance(value, p, i, j - 1);
        if distance_upto(value, p, i, j) == 0real {
            assert forall|x: int, y: int|
                0 <= x && 0 <= y < p.size && is_behind(i, j, x, y) implies value(
                #[trigger] p.a.at(p.a_at.0 + x, p.a_at.1 + y),
            ) == value(p.b.at(p.b_at.0 + x, p.b_at.1 + y)) by {
                if !is_behind(i, j - 1, x, y) {
                    assert(x == i && y == j - 1);
                    assert(p.a_at.1 + y == p.a_at.1 + j - 1);
                    assert(p.b_at.1 + y == p.b_at.1 + j - 1);
                }
            }
        }
    } else if i > 0 {
        lemma_no_distance(value, p, i - 1, p.size);
        assert forall|x: int, y: int|
            0 <= x && 0 <= y < p.size && is_behind(i, j, x, y) implies is_behind(
            i - 1,
            p.size,
            x,
            y,
        ) by {
        }
    }
}

/// Tiles of the same values have no distance.
proof fn lemma_same_tile_has_no_distance<T>(
    value: spec_fn(T) -> real,
    p: TilePair<T>,
    i: int,
    j: int,
)
    requires
        p.a == p.b,
        p.a_at == p.b_at,
    ensures
        distance_upto(value, p, i, j) == 0real,
    decreases i, j,
{
    if j > 0 {
        lemma_same_tile_has_no_distance(value, p, i, j - 1);
    } else if i > 0 {
        lemma_same_tile_has_no_distance(value, p, i - 1, p.size);
    }
}

/// The tile of `size` pixels at `a` has the same values as the one at `b`.
pub open spec fn looks_like<T>(
    value: spec_fn(T) -> real,
    image: Plane<T>,
    a: (int, int),
    b: (int, int),
    size: int,
) -> bool {
    forall|x: int, y: int|
        0 <= x < size && 0 <= y < size ==> value(#[trigger] image.at(a.0 + x, a.1 + y)) == value(
            image.at(b.0 + x, b.1 + y),
        )
}

/// Where the tile goes with this offset.
pub open spec fn place_of<T>(s: Search<T>, offset: (int, int)) -> (int, int) {
    (
        tile_start(s.origin.0, offset.0, s.alternate.height() as int, s.size),
        tile_start(s.origin.1, offset.1, s.alternate.width() as int, s.size),
    )
}

/// The number beyond all distances lies above zero.
pub open spec fn has_positive_limit<T: Sample>(value: spec_fn(T) -> real) -> bool {
    forall|u: T| #[trigger] is_unlimited(u) ==> 0real < value(u)
}

/// A search of an image in itself that tries an offset which leaves the tile in its
/// place finds a tile of the same values.
pub proof fn search_in_itself_finds_the_same_values<T: Sample>(
    value: spec_fn(T) -> real,
    s: Search<T>,
    best: (i32, i32),
    p: int,
    q: int,
) -> (at: (int, int))
    requires
        is_exact(value),
        has_positive_limit(value),
        s.is_outcome(best),
        s.reference == s.alternate,
        s.size >= 0,
        s.in_window(p, q),
        place_of(s, s.candidate(p, q)) == s.origin,
    ensures
        looks_like(
            value,
            s.reference,
            s.origin,
            place_of(s, (best.0 as int, best.1 as int)),
            s.size,
        ),
        is_first_least(value, s, at.0, at.1),
        distance(value, s.pair(at.0, at.1)) == 0real,
        best.0 == s.candidate(at.0, at.1).0,
        best.1 == s.candidate(at.0, at.1).1,
{
    lemma_same_tile_has_no_distance(value, s.pair(p, q), s.size, 0);
    assert(forall|u: T| #[trigger]
        is_unlimited(u) ==> distance(value, s.pair(p, q)) < value(u));
    assert(comes_below_the_limit(value, s));
    let at = search_finds_the_least_distance(value, s, best);
    let pair = s.pair(at.0, at.1);
    lemma_no_distance(value, pair, s.size, 0);
    assert(distance(value, pair) <= distance(value, s.pair(p, q)));
    let b = place_of(s, (best.0 as int, best.1 as int));
    assert(pair.b_at == b);
    assert forall|x: int, y: int| 0 <= x < s.size && 0 <= y < s.size implies value(
        #[trigger] s.reference.at(s.origin.0 + x, s.origin.1 + y),
    ) == value(s.reference.at(b.0 + x, b.1 + y)) by {
        assert(is_behind(s.size, 0, x, y));
        assert(pair.a.at(pair.a_at.0 + x, pair.a_at.1 + y) == s.reference.at(
            s.origin.0 + x,
            s.origin.1 + y,
        ));
    }
    at
}

/// No other place of the image looks like the tile at `origin`.
pub open spec fn is_distinct_tile<T>(
    value: spec_fn(T) -> real,
    image: Plane<T>,
    origin: (int, int),
    size: int,
) -> bool {
    forall|b: (int, int)|
        0 <= b.0 <= image.height() - size && 0 <= b.1 <= image.width() - size
            && #[trigger] looks_like(value, image, origin, b, size) ==> b == origin
}

/// The first pixel of tile `idx` at a level.
pub open spec fn origin_at(level: int, n_tile_cols: int, idx: int) -> (int, int) {
    (
        (idx / n_tile_cols) * TILE_SIZE / scale_of(level),
        (idx % n_tile_cols) * TILE_SIZE / scale_of(level),
    )
}

/// At every level, no other place looks like tile `idx`.
pub open spec fn is_distinct_on_all_levels<T>(
    value: spec_fn(T) -> real,
    levels: Seq<Plane<T>>,
    n_tile_cols: int,
    idx: int,
) -> bool {
    forall|level: int|
        0 <= level < PYRAMID_LEVELS ==> is_distinct_tile(
            value,
            #[trigger] levels[level],
            origin_at(level, n_tile_cols, idx),
            tile_size_at(level),
        )
}

/// The offset does not lead away to the right or below, and leaves tile `idx` in
/// its place.
pub open spec fn stays_in_place<T>(
    image: Plane<T>,
    level: int,
    n_tile_cols: int,
    idx: int,
    offset: (i32, i32),
) -> bool {
    let o = origin_at(level, n_tile_cols, idx);
    &&& offset.0 <= 0
    &&& offset.1 <= 0
    &&& tile_start(o.0, offset.0 as int, image.height() as int, tile_size_at(level)) == o.0
    &&& tile_start(o.1, offset.1 as int, image.width() as int, tile_size_at(level)) == o.1
}

/// An offset that leaves a tile in its place at one level does so, doubled, at the
/// next finer one: it is zero, or the tile lies at the edge that it leads beyond.
proof fn lemma_doubled_offset(
    level: int,
    t: int,
    offset: int,
    coarse_size: int,
    size: int,
)
    requires
        0 <= level < PYRAMID_LEVELS - 1,
        0 <= t,
        offset <= 0,
        t * TILE_SIZE / scale_of(level + 1) + tile_size_at(level + 1) <= coarse_size,
        t * TILE_SIZE / scale_of(level) + tile_size_at(level) <= size,
        tile_start(
            t * TILE_SIZE / scale_of(level + 1),
            offset,
            coarse_size,
            tile_size_at(level + 1),
        ) == t * TILE_SIZE / scale_of(level + 1),
    ensures
        tile_start(
            t * TILE_SIZE / scale_of(level),
            2 * offset,
            size,
            tile_size_at(level),
        ) == t * TILE_SIZE / scale_of(level),
{
    let coarse = t * TILE_SIZE / scale_of(level + 1);
    let fine = t * TILE_SIZE / scale_of(level);
    if level == 0 {
        assert(coarse == (t * 16) / 2 && fine == (t * 16) / 1);
        assert(coarse == 8 * t && fine == 16 * t);
    } else if level == 1 {
        assert(coarse == (t * 16) / 4 && fine == (t * 16) / 2);
        assert(coarse == 4 * t && fine == 8 * t);
    } else {
        assert(coarse == (t * 16) / 8 && fine == (t * 16) / 4);
        assert(coarse == 2 * t && fine == 4 * t);
    }
    if offset < 0 {
        assert(coarse == 0);
        assert(fine == 0);
    }
}

/// One tile at one level, searched in its own image.
proof fn lemma_level_stays<T: Sample>(
    value: spec_fn(T) -> real,
    image: Plane<T>,
    level: int,
    n_tile_cols: int,
    idx: int,
    prev: (i32, i32),
    best: (i32, i32),
)
    requires
        is_exact(value),
        has_positive_limit(value),
        0 <= level < PYRAMID_LEVELS,
        ({
            let s = level_search(image, image, level, n_tile_cols, idx, prev);
            &&& s.is_outcome(best)
            &&& s.initial.0 <= 0
            &&& s.initial.1 <= 0
            &&& place_of(s, s.initial) == s.origin
            &&& 0 <= s.origin.0 <= image.height() - s.size
            &&& 0 <= s.origin.1 <= image.width() - s.size
            &&& is_distinct_tile(value, image, s.origin, s.size)
        }),
    ensures
        stays_in_place(image, level, n_tile_cols, idx, best),
{
    let s = level_search(image, image, level, n_tile_cols, idx, prev);
    assert(s.size >= 0) by {
        if level == 0 {
        } else if level == 1 {
        } else if level == 2 {
        } else {
        }
    }
    assert(s.candidate(4, 4) == s.initial);
    assert(s.in_window(4, 4));
    let at = search_in_itself_finds_the_same_values(value, s, best, 4, 4);
    let b = place_of(s, (best.0 as int, best.1 as int));
    assert(looks_like(value, image, s.origin, b, s.size));
    assert(b == s.origin);
    lemma_same_tile_has_no_distance(value, s.pair(4, 4), s.size, 0);
    assert(distance(value, s.pair(4, 4)) == 0real);
    if at.0 > 4 {
        assert(is_behind(at.0, at.1, 4, 4));
    }
    if at.1 > 4 {
        // The same row, and the column of the initial offset.
        assert(s.in_window(at.0, 4));
        assert(place_of(s, s.candidate(at.0, 4)) == s.origin);
        lemma_same_tile_has_no_distance(value, s.pair(at.0, 4), s.size, 0);
        assert(distance(value, s.pair(at.0, 4)) == 0real);
        assert(is_behind(at.0, at.1, at.0, 4));
    }
}

/// A pyramid aligned with itself leads each tile to its own place, if no other place
/// looks like the tile at any level.
pub proof fn self_alignment_stays_in_place<T: Sample>(
    value: spec_fn(T) -> real,
    image: Plane<T>,
    levels: Seq<Plane<T>>,
    level: int,
    offsets: Seq<(i32, i32)>,
    idx: int,
)
    requires
        is_exact(value),
        has_positive_limit(value),
        is_alignable(image),
        has_tiles(image),
        is_pyramid(image, levels),
        levels.len() == PYRAMID_LEVELS,
        0 <= level < PYRAMID_LEVELS,
        is_alignment(
            levels,
            levels,
            image.width() as int / TILE_SIZE as int,
            level,
            offsets,
        ),
        offsets.len() == (image.height() as int / TILE_SIZE as int) * (image.width() as int
            / TILE_SIZE as int),
        0 <= idx < offsets.len(),
        is_distinct_on_all_levels(
            value,
            levels,
            image.width() as int / TILE_SIZE as int,
            idx,
        ),
    ensures
        stays_in_place(
            levels[level],
            level,
            image.width() as int / TILE_SIZE as int,
            idx,
            offsets[idx],
        ),
    decreases PYRAMID_LEVELS - level,
{
    let rows = image.height() as int / TILE_SIZE as int;
    let cols = image.width() as int / TILE_SIZE as int;
    let prev = choose|prev: Seq<(i32, i32)>|
        is_alignment(levels, levels, cols, level + 1, prev) && #[trigger] is_level_outcome(
            levels[level],
            levels[level],
            level,
            cols,
            prev,
            offsets,
        );
    let here = levels[level];
    let s = level_search(here, here, level, cols, idx, prev[idx]);
    assert(s.is_outcome(offsets[idx]));
    let (tr, tc) = (idx / cols, idx % cols);
    vstd::arithmetic::mul::lemma_mul_is_commutative(rows, cols);
    vstd::arithmetic::div_mod::lemma_multiply_divide_lt(idx, cols, rows);
    vstd::arithmetic::div_mod::lemma_div_pos_is_pos(idx, cols);
    vstd::arithmetic::div_mod::lemma_mod_bound(idx, cols);
    lemma_pyramids_fit(image, levels, image, levels);
    assert(level_fits(levels[level], levels[level], level, rows, cols));
    lemma_tile_end(tr, rows, level);
    lemma_tile_end(tc, cols, level);
    assert(is_distinct_tile(
        value,
        levels[level],
        origin_at(level, cols, idx),
        tile_size_at(level),
    ));
    if level < PYRAMID_LEVELS - 1 {
        let coarse = levels[level + 1];
        assert(level_fits(levels[level + 1], levels[level + 1], level + 1, rows, cols));
        lemma_tile_end(tr, rows, level + 1);
        lemma_tile_end(tc, cols, level + 1);
        self_alignment_stays_in_place(value, image, levels, level + 1, prev, idx);
        let o = prev[idx];
        lemma_doubled_offset(
            level,
            tr,
            o.0 as int,
            coarse.height() as int,
            here.height() as int,
        );
        lemma_doubled_offset(
            level,
            tc,
            o.1 as int,
            coarse.width() as int,
            here.width() as int,
        );
    }
    lemma_level_stays(value, here, level, cols, idx, prev[idx], offsets[idx]);
}

} // verus!
