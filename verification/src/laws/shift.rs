//! Laws of the alignment of images that show the same, moved.
use crate::align::is_alignment;
use crate::align::is_blur;
use crate::align::is_burst_alignment;
use crate::align::is_column_blur;
use crate::align::is_frame_alignment;
use crate::align::is_level_outcome;
use crate::align::is_next_level;
use crate::align::is_pyramid;
use crate::align::is_row_blur;
use crate::align::is_subsample;
use crate::align::level_search;
use crate::align::scale_of;
use crate::align::tile_size_at;
use crate::align::tile_start;
use crate::align::AlignmentResult;
use crate::align::Search;
use crate::align::TilePair;
use crate::burst::BurstFrame;
use crate::exact::is_exact;
use crate::laws::align::lemma_column_blur;
use crate::laws::align::lemma_mean_of_four;
use crate::laws::align::lemma_row_blur;
use crate::laws::merge::is_moved;
use crate::laws::search::comes_below_the_limit;
use crate::laws::search::distance;
use crate::laws::search::distance_upto;
use crate::laws::search::has_positive_limit;
use crate::laws::search::is_behind;
use crate::laws::search::lemma_no_distance;
use crate::laws::search::place_of;
use crate::laws::search::search_finds_the_least_distance;
use crate::plane::clamp_index;
use crate::plane::Plane;
use crate::sample::is_unlimited;
use crate::sample::Sample;
use vstd::prelude::*;

verus! {

/// Two or more pixels away from every edge, `b` shows what `a` shows, moved by `d`.
pub open spec fn is_moved_inside<T>(
    value: spec_fn(T) -> real,
    a: Plane<T>,
    b: Plane<T>,
    d: (int, int),
) -> bool {
    forall|r: int, c: int|
        2 <= r < a.height() - 2 && 2 <= c < a.width() - 2 && 2 <= r + d.0 < b.height() - 2 && 2 <= c
            + d.1 < b.width() - 2 ==> value(#[trigger] a.at(r, c)) == value(
            b.at(r + d.0, c + d.1),
        )
}

/// A blurred row, where both rows show the same.
proof fn lemma_moved_row<T: Sample>(
    value: spec_fn(T) -> real,
    a: Plane<T>,
    b: Plane<T>,
    a_out: Plane<T>,
    b_out: Plane<T>,
    d: (int, int),
    r: int,
    c: int,
)
    requires
        is_exact(value),
        is_moved_inside(value, a, b, d),
        is_row_blur(a, a_out),
        is_row_blur(b, b_out),
        2 <= r < a.height() - 2,
        4 <= c < a.width() - 4,
        2 <= r + d.0 < b.height() - 2,
        4 <= c + d.1 < b.width() - 4,
    ensures
        value(a_out.at(r, c)) == value(b_out.at(r + d.0, c + d.1)),
{
    let (p, q) = (r + d.0, c + d.1);
    lemma_row_blur(value, a, a_out, r, c);
    lemma_row_blur(value, b, b_out, p, q);
    let (w, v) = (a.width() as int, b.width() as int);
    assert(clamp_index(c - 2, w) == c - 2 && clamp_index(q - 2, v) == q - 2);
    assert(clamp_index(c - 1, w) == c - 1 && clamp_index(q - 1, v) == q - 1);
    assert(clamp_index(c + 1, w) == c + 1 && clamp_index(q + 1, v) == q + 1);
    assert(clamp_index(c + 2, w) == c + 2 && clamp_index(q + 2, v) == q + 2);
    assert(c - 2 + d.1 == q - 2 && c - 1 + d.1 == q - 1);
    assert(c + 1 + d.1 == q + 1 && c + 2 + d.1 == q + 2);
    assert(value(a.at(r, c - 2)) == value(b.at(p, q - 2)));
    assert(value(a.at(r, c - 1)) == value(b.at(p, q - 1)));
    assert(value(a.at(r, c)) == value(b.at(p, q)));
    assert(value(a.at(r, c + 1)) == value(b.at(p, q + 1)));
    assert(value(a.at(r, c + 2)) == value(b.at(p, q + 2)));
}

/// A blurred pixel, where both images show the same around it.
proof fn lemma_moved_blur<T: Sample>(
    value: spec_fn(T) -> real,
    a: Plane<T>,
    b: Plane<T>,
    a_out: Plane<T>,
    b_out: Plane<T>,
    d: (int, int),
    r: int,
    c: int,
)
    requires
        is_exact(value),
        is_moved_inside(value, a, b, d),
        is_blur(a, a_out),
        is_blur(b, b_out),
        4 <= r < a.height() - 4,
        4 <= c < a.width() - 4,
        4 <= r + d.0 < b.height() - 4,
        4 <= c + d.1 < b.width() - 4,
    ensures
        value(a_out.at(r, c)) == value(b_out.at(r + d.0, c + d.1)),
{
    let a_middle = choose|middle: Plane<T>| #[trigger]
        is_row_blur(a, middle) && is_column_blur(middle, a_out);
    let b_middle = choose|middle: Plane<T>| #[trigger]
        is_row_blur(b, middle) && is_column_blur(middle, b_out);
    let (p, q) = (r + d.0, c + d.1);
    lemma_moved_row(value, a, b, a_middle, b_middle, d, r - 2, c);
    lemma_moved_row(value, a, b, a_middle, b_middle, d, r - 1, c);
    lemma_moved_row(value, a, b, a_middle, b_middle, d, r, c);
    lemma_moved_row(value, a, b, a_middle, b_middle, d, r + 1, c);
    lemma_moved_row(value, a, b, a_middle, b_middle, d, r + 2, c);
    assert(r - 2 + d.0 == p - 2 && r - 1 + d.0 == p - 1);
    assert(r + 1 + d.0 == p + 1 && r + 2 + d.0 == p + 2);
    lemma_column_blur(value, a_middle, a_out, r, c);
    lemma_column_blur(value, b_middle, b_out, p, q);
    let (h, g) = (a.height() as int, b.height() as int);
    assert(clamp_index(r - 2, h) == r - 2 && clamp_index(p - 2, g) == p - 2);
    assert(clamp_index(r - 1, h) == r - 1 && clamp_index(p - 1, g) == p - 1);
    assert(clamp_index(r + 1, h) == r + 1 && clamp_index(p + 1, g) == p + 1);
    assert(clamp_index(r + 2, h) == r + 2 && clamp_index(p + 2, g) == p + 2);
}

/// Where one image shows another moved by an even number of pixels, the next levels
/// of their pyramids do so by half as many.
proof fn lemma_moved_level<T: Sample>(
    value: spec_fn(T) -> real,
    a: Plane<T>,
    b: Plane<T>,
    a_next: Plane<T>,
    b_next: Plane<T>,
    e: (int, int),
)
    requires
        is_exact(value),
        is_moved_inside(value, a, b, (2 * e.0, 2 * e.1)),
        is_next_level(a, a_next),
        is_next_level(b, b_next),
    ensures
        is_moved_inside(value, a_next, b_next, e),
{
    let d = (2 * e.0, 2 * e.1);
    let a_blur = choose|blurred: Plane<T>| #[trigger]
        is_blur(a, blurred) && is_subsample(blurred, a_next);
    let b_blur = choose|blurred: Plane<T>| #[trigger]
        is_blur(b, blurred) && is_subsample(blurred, b_next);
    assert forall|r: int, c: int|
        2 <= r < a_next.height() - 2 && 2 <= c < a_next.width() - 2 && 2 <= r + e.0
            < b_next.height() - 2 && 2 <= c + e.1 < b_next.width() - 2 implies value(
        #[trigger] a_next.at(r, c),
    ) == value(b_next.at(r + e.0, c + e.1)) by {
        let (p, q) = (r + e.0, c + e.1);
        assert(a_next.has(r, c) && b_next.has(p, q));
        lemma_mean_of_four(
            value,
            a_blur.at(2 * r, 2 * c),
            a_blur.at(2 * r, 2 * c + 1),
            a_blur.at(2 * r + 1, 2 * c),
            a_blur.at(2 * r + 1, 2 * c + 1),
            a_next.at(r, c),
        );
        lemma_mean_of_four(
            value,
            b_blur.at(2 * p, 2 * q),
            b_blur.at(2 * p, 2 * q + 1),
            b_blur.at(2 * p + 1, 2 * q),
            b_blur.at(2 * p + 1, 2 * q + 1),
            b_next.at(p, q),
        );
        assert(2 * r + d.0 == 2 * p && 2 * c + d.1 == 2 * q);
        assert(2 * r + 1 + d.0 == 2 * p + 1 && 2 * c + 1 + d.1 == 2 * q + 1);
        lemma_moved_blur(value, a, b, a_blur, b_blur, d, 2 * r, 2 * c);
        lemma_moved_blur(value, a, b, a_blur, b_blur, d, 2 * r, 2 * c + 1);
        lemma_moved_blur(value, a, b, a_blur, b_blur, d, 2 * r + 1, 2 * c);
        lemma_moved_blur(value, a, b, a_blur, b_blur, d, 2 * r + 1, 2 * c + 1);
    }
}

/// How many pixels of a level eight pixels of the image come down to.
pub open spec fn eighths(level: int) -> int {
    if level == 0 {
        8
    } else if level == 1 {
        4
    } else if level == 2 {
        2
    } else {
        1
    }
}

/// Where one image shows another moved by `e` times eight pixels, so do the levels
/// of their pyramids.
proof fn lemma_moved_levels<T: Sample>(
    value: spec_fn(T) -> real,
    a: Plane<T>,
    b: Plane<T>,
    a_levels: Seq<Plane<T>>,
    b_levels: Seq<Plane<T>>,
    e: (int, int),
    k: int,
)
    requires
        is_exact(value),
        is_moved(value, a, b, (8 * e.0, 8 * e.1)),
        a.same_size(&b),
        is_pyramid(a, a_levels),
        is_pyramid(b, b_levels),
        a_levels.len() == 4,
        b_levels.len() == 4,
        0 <= k < 4,
    ensures
        is_moved_inside(
            value,
            a_levels[k],
            b_levels[k],
            (eighths(k) * e.0, eighths(k) * e.1),
        ),
        a_levels[k].same_size(&b_levels[k]),
        a_levels[k].height() == a.height() as int / (8int / eighths(k)),
        a_levels[k].width() == a.width() as int / (8int / eighths(k)),
    decreases k,
{
    if k == 0 {
        let (x, y) = (a_levels[0], b_levels[0]);
        assert forall|r: int, c: int|
            2 <= r < x.height() - 2 && 2 <= c < x.width() - 2 && 2 <= r + 8 * e.0 < y.height() - 2
                && 2 <= c + 8 * e.1 < y.width() - 2 implies value(#[trigger] x.at(r, c)) == value(
            y.at(r + 8 * e.0, c + 8 * e.1),
        ) by {
            assert(x.at(r, c) == a.at(r, c));
            assert(y.at(r + 8 * e.0, c + 8 * e.1) == b.at(r + 8 * e.0, c + 8 * e.1));
            assert(a.has(r, c) && b.has(r + 8 * e.0, c + 8 * e.1));
        }
        assert(8int / 8 == 1);
    } else {
        lemma_moved_levels(value, a, b, a_levels, b_levels, e, k - 1);
        assert(is_next_level(a_levels[k - 1], a_levels[k]));
        assert(is_next_level(b_levels[k - 1], b_levels[k]));
        let u = eighths(k);
        assert(eighths(k - 1) == 2 * u);
        if k == 1 {
            assert(eighths(0) * e.0 == 2 * (4 * e.0) && eighths(0) * e.1 == 2 * (4 * e.1));
        } else if k == 2 {
            assert(eighths(1) * e.0 == 2 * (2 * e.0) && eighths(1) * e.1 == 2 * (2 * e.1));
        } else {
            assert(eighths(2) * e.0 == 2 * (1 * e.0) && eighths(2) * e.1 == 2 * (1 * e.1));
        }
        lemma_moved_level(
            value,
            a_levels[k - 1],
            b_levels[k - 1],
            a_levels[k],
            b_levels[k],
            (u * e.0, u * e.1),
        );
    }
}

/// The tile of `size` pixels at `a_at` in `a` has the same values as the one at
/// `b_at` in `b`.
pub open spec fn shows_the_same<T>(
    value: spec_fn(T) -> real,
    a: Plane<T>,
    a_at: (int, int),
    b: Plane<T>,
    b_at: (int, int),
    size: int,
) -> bool {
    forall|x: int, y: int|
        0 <= x < size && 0 <= y < size ==> value(#[trigger] a.at(a_at.0 + x, a_at.1 + y)) == value(
            b.at(b_at.0 + x, b_at.1 + y),
        )
}

/// No place of `b` but `b_at` shows what the tile of `size` pixels at `a_at` in `a`
/// shows.
pub open spec fn is_found_only_at<T>(
    value: spec_fn(T) -> real,
    a: Plane<T>,
    a_at: (int, int),
    b: Plane<T>,
    b_at: (int, int),
    size: int,
) -> bool {
    forall|at: (int, int)|
        0 <= at.0 <= b.height() - size && 0 <= at.1 <= b.width() - size
            && #[trigger] shows_the_same(value, a, a_at, b, at, size) ==> at == b_at
}

/// Tiles of the same values have no distance.
pub proof fn lemma_equal_tiles<T>(value: spec_fn(T) -> real, p: TilePair<T>, i: int, j: int)
    requires
        shows_the_same(value, p.a, p.a_at, p.b, p.b_at, p.size),
        0 <= i <= p.size,
        0 <= j <= p.size,
        i == p.size ==> j == 0,
    ensures
        distance_upto(value, p, i, j) == 0real,
    decreases i, j,
{
    if j > 0 {
        lemma_equal_tiles(value, p, i, j - 1);
        assert(p.a_at.1 + (j - 1) == p.a_at.1 + j - 1);
        assert(value(p.a.at(p.a_at.0 + i, p.a_at.1 + (j - 1))) == value(
            p.b.at(p.b_at.0 + i, p.b_at.1 + (j - 1)),
        ));
    } else if i > 0 {
        lemma_equal_tiles(value, p, i - 1, p.size);
    }
}

/// A search finds the only place that shows what the tile shows, if it tries the
/// offset that leads there.
pub proof fn search_finds_the_only_match<T: Sample>(
    value: spec_fn(T) -> real,
    s: Search<T>,
    best: (i32, i32),
    offset: (int, int),
)
    requires
        is_exact(value),
        has_positive_limit(value),
        s.is_outcome(best),
        0 < s.size,
        s.initial.0 - s.range <= offset.0 <= s.initial.0 + s.range,
        s.initial.1 - s.range <= offset.1 <= s.initial.1 + s.range,
        0 < s.origin.0 + offset.0 < s.alternate.height() - s.size,
        0 < s.origin.1 + offset.1 < s.alternate.width() - s.size,
        shows_the_same(
            value,
            s.reference,
            s.origin,
            s.alternate,
            (s.origin.0 + offset.0, s.origin.1 + offset.1),
            s.size,
        ),
        is_found_only_at(
            value,
            s.reference,
            s.origin,
            s.alternate,
            (s.origin.0 + offset.0, s.origin.1 + offset.1),
            s.size,
        ),
    ensures
        best.0 == offset.0,
        best.1 == offset.1,
{
    let target = (s.origin.0 + offset.0, s.origin.1 + offset.1);
    let p = offset.0 - s.initial.0 + s.range;
    let q = offset.1 - s.initial.1 + s.range;
    assert(s.in_window(p, q));
    assert(s.pair(p, q).b_at == target);
    lemma_equal_tiles(value, s.pair(p, q), s.size, 0);
    assert(forall|u: T| #[trigger]
        is_unlimited(u) ==> distance(value, s.pair(p, q)) < value(u));
    assert(comes_below_the_limit(value, s));
    let at = search_finds_the_least_distance(value, s, best);
    let pair = s.pair(at.0, at.1);
    lemma_no_distance(value, pair, s.size, 0);
    assert(distance(value, pair) <= distance(value, s.pair(p, q)));
    let b = place_of(s, (best.0 as int, best.1 as int));
    assert(pair.b_at == b);
    assert(shows_the_same(value, s.reference, s.origin, s.alternate, b, s.size)) by {
        assert forall|x: int, y: int| 0 <= x < s.size && 0 <= y < s.size implies value(
            #[trigger] s.reference.at(s.origin.0 + x, s.origin.1 + y),
        ) == value(s.alternate.at(b.0 + x, b.1 + y)) by {
            assert(is_behind(s.size, 0, x, y));
            assert(pair.a.at(pair.a_at.0 + x, pair.a_at.1 + y) == s.reference.at(
                s.origin.0 + x,
                s.origin.1 + y,
            ));
        }
    }
    assert(b == target);
    assert(tile_start(s.origin.0, best.0 as int, s.alternate.height() as int, s.size) == target.0);
    assert(tile_start(s.origin.1, best.1 as int, s.alternate.width() as int, s.size) == target.1);
}

/// At every level the only place of the alternate that shows what tile `(tr, tc)`
/// of the reference shows is the one that lies `e` times eight pixels of the image
/// away.
pub open spec fn is_found_only_when_moved<T>(
    value: spec_fn(T) -> real,
    a_levels: Seq<Plane<T>>,
    b_levels: Seq<Plane<T>>,
    tr: int,
    tc: int,
    e: (int, int),
) -> bool {
    forall|level: int|
        0 <= level < 4 ==> is_found_only_at(
            value,
            #[trigger] a_levels[level],
            (2 * eighths(level) * tr, 2 * eighths(level) * tc),
            b_levels[level],
            (
                2 * eighths(level) * tr + eighths(level) * e.0,
                2 * eighths(level) * tc + eighths(level) * e.1,
            ),
            2 * eighths(level),
        )
}

/// A tile of 16 pixels lies 16 pixels or more from both ends of `size` pixels, where
/// it is and where it is moved to, with eight more to spare at the far end.
pub open spec fn is_inner_tile(size: int, t: int, d: int) -> bool {
    &&& 16 <= 16 * t
    &&& 16 * t + 16 <= size - 24
    &&& 16 <= 16 * t + d
    &&& 16 * t + d + 16 <= size - 24
}

/// A tile that lies well within an image lies two pixels or more from the edges at
/// every level, and so does the one it is moved to.
proof fn lemma_inner_tile(size: int, t: int, e: int, level: int)
    requires
        is_inner_tile(size, t, 8 * e),
        0 <= level < 4,
    ensures
        ({
            let u = eighths(level);
            let n = size / (8int / u);
            &&& 2 <= 2 * u * t
            &&& 2 * u * t + 2 * u <= n - 2
            &&& 2 <= 2 * u * t + u * e
            &&& 2 * u * t + u * e + 2 * u <= n - 2
        }),
{
    let u = eighths(level);
    let n = size / (8int / u);
    if level == 0 {
        assert(u == 8 && 8int / 8 == 1);
        assert(n == size / 1 && n == size);
        assert(2 * u * t == 16 * t && u * e == 8 * e);
    } else if level == 1 {
        assert(u == 4 && 8int / 4 == 2);
        assert(n == size / 2 && 2 * n >= size - 1);
        assert(2 * u * t == 8 * t && u * e == 4 * e);
    } else if level == 2 {
        assert(u == 2 && 8int / 2 == 4);
        assert(n == size / 4 && 4 * n >= size - 3);
        assert(2 * u * t == 4 * t && u * e == 2 * e);
    } else {
        assert(u == 1 && 8int / 1 == 8);
        assert(n == size / 8 && 8 * n >= size - 7);
        assert(2 * u * t == 2 * t && u * e == 1 * e);
    }
}

/// Where a tile lies at a level.
pub proof fn lemma_tile_origin(t: int, level: int)
    requires
        0 <= level < 4,
    ensures
        (t * 16) / scale_of(level) == 2 * eighths(level) * t,
        tile_size_at(level) == 2 * eighths(level),
{
    if level == 0 {
        assert((t * 16) / 1 == 16 * t);
    } else if level == 1 {
        assert((t * 16) / 2 == 8 * t);
    } else if level == 2 {
        assert((t * 16) / 4 == 4 * t);
    } else {
        assert((t * 16) / 8 == 2 * t);
    }
}

/// The offset that one level settles on.
proof fn lemma_moved_offset<T: Sample>(
    value: spec_fn(T) -> real,
    a: Plane<T>,
    b: Plane<T>,
    a_levels: Seq<Plane<T>>,
    b_levels: Seq<Plane<T>>,
    level: int,
    offsets: Seq<(i32, i32)>,
    tr: int,
    tc: int,
    e: (int, int),
)
    requires
        is_exact(value),
        has_positive_limit(value),
        a.same_size(&b),
        is_moved(value, a, b, (8 * e.0, 8 * e.1)),
        -4 <= e.0 <= 4,
        -4 <= e.1 <= 4,
        is_pyramid(a, a_levels),
        is_pyramid(b, b_levels),
        a_levels.len() == 4,
        b_levels.len() == 4,
        is_inner_tile(a.height() as int, tr, 8 * e.0),
        is_inner_tile(a.width() as int, tc, 8 * e.1),
        is_found_only_when_moved(value, a_levels, b_levels, tr, tc, e),
        0 <= level < 4,
        is_alignment(a_levels, b_levels, a.width() as int / 16, level, offsets),
        0 <= tr * (a.width() as int / 16) + tc < offsets.len(),
        tc < a.width() as int / 16,
    ensures
        offsets[tr * (a.width() as int / 16) + tc].0 == eighths(level) * e.0,
        offsets[tr * (a.width() as int / 16) + tc].1 == eighths(level) * e.1,
    decreases 4 - level,
{
    let cols = a.width() as int / 16;
    let idx = tr * cols + tc;
    let prev = choose|prev: Seq<(i32, i32)>|
        is_alignment(a_levels, b_levels, cols, level + 1, prev) && #[trigger] is_level_outcome(
            a_levels[level],
            b_levels[level],
            level,
            cols,
            prev,
            offsets,
        );
    let s = level_search(a_levels[level], b_levels[level], level, cols, idx, prev[idx]);
    assert(s.is_outcome(offsets[idx]));
    vstd::arithmetic::div_mod::lemma_fundamental_div_mod_converse(idx, cols, tr, tc);
    let u = eighths(level);
    assert(s.origin == (2 * u * tr, 2 * u * tc) && s.size == 2 * u) by {
        lemma_tile_origin(tr, level);
        lemma_tile_origin(tc, level);
    }
    if level < 3 {
        lemma_moved_offset(
            value,
            a,
            b,
            a_levels,
            b_levels,
            level + 1,
            prev,
            tr,
            tc,
            e,
        );
        if level == 0 {
            assert(eighths(1) == 4 && u == 8);
            assert(2 * (4 * e.0) == 8 * e.0 && 2 * (4 * e.1) == 8 * e.1);
        } else if level == 1 {
            assert(eighths(2) == 2 && u == 4);
            assert(2 * (2 * e.0) == 4 * e.0 && 2 * (2 * e.1) == 4 * e.1);
        } else {
            assert(eighths(3) == 1 && u == 2);
            assert(2 * (1 * e.0) == 2 * e.0 && 2 * (1 * e.1) == 2 * e.1);
        }
        assert(s.initial == (u * e.0, u * e.1));
    } else {
        assert(u == 1 && s.initial == (0int, 0int));
        assert(u * e.0 == e.0 && u * e.1 == e.1);
    }
    assert(s.range == 4);
    lemma_moved_levels(value, a, b, a_levels, b_levels, e, level);
    lemma_inner_tile(a.height() as int, tr, e.0, level);
    lemma_inner_tile(a.width() as int, tc, e.1, level);
    let d = (u * e.0, u * e.1);
    let (x, y) = (a_levels[level], b_levels[level]);
    let target = (s.origin.0 + d.0, s.origin.1 + d.1);
    assert(shows_the_same(value, x, s.origin, y, target, s.size)) by {
        assert forall|i: int, j: int| 0 <= i < s.size && 0 <= j < s.size implies value(
            #[trigger] x.at(s.origin.0 + i, s.origin.1 + j),
        ) == value(y.at(target.0 + i, target.1 + j)) by {
            assert(s.origin.0 + i + d.0 == target.0 + i);
            assert(s.origin.1 + j + d.1 == target.1 + j);
        }
    }
    assert(is_found_only_at(value, a_levels[level], s.origin, y, target, s.size));
    search_finds_the_only_match(value, s, offsets[idx], d);
}

/// An image that shows the reference moved by multiples of eight pixels, up or down
/// and left or right, is aligned by exactly that: an inner tile that is found at one
/// place only, at every level, gets the offset that leads there.
pub proof fn moved_images_are_aligned_by_their_shift<T: Sample>(
    value: spec_fn(T) -> real,
    reference: Plane<T>,
    alternate: Plane<T>,
    ref_levels: Seq<Plane<T>>,
    alt_levels: Seq<Plane<T>>,
    offsets: Seq<(i32, i32)>,
    tr: int,
    tc: int,
    dr: int,
    dc: int,
)
    requires
        is_exact(value),
        has_positive_limit(value),
        reference.same_size(&alternate),
        is_moved(value, reference, alternate, (dr, dc)),
        dr % 8 == 0,
        dc % 8 == 0,
        -32 <= dr <= 32,
        -32 <= dc <= 32,
        is_pyramid(reference, ref_levels),
        is_pyramid(alternate, alt_levels),
        ref_levels.len() == 4,
        alt_levels.len() == 4,
        is_alignment(ref_levels, alt_levels, reference.width() as int / 16, 0, offsets),
        offsets.len() == (reference.height() as int / 16) * (reference.width() as int / 16),
        is_inner_tile(reference.height() as int, tr, dr),
        is_inner_tile(reference.width() as int, tc, dc),
        is_found_only_when_moved(value, ref_levels, alt_levels, tr, tc, (dr / 8, dc / 8)),
    ensures
        0 <= tr * (reference.width() as int / 16) + tc < offsets.len(),
        offsets[tr * (reference.width() as int / 16) + tc].0 == dr,
        offsets[tr * (reference.width() as int / 16) + tc].1 == dc,
{
    let rows = reference.height() as int / 16;
    let cols = reference.width() as int / 16;
    let e = (dr / 8, dc / 8);
    assert(8 * e.0 == dr && 8 * e.1 == dc);
    assert(0 <= tr < rows && 0 <= tc < cols);
    crate::plane::lemma_flat_index_bound(tr, tc, rows, cols);
    lemma_moved_offset(
        value,
        reference,
        alternate,
        ref_levels,
        alt_levels,
        0,
        offsets,
        tr,
        tc,
        e,
    );
}

/// In whatever pyramids over the two images, tile `(tr, tc)` of the reference is
/// found at one place only at every level.
pub open spec fn is_recognizable<T: Sample>(
    value: spec_fn(T) -> real,
    reference: Plane<T>,
    alternate: Plane<T>,
    tr: int,
    tc: int,
    dr: int,
    dc: int,
) -> bool {
    forall|ref_levels: Seq<Plane<T>>, alt_levels: Seq<Plane<T>>|
        ref_levels.len() == 4 && alt_levels.len() == 4 && #[trigger] is_pyramid(
            reference,
            ref_levels,
        ) && #[trigger] is_pyramid(alternate, alt_levels) ==> is_found_only_when_moved(
            value,
            ref_levels,
            alt_levels,
            tr,
            tc,
            (dr / 8, dc / 8),
        )
}

/// In the alignment of a burst, each alternate that shows the reference moved by
/// multiples of eight pixels gets its own shift at every inner tile that is found at
/// one place only: the results stand in the order of the alternates, and the offsets
/// of each row by row.
pub proof fn moved_frames_are_aligned_by_their_shift<T: Sample>(
    value: spec_fn(T) -> real,
    frames: Seq<BurstFrame<T>>,
    results: Seq<AlignmentResult>,
    i: int,
    tr: int,
    tc: int,
    dr: int,
    dc: int,
)
    requires
        is_exact(value),
        has_positive_limit(value),
        is_burst_alignment(frames, results),
        0 <= i < frames.len() - 1,
        frames[0].bayer.same_size(&frames[i + 1].bayer),
        is_moved(value, frames[0].bayer, frames[i + 1].bayer, (dr, dc)),
        dr % 8 == 0,
        dc % 8 == 0,
        -32 <= dr <= 32,
        -32 <= dc <= 32,
        is_inner_tile(frames[0].bayer.height() as int, tr, dr),
        is_inner_tile(frames[0].bayer.width() as int, tc, dc),
        is_recognizable(value, frames[0].bayer, frames[i + 1].bayer, tr, tc, dr, dc),
    ensures
        results.len() == frames.len() - 1,
        results[i].tile_size == 16,
        results[i].n_tile_rows == frames[0].bayer.height() as int / 16,
        results[i].n_tile_cols == frames[0].bayer.width() as int / 16,
        ({
            let offsets = results[i].offsets@;
            let k = tr * results[i].n_tile_cols + tc;
            0 <= k < offsets.len() && offsets[k].0 == dr && offsets[k].1 == dc
        }),
{
    let (reference, alternate) = (frames[0].bayer, frames[i + 1].bayer);
    let a = results[i];
    assert(is_frame_alignment(reference, alternate, a));
    let (p, q) = choose|ref_pyramid: Seq<Plane<T>>, alt_pyramid: Seq<Plane<T>>|
        {
            &&& is_pyramid(reference, ref_pyramid)
            &&& ref_pyramid.len() == 4
            &&& is_pyramid(alternate, alt_pyramid)
            &&& alt_pyramid.len() == 4
            &&& #[trigger] is_alignment(
                ref_pyramid,
                alt_pyramid,
                a.n_tile_cols as int,
                0,
                a.offsets@,
            )
        };
    assert(a.n_tile_cols as int == reference.width() as int / 16);
    assert(a.n_tile_rows as int == reference.height() as int / 16);
    moved_images_are_aligned_by_their_shift(
        value,
        reference,
        alternate,
        p,
        q,
        a.offsets@,
        tr,
        tc,
        dr,
        dc,
    );
}

/// Alignment goes from coarse to fine: from zero over all four levels, each starting
/// from what the one before settled on.
pub proof fn alignments_go_from_coarse_to_fine<T: Sample>(
    ref_levels: Seq<Plane<T>>,
    alt_levels: Seq<Plane<T>>,
    cols: int,
    offsets: Seq<(i32, i32)>,
) -> (found: (Seq<(i32, i32)>, Seq<(i32, i32)>, Seq<(i32, i32)>, Seq<(i32, i32)>))
    requires
        is_alignment(ref_levels, alt_levels, cols, 0, offsets),
    ensures
        ({
            let (none, third, second, first) = found;
            &&& none.len() == offsets.len()
            &&& forall|k: int| 0 <= k < none.len() ==> #[trigger] none[k] == (0i32, 0i32)
            &&& is_level_outcome(ref_levels[3], alt_levels[3], 3, cols, none, third)
            &&& is_level_outcome(ref_levels[2], alt_levels[2], 2, cols, third, second)
            &&& is_level_outcome(ref_levels[1], alt_levels[1], 1, cols, second, first)
            &&& is_level_outcome(ref_levels[0], alt_levels[0], 0, cols, first, offsets)
        }),
{
    let first = lemma_coarser(ref_levels, alt_levels, cols, 0, offsets);
    let second = lemma_coarser(ref_levels, alt_levels, cols, 1, first);
    let third = lemma_coarser(ref_levels, alt_levels, cols, 2, second);
    let none = lemma_coarser(ref_levels, alt_levels, cols, 3, third);
    (none, third, second, first)
}

proof fn lemma_coarser<T: Sample>(
    ref_levels: Seq<Plane<T>>,
    alt_levels: Seq<Plane<T>>,
    cols: int,
    level: int,
    offsets: Seq<(i32, i32)>,
) -> (prev: Seq<(i32, i32)>)
    requires
        0 <= level < 4,
        is_alignment(ref_levels, alt_levels, cols, level, offsets),
    ensures
        is_alignment(ref_levels, alt_levels, cols, level + 1, prev),
        is_level_outcome(ref_levels[level], alt_levels[level], level, cols, prev, offsets),
{
    choose|prev: Seq<(i32, i32)>|
        is_alignment(ref_levels, alt_levels, cols, level + 1, prev) && #[trigger] is_level_outcome(
            ref_levels[level],
            alt_levels[level],
            level,
            cols,
            prev,
            offsets,
        )
}

} // verus!
