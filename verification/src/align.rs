//! Alignment of the frames of a burst, tile by tile, from coarse to fine.
use crate::burst::BurstFrame;
use crate::burst::CfaPattern;
use crate::demosaic::channel_of;
use crate::parallel::map_indices;
use crate::plane::clamp_index;
use crate::plane::clamped_neighbour;
use crate::plane::lemma_flat_index_bound;
use crate::plane::Plane;
use crate::sample::is_difference;
use crate::sample::is_magnitude;
use crate::sample::is_product;
use crate::sample::is_quotient;
use crate::sample::is_ratio;
use crate::sample::is_sum;
use crate::sample::is_unlimited;
use crate::sample::is_zero;
use crate::sample::zero;
use crate::sample::Sample;
use vstd::prelude::*;

verus! {

/// The weights of the blur, along a row or a column.
pub open spec fn blur_weights() -> Seq<i64> {
    seq![1, 4, 6, 4, 1]
}

/// What the weighted sum of the blur is divided by.
pub const BLUR_DIVISOR: i64 = 16;

/// `s` came out of adding each value times its weight to zero, in order.
pub open spec fn is_weighted_total<T: Sample>(values: Seq<T>, weights: Seq<i64>, s: T) -> bool
    decreases values.len(),
{
    if values.len() == 0 {
        is_zero(s)
    } else {
        exists|p: T, k: T, m: T|
            is_weighted_total(values.drop_last(), weights.drop_last(), p) && is_ratio(
                weights.last(),
                1,
                k,
            ) && #[trigger] is_product(values.last(), k, m) && #[trigger] is_sum(p, m, s)
    }
}

/// `v` came out of the blur of five neighbouring values.
pub open spec fn is_smoothed<T: Sample>(values: Seq<T>, v: T) -> bool {
    exists|s: T, n: T|
        is_weighted_total(values, blur_weights(), s) && is_ratio(BLUR_DIVISOR, 1, n)
            && #[trigger] is_quotient(s, n, v)
}

/// The five values around `(r, c)` in its row, the edge repeated beyond it.
pub open spec fn row_window<T>(image: Plane<T>, r: int, c: int) -> Seq<T> {
    Seq::new(5, |k: int| image.at(r, clamp_index(c + k - 2, image.width() as int)))
}

/// The five values around `(r, c)` in its column, the edge repeated beyond it.
pub open spec fn column_window<T>(image: Plane<T>, r: int, c: int) -> Seq<T> {
    Seq::new(5, |k: int| image.at(clamp_index(r + k - 2, image.height() as int), c))
}

/// `out` came out of the blur of every row of `image`.
pub open spec fn is_row_blur<T: Sample>(image: Plane<T>, out: Plane<T>) -> bool {
    &&& out.wf()
    &&& out.same_size(&image)
    &&& forall|r: int, c: int|
        image.has(r, c) ==> is_smoothed(row_window(image, r, c), #[trigger] out.at(r, c))
}

/// `out` came out of the blur of every column of `image`.
pub open spec fn is_column_blur<T: Sample>(image: Plane<T>, out: Plane<T>) -> bool {
    &&& out.wf()
    &&& out.same_size(&image)
    &&& forall|r: int, c: int|
        image.has(r, c) ==> is_smoothed(column_window(image, r, c), #[trigger] out.at(r, c))
}

/// `out` came out of the blur of `image`, first along rows, then along columns.
pub open spec fn is_blur<T: Sample>(image: Plane<T>, out: Plane<T>) -> bool {
    exists|middle: Plane<T>|
        #[trigger] is_row_blur(image, middle) && is_column_blur(middle, out)
}

fn smooth<T: Sample>(values: [T; 5]) -> (v: T)
    ensures
        is_smoothed(values@, v),
{
    let weights: [i64; 5] = [1, 4, 6, 4, 1];
    assert(weights@ =~= blur_weights());
    let mut s: T = zero();
    let mut i: usize = 0;
    assert(values@.take(0) =~= Seq::empty());
    while i < 5
        invariant
            i <= 5,
            is_weighted_total(values@.take(i as int), weights@.take(i as int), s),
        decreases 5 - i,
    {
        let ghost partial = s;
        let k: T = T::ratio(weights[i], 1);
        let m = values[i].times(k);
        s = s.plus(m);
        proof {
            let vs = values@.take(i + 1);
            let ws = weights@.take(i + 1);
            assert(vs.drop_last() =~= values@.take(i as int));
            assert(ws.drop_last() =~= weights@.take(i as int));
            assert(vs.last() == values@[i as int]);
            assert(ws.last() == weights@[i as int]);
            assert(is_product(vs.last(), k, m));
            assert(is_sum(partial, m, s));
            assert(is_weighted_total(vs, ws, s));
        }
        i = i + 1;
    }
    assert(values@.take(5) =~= values@);
    assert(weights@.take(5) =~= weights@);
    let n: T = T::ratio(BLUR_DIVISOR, 1);
    s.over(n)
}

fn blur_rows<T: Sample>(image: &Plane<T>) -> (out: Plane<T>)
    requires
        image.wf(),
        image.height() <= i32::MAX,
        image.width() <= i32::MAX,
    ensures
        is_row_blur(*image, out),
{
    let (h, w) = image.dim();
    proof {
        image.lemma_wf();
    }
    let mut out = Plane::filled(h, w, zero());
    let mut r: usize = 0;
    while r < h
        invariant
            image.wf(),
            h == image.height(),
            w == image.width(),
            h <= i32::MAX,
            w <= i32::MAX,
            r <= h,
            out.wf(),
            out.same_size(image),
            forall|i: int, j: int|
                #![trigger out.at(i, j)]
                image.has(i, j) && i < r ==> is_smoothed(row_window(*image, i, j), out.at(i, j)),
        decreases h - r,
    {
        let mut c: usize = 0;
        while c < w
            invariant
                image.wf(),
                h == image.height(),
                w == image.width(),
                h <= i32::MAX,
                w <= i32::MAX,
                r < h,
                c <= w,
                out.wf(),
                out.same_size(image),
                forall|i: int, j: int|
                    #![trigger out.at(i, j)]
                    image.has(i, j) && (i < r || (i == r && j < c)) ==> is_smoothed(
                        row_window(*image, i, j),
                        out.at(i, j),
                    ),
            decreases w - c,
        {
            let values = [
                image.get(r, clamped_neighbour(c, 0, w)),
                image.get(r, clamped_neighbour(c, 1, w)),
                image.get(r, clamped_neighbour(c, 2, w)),
                image.get(r, clamped_neighbour(c, 3, w)),
                image.get(r, clamped_neighbour(c, 4, w)),
            ];
            assert(values@ =~= row_window(*image, r as int, c as int));
            out.set(r, c, smooth(values));
            c = c + 1;
        }
        r = r + 1;
    }
    out
}

fn blur_columns<T: Sample>(image: &Plane<T>) -> (out: Plane<T>)
    requires
        image.wf(),
        image.height() <= i32::MAX,
        image.width() <= i32::MAX,
    ensures
        is_column_blur(*image, out),
{
    let (h, w) = image.dim();
    proof {
        image.lemma_wf();
    }
    let mut out = Plane::filled(h, w, zero());
    let mut r: usize = 0;
    while r < h
        invariant
            image.wf(),
            h == image.height(),
            w == image.width(),
            h <= i32::MAX,
            w <= i32::MAX,
            r <= h,
            out.wf(),
            out.same_size(image),
            forall|i: int, j: int|
                #![trigger out.at(i, j)]
                image.has(i, j) && i < r ==> is_smoothed(column_window(*image, i, j), out.at(i, j)),
        decreases h - r,
    {
        let mut c: usize = 0;
        while c < w
            invariant
                image.wf(),
                h == image.height(),
                w == image.width(),
                h <= i32::MAX,
                w <= i32::MAX,
                r < h,
                c <= w,
                out.wf(),
                out.same_size(image),
                forall|i: int, j: int|
                    #![trigger out.at(i, j)]
                    image.has(i, j) && (i < r || (i == r && j < c)) ==> is_smoothed(
                        column_window(*image, i, j),
                        out.at(i, j),
                    ),
            decreases w - c,
        {
            let values = [
                image.get(clamped_neighbour(r, 0, h), c),
                image.get(clamped_neighbour(r, 1, h), c),
                image.get(clamped_neighbour(r, 2, h), c),
                image.get(clamped_neighbour(r, 3, h), c),
                image.get(clamped_neighbour(r, 4, h), c),
            ];
            assert(values@ =~= column_window(*image, r as int, c as int));
            out.set(r, c, smooth(values));
            c = c + 1;
        }
        r = r + 1;
    }
    out
}

/// Separable 5x5 Gaussian blur. It comes before subsampling, to prevent aliasing.
pub fn gaussian_blur_5x5<T: Sample>(image: &Plane<T>) -> (out: Plane<T>)
    requires
        image.wf(),
        image.height() <= i32::MAX,
        image.width() <= i32::MAX,
    ensures
        is_blur(*image, out),
        out.wf(),
        out.same_size(image),
{
    let middle = blur_rows(image);
    blur_columns(&middle)
}

/// `v` came out as the mean of the four values.
pub open spec fn is_mean_of_four<T: Sample>(a: T, b: T, c: T, d: T, v: T) -> bool {
    exists|ab: T, abc: T, abcd: T, n: T|
        is_sum(a, b, ab) && #[trigger] is_sum(ab, c, abc) && is_sum(abc, d, abcd) && is_ratio(4, 1, n)
            && #[trigger] is_quotient(abcd, n, v)
}

/// `out` came out of taking the mean of each 2x2 block of `image`; an odd last
/// row or column is left out.
pub open spec fn is_subsample<T: Sample>(image: Plane<T>, out: Plane<T>) -> bool {
    &&& out.wf()
    &&& out.height() == image.height() / 2
    &&& out.width() == image.width() / 2
    &&& forall|r: int, c: int|
        out.has(r, c) ==> is_mean_of_four(
            image.at(2 * r, 2 * c),
            image.at(2 * r, 2 * c + 1),
            image.at(2 * r + 1, 2 * c),
            image.at(2 * r + 1, 2 * c + 1),
            #[trigger] out.at(r, c),
        )
}

fn mean_of_four<T: Sample>(a: T, b: T, c: T, d: T) -> (v: T)
    ensures
        is_mean_of_four(a, b, c, d, v),
{
    let ab = a.plus(b);
    let abc = ab.plus(c);
    let abcd = abc.plus(d);
    let n: T = T::ratio(4, 1);
    abcd.over(n)
}

/// Averages each 2x2 block into one pixel. On Bayer data this combines all
/// four colour channels.
pub fn subsample_by_2<T: Sample>(image: &Plane<T>) -> (out: Plane<T>)
    requires
        image.wf(),
    ensures
        is_subsample(*image, out),
{
    let (h, w) = image.dim();
    proof {
        image.lemma_wf();
        vstd::arithmetic::mul::lemma_mul_upper_bound(
            (h / 2) as int,
            h as int,
            (w / 2) as int,
            w as int,
        );
    }
    let mut out = Plane::filled(h / 2, w / 2, zero());
    let mut r: usize = 0;
    while r < h / 2
        invariant
            image.wf(),
            h == image.height(),
            w == image.width(),
            r <= h / 2,
            out.wf(),
            out.height() == h / 2,
            out.width() == w / 2,
            forall|i: int, j: int|
                #![trigger out.at(i, j)]
                out.has(i, j) && i < r ==> is_mean_of_four(
                    image.at(2 * i, 2 * j),
                    image.at(2 * i, 2 * j + 1),
                    image.at(2 * i + 1, 2 * j),
                    image.at(2 * i + 1, 2 * j + 1),
                    out.at(i, j),
                ),
        decreases h / 2 - r,
    {
        let mut c: usize = 0;
        while c < w / 2
            invariant
                image.wf(),
                h == image.height(),
                w == image.width(),
                r < h / 2,
                c <= w / 2,
                out.wf(),
                out.height() == h / 2,
                out.width() == w / 2,
                forall|i: int, j: int|
                    #![trigger out.at(i, j)]
                    out.has(i, j) && (i < r || (i == r && j < c)) ==> is_mean_of_four(
                        image.at(2 * i, 2 * j),
                        image.at(2 * i, 2 * j + 1),
                        image.at(2 * i + 1, 2 * j),
                        image.at(2 * i + 1, 2 * j + 1),
                        out.at(i, j),
                    ),
            decreases w / 2 - c,
        {
            let v = mean_of_four(
                image.get(2 * r, 2 * c),
                image.get(2 * r, 2 * c + 1),
                image.get(2 * r + 1, 2 * c),
                image.get(2 * r + 1, 2 * c + 1),
            );
            out.set(r, c, v);
            c = c + 1;
        }
        r = r + 1;
    }
    out
}

/// Each 2x2 block of a Bayer image that becomes one pixel holds all colours:
/// one red pixel, one blue pixel and two green ones.
pub proof fn blocks_combine_all_channels(pattern: CfaPattern, r: int, c: int)
    requires
        0 <= r,
        0 <= c,
    ensures
        ({
            let o = pattern.places();
            &&& channel_of(o, 2 * r + o.r.0, 2 * c + o.r.1) == 0
            &&& channel_of(o, 2 * r + o.gr.0, 2 * c + o.gr.1) == 1
            &&& channel_of(o, 2 * r + o.gb.0, 2 * c + o.gb.1) == 1
            &&& channel_of(o, 2 * r + o.b.0, 2 * c + o.b.1) == 2
        }),
{
}

/// `next` is the level above `prev` in a pyramid: blurred, then subsampled.
pub open spec fn is_next_level<T: Sample>(prev: Plane<T>, next: Plane<T>) -> bool {
    &&& next.wf()
    &&& next.height() == prev.height() / 2
    &&& next.width() == prev.width() / 2
    &&& exists|blurred: Plane<T>|
        #[trigger] is_blur(prev, blurred) && is_subsample(blurred, next)
}

/// `levels` is a pyramid over `image`: the image itself, then ever coarser levels.
pub open spec fn is_pyramid<T: Sample>(image: Plane<T>, levels: Seq<Plane<T>>) -> bool {
    &&& levels.len() >= 1
    &&& levels[0].wf()
    &&& levels[0].same_size(&image)
    &&& levels[0].contents()@ == image.contents()@
    &&& forall|k: int| 1 <= k < levels.len() ==> is_next_level(levels[k - 1], #[trigger] levels[k])
}

/// Builds a coarse-to-fine pyramid by blurring and subsampling. Level 0 is the
/// image itself. Each subsequent level is half the resolution.
pub fn build_pyramid<T: Sample>(image: &Plane<T>, levels: usize) -> (pyramid: Vec<Plane<T>>)
    requires
        image.wf(),
        image.height() <= i32::MAX,
        image.width() <= i32::MAX,
    ensures
        pyramid@.len() == if levels == 0 {
            1
        } else {
            levels as int
        },
        is_pyramid(*image, pyramid@),
{
    let mut pyramid: Vec<Plane<T>> = Vec::new();
    pyramid.push(image.duplicate());
    let mut level: usize = 1;
    while level < levels
        invariant
            1 <= level,
            level <= levels || level == 1,
            pyramid@.len() == level,
            is_pyramid(*image, pyramid@),
            pyramid@[level - 1].wf(),
            pyramid@[level - 1].height() <= i32::MAX,
            pyramid@[level - 1].width() <= i32::MAX,
        decreases levels - level,
    {
        let ghost before = pyramid@;
        let blurred = gaussian_blur_5x5(&pyramid[level - 1]);
        let next = subsample_by_2(&blurred);
        proof {
            assert(is_blur(before[level - 1], blurred));
            assert(is_next_level(before[level - 1], next));
        }
        pyramid.push(next);
        assert forall|k: int| 1 <= k < pyramid@.len() implies is_next_level(
            pyramid@[k - 1],
            #[trigger] pyramid@[k],
        ) by {
            if k < level {
                assert(pyramid@[k - 1] == before[k - 1]);
                assert(pyramid@[k] == before[k]);
                assert(is_next_level(before[k - 1], before[k]));
            }
        }
        level = level + 1;
    }
    pyramid
}

/// Level `k` of a pyramid is `2^k` times smaller than the image, rounded down.
pub proof fn pyramid_levels_halve<T: Sample>(image: Plane<T>, levels: Seq<Plane<T>>, k: nat)
    requires
        is_pyramid(image, levels),
        k < levels.len(),
    ensures
        levels[k as int].wf(),
        levels[k as int].height() == image.height() / vstd::arithmetic::power2::pow2(k),
        levels[k as int].width() == image.width() / vstd::arithmetic::power2::pow2(k),
    decreases k,
{
    vstd::arithmetic::power2::lemma2_to64();
    if k > 0 {
        let below = (k - 1) as nat;
        pyramid_levels_halve(image, levels, below);
        vstd::arithmetic::power2::lemma_pow2_unfold(k);
        vstd::arithmetic::power2::lemma_pow2_pos(below);
        let p = vstd::arithmetic::power2::pow2(below) as int;
        vstd::arithmetic::div_mod::lemma_div_denominator(image.height() as int, p, 2);
        vstd::arithmetic::div_mod::lemma_div_denominator(image.width() as int, p, 2);
        assert(is_next_level(levels[k - 1], levels[k as int]));
        assert(p * 2 == vstd::arithmetic::power2::pow2(k)) by (nonlinear_arith)
            requires
                vstd::arithmetic::power2::pow2(k) == 2 * p,
        ;
    }
}

/// `x`, moved to the nearer end where it lies outside `0 ..= limit`.
pub open spec fn clamp_to(x: int, limit: int) -> int {
    if x < 0 {
        0
    } else if x > limit {
        limit
    } else {
        x
    }
}

/// The first pixel of a run of `tile` pixels that should start at
/// `origin + offset`, kept within an image of `size` pixels.
pub open spec fn tile_start(origin: int, offset: int, size: int, tile: int) -> int {
    clamp_to(origin + offset, size - tile)
}

/// A tile that fits into an image lies within it, whatever its origin and offset,
/// and stays where it should be if that is within the image.
pub proof fn placed_tiles_stay_within_the_image(origin: int, offset: int, size: int, tile: int)
    requires
        0 <= tile <= size,
    ensures
        0 <= tile_start(origin, offset, size, tile),
        tile_start(origin, offset, size, tile) + tile <= size,
        0 <= origin + offset && origin + offset + tile <= size ==> tile_start(
            origin,
            offset,
            size,
            tile,
        ) == origin + offset,
{
}

/// The first pixel of a run of `tile` pixels that should start at
/// `origin + offset`, kept within an image of `size` pixels.
pub fn place_tile(origin: usize, offset: i64, size: usize, tile: usize) -> (start: usize)
    requires
        tile <= size,
        origin <= i32::MAX,
        size <= i32::MAX,
        -0x1_0000_0000 <= offset <= 0x1_0000_0000,
    ensures
        start == tile_start(origin as int, offset as int, size as int, tile as int),
        start + tile <= size,
{
    let wanted: i64 = origin as i64 + offset;
    let limit: usize = size - tile;
    if wanted < 0 {
        0
    } else if wanted > limit as i64 {
        limit
    } else {
        wanted as usize
    }
}

/// `tile` holds the pixels of `image` around `tile_origin + offset`, moved so that
/// they lie within the image.
pub open spec fn is_extracted_tile<T>(
    image: Plane<T>,
    tile_origin: (usize, usize),
    offset: (i32, i32),
    tile_size: usize,
    tile: Plane<T>,
) -> bool {
    &&& tile.wf()
    &&& tile.height() == tile_size
    &&& tile.width() == tile_size
    &&& forall|i: int, j: int|
        tile.has(i, j) ==> #[trigger] tile.at(i, j) == image.at(
            tile_start(
                tile_origin.0 as int,
                offset.0 - tile_size as int / 2,
                image.height() as int,
                tile_size as int,
            ) + i,
            tile_start(
                tile_origin.1 as int,
                offset.1 - tile_size as int / 2,
                image.width() as int,
                tile_size as int,
            ) + j,
        )
}

/// Extracts a tile of `image`, centered at `tile_origin + offset` and moved so
/// that it stays within the image: callers need no bounds check.
pub fn extract_tile<T: Sample>(
    image: &Plane<T>,
    tile_origin: (usize, usize),
    offset: (i32, i32),
    tile_size: usize,
) -> (tile: Plane<T>)
    requires
        image.wf(),
        tile_size <= image.height() <= i32::MAX,
        tile_size <= image.width() <= i32::MAX,
        tile_origin.0 <= i32::MAX,
        tile_origin.1 <= i32::MAX,
    ensures
        tile.wf(),
        tile.height() == tile_size,
        tile.width() == tile_size,
        is_extracted_tile(*image, tile_origin, offset, tile_size, tile),
{
    let (h, w) = image.dim();
    let half: i64 = (tile_size / 2) as i64;
    let r0 = place_tile(tile_origin.0, offset.0 as i64 - half, h, tile_size);
    let c0 = place_tile(tile_origin.1, offset.1 as i64 - half, w, tile_size);
    proof {
        image.lemma_wf();
        vstd::arithmetic::mul::lemma_mul_upper_bound(
            tile_size as int,
            h as int,
            tile_size as int,
            w as int,
        );
    }
    let mut tile = Plane::filled(tile_size, tile_size, zero());
    let mut i: usize = 0;
    while i < tile_size
        invariant
            image.wf(),
            tile.wf(),
            tile.height() == tile_size,
            tile.width() == tile_size,
            r0 + tile_size <= image.height(),
            c0 + tile_size <= image.width(),
            image.height() <= i32::MAX,
            image.width() <= i32::MAX,
            i <= tile_size,
            forall|p: int, q: int|
                #![trigger tile.at(p, q)]
                tile.has(p, q) && p < i ==> tile.at(p, q) == image.at(r0 + p, c0 + q),
        decreases tile_size - i,
    {
        let mut j: usize = 0;
        while j < tile_size
            invariant
                image.wf(),
                tile.wf(),
                tile.height() == tile_size,
                tile.width() == tile_size,
                r0 + tile_size <= image.height(),
                c0 + tile_size <= image.width(),
                image.height() <= i32::MAX,
                image.width() <= i32::MAX,
                i < tile_size,
                j <= tile_size,
                forall|p: int, q: int|
                    #![trigger tile.at(p, q)]
                    tile.has(p, q) && (p < i || (p == i && q < j)) ==> tile.at(p, q) == image.at(
                        r0 + p,
                        c0 + q,
                    ),
            decreases tile_size - j,
        {
            tile.set(i, j, image.get(r0 + i, c0 + j));
            j = j + 1;
        }
        i = i + 1;
    }
    tile
}

/// Two tiles of `size * size` pixels each, given by their first pixels.
pub struct TilePair<T> {
    pub a: Plane<T>,
    pub a_at: (int, int),
    pub b: Plane<T>,
    pub b_at: (int, int),
    pub size: int,
}

/// `s` came out of adding up the absolute differences of the two tiles over
/// their first `i` rows and the first `j` pixels of the row after those.
pub open spec fn is_l1_upto<T: Sample>(p: TilePair<T>, i: int, j: int, s: T) -> bool
    decreases i, j,
{
    if j > 0 {
        let x = p.a.at(p.a_at.0 + i, p.a_at.1 + j - 1);
        let y = p.b.at(p.b_at.0 + i, p.b_at.1 + j - 1);
        exists|t: T, d: T, m: T|
            is_l1_upto(p, i, j - 1, t) && #[trigger] is_difference(x, y, d) && is_magnitude(d, m)
                && #[trigger] is_sum(t, m, s)
    } else if i > 0 {
        is_l1_upto(p, i - 1, p.size, s)
    } else {
        is_zero(s)
    }
}

/// `s` came out as the L1 norm of the difference of the two tiles.
pub open spec fn is_l1<T: Sample>(p: TilePair<T>, s: T) -> bool {
    is_l1_upto(p, p.size, 0, s)
}

/// L1 norm between two tiles of the same size.
pub fn l1_distance<T: Sample>(
    a: &Plane<T>,
    a_at: (usize, usize),
    b: &Plane<T>,
    b_at: (usize, usize),
    size: usize,
) -> (s: T)
    requires
        a.wf(),
        b.wf(),
        a_at.0 + size <= a.height(),
        a_at.1 + size <= a.width(),
        b_at.0 + size <= b.height(),
        b_at.1 + size <= b.width(),
    ensures
        is_l1(
            TilePair {
                a: *a,
                a_at: (a_at.0 as int, a_at.1 as int),
                b: *b,
                b_at: (b_at.0 as int, b_at.1 as int),
                size: size as int,
            },
            s,
        ),
{
    proof {
        a.lemma_wf();
        b.lemma_wf();
    }
    let ghost p = TilePair {
        a: *a,
        a_at: (a_at.0 as int, a_at.1 as int),
        b: *b,
        b_at: (b_at.0 as int, b_at.1 as int),
        size: size as int,
    };
    let mut s: T = zero();
    let mut i: usize = 0;
    while i < size
        invariant
            a.wf(),
            b.wf(),
            a_at.0 + size <= a.height() <= usize::MAX,
            a_at.1 + size <= a.width() <= usize::MAX,
            b_at.0 + size <= b.height() <= usize::MAX,
            b_at.1 + size <= b.width() <= usize::MAX,
            p == (TilePair {
                a: *a,
                a_at: (a_at.0 as int, a_at.1 as int),
                b: *b,
                b_at: (b_at.0 as int, b_at.1 as int),
                size: size as int,
            }),
            i <= size,
            is_l1_upto(p, i as int, 0, s),
        decreases size - i,
    {
        let mut j: usize = 0;
        while j < size
            invariant
                a.wf(),
                b.wf(),
                a_at.0 + size <= a.height() <= usize::MAX,
                a_at.1 + size <= a.width() <= usize::MAX,
                b_at.0 + size <= b.height() <= usize::MAX,
                b_at.1 + size <= b.width() <= usize::MAX,
                p == (TilePair {
                    a: *a,
                    a_at: (a_at.0 as int, a_at.1 as int),
                    b: *b,
                    b_at: (b_at.0 as int, b_at.1 as int),
                    size: size as int,
                }),
                i < size,
                j <= size,
                is_l1_upto(p, i as int, j as int, s),
            decreases size - j,
        {
            let x = a.get(a_at.0 + i, a_at.1 + j);
            let y = b.get(b_at.0 + i, b_at.1 + j);
            let d = x.minus(y);
            let m = d.magnitude();
            let ghost t = s;
            s = s.plus(m);
            proof {
                assert(x == p.a.at(p.a_at.0 + i, p.a_at.1 + (j + 1) - 1));
                assert(y == p.b.at(p.b_at.0 + i, p.b_at.1 + (j + 1) - 1));
                assert(is_difference(x, y, d) && is_sum(t, m, s));
                assert(is_l1_upto(p, i as int, (j + 1) - 1, t));
                assert(is_l1_upto(p, i as int, j + 1, s));
            }
            j = j + 1;
        }
        i = i + 1;
    }
    s
}

/// A search for the place of a tile of `reference` in `alternate`: offsets up
/// to `range` away from `initial`, in rows and in columns.
pub struct Search<T> {
    pub reference: Plane<T>,
    pub alternate: Plane<T>,
    pub origin: (int, int),
    pub initial: (int, int),
    pub range: int,
    pub size: int,
}

impl<T: Sample> Search<T> {
    /// How many offsets are tried in each direction.
    pub open spec fn side(self) -> int {
        if self.range < 0 {
            0
        } else {
            2 * self.range + 1
        }
    }

    /// The candidate in row `i` and column `j` of the search window.
    pub open spec fn candidate(self, i: int, j: int) -> (int, int) {
        (self.initial.0 - self.range + i, self.initial.1 - self.range + j)
    }

    /// The tile of the reference and the one that candidate `(i, j)` leads to.
    pub open spec fn pair(self, i: int, j: int) -> TilePair<T> {
        TilePair {
            a: self.reference,
            a_at: self.origin,
            b: self.alternate,
            b_at: (
                tile_start(
                    self.origin.0,
                    self.candidate(i, j).0,
                    self.alternate.height() as int,
                    self.size,
                ),
                tile_start(
                    self.origin.1,
                    self.candidate(i, j).1,
                    self.alternate.width() as int,
                    self.size,
                ),
            ),
            size: self.size,
        }
    }

    /// Is `(i, j)` a candidate of the search window?
    pub open spec fn in_window(self, i: int, j: int) -> bool {
        0 <= i < self.side() && 0 <= j < self.side()
    }

    /// A search that has gone through the first `i` rows of the window and the
    /// first `j` candidates of the row after those stands at `limit`, the distance
    /// of the candidate `at`. Each candidate takes the place of the one before
    /// where the limit exceeds its distance; the search starts without a candidate
    /// and at a limit beyond all distances.
    pub open spec fn is_scan(self, i: int, j: int, limit: T, at: Option<(int, int)>) -> bool
        decreases i, j,
    {
        if j > 0 {
            exists|before: T, was: Option<(int, int)>, cost: T, lower: bool|
                {
                    &&& self.is_scan(i, j - 1, before, was)
                    &&& is_l1(self.pair(i, j - 1), cost)
                    &&& #[trigger] self.is_step(before, was, cost, lower, (i, j - 1), limit, at)
                }
        } else if i > 0 {
            self.is_scan(i - 1, self.side(), limit, at)
        } else {
            is_unlimited(limit) && at is None
        }
    }

    /// The step of a search from one candidate to the next, whose distance is
    /// `cost`.
    pub open spec fn is_step(
        self,
        before: T,
        was: Option<(int, int)>,
        cost: T,
        lower: bool,
        here: (int, int),
        limit: T,
        at: Option<(int, int)>,
    ) -> bool {
        &&& call_ensures(T::exceeds, (before, cost), lower)
        &&& if lower {
            limit == cost && at == Some(here)
        } else {
            limit == before && at == was
        }
    }

    /// `best` is the offset that the search settles on: that of the candidate at
    /// which it ends, or the initial offset where no candidate came below the limit.
    pub open spec fn is_outcome(self, best: (i32, i32)) -> bool {
        exists|limit: T, at: Option<(int, int)>|
            #[trigger] self.is_scan(self.side(), 0, limit, at) && self.is_offset_at(at, best)
    }

    /// `best` is the offset of the candidate, or the initial one where there is none.
    pub open spec fn is_offset_at(self, at: Option<(int, int)>, best: (i32, i32)) -> bool {
        match at {
            Some(b) => {
                &&& best.0 == self.candidate(b.0, b.1).0
                &&& best.1 == self.candidate(b.0, b.1).1
            },
            None => best.0 == self.initial.0 && best.1 == self.initial.1,
        }
    }
}

/// A search stands at one of the candidates that it has gone through.
pub proof fn lemma_scan_in_window<T: Sample>(
    s: Search<T>,
    i: int,
    j: int,
    limit: T,
    at: Option<(int, int)>,
)
    requires
        s.is_scan(i, j, limit, at),
        0 <= i,
        0 <= j <= s.side(),
        i < s.side() || (i == s.side() && j == 0),
    ensures
        at matches Some(b) ==> s.in_window(b.0, b.1) && (b.0 < i || (b.0 == i && b.1 < j)),
    decreases i, j,
{
    if j > 0 {
        let (before, was, cost, lower) = choose|
            before: T,
            was: Option<(int, int)>,
            cost: T,
            lower: bool,
        |
            {
                &&& s.is_scan(i, j - 1, before, was)
                &&& is_l1(s.pair(i, j - 1), cost)
                &&& #[trigger] s.is_step(before, was, cost, lower, (i, j - 1), limit, at)
            };
        lemma_scan_in_window(s, i, j - 1, before, was);
    } else if i > 0 {
        lemma_scan_in_window(s, i - 1, s.side(), limit, at);
    }
}

/// A search settles on an offset within its range of the initial one.
pub proof fn search_stays_in_range<T: Sample>(s: Search<T>, best: (i32, i32))
    requires
        s.is_outcome(best),
        s.range >= 0,
    ensures
        s.initial.0 - s.range <= best.0 <= s.initial.0 + s.range,
        s.initial.1 - s.range <= best.1 <= s.initial.1 + s.range,
{
    let (limit, at) = choose|limit: T, at: Option<(int, int)>| #[trigger]
        s.is_scan(s.side(), 0, limit, at) && s.is_offset_at(at, best);
    lemma_scan_in_window(s, s.side(), 0, limit, at);
}

/// Exhaustive search over a window of `search_range` around `initial_offset`.
/// Returns the offset that minimizes the L1 distance between the tile of
/// `reference` at `tile_origin` and the corresponding region of `alternate`.
pub fn best_offset<T: Sample>(
    reference: &Plane<T>,
    alternate: &Plane<T>,
    tile_origin: (usize, usize),
    initial_offset: (i32, i32),
    search_range: i32,
    tile_size: usize,
) -> (best: (i32, i32))
    requires
        reference.wf(),
        alternate.wf(),
        tile_origin.0 + tile_size <= reference.height() <= i32::MAX,
        tile_origin.1 + tile_size <= reference.width() <= i32::MAX,
        tile_size <= alternate.height() <= i32::MAX,
        tile_size <= alternate.width() <= i32::MAX,
        search_range >= 0 ==> {
            &&& i32::MIN <= initial_offset.0 - search_range
            &&& initial_offset.0 + search_range <= i32::MAX
            &&& i32::MIN <= initial_offset.1 - search_range
            &&& initial_offset.1 + search_range <= i32::MAX
        },
    ensures
        (Search {
            reference: *reference,
            alternate: *alternate,
            origin: (tile_origin.0 as int, tile_origin.1 as int),
            initial: (initial_offset.0 as int, initial_offset.1 as int),
            range: search_range as int,
            size: tile_size as int,
        }).is_outcome(best),
{
    let ghost s = Search {
        reference: *reference,
        alternate: *alternate,
        origin: (tile_origin.0 as int, tile_origin.1 as int),
        initial: (initial_offset.0 as int, initial_offset.1 as int),
        range: search_range as int,
        size: tile_size as int,
    };
    let (h, w) = alternate.dim();
    let side: i64 = if search_range < 0 {
        0
    } else {
        2 * (search_range as i64) + 1
    };
    let mut best_cost: T = T::unlimited();
    let mut best = initial_offset;
    let ghost mut at: Option<(int, int)> = None;
    let mut i: i64 = 0;
    while i < side
        invariant
            reference.wf(),
            alternate.wf(),
            tile_origin.0 + tile_size <= reference.height() <= i32::MAX,
            tile_origin.1 + tile_size <= reference.width() <= i32::MAX,
            h == alternate.height(),
            w == alternate.width(),
            tile_size <= h <= i32::MAX,
            tile_size <= w <= i32::MAX,
            side > 0 ==> {
                &&& search_range >= 0
                &&& i32::MIN <= initial_offset.0 - search_range
                &&& initial_offset.0 + search_range <= i32::MAX
                &&& i32::MIN <= initial_offset.1 - search_range
                &&& initial_offset.1 + search_range <= i32::MAX
            },
            s == (Search {
                reference: *reference,
                alternate: *alternate,
                origin: (tile_origin.0 as int, tile_origin.1 as int),
                initial: (initial_offset.0 as int, initial_offset.1 as int),
                range: search_range as int,
                size: tile_size as int,
            }),
            side == s.side(),
            0 <= i <= side,
            s.is_scan(i as int, 0, best_cost, at),
            s.is_offset_at(at, best),
        decreases side - i,
    {
        let mut j: i64 = 0;
        while j < side
            invariant
                reference.wf(),
                alternate.wf(),
                tile_origin.0 + tile_size <= reference.height() <= i32::MAX,
                tile_origin.1 + tile_size <= reference.width() <= i32::MAX,
                h == alternate.height(),
                w == alternate.width(),
                tile_size <= h <= i32::MAX,
                tile_size <= w <= i32::MAX,
                search_range >= 0,
                i32::MIN <= initial_offset.0 - search_range,
                initial_offset.0 + search_range <= i32::MAX,
                i32::MIN <= initial_offset.1 - search_range,
                initial_offset.1 + search_range <= i32::MAX,
                s == (Search {
                    reference: *reference,
                    alternate: *alternate,
                    origin: (tile_origin.0 as int, tile_origin.1 as int),
                    initial: (initial_offset.0 as int, initial_offset.1 as int),
                    range: search_range as int,
                    size: tile_size as int,
                }),
                side == s.side(),
                0 <= i < side,
                0 <= j <= side,
                s.is_scan(i as int, j as int, best_cost, at),
                s.is_offset_at(at, best),
            decreases side - j,
        {
            let dr: i64 = initial_offset.0 as i64 - search_range as i64 + i;
            let dc: i64 = initial_offset.1 as i64 - search_range as i64 + j;
            let r0 = place_tile(tile_origin.0, dr, h, tile_size);
            let c0 = place_tile(tile_origin.1, dc, w, tile_size);
            let cost: T = l1_distance(reference, tile_origin, alternate, (r0, c0), tile_size);
            let ghost before = best_cost;
            let ghost was = at;
            let lower = best_cost.exceeds(cost);
            if lower {
                best_cost = cost;
                best = (dr as i32, dc as i32);
                proof {
                    at = Some((i as int, j as int));
                }
            }
            proof {
                assert(is_l1(s.pair(i as int, (j + 1) - 1), cost));
                assert(s.is_step(
                    before,
                    was,
                    cost,
                    lower,
                    (i as int, (j + 1) - 1),
                    best_cost,
                    at,
                ));
                assert(s.is_scan(i as int, j + 1, best_cost, at));
            }
            j = j + 1;
        }
        i = i + 1;
    }
    best
}

/// The number of levels that alignment goes through.
pub const PYRAMID_LEVELS: usize = 4;

/// The side of a tile at the finest level, in pixels.
pub const TILE_SIZE: usize = 16;

/// How far each level looks around its initial offset, in pixels.
pub const SEARCH_RANGE: i32 = 4;

/// The alignment of one alternate frame against the reference: for each tile
/// the `(row, column)` pixel offset at full resolution.
#[derive(Debug)]
pub struct AlignmentResult {
    /// Row after row: tile `(row, col)` is at `row * n_tile_cols + col`.
    pub offsets: Vec<(i32, i32)>,
    pub n_tile_rows: usize,
    pub n_tile_cols: usize,
    pub tile_size: usize,
}

impl AlignmentResult {
    /// There is one offset for each tile.
    pub open spec fn wf(&self) -> bool {
        self.offsets@.len() == self.n_tile_rows * self.n_tile_cols
    }

    /// The offset of a tile.
    pub fn offset_at(&self, tile_row: usize, tile_col: usize) -> (o: (i32, i32))
        requires
            tile_row * self.n_tile_cols + tile_col < self.offsets@.len(),
        ensures
            o == self.offsets@[tile_row * self.n_tile_cols + tile_col],
    {
        assert(self.offsets.len() <= usize::MAX);
        assert(0 <= tile_row * self.n_tile_cols) by (nonlinear_arith);
        self.offsets[tile_row * self.n_tile_cols + tile_col]
    }

    /// The offset of the tile in the middle.
    pub fn center_offset(&self) -> (o: (i32, i32))
        requires
            self.wf(),
            self.n_tile_rows > 0,
            self.n_tile_cols > 0,
        ensures
            is_center(*self, o),
    {
        proof {
            lemma_flat_index_bound(
                (self.n_tile_rows / 2) as int,
                (self.n_tile_cols / 2) as int,
                self.n_tile_rows as int,
                self.n_tile_cols as int,
            );
        }
        self.offset_at(self.n_tile_rows / 2, self.n_tile_cols / 2)
    }
}

/// How many pixels of the finest level one pixel of a level stands for.
pub open spec fn scale_of(level: int) -> int {
    if level == 0 {
        1
    } else if level == 1 {
        2
    } else if level == 2 {
        4
    } else {
        8
    }
}

fn level_scale(level: usize) -> (scale: usize)
    requires
        level < PYRAMID_LEVELS,
    ensures
        scale == scale_of(level as int),
{
    if level == 0 {
        1
    } else if level == 1 {
        2
    } else if level == 2 {
        4
    } else {
        8
    }
}

/// The side of a tile at a level.
pub open spec fn tile_size_at(level: int) -> int {
    TILE_SIZE as int / scale_of(level)
}

/// How far an offset that a level settles on can be from zero.
pub open spec fn offset_bound(level: int) -> int {
    if level >= PYRAMID_LEVELS {
        0
    } else if level == 3 {
        4
    } else if level == 2 {
        12
    } else if level == 1 {
        28
    } else {
        60
    }
}

/// The search for tile `idx` at a level, when the level before settled on `prev`.
pub open spec fn level_search<T>(
    reference: Plane<T>,
    alternate: Plane<T>,
    level: int,
    n_tile_cols: int,
    idx: int,
    prev: (i32, i32),
) -> Search<T> {
    Search {
        reference,
        alternate,
        origin: (
            (idx / n_tile_cols) * TILE_SIZE / scale_of(level),
            (idx % n_tile_cols) * TILE_SIZE / scale_of(level),
        ),
        initial: if level == PYRAMID_LEVELS - 1 {
            (0, 0)
        } else {
            (2 * prev.0, 2 * prev.1)
        },
        range: SEARCH_RANGE as int,
        size: tile_size_at(level),
    }
}

/// `next` holds what a level settles on for each tile, when the level before
/// settled on `prev`.
pub open spec fn is_level_outcome<T: Sample>(
    reference: Plane<T>,
    alternate: Plane<T>,
    level: int,
    n_tile_cols: int,
    prev: Seq<(i32, i32)>,
    next: Seq<(i32, i32)>,
) -> bool {
    &&& next.len() == prev.len()
    &&& forall|idx: int|
        0 <= idx < next.len() ==> level_search(
            reference,
            alternate,
            level,
            n_tile_cols,
            idx,
            prev[idx],
        ).is_outcome(#[trigger] next[idx])
}

/// All offsets are at most `bound` from zero, in rows and in columns.
pub open spec fn are_bounded(offsets: Seq<(i32, i32)>, bound: int) -> bool {
    forall|i: int|
        0 <= i < offsets.len() ==> -bound <= (#[trigger] offsets[i]).0 <= bound && -bound
            <= offsets[i].1 <= bound
}

/// The tiles lie within the reference at a level, and one fits in the alternate.
pub open spec fn level_fits<T>(
    reference: Plane<T>,
    alternate: Plane<T>,
    level: int,
    n_tile_rows: int,
    n_tile_cols: int,
) -> bool {
    &&& reference.wf()
    &&& alternate.wf()
    &&& n_tile_rows * TILE_SIZE / scale_of(level) <= reference.height() <= i32::MAX
    &&& n_tile_cols * TILE_SIZE / scale_of(level) <= reference.width() <= i32::MAX
    &&& tile_size_at(level) <= alternate.height() <= i32::MAX
    &&& tile_size_at(level) <= alternate.width() <= i32::MAX
}

/// At every level a tile ends where the next one begins, at the latest.
pub proof fn lemma_tile_end(t: int, n: int, level: int)
    requires
        0 <= t < n,
    ensures
        0 <= t * TILE_SIZE / scale_of(level),
        t * TILE_SIZE / scale_of(level) + tile_size_at(level) <= n * TILE_SIZE / scale_of(level),
{
    let scale = scale_of(level);
    if scale == 1 {
    } else if scale == 2 {
    } else if scale == 4 {
    } else {
    }
}

/// Settles on the offset of tile `idx` at a level.
fn align_tile<T: Sample>(
    reference: &Plane<T>,
    alternate: &Plane<T>,
    level: usize,
    n_tile_cols: usize,
    idx: usize,
    prev: (i32, i32),
    Ghost(n_tile_rows): Ghost<int>,
) -> (best: (i32, i32))
    requires
        level < PYRAMID_LEVELS,
        level_fits(*reference, *alternate, level as int, n_tile_rows, n_tile_cols as int),
        n_tile_rows * TILE_SIZE <= i32::MAX,
        n_tile_cols * TILE_SIZE <= i32::MAX,
        idx < n_tile_rows * n_tile_cols,
        -60 <= prev.0 <= 60,
        -60 <= prev.1 <= 60,
    ensures
        level_search(
            *reference,
            *alternate,
            level as int,
            n_tile_cols as int,
            idx as int,
            prev,
        ).is_outcome(best),
{
    proof {
        assert(n_tile_cols > 0) by (nonlinear_arith)
            requires
                0 <= idx < n_tile_rows * n_tile_cols,
                n_tile_cols >= 0,
        ;
        vstd::arithmetic::mul::lemma_mul_is_commutative(n_tile_rows, n_tile_cols as int);
        vstd::arithmetic::div_mod::lemma_multiply_divide_lt(
            idx as int,
            n_tile_cols as int,
            n_tile_rows,
        );
        vstd::arithmetic::div_mod::lemma_div_pos_is_pos(idx as int, n_tile_cols as int);
        vstd::arithmetic::div_mod::lemma_mod_bound(idx as int, n_tile_cols as int);
        lemma_tile_end(idx as int / n_tile_cols as int, n_tile_rows, level as int);
        lemma_tile_end(idx as int % n_tile_cols as int, n_tile_cols as int, level as int);
    }
    let scale = level_scale(level);
    let tile_row: usize = idx / n_tile_cols;
    let tile_col: usize = idx % n_tile_cols;
    let origin_r: usize = tile_row * TILE_SIZE / scale;
    let origin_c: usize = tile_col * TILE_SIZE / scale;
    let initial: (i32, i32) = if level == PYRAMID_LEVELS - 1 {
        (0, 0)
    } else {
        (prev.0 * 2, prev.1 * 2)
    };
    best_offset(
        reference,
        alternate,
        (origin_r, origin_c),
        initial,
        SEARCH_RANGE,
        TILE_SIZE / scale,
    )
}

/// A level at most doubles an offset and then moves it by the search range.
proof fn lemma_level_bound<T: Sample>(
    reference: Plane<T>,
    alternate: Plane<T>,
    level: int,
    n_tile_cols: int,
    prev: Seq<(i32, i32)>,
    next: Seq<(i32, i32)>,
)
    requires
        0 <= level < PYRAMID_LEVELS,
        is_level_outcome(reference, alternate, level, n_tile_cols, prev, next),
        are_bounded(prev, offset_bound(level + 1)),
    ensures
        are_bounded(next, offset_bound(level)),
{
    assert forall|i: int| 0 <= i < next.len() implies -offset_bound(level) <= (
    #[trigger] next[i]).0 <= offset_bound(level) && -offset_bound(level) <= next[i].1
        <= offset_bound(level) by {
        let s = level_search(reference, alternate, level, n_tile_cols, i, prev[i]);
        search_stays_in_range(s, next[i]);
    }
}

/// Settles on the offsets of all tiles at a level.
fn align_level<T: Sample>(
    reference: &Plane<T>,
    alternate: &Plane<T>,
    level: usize,
    n_tile_rows: usize,
    n_tile_cols: usize,
    prev: &Vec<(i32, i32)>,
) -> (next: Vec<(i32, i32)>)
    requires
        level < PYRAMID_LEVELS,
        prev@.len() == n_tile_rows * n_tile_cols,
        prev@.len() > 0 ==> level_fits(
            *reference,
            *alternate,
            level as int,
            n_tile_rows as int,
            n_tile_cols as int,
        ),
        n_tile_rows * TILE_SIZE <= i32::MAX,
        n_tile_cols * TILE_SIZE <= i32::MAX,
        are_bounded(prev@, offset_bound(level + 1)),
    ensures
        is_level_outcome(
            *reference,
            *alternate,
            level as int,
            n_tile_cols as int,
            prev@,
            next@,
        ),
{
    let n: usize = prev.len();
    let tile = |idx: usize| -> (best: (i32, i32))
        requires
            idx < n,
        ensures
            level_search(
                *reference,
                *alternate,
                level as int,
                n_tile_cols as int,
                idx as int,
                prev@[idx as int],
            ).is_outcome(best),
        {
            let before = prev[idx];
            align_tile(
                reference,
                alternate,
                level,
                n_tile_cols,
                idx,
                before,
                Ghost(n_tile_rows as int),
            )
        };
    let next = map_indices(n, tile);
    assert forall|idx: int| 0 <= idx < next@.len() implies level_search(
        *reference,
        *alternate,
        level as int,
        n_tile_cols as int,
        idx,
        prev@[idx],
    ).is_outcome(#[trigger] next@[idx]) by {
        let i = idx as usize;
        assert(call_ensures(tile, (i,), next@[i as int]));
    }
    next
}

/// `offsets` came out of the levels down to `level`, starting at zero above
/// the coarsest one.
pub open spec fn is_alignment<T: Sample>(
    ref_pyramid: Seq<Plane<T>>,
    alt_pyramid: Seq<Plane<T>>,
    n_tile_cols: int,
    level: int,
    offsets: Seq<(i32, i32)>,
) -> bool
    decreases PYRAMID_LEVELS - level,
{
    if level >= PYRAMID_LEVELS {
        forall|i: int| 0 <= i < offsets.len() ==> #[trigger] offsets[i] == (0i32, 0i32)
    } else {
        exists|prev: Seq<(i32, i32)>|
            is_alignment(ref_pyramid, alt_pyramid, n_tile_cols, level + 1, prev)
                && #[trigger] is_level_outcome(
                ref_pyramid[level],
                alt_pyramid[level],
                level,
                n_tile_cols,
                prev,
                offsets,
            )
    }
}

/// Both pyramids have all levels, and wherever there are tiles these lie
/// within every level.
pub open spec fn pyramids_fit<T>(
    ref_pyramid: Seq<Plane<T>>,
    alt_pyramid: Seq<Plane<T>>,
    n_tile_rows: int,
    n_tile_cols: int,
) -> bool {
    &&& ref_pyramid.len() >= PYRAMID_LEVELS
    &&& alt_pyramid.len() >= PYRAMID_LEVELS
    &&& n_tile_rows > 0 && n_tile_cols > 0 ==> forall|level: int|
        0 <= level < PYRAMID_LEVELS ==> level_fits(
            #[trigger] ref_pyramid[level],
            alt_pyramid[level],
            level,
            n_tile_rows,
            n_tile_cols,
        )
}

/// Aligns one alternate frame against the reference, given their pyramids.
pub fn align_frame<T: Sample>(ref_pyramid: &[Plane<T>], alt_pyramid: &[Plane<T>]) -> (a:
    AlignmentResult)
    requires
        ref_pyramid@.len() > 0,
        ref_pyramid@[0].wf(),
        ref_pyramid@[0].height() <= i32::MAX,
        ref_pyramid@[0].width() <= i32::MAX,
        pyramids_fit(
            ref_pyramid@,
            alt_pyramid@,
            ref_pyramid@[0].height() as int / TILE_SIZE as int,
            ref_pyramid@[0].width() as int / TILE_SIZE as int,
        ),
    ensures
        a.wf(),
        a.n_tile_rows == ref_pyramid@[0].height() / TILE_SIZE as nat,
        a.n_tile_cols == ref_pyramid@[0].width() / TILE_SIZE as nat,
        a.tile_size == TILE_SIZE,
        is_alignment(ref_pyramid@, alt_pyramid@, a.n_tile_cols as int, 0, a.offsets@),
        are_bounded(a.offsets@, 60),
{
    let (full_h, full_w) = ref_pyramid[0].dim();
    let n_tile_rows: usize = full_h / TILE_SIZE;
    let n_tile_cols: usize = full_w / TILE_SIZE;
    proof {
        ref_pyramid@[0].lemma_wf();
        vstd::arithmetic::mul::lemma_mul_upper_bound(
            n_tile_rows as int,
            full_h as int,
            n_tile_cols as int,
            full_w as int,
        );
    }
    let n_tiles: usize = n_tile_rows * n_tile_cols;
    let mut offsets: Vec<(i32, i32)> = Vec::new();
    let mut i: usize = 0;
    while i < n_tiles
        invariant
            i <= n_tiles,
            offsets@.len() == i,
            forall|k: int| 0 <= k < i ==> #[trigger] offsets@[k] == (0i32, 0i32),
        decreases n_tiles - i,
    {
        offsets.push((0, 0));
        i = i + 1;
    }
    let mut level: usize = PYRAMID_LEVELS;
    while level > 0
        invariant
            level <= PYRAMID_LEVELS,
            offsets@.len() == n_tiles,
            n_tiles == n_tile_rows * n_tile_cols,
            n_tile_rows * TILE_SIZE <= i32::MAX,
            n_tile_cols * TILE_SIZE <= i32::MAX,
            pyramids_fit(ref_pyramid@, alt_pyramid@, n_tile_rows as int, n_tile_cols as int),
            is_alignment(
                ref_pyramid@,
                alt_pyramid@,
                n_tile_cols as int,
                level as int,
                offsets@,
            ),
            are_bounded(offsets@, offset_bound(level as int)),
        decreases level,
    {
        let finer: usize = level - 1;
        proof {
            if n_tiles > 0 {
                assert(n_tile_rows > 0 && n_tile_cols > 0) by (nonlinear_arith)
                    requires
                        0 < n_tile_rows * n_tile_cols,
                        n_tile_rows >= 0,
                        n_tile_cols >= 0,
                ;
                assert(level_fits(
                    ref_pyramid@[finer as int],
                    alt_pyramid@[finer as int],
                    finer as int,
                    n_tile_rows as int,
                    n_tile_cols as int,
                ));
            }
        }
        let next = align_level(
            &ref_pyramid[finer],
            &alt_pyramid[finer],
            finer,
            n_tile_rows,
            n_tile_cols,
            &offsets,
        );
        proof {
            lemma_level_bound(
                ref_pyramid@[finer as int],
                alt_pyramid@[finer as int],
                finer as int,
                n_tile_cols as int,
                offsets@,
                next@,
            );
        }
        offsets = next;
        level = finer;
    }
    AlignmentResult { offsets, n_tile_rows, n_tile_cols, tile_size: TILE_SIZE }
}

/// An image that alignment can take: not beyond the range of an offset.
pub open spec fn is_alignable<T>(image: Plane<T>) -> bool {
    image.wf() && image.height() <= i32::MAX && image.width() <= i32::MAX
}

/// An image that holds at least one tile.
pub open spec fn has_tiles<T>(image: Plane<T>) -> bool {
    image.height() >= TILE_SIZE && image.width() >= TILE_SIZE
}

/// The levels of two pyramids fit together where both images hold a tile.
pub proof fn lemma_pyramids_fit<T: Sample>(
    reference: Plane<T>,
    ref_pyramid: Seq<Plane<T>>,
    alternate: Plane<T>,
    alt_pyramid: Seq<Plane<T>>,
)
    requires
        is_alignable(reference),
        is_alignable(alternate),
        has_tiles(alternate),
        is_pyramid(reference, ref_pyramid),
        is_pyramid(alternate, alt_pyramid),
        ref_pyramid.len() == PYRAMID_LEVELS,
        alt_pyramid.len() == PYRAMID_LEVELS,
    ensures
        pyramids_fit(
            ref_pyramid,
            alt_pyramid,
            reference.height() as int / TILE_SIZE as int,
            reference.width() as int / TILE_SIZE as int,
        ),
{
    let n_tile_rows = reference.height() as int / TILE_SIZE as int;
    let n_tile_cols = reference.width() as int / TILE_SIZE as int;
    assert forall|level: int| 0 <= level < PYRAMID_LEVELS implies level_fits(
        #[trigger] ref_pyramid[level],
        alt_pyramid[level],
        level,
        n_tile_rows,
        n_tile_cols,
    ) by {
        pyramid_levels_halve(reference, ref_pyramid, level as nat);
        pyramid_levels_halve(alternate, alt_pyramid, level as nat);
        vstd::arithmetic::power2::lemma2_to64();
        if level == 0 {
        } else if level == 1 {
        } else if level == 2 {
        } else {
        }
    }
}

/// `a` came out of the alignment of `alternate` against `reference`.
pub open spec fn is_frame_alignment<T: Sample>(
    reference: Plane<T>,
    alternate: Plane<T>,
    a: AlignmentResult,
) -> bool {
    &&& a.wf()
    &&& a.n_tile_rows == reference.height() / TILE_SIZE as nat
    &&& a.n_tile_cols == reference.width() / TILE_SIZE as nat
    &&& a.tile_size == TILE_SIZE
    &&& are_bounded(a.offsets@, 60)
    &&& exists|ref_pyramid: Seq<Plane<T>>, alt_pyramid: Seq<Plane<T>>|
        {
            &&& is_pyramid(reference, ref_pyramid)
            &&& ref_pyramid.len() == PYRAMID_LEVELS
            &&& is_pyramid(alternate, alt_pyramid)
            &&& alt_pyramid.len() == PYRAMID_LEVELS
            &&& #[trigger] is_alignment(
                ref_pyramid,
                alt_pyramid,
                a.n_tile_cols as int,
                0,
                a.offsets@,
            )
        }
}

/// `results` holds the alignment of each frame after the first against the first.
pub open spec fn is_burst_alignment<T: Sample>(
    frames: Seq<BurstFrame<T>>,
    results: Seq<AlignmentResult>,
) -> bool {
    &&& results.len() == frames.len() - 1
    &&& forall|i: int|
        0 <= i < results.len() ==> is_frame_alignment(
            frames[0].bayer,
            frames[i + 1].bayer,
            #[trigger] results[i],
        )
}

/// Frames that can be aligned: where there are alternates, every frame holds a tile.
pub open spec fn are_alignable<T: Sample>(frames: Seq<BurstFrame<T>>) -> bool {
    &&& frames.len() >= 1
    &&& forall|i: int| 0 <= i < frames.len() ==> is_alignable((#[trigger] frames[i]).bayer)
    &&& frames.len() > 1 ==> forall|i: int|
        0 <= i < frames.len() ==> has_tiles((#[trigger] frames[i]).bayer)
}

/// How far the alignment of a burst has come.
#[derive(Debug, Clone, Copy, PartialEq, Eq)]
pub enum Progress {
    /// The pyramid of an alternate is about to be built.
    Started,
    /// The pyramid of alternate `frame` out of `total` has been built.
    PyramidBuilt { frame: usize, total: usize },
    /// That alternate has been aligned; its middle tile has this offset.
    Aligned { center: (i32, i32) },
}

/// `o` is the offset of the tile in the middle of an alignment.
pub open spec fn is_center(a: AlignmentResult, o: (i32, i32)) -> bool {
    o == a.offsets@[(a.n_tile_rows / 2) * a.n_tile_cols + a.n_tile_cols / 2]
}

/// This can be said of the alignment of these frames: the alternates are numbered
/// from one, and an offset is that of the middle tile of the alignment of one of
/// them.
pub open spec fn is_report<T: Sample>(frames: Seq<BurstFrame<T>>, p: Progress) -> bool {
    match p {
        Progress::Started => frames.len() > 1,
        Progress::PyramidBuilt { frame, total } => {
            1 <= frame <= total && total == frames.len() - 1
        },
        Progress::Aligned { center } => exists|i: int, a: AlignmentResult|
            {
                &&& 1 <= i < frames.len()
                &&& #[trigger] is_frame_alignment(frames[0].bayer, frames[i].bayer, a)
                &&& is_center(a, center)
            },
    }
}

/// Aligns all alternate frames of a burst against its first frame, the
/// reference, and tells `report` how far it has come.
pub fn align_burst_with<T: Sample, F: Fn(Progress)>(frames: &[BurstFrame<T>], report: F) -> (results:
    Vec<AlignmentResult>)
    requires
        are_alignable(frames@),
        forall|p: Progress|
            is_report(frames@, p) ==> #[trigger] call_requires(report, (p,)),
    ensures
        is_burst_alignment(frames@, results@),
{
    let n: usize = frames.len();
    assert(is_alignable(frames@[0].bayer));
    let ref_pyramid = build_pyramid(&frames[0].bayer, PYRAMID_LEVELS);
    let mut results: Vec<AlignmentResult> = Vec::new();
    let mut i: usize = 1;
    while i < n
        invariant
            1 <= i <= n,
            n == frames@.len(),
            are_alignable(frames@),
            forall|p: Progress|
                is_report(frames@, p) ==> #[trigger] call_requires(report, (p,)),
            is_pyramid(frames@[0].bayer, ref_pyramid@),
            ref_pyramid@.len() == PYRAMID_LEVELS,
            results@.len() == i - 1,
            forall|k: int|
                0 <= k < results@.len() ==> is_frame_alignment(
                    frames@[0].bayer,
                    frames@[k + 1].bayer,
                    #[trigger] results@[k],
                ),
        decreases n - i,
    {
        report(Progress::Started);
        assert(is_alignable(frames@[0].bayer) && has_tiles(frames@[0].bayer));
        assert(is_alignable(frames@[i as int].bayer) && has_tiles(frames@[i as int].bayer));
        let alt_pyramid = build_pyramid(&frames[i].bayer, PYRAMID_LEVELS);
        report(Progress::PyramidBuilt { frame: i, total: n - 1 });
        proof {
            lemma_pyramids_fit(
                frames@[0].bayer,
                ref_pyramid@,
                frames@[i as int].bayer,
                alt_pyramid@,
            );
        }
        let result = align_frame(ref_pyramid.as_slice(), alt_pyramid.as_slice());
        let center = result.center_offset();
        assert(is_frame_alignment(frames@[0].bayer, frames@[i as int].bayer, result));
        assert(is_report(frames@, Progress::Aligned { center }));
        report(Progress::Aligned { center });
        results.push(result);
        i = i + 1;
    }
    results
}

/// Aligns all alternate frames of a burst against its first frame, the reference.
pub fn align_burst<T: Sample>(frames: &[BurstFrame<T>]) -> (results: Vec<AlignmentResult>)
    requires
        are_alignable(frames@),
    ensures
        is_burst_alignment(frames@, results@),
{
    let silent = |_p: Progress| {};
    align_burst_with(frames, silent)
}

/// The weights of the blur add up to its divisor: it keeps the brightness.
pub proof fn blur_weights_sum_to_divisor()
    ensures
        blur_weights().len() == 5,
        blur_weights()[0] + blur_weights()[1] + blur_weights()[2] + blur_weights()[3]
            + blur_weights()[4] == BLUR_DIVISOR,
{
}

/// The blur treats both directions alike.
pub proof fn blur_weights_are_symmetric(k: int)
    requires
        0 <= k < blur_weights().len(),
    ensures
        blur_weights()[k] == blur_weights()[blur_weights().len() - 1 - k],
{
}

} // verus!
