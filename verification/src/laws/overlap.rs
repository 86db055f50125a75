//! Laws of how tiles are put together.
use crate::exact::is_exact;
use crate::laws::merge::lemma_addition;
use crate::merge::are_tile_origins;
use crate::merge::is_addition;
use crate::merge::is_normalized_total;
use crate::merge::is_overlap_add;
use crate::merge::is_overlap_pixel;
use crate::merge::is_total_upto;
use crate::merge::lemma_origin_of;
use crate::merge::lemma_tile_on_line;
use crate::merge::lemma_tiles_along;
use crate::merge::tile_step;
use crate::merge::tiles_along;
use crate::merge::windows;
use crate::plane::flat_index;
use crate::plane::lemma_flat_index_bound;
use crate::plane::Plane;
use crate::sample::is_quotient;
use crate::sample::is_ratio;
use crate::sample::Sample;
use vstd::prelude::*;

verus! {

/// Does the tile of `size` pixels at `origin` hold pixel `(r, c)`?
pub open spec fn holds(origin: (usize, usize), size: int, r: int, c: int) -> bool {
    0 <= r - origin.0 < size && 0 <= c - origin.1 < size
}

/// What the first `k` tiles put at pixel `(r, c)`: each that holds it its value there
/// times the window.
pub open spec fn put_there<T>(
    value: spec_fn(T) -> real,
    origins: Seq<(usize, usize)>,
    tiles: Seq<Plane<T>>,
    window: Plane<T>,
    r: int,
    c: int,
    k: nat,
) -> real
    decreases k,
{
    if k == 0 {
        0real
    } else {
        let o = origins[k - 1];
        let before = put_there(value, origins, tiles, window, r, c, (k - 1) as nat);
        if holds(o, window.height() as int, r, c) {
            before + value(tiles[k - 1].at(r - o.0, c - o.1)) * value(
                window.at(r - o.0, c - o.1),
            )
        } else {
            before
        }
    }
}

/// How much the windows of the first `k` tiles weigh at pixel `(r, c)`: each the
/// square of its value there.
pub open spec fn weight_there<T>(
    value: spec_fn(T) -> real,
    origins: Seq<(usize, usize)>,
    window: Plane<T>,
    r: int,
    c: int,
    k: nat,
) -> real
    decreases k,
{
    if k == 0 {
        0real
    } else {
        let o = origins[k - 1];
        let before = weight_there(value, origins, window, r, c, (k - 1) as nat);
        if holds(o, window.height() as int, r, c) {
            before + value(window.at(r - o.0, c - o.1)) * value(window.at(r - o.0, c - o.1))
        } else {
            before
        }
    }
}

proof fn lemma_total<T: Sample>(
    value: spec_fn(T) -> real,
    origins: Seq<(usize, usize)>,
    tiles: Seq<Plane<T>>,
    window: Plane<T>,
    r: int,
    c: int,
    k: nat,
    s: T,
)
    requires
        is_exact(value),
        is_total_upto(origins, tiles, window, r, c, k as int, s),
    ensures
        value(s) == put_there(value, origins, tiles, window, r, c, k),
    decreases k,
{
    if k == 0 {
        assert(value(s) * 1real == 0real);
    } else {
        let o = origins[k - 1];
        if holds(o, window.height() as int, r, c) {
            let (i, j) = (r - o.0, c - o.1);
            let before = choose|before: T|
                is_total_upto(origins, tiles, window, r, c, k - 1, before)
                    && #[trigger] is_addition(
                    before,
                    tiles[k - 1].at(i, j),
                    window.at(i, j),
                    s,
                );
            lemma_total(value, origins, tiles, window, r, c, (k - 1) as nat, before);
            lemma_addition(value, before, tiles[k - 1].at(i, j), window.at(i, j), s);
        } else {
            lemma_total(value, origins, tiles, window, r, c, (k - 1) as nat, s);
        }
    }
}

proof fn lemma_weight<T>(
    value: spec_fn(T) -> real,
    origins: Seq<(usize, usize)>,
    window: Plane<T>,
    n: int,
    r: int,
    c: int,
    k: nat,
)
    requires
        k <= n,
    ensures
        put_there(value, origins, windows(window, n), window, r, c, k) == weight_there(
            value,
            origins,
            window,
            r,
            c,
            k,
        ),
    decreases k,
{
    if k > 0 {
        lemma_weight(value, origins, window, n, r, c, (k - 1) as nat);
        assert(windows(window, n)[k - 1] == window);
    }
}

/// Every pixel is the mean of what the tiles that hold it put there, weighed by their
/// windows: the products with the window, added up, over the squares of the window,
/// added up. Where these come to a hundred millionth or less the former are left as
/// they are; so pixels that no tile holds are zero.
pub proof fn pixels_are_means_of_their_tiles<T: Sample>(
    value: spec_fn(T) -> real,
    origins: Seq<(usize, usize)>,
    tiles: Seq<Plane<T>>,
    window: Plane<T>,
    out: Plane<T>,
    r: int,
    c: int,
)
    requires
        is_exact(value),
        is_overlap_add(origins, tiles, window, out),
        out.has(r, c),
    ensures
        ({
            let n = origins.len();
            let put = put_there(value, origins, tiles, window, r, c, n);
            let weight = weight_there(value, origins, window, r, c, n);
            let v = value(out.at(r, c));
            &&& 100_000_000real * weight > 1real ==> v * weight == put
            &&& 100_000_000real * weight <= 1real ==> v == put
        }),
{
    let v = out.at(r, c);
    let n = origins.len() as int;
    assert(is_overlap_pixel(origins, tiles, window, r, c, v));
    let (total, weight) = choose|total: T, weight: T|
        {
            &&& is_total_upto(origins, tiles, window, r, c, n, total)
            &&& is_total_upto(origins, windows(window, n), window, r, c, n, weight)
            &&& #[trigger] is_normalized_total(total, weight, v)
        };
    lemma_total(value, origins, tiles, window, r, c, n as nat, total);
    lemma_total(value, origins, windows(window, n), window, r, c, n as nat, weight);
    lemma_weight(value, origins, window, n, r, c, n as nat);
    let (least, enough) = choose|least: T, enough: bool|
        {
            &&& is_ratio(1, 100_000_000, least)
            &&& #[trigger] call_ensures(T::exceeds, (weight, least), enough)
            &&& if enough {
                is_quotient(total, weight, v)
            } else {
                v == total
            }
        };
    assert(value(least) * 100_000_000real == 1real);
}

/// Tiles start at every half tile, in rows and in columns, from the first pixel on as
/// long as they end within the image.
pub proof fn tiles_start_at_every_half_tile(
    h: int,
    w: int,
    tile: int,
    origins: Seq<(usize, usize)>,
    i: int,
    j: int,
) -> (k: int)
    requires
        2 <= tile <= h <= usize::MAX,
        2 <= tile <= w <= usize::MAX,
        are_tile_origins(h, w, tile, origins),
        0 <= i,
        0 <= j,
        i * (tile / 2) + tile <= h,
        j * (tile / 2) + tile <= w,
    ensures
        0 <= k < origins.len(),
        origins[k].0 == i * (tile / 2),
        origins[k].1 == j * (tile / 2),
{
    lemma_tiles_along(h, tile);
    lemma_tiles_along(w, tile);
    let step = tile / 2;
    assert(step == tile_step(tile));
    lemma_step_fits(h, tile, i);
    lemma_step_fits(w, tile, j);
    let cols = tiles_along(w, tile);
    lemma_flat_index_bound(i, j, tiles_along(h, tile), cols);
    lemma_tile_on_line(h, tile, i);
    lemma_tile_on_line(w, tile, j);
    let k = flat_index(i, j, cols);
    assert(origins[k] == ((i * tile_step(tile)) as usize, (j * tile_step(tile)) as usize));
    k
}

proof fn lemma_step_fits(size: int, tile: int, i: int)
    requires
        2 <= tile <= size,
        0 <= i,
        i * (tile / 2) + tile <= size,
    ensures
        i < tiles_along(size, tile),
{
    let step = tile / 2;
    assert(step == tile_step(tile));
    vstd::arithmetic::div_mod::lemma_div_is_ordered(i * step, size - tile, step);
    vstd::arithmetic::div_mod::lemma_div_multiples_vanish(i, step);
    vstd::arithmetic::mul::lemma_mul_is_commutative(i, step);
}

/// No tile starts anywhere else, and none starts twice: those that come later start
/// further down, or further right in the same row.
pub proof fn tiles_follow_each_other(
    h: int,
    w: int,
    tile: int,
    origins: Seq<(usize, usize)>,
    k: int,
    l: int,
)
    requires
        2 <= tile <= h <= usize::MAX,
        2 <= tile <= w <= usize::MAX,
        are_tile_origins(h, w, tile, origins),
        0 <= k < l < origins.len(),
    ensures
        origins[k].0 as int % (tile / 2) == 0,
        origins[k].1 as int % (tile / 2) == 0,
        origins[l].0 as int % (tile / 2) == 0,
        origins[l].1 as int % (tile / 2) == 0,
        origins[l].0 + tile <= h,
        origins[l].1 + tile <= w,
        origins[k].0 < origins[l].0 || (origins[k].0 == origins[l].0 && origins[k].1
            < origins[l].1),
{
    let step = tile_step(tile);
    let cols = tiles_along(w, tile);
    lemma_tiles_along(h, tile);
    lemma_tiles_along(w, tile);
    let a = lemma_origin_of(h, w, tile, origins, k);
    let b = lemma_origin_of(h, w, tile, origins, l);
    lemma_tile_on_line(h, tile, b.0);
    lemma_tile_on_line(w, tile, b.1);
    vstd::arithmetic::div_mod::lemma_mod_multiples_basic(a.0, step);
    vstd::arithmetic::div_mod::lemma_mod_multiples_basic(a.1, step);
    vstd::arithmetic::div_mod::lemma_mod_multiples_basic(b.0, step);
    vstd::arithmetic::div_mod::lemma_mod_multiples_basic(b.1, step);
    vstd::arithmetic::div_mod::lemma_div_is_ordered(k, l, cols);
    vstd::arithmetic::div_mod::lemma_fundamental_div_mod(k, cols);
    vstd::arithmetic::div_mod::lemma_fundamental_div_mod(l, cols);
    if a.0 < b.0 {
        vstd::arithmetic::mul::lemma_mul_strict_inequality(a.0, b.0, step);
    } else {
        vstd::arithmetic::mul::lemma_mul_strict_inequality(a.1, b.1, step);
    }
}

} // verus!
