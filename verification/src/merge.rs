//! Merging of aligned frames, tile by tile, in the frequency domain.
use crate::align::are_alignable;
use crate::align::has_tiles;
use crate::align::is_alignable;
use crate::align::is_burst_alignment;
use crate::align::is_frame_alignment;
use crate::align::place_tile;
use crate::align::tile_start;
use crate::align::AlignmentResult;
use crate::burst::BurstFrame;
use crate::burst::NoiseModel;
use crate::demosaic::is_demosaicable;
use crate::parallel::map_indices;
use crate::plane::flat_index;
use crate::plane::lemma_flat_index_bound;
use crate::plane::Plane;
use crate::sample::is_count;
use crate::sample::is_difference;
use crate::sample::is_one;
use crate::sample::is_product;
use crate::sample::is_quotient;
use crate::sample::is_ratio;
use crate::sample::is_sum;
use crate::sample::is_zero;
use crate::sample::zero;
use crate::sample::Sample;
use vstd::prelude::*;

verus! {

/// Tiles overlap by half, so that no seams show where they meet: the step from
/// one to the next is the side of a tile divided by this.
pub const OVERLAP: usize = 2;

/// A complex number.
#[derive(Debug, Clone, Copy)]
pub struct Complex<T> {
    pub re: T,
    pub im: T,
}

/// The angle of the Hann window at place `i` of `n`: a full turn over the window.
pub open spec fn is_hann_angle<T: Sample>(i: usize, n: usize, angle: T) -> bool {
    exists|two: T, pi: T, turn: T, at: T, part: T, last: T|
        {
            &&& is_ratio(2, 1, two)
            &&& call_ensures(T::half_turn, (), pi)
            &&& #[trigger] is_product(two, pi, turn)
            &&& is_count(i, at)
            &&& #[trigger] is_product(turn, at, part)
            &&& is_count((n - 1) as usize, last)
            &&& #[trigger] is_quotient(part, last, angle)
        }
}

/// `v` came out as the Hann window at place `i` of `n`:
/// `0.5 * (1 - cos(2 * pi * i / (n - 1)))`.
pub open spec fn is_hann<T: Sample>(i: usize, n: usize, v: T) -> bool {
    exists|angle: T, cos: T, one: T, rest: T, half: T|
        {
            &&& is_hann_angle(i, n, angle)
            &&& #[trigger] call_ensures(T::cosine, (angle,), cos)
            &&& is_one(one)
            &&& #[trigger] is_difference(one, cos, rest)
            &&& is_ratio(1, 2, half)
            &&& #[trigger] is_product(half, rest, v)
        }
}

/// `hann` came out as the Hann window of `n` places.
pub open spec fn is_hann_window<T: Sample>(n: usize, hann: Seq<T>) -> bool {
    &&& hann.len() == n
    &&& forall|i: int| 0 <= i < n ==> is_hann(i as usize, n, #[trigger] hann[i])
}

/// `window` came out as the product of two Hann windows, one along the rows
/// and one along the columns.
pub open spec fn is_window<T: Sample>(n: usize, window: Plane<T>) -> bool {
    &&& window.wf()
    &&& window.height() == n
    &&& window.width() == n
    &&& exists|hann: Seq<T>|
        #[trigger] is_hann_window(n, hann) && forall|r: int, c: int|
            window.has(r, c) ==> is_product(hann[r], hann[c], #[trigger] window.at(r, c))
}

fn hann_angle<T: Sample>(i: usize, n: usize) -> (angle: T)
    requires
        n > 0,
    ensures
        is_hann_angle(i, n, angle),
{
    let two: T = T::ratio(2, 1);
    let pi: T = T::half_turn();
    let turn = two.times(pi);
    let at: T = T::count(i);
    let part = turn.times(at);
    let last: T = T::count(n - 1);
    part.over(last)
}

fn hann<T: Sample>(i: usize, n: usize) -> (v: T)
    requires
        n > 0,
    ensures
        is_hann(i, n, v),
{
    let angle: T = hann_angle(i, n);
    let cos = angle.cosine();
    let one: T = T::ratio(1, 1);
    let rest = one.minus(cos);
    let half: T = T::ratio(1, 2);
    half.times(rest)
}

/// 2D Hann window of `n * n` places. It tapers to 0 at the edges and peaks at
/// 1 at the center.
pub fn hann_window_2d<T: Sample>(n: usize) -> (window: Plane<T>)
    requires
        n * n <= usize::MAX,
    ensures
        is_window(n, window),
{
    let mut hann_1d: Vec<T> = Vec::new();
    let mut i: usize = 0;
    while i < n
        invariant
            i <= n,
            hann_1d@.len() == i,
            forall|k: int| 0 <= k < i ==> is_hann(k as usize, n, #[trigger] hann_1d@[k]),
        decreases n - i,
    {
        hann_1d.push(hann(i, n));
        i = i + 1;
    }
    let mut window = Plane::filled(n, n, zero());
    let mut r: usize = 0;
    while r < n
        invariant
            r <= n,
            hann_1d@.len() == n,
            window.wf(),
            window.height() == n,
            window.width() == n,
            forall|p: int, q: int|
                #![trigger window.at(p, q)]
                window.has(p, q) && p < r ==> is_product(
                    hann_1d@[p],
                    hann_1d@[q],
                    window.at(p, q),
                ),
        decreases n - r,
    {
        let mut c: usize = 0;
        while c < n
            invariant
                r < n,
                c <= n,
                hann_1d@.len() == n,
                window.wf(),
                window.height() == n,
                window.width() == n,
                forall|p: int, q: int|
                    #![trigger window.at(p, q)]
                    window.has(p, q) && (p < r || (p == r && q < c)) ==> is_product(
                        hann_1d@[p],
                        hann_1d@[q],
                        window.at(p, q),
                    ),
            decreases n - c,
        {
            window.set(r, c, hann_1d[r].times(hann_1d[c]));
            c = c + 1;
        }
        r = r + 1;
    }
    assert(is_hann_window(n, hann_1d@));
    window
}

/// `tile` came out of the pixels of `image` from `(r0, c0)` on, each times the
/// window.
pub open spec fn is_windowed_tile<T: Sample>(
    image: Plane<T>,
    window: Plane<T>,
    r0: int,
    c0: int,
    tile: Plane<T>,
) -> bool {
    &&& tile.wf()
    &&& tile.same_size(&window)
    &&& forall|i: int, j: int|
        tile.has(i, j) ==> is_product(
            image.at(r0 + i, c0 + j),
            window.at(i, j),
            #[trigger] tile.at(i, j),
        )
}

/// Extracts a tile of `image` at `(r0, c0)` and multiplies it by the window.
pub fn extract_windowed_tile<T: Sample>(
    image: &Plane<T>,
    window: &Plane<T>,
    r0: usize,
    c0: usize,
) -> (tile: Plane<T>)
    requires
        image.wf(),
        window.wf(),
        r0 + window.height() <= image.height(),
        c0 + window.width() <= image.width(),
    ensures
        is_windowed_tile(*image, *window, r0 as int, c0 as int, tile),
{
    let (h, w) = window.dim();
    proof {
        image.lemma_wf();
        window.lemma_wf();
    }
    let mut tile = Plane::filled(h, w, zero());
    let mut i: usize = 0;
    while i < h
        invariant
            i <= h,
            image.wf(),
            window.wf(),
            h == window.height(),
            w == window.width(),
            r0 + h <= image.height() <= usize::MAX,
            c0 + w <= image.width() <= usize::MAX,
            tile.wf(),
            tile.same_size(window),
            forall|p: int, q: int|
                #![trigger tile.at(p, q)]
                tile.has(p, q) && p < i ==> is_product(
                    image.at(r0 + p, c0 + q),
                    window.at(p, q),
                    tile.at(p, q),
                ),
        decreases h - i,
    {
        let mut j: usize = 0;
        while j < w
            invariant
                i < h,
                j <= w,
                image.wf(),
                window.wf(),
                h == window.height(),
                w == window.width(),
                r0 + h <= image.height() <= usize::MAX,
                c0 + w <= image.width() <= usize::MAX,
                tile.wf(),
                tile.same_size(window),
                forall|p: int, q: int|
                    #![trigger tile.at(p, q)]
                    tile.has(p, q) && (p < i || (p == i && q < j)) ==> is_product(
                        image.at(r0 + p, c0 + q),
                        window.at(p, q),
                        tile.at(p, q),
                    ),
            decreases w - j,
        {
            let v = image.get(r0 + i, c0 + j).times(window.get(i, j));
            tile.set(i, j, v);
            j = j + 1;
        }
        i = i + 1;
    }
    tile
}

/// Row `r` of a plane.
pub open spec fn row_of<E>(z: Plane<E>, r: int) -> Seq<E> {
    Seq::new(z.width(), |c: int| z.at(r, c))
}

/// Column `c` of a plane.
pub open spec fn column_of<E>(z: Plane<E>, c: int) -> Seq<E> {
    Seq::new(z.height(), |r: int| z.at(r, c))
}

/// `f` can transform lines of `n` values and keeps their number.
pub open spec fn transforms_lines<E, F: Fn(Vec<E>) -> Vec<E>>(f: F, n: int) -> bool {
    &&& forall|v: Vec<E>| v@.len() == n ==> #[trigger] call_requires(f, (v,))
    &&& forall|v: Vec<E>, u: Vec<E>|
        v@.len() == n && #[trigger] call_ensures(f, (v,), u) ==> u@.len() == n
}

/// `f` made the line `after` of the line `before`.
pub open spec fn is_transformed<E, F: Fn(Vec<E>) -> Vec<E>>(
    f: F,
    before: Seq<E>,
    after: Seq<E>,
) -> bool {
    exists|v: Vec<E>, u: Vec<E>| #[trigger]
        call_ensures(f, (v,), u) && v@ == before && u@ == after
}

/// `f` made every row of `after` of the same row of `before`.
pub open spec fn is_row_pass<E, F: Fn(Vec<E>) -> Vec<E>>(
    f: F,
    before: Plane<E>,
    after: Plane<E>,
) -> bool {
    &&& after.wf()
    &&& after.same_size(&before)
    &&& forall|r: int|
        0 <= r < before.height() ==> is_transformed(f, row_of(before, r), #[trigger] row_of(after, r))
}

/// `f` made every column of `after` of the same column of `before`.
pub open spec fn is_column_pass<E, F: Fn(Vec<E>) -> Vec<E>>(
    f: F,
    before: Plane<E>,
    after: Plane<E>,
) -> bool {
    &&& after.wf()
    &&& after.same_size(&before)
    &&& forall|c: int|
        0 <= c < before.width() ==> is_transformed(
            f,
            column_of(before, c),
            #[trigger] column_of(after, c),
        )
}

fn transform_rows<E: Copy, F: Fn(Vec<E>) -> Vec<E>>(f: &F, z: &Plane<E>) -> (out: Plane<E>)
    requires
        z.wf(),
        transforms_lines(*f, z.width() as int),
    ensures
        is_row_pass(*f, *z, out),
{
    let (h, w) = z.dim();
    let mut out = z.duplicate();
    let ghost mut done: Seq<Seq<E>> = seq![];
    let mut r: usize = 0;
    while r < h
        invariant
            r <= h,
            z.wf(),
            h == z.height(),
            w == z.width(),
            transforms_lines(*f, w as int),
            out.wf(),
            out.same_size(z),
            done.len() == r,
            forall|i: int|
                0 <= i < r ==> is_transformed(*f, row_of(*z, i), #[trigger] done[i])
                    && done[i].len() == w,
            forall|i: int, j: int|
                #![trigger out.at(i, j)]
                out.has(i, j) && i < r ==> out.at(i, j) == done[i][j],
        decreases h - r,
    {
        let mut line: Vec<E> = Vec::new();
        let mut c: usize = 0;
        while c < w
            invariant
                r < h,
                c <= w,
                z.wf(),
                h == z.height(),
                w == z.width(),
                line@ == row_of(*z, r as int).take(c as int),
            decreases w - c,
        {
            line.push(z.get(r, c));
            c = c + 1;
        }
        assert(row_of(*z, r as int).take(w as int) =~= row_of(*z, r as int));
        let ghost before = line;
        let result = f(line);
        assert(call_ensures(*f, (before,), result));
        let mut c: usize = 0;
        while c < w
            invariant
                r < h,
                c <= w,
                h == z.height(),
                w == z.width(),
                result@.len() == w,
                out.wf(),
                out.same_size(z),
                done.len() == r,
                forall|i: int, j: int|
                    #![trigger out.at(i, j)]
                    out.has(i, j) && i < r ==> out.at(i, j) == done[i][j],
                forall|j: int| 0 <= j < c ==> #[trigger] out.at(r as int, j) == result@[j],
            decreases w - c,
        {
            out.set(r, c, result[c]);
            c = c + 1;
        }
        proof {
            done = done.push(result@);
        }
        r = r + 1;
    }
    assert forall|i: int| 0 <= i < h implies is_transformed(
        *f,
        row_of(*z, i),
        #[trigger] row_of(out, i),
    ) by {
        assert(row_of(out, i) =~= done[i]);
    }
    out
}

fn transform_columns<E: Copy, F: Fn(Vec<E>) -> Vec<E>>(f: &F, z: &Plane<E>) -> (out: Plane<E>)
    requires
        z.wf(),
        transforms_lines(*f, z.height() as int),
    ensures
        is_column_pass(*f, *z, out),
{
    let (h, w) = z.dim();
    let mut out = z.duplicate();
    let ghost mut done: Seq<Seq<E>> = seq![];
    let mut c: usize = 0;
    while c < w
        invariant
            c <= w,
            z.wf(),
            h == z.height(),
            w == z.width(),
            transforms_lines(*f, h as int),
            out.wf(),
            out.same_size(z),
            done.len() == c,
            forall|j: int|
                0 <= j < c ==> is_transformed(*f, column_of(*z, j), #[trigger] done[j])
                    && done[j].len() == h,
            forall|i: int, j: int|
                #![trigger out.at(i, j)]
                out.has(i, j) && j < c ==> out.at(i, j) == done[j][i],
        decreases w - c,
    {
        let mut line: Vec<E> = Vec::new();
        let mut r: usize = 0;
        while r < h
            invariant
                c < w,
                r <= h,
                z.wf(),
                h == z.height(),
                w == z.width(),
                line@ == column_of(*z, c as int).take(r as int),
            decreases h - r,
        {
            line.push(z.get(r, c));
            r = r + 1;
        }
        assert(column_of(*z, c as int).take(h as int) =~= column_of(*z, c as int));
        let ghost before = line;
        let result = f(line);
        assert(call_ensures(*f, (before,), result));
        let mut r: usize = 0;
        while r < h
            invariant
                c < w,
                r <= h,
                h == z.height(),
                w == z.width(),
                result@.len() == h,
                out.wf(),
                out.same_size(z),
                done.len() == c,
                forall|i: int, j: int|
                    #![trigger out.at(i, j)]
                    out.has(i, j) && j < c ==> out.at(i, j) == done[j][i],
                forall|i: int| 0 <= i < r ==> #[trigger] out.at(i, c as int) == result@[i],
            decreases h - r,
        {
            out.set(r, c, result[r]);
            r = r + 1;
        }
        proof {
            done = done.push(result@);
        }
        c = c + 1;
    }
    assert forall|j: int| 0 <= j < w implies is_transformed(
        *f,
        column_of(*z, j),
        #[trigger] column_of(out, j),
    ) by {
        assert(column_of(out, j) =~= done[j]);
    }
    out
}

/// `z` holds the values of `tile` as complex numbers.
pub open spec fn is_lifted<T: Sample>(tile: Plane<T>, z: Plane<Complex<T>>) -> bool {
    &&& z.wf()
    &&& z.same_size(&tile)
    &&& forall|r: int, c: int|
        tile.has(r, c) ==> (#[trigger] z.at(r, c)).re == tile.at(r, c) && is_zero(z.at(r, c).im)
}

/// `z` came out as the transform of `tile`: of its rows, then of the columns
/// of the result.
pub open spec fn is_dft<T: Sample, F: Fn(Vec<Complex<T>>) -> Vec<Complex<T>>>(
    f: F,
    tile: Plane<T>,
    z: Plane<Complex<T>>,
) -> bool {
    &&& z.wf()
    &&& z.same_size(&tile)
    &&& exists|lifted: Plane<Complex<T>>, middle: Plane<Complex<T>>|
        is_lifted(tile, lifted) && #[trigger] is_row_pass(f, lifted, middle)
            && #[trigger] is_column_pass(f, middle, z)
}

/// `s` came out as one over the number of cells of `n` rows of `n` cells.
pub open spec fn is_inverse_scale<T: Sample>(n: nat, s: T) -> bool {
    exists|one: T, cells: T|
        is_one(one) && is_count((n * n) as usize, cells) && #[trigger] is_quotient(one, cells, s)
}

/// `tile` holds the real parts of `z`, each times the scale of its size.
pub open spec fn is_scaled_real<T: Sample>(z: Plane<Complex<T>>, tile: Plane<T>) -> bool {
    &&& tile.wf()
    &&& tile.same_size(&z)
    &&& exists|scale: T|
        #[trigger] is_inverse_scale(z.height(), scale) && forall|r: int, c: int|
            z.has(r, c) ==> is_product(z.at(r, c).re, scale, #[trigger] tile.at(r, c))
}

/// `tile` came out as the inverse transform of `z`: of its columns, then of the
/// rows of the result.
pub open spec fn is_idft<T: Sample, F: Fn(Vec<Complex<T>>) -> Vec<Complex<T>>>(
    f: F,
    z: Plane<Complex<T>>,
    tile: Plane<T>,
) -> bool {
    &&& tile.wf()
    &&& tile.same_size(&z)
    &&& exists|middle: Plane<Complex<T>>, back: Plane<Complex<T>>| #[trigger]
        is_column_pass(f, z, middle) && #[trigger] is_row_pass(f, middle, back) && is_scaled_real(
            back,
            tile,
        )
}

fn lift<T: Sample>(tile: &Plane<T>) -> (z: Plane<Complex<T>>)
    requires
        tile.wf(),
    ensures
        is_lifted(*tile, z),
{
    let (h, w) = tile.dim();
    proof {
        tile.lemma_wf();
    }
    let mut z = Plane::filled(h, w, Complex { re: zero(), im: zero() });
    let mut r: usize = 0;
    while r < h
        invariant
            r <= h,
            tile.wf(),
            h == tile.height(),
            w == tile.width(),
            z.wf(),
            z.same_size(tile),
            forall|p: int, q: int|
                #![trigger z.at(p, q)]
                z.has(p, q) && p < r ==> z.at(p, q).re == tile.at(p, q) && is_zero(z.at(p, q).im),
        decreases h - r,
    {
        let mut c: usize = 0;
        while c < w
            invariant
                r < h,
                c <= w,
                tile.wf(),
                h == tile.height(),
                w == tile.width(),
                z.wf(),
                z.same_size(tile),
                forall|p: int, q: int|
                    #![trigger z.at(p, q)]
                    z.has(p, q) && (p < r || (p == r && q < c)) ==> z.at(p, q).re == tile.at(p, q)
                        && is_zero(z.at(p, q).im),
            decreases w - c,
        {
            z.set(r, c, Complex { re: tile.get(r, c), im: zero() });
            c = c + 1;
        }
        r = r + 1;
    }
    z
}

/// 2D transform, by 1D transforms of the rows and then of the columns. `fft`
/// makes the 1D transform of one line.
pub fn dft_2d<T: Sample, F: Fn(Vec<Complex<T>>) -> Vec<Complex<T>>>(
    tile: &Plane<T>,
    fft: &F,
) -> (z: Plane<Complex<T>>)
    requires
        tile.wf(),
        transforms_lines(*fft, tile.width() as int),
        transforms_lines(*fft, tile.height() as int),
    ensures
        is_dft(*fft, *tile, z),
{
    let lifted = lift(tile);
    let middle = transform_rows(fft, &lifted);
    transform_columns(fft, &middle)
}

/// Inverse 2D transform. It mirrors [`dft_2d`]: columns first, then rows, with
/// the inverse 1D transform. These do not normalize, so the scale comes last.
pub fn idft_2d<T: Sample, F: Fn(Vec<Complex<T>>) -> Vec<Complex<T>>>(
    z: &Plane<Complex<T>>,
    ifft: &F,
) -> (tile: Plane<T>)
    requires
        z.wf(),
        z.height() == z.width(),
        transforms_lines(*ifft, z.height() as int),
    ensures
        is_idft(*ifft, *z, tile),
{
    let (n, _w) = z.dim();
    proof {
        z.lemma_wf();
    }
    let one: T = T::ratio(1, 1);
    let cells: T = T::count(n * n);
    let scale = one.over(cells);
    assert(is_inverse_scale(z.height(), scale));
    let middle = transform_columns(ifft, z);
    let back = transform_rows(ifft, &middle);
    let mut tile = Plane::filled(n, n, zero());
    let mut r: usize = 0;
    while r < n
        invariant
            r <= n,
            n == back.height(),
            n == back.width(),
            back.wf(),
            tile.wf(),
            tile.same_size(&back),
            forall|p: int, q: int|
                #![trigger tile.at(p, q)]
                tile.has(p, q) && p < r ==> is_product(back.at(p, q).re, scale, tile.at(p, q)),
        decreases n - r,
    {
        let mut c: usize = 0;
        while c < n
            invariant
                r < n,
                c <= n,
                n == back.height(),
                n == back.width(),
                back.wf(),
                tile.wf(),
                tile.same_size(&back),
                forall|p: int, q: int|
                    #![trigger tile.at(p, q)]
                    tile.has(p, q) && (p < r || (p == r && q < c)) ==> is_product(
                        back.at(p, q).re,
                        scale,
                        tile.at(p, q),
                    ),
            decreases n - c,
        {
            tile.set(r, c, back.get(r, c).re.times(scale));
            c = c + 1;
        }
        r = r + 1;
    }
    assert(is_scaled_real(back, tile));
    tile
}

/// Whatever `inverse` is handed of what `forward` made of a line, with `before`
/// applied to each value, comes back as the line itself, with `after` applied
/// to each value. (An inverse transform that does not normalize brings back a
/// line times its length; one that also was handed a multiple brings back that
/// multiple.)
pub open spec fn undoes<E, F: Fn(Vec<E>) -> Vec<E>, G: Fn(Vec<E>) -> Vec<E>>(
    forward: F,
    inverse: G,
    before: spec_fn(E) -> E,
    after: spec_fn(E) -> E,
) -> bool {
    forall|line: Seq<E>, there: Seq<E>, back: Seq<E>|
        #![trigger is_transformed(forward, line, there), is_transformed(inverse, there.map_values(before), back)]
        is_transformed(forward, line, there) && is_transformed(
            inverse,
            there.map_values(before),
            back,
        ) ==> back == line.map_values(after)
}

/// The passes of the inverse transform undo those of the forward one, where the
/// 1D transforms do: columns and rows each bring back their factor.
pub proof fn inverse_passes_undo_forward_passes<
    E,
    F: Fn(Vec<E>) -> Vec<E>,
    G: Fn(Vec<E>) -> Vec<E>,
>(
    forward: F,
    inverse: G,
    once: spec_fn(E) -> E,
    twice: spec_fn(E) -> E,
    tile: Plane<E>,
    rows: Plane<E>,
    spectrum: Plane<E>,
    middle: Plane<E>,
    back: Plane<E>,
)
    requires
        undoes(forward, inverse, |e: E| e, once),
        undoes(forward, inverse, once, twice),
        is_row_pass(forward, tile, rows),
        is_column_pass(forward, rows, spectrum),
        is_column_pass(inverse, spectrum, middle),
        is_row_pass(inverse, middle, back),
    ensures
        back.same_size(&tile),
        forall|r: int, c: int| tile.has(r, c) ==> #[trigger] back.at(r, c) == twice(tile.at(r, c)),
{
    let same = |e: E| e;
    assert forall|r: int, c: int| tile.has(r, c) implies #[trigger] middle.at(r, c) == once(
        rows.at(r, c),
    ) by {
        let line = column_of(rows, c);
        let there = column_of(spectrum, c);
        let again = column_of(middle, c);
        assert(there.map_values(same) =~= there);
        assert(is_transformed(forward, line, there));
        assert(is_transformed(inverse, there.map_values(same), again));
        assert(again[r] == line.map_values(once)[r]);
    }
    assert forall|r: int, c: int| tile.has(r, c) implies #[trigger] back.at(r, c) == twice(
        tile.at(r, c),
    ) by {
        let line = row_of(tile, r);
        let there = row_of(rows, r);
        let again = row_of(back, r);
        assert(row_of(middle, r) =~= there.map_values(once)) by {
            assert forall|k: int| 0 <= k < there.len() implies row_of(middle, r)[k]
                == #[trigger] there.map_values(once)[k] by {
                assert(tile.has(r, k));
                assert(middle.at(r, k) == once(rows.at(r, k)));
            }
        }
        assert(is_transformed(forward, line, there));
        assert(is_transformed(inverse, there.map_values(once), again));
        assert(again[c] == line.map_values(twice)[c]);
    }
}

/// `p` came out as the squared magnitude of `z`.
pub open spec fn is_power<T: Sample>(z: Complex<T>, p: T) -> bool {
    exists|a: T, b: T| #[trigger]
        is_product(z.re, z.re, a) && #[trigger] is_product(z.im, z.im, b) && is_sum(a, b, p)
}

/// `w` came out as the Wiener weight of a frequency where the reference is `z`:
/// `power / (power + n * noise)`.
pub open spec fn is_wiener_weight<T: Sample>(z: Complex<T>, n: usize, noise: T, w: T) -> bool {
    exists|power: T, count: T, floor: T, total: T|
        {
            &&& is_power(z, power)
            &&& is_count(n, count)
            &&& #[trigger] is_product(count, noise, floor)
            &&& #[trigger] is_sum(power, floor, total)
            &&& is_quotient(power, total, w)
        }
}

/// `out` came out of the sum of a frequency over all frames: `sum * w / (1 + n * w)`.
pub open spec fn is_weighted_mean<T: Sample>(
    sum: Complex<T>,
    n: usize,
    w: T,
    out: Complex<T>,
) -> bool {
    exists|re: T, im: T, count: T, extra: T, one: T, total: T|
        {
            &&& #[trigger] is_product(sum.re, w, re)
            &&& #[trigger] is_product(sum.im, w, im)
            &&& is_count(n, count)
            &&& #[trigger] is_product(count, w, extra)
            &&& is_one(one)
            &&& #[trigger] is_sum(one, extra, total)
            &&& is_quotient(re, total, out.re)
            &&& is_quotient(im, total, out.im)
        }
}

/// `out` came out of one frequency: `reference` of the reference frame and
/// `sum` over all frames, with `n` alternates.
pub open spec fn is_merged_bin<T: Sample>(
    reference: Complex<T>,
    sum: Complex<T>,
    n: usize,
    noise: T,
    out: Complex<T>,
) -> bool {
    exists|w: T| #[trigger]
        is_wiener_weight(reference, n, noise, w) && is_weighted_mean(sum, n, w, out)
}

/// `out` came out of all frequencies.
pub open spec fn is_merged_spectrum<T: Sample>(
    reference: Plane<Complex<T>>,
    sum: Plane<Complex<T>>,
    n: usize,
    noise: T,
    out: Plane<Complex<T>>,
) -> bool {
    &&& out.wf()
    &&& out.same_size(&reference)
    &&& forall|r: int, c: int|
        out.has(r, c) ==> is_merged_bin(
            reference.at(r, c),
            sum.at(r, c),
            n,
            noise,
            #[trigger] out.at(r, c),
        )
}

/// `out` came out of adding `b` to `a`.
pub open spec fn is_complex_sum<T: Sample>(a: Complex<T>, b: Complex<T>, out: Complex<T>) -> bool {
    is_sum(a.re, b.re, out.re) && is_sum(a.im, b.im, out.im)
}

/// `out` came out of adding the values of `b` to those of `a`.
pub open spec fn is_plane_sum<T: Sample>(
    a: Plane<Complex<T>>,
    b: Plane<Complex<T>>,
    out: Plane<Complex<T>>,
) -> bool {
    &&& out.wf()
    &&& out.same_size(&a)
    &&& forall|r: int, c: int|
        out.has(r, c) ==> is_complex_sum(a.at(r, c), b.at(r, c), #[trigger] out.at(r, c))
}

/// `out` came out of adding the spectra of the alternates, in order, to that
/// of the reference.
pub open spec fn is_spectrum_sum<T: Sample>(
    reference: Plane<Complex<T>>,
    alternates: Seq<Plane<Complex<T>>>,
    out: Plane<Complex<T>>,
) -> bool
    decreases alternates.len(),
{
    if alternates.len() == 0 {
        out.wf() && out.same_size(&reference) && out.contents()@ == reference.contents()@
    } else {
        exists|before: Plane<Complex<T>>|
            is_spectrum_sum(reference, alternates.drop_last(), before) && #[trigger] is_plane_sum(
                before,
                alternates.last(),
                out,
            )
    }
}

/// `v` came out as the variance of the noise at the mean intensity of `tile`.
pub open spec fn is_tile_noise<T: Sample>(model: NoiseModel<T>, tile: Plane<T>, v: T) -> bool {
    exists|mean: T| #[trigger] is_tile_mean(tile, mean) && model.is_variance(mean, v)
}

/// `m` came out as the mean of the tile, or as a tenth where it has no pixels.
pub open spec fn is_tile_mean<T: Sample>(tile: Plane<T>, m: T) -> bool {
    exists|mean: Option<T>| #[trigger]
        call_ensures(T::mean, (&tile.contents(),), mean) && match mean {
            Some(x) => m == x,
            None => is_ratio(1, 10, m),
        }
}

fn power<T: Sample>(z: Complex<T>) -> (p: T)
    ensures
        is_power(z, p),
{
    let a = z.re.times(z.re);
    let b = z.im.times(z.im);
    a.plus(b)
}

fn wiener_weight<T: Sample>(z: Complex<T>, n: usize, noise: T) -> (w: T)
    ensures
        is_wiener_weight(z, n, noise, w),
{
    let power: T = power(z);
    let count: T = T::count(n);
    let floor = count.times(noise);
    let total = power.plus(floor);
    power.over(total)
}

fn weighted_mean<T: Sample>(sum: Complex<T>, n: usize, w: T) -> (out: Complex<T>)
    ensures
        is_weighted_mean(sum, n, w, out),
{
    let re = sum.re.times(w);
    let im = sum.im.times(w);
    let count: T = T::count(n);
    let extra = count.times(w);
    let one: T = T::ratio(1, 1);
    let total = one.plus(extra);
    Complex { re: re.over(total), im: im.over(total) }
}

/// Merges the frequencies of a tile: weighs each by the Wiener filter and
/// normalizes. `n` is the number of alternates.
pub fn merge_spectra<T: Sample>(
    reference: &Plane<Complex<T>>,
    sum: &Plane<Complex<T>>,
    n: usize,
    noise: T,
) -> (out: Plane<Complex<T>>)
    requires
        reference.wf(),
        sum.wf(),
        sum.same_size(reference),
    ensures
        is_merged_spectrum(*reference, *sum, n, noise, out),
{
    let (h, w) = reference.dim();
    let mut out = reference.duplicate();
    let mut r: usize = 0;
    while r < h
        invariant
            r <= h,
            reference.wf(),
            sum.wf(),
            sum.same_size(reference),
            h == reference.height(),
            w == reference.width(),
            out.wf(),
            out.same_size(reference),
            forall|p: int, q: int|
                #![trigger out.at(p, q)]
                out.has(p, q) && p < r ==> is_merged_bin(
                    reference.at(p, q),
                    sum.at(p, q),
                    n,
                    noise,
                    out.at(p, q),
                ),
        decreases h - r,
    {
        let mut c: usize = 0;
        while c < w
            invariant
                r < h,
                c <= w,
                reference.wf(),
                sum.wf(),
                sum.same_size(reference),
                h == reference.height(),
                w == reference.width(),
                out.wf(),
                out.same_size(reference),
                forall|p: int, q: int|
                    #![trigger out.at(p, q)]
                    out.has(p, q) && (p < r || (p == r && q < c)) ==> is_merged_bin(
                        reference.at(p, q),
                        sum.at(p, q),
                        n,
                        noise,
                        out.at(p, q),
                    ),
            decreases w - c,
        {
            let weight = wiener_weight(reference.get(r, c), n, noise);
            out.set(r, c, weighted_mean(sum.get(r, c), n, weight));
            c = c + 1;
        }
        r = r + 1;
    }
    out
}

fn add_plane<T: Sample>(a: &Plane<Complex<T>>, b: &Plane<Complex<T>>) -> (out: Plane<Complex<T>>)
    requires
        a.wf(),
        b.wf(),
        b.same_size(a),
    ensures
        is_plane_sum(*a, *b, out),
{
    let (h, w) = a.dim();
    let mut out = a.duplicate();
    let mut r: usize = 0;
    while r < h
        invariant
            r <= h,
            a.wf(),
            b.wf(),
            b.same_size(a),
            h == a.height(),
            w == a.width(),
            out.wf(),
            out.same_size(a),
            forall|p: int, q: int|
                #![trigger out.at(p, q)]
                out.has(p, q) && p < r ==> is_complex_sum(a.at(p, q), b.at(p, q), out.at(p, q)),
        decreases h - r,
    {
        let mut c: usize = 0;
        while c < w
            invariant
                r < h,
                c <= w,
                a.wf(),
                b.wf(),
                b.same_size(a),
                h == a.height(),
                w == a.width(),
                out.wf(),
                out.same_size(a),
                forall|p: int, q: int|
                    #![trigger out.at(p, q)]
                    out.has(p, q) && (p < r || (p == r && q < c)) ==> is_complex_sum(
                        a.at(p, q),
                        b.at(p, q),
                        out.at(p, q),
                    ),
            decreases w - c,
        {
            let x = a.get(r, c);
            let y = b.get(r, c);
            out.set(r, c, Complex { re: x.re.plus(y.re), im: x.im.plus(y.im) });
            c = c + 1;
        }
        r = r + 1;
    }
    out
}

fn tile_noise<T: Sample>(model: &NoiseModel<T>, tile: &Plane<T>) -> (v: T)
    ensures
        is_tile_noise(*model, *tile, v),
{
    let mean = match T::mean(tile.as_vec()) {
        Some(x) => x,
        None => T::ratio(1, 10),
    };
    assert(is_tile_mean(*tile, mean));
    model.variance_at(mean)
}

/// The smaller of two numbers.
pub open spec fn smaller(a: int, b: int) -> int {
    if a < b {
        a
    } else {
        b
    }
}

/// The place of the tile that pixel `(r0, c0)` lies in, or of the nearest one.
pub open spec fn nearest_tile(a: AlignmentResult, r0: int, c0: int, size: int) -> int {
    smaller(r0 / size, a.n_tile_rows - 1) * a.n_tile_cols + smaller(c0 / size, a.n_tile_cols - 1)
}

/// The offset of the tile that pixel `(r0, c0)` lies in, or of the nearest one.
pub open spec fn nearest_offset(a: AlignmentResult, r0: int, c0: int, size: int) -> (i32, i32) {
    a.offsets@[nearest_tile(a, r0, c0, size)]
}

/// The alignment has an offset for the tile at `(r0, c0)`.
pub open spec fn has_offset(a: AlignmentResult, r0: int, c0: int, size: int) -> bool {
    &&& a.n_tile_rows > 0
    &&& a.n_tile_cols > 0
    &&& nearest_tile(a, r0, c0, size) < a.offsets@.len()
}

/// Tiles above and to the left of one that has an offset have one too.
proof fn lemma_earlier_tiles_have_offsets(
    a: AlignmentResult,
    r0: int,
    c0: int,
    r1: int,
    c1: int,
    size: int,
)
    requires
        0 < size,
        0 <= r0 <= r1,
        0 <= c0 <= c1,
        has_offset(a, r1, c1, size),
    ensures
        has_offset(a, r0, c0, size),
{
    vstd::arithmetic::div_mod::lemma_div_is_ordered(r0, r1, size);
    vstd::arithmetic::div_mod::lemma_div_is_ordered(c0, c1, size);
    vstd::arithmetic::mul::lemma_mul_inequality(
        smaller(r0 / size, a.n_tile_rows - 1),
        smaller(r1 / size, a.n_tile_rows - 1),
        a.n_tile_cols as int,
    );
}

/// `z` came out as the transform of the tile of an alternate that alignment
/// puts in place of the one at `(r0, c0)`.
pub open spec fn is_alternate_spectrum<T: Sample, F: Fn(Vec<Complex<T>>) -> Vec<Complex<T>>>(
    alternate: Plane<T>,
    a: AlignmentResult,
    window: Plane<T>,
    r0: int,
    c0: int,
    forward: F,
    z: Plane<Complex<T>>,
) -> bool {
    let size = window.height() as int;
    let offset = nearest_offset(a, r0, c0, size);
    exists|tile: Plane<T>| #[trigger]
        is_windowed_tile(
            alternate,
            window,
            tile_start(r0, offset.0 as int, alternate.height() as int, size),
            tile_start(c0, offset.1 as int, alternate.width() as int, size),
            tile,
        ) && is_dft(forward, tile, z)
}

/// An alternate that a tile of `size` can be taken from, and its alignment,
/// which has an offset for the tile at `(r0, c0)`.
pub open spec fn is_usable_alternate<T>(
    alternate: Plane<T>,
    a: AlignmentResult,
    size: int,
    r0: int,
    c0: int,
) -> bool {
    &&& alternate.wf()
    &&& size <= alternate.height() <= i32::MAX
    &&& size <= alternate.width() <= i32::MAX
    &&& has_offset(a, r0, c0, size)
}

fn alternate_spectrum<T: Sample, F: Fn(Vec<Complex<T>>) -> Vec<Complex<T>>>(
    alternate: &Plane<T>,
    a: &AlignmentResult,
    window: &Plane<T>,
    r0: usize,
    c0: usize,
    fft_forward: &F,
) -> (z: Plane<Complex<T>>)
    requires
        window.wf(),
        window.height() == window.width(),
        window.height() > 0,
        is_usable_alternate(*alternate, *a, window.height() as int, r0 as int, c0 as int),
        transforms_lines(*fft_forward, window.height() as int),
        r0 <= i32::MAX,
        c0 <= i32::MAX,
    ensures
        is_alternate_spectrum(*alternate, *a, *window, r0 as int, c0 as int, *fft_forward, z),
        z.wf(),
        z.same_size(window),
{
    let (size, _w) = window.dim();
    let (h, w) = alternate.dim();
    let tile_row: usize = if r0 / size < a.n_tile_rows - 1 {
        r0 / size
    } else {
        a.n_tile_rows - 1
    };
    let tile_col: usize = if c0 / size < a.n_tile_cols - 1 {
        c0 / size
    } else {
        a.n_tile_cols - 1
    };
    assert(tile_row * a.n_tile_cols + tile_col == nearest_tile(
        *a,
        r0 as int,
        c0 as int,
        size as int,
    ));
    let (dr, dc) = a.offset_at(tile_row, tile_col);
    let alt_r0 = place_tile(r0, dr as i64, h, size);
    let alt_c0 = place_tile(c0, dc as i64, w, size);
    let tile = extract_windowed_tile(alternate, window, alt_r0, alt_c0);
    proof {
        let offset = nearest_offset(*a, r0 as int, c0 as int, size as int);
        assert((dr, dc) == offset);
        assert(is_windowed_tile(
            *alternate,
            *window,
            tile_start(r0 as int, offset.0 as int, h as int, size as int),
            tile_start(c0 as int, offset.1 as int, w as int, size as int),
            tile,
        ));
    }
    dft_2d(&tile, fft_forward)
}

/// `alternates` came out as the transforms of the tiles of all alternates.
pub open spec fn are_alternate_spectra<T: Sample, F: Fn(Vec<Complex<T>>) -> Vec<Complex<T>>>(
    frames: Seq<BurstFrame<T>>,
    alignments: Seq<AlignmentResult>,
    window: Plane<T>,
    r0: int,
    c0: int,
    forward: F,
    alternates: Seq<Plane<Complex<T>>>,
) -> bool {
    &&& alternates.len() == alignments.len()
    &&& forall|i: int|
        0 <= i < alternates.len() ==> is_alternate_spectrum(
            frames[i + 1].bayer,
            alignments[i],
            window,
            r0,
            c0,
            forward,
            #[trigger] alternates[i],
        )
}

/// `tile` came out of merging the tiles of all frames that belong to the one
/// of the reference at `(r0, c0)`.
pub open spec fn is_merged_tile<
    T: Sample,
    F: Fn(Vec<Complex<T>>) -> Vec<Complex<T>>,
    G: Fn(Vec<Complex<T>>) -> Vec<Complex<T>>,
>(
    frames: Seq<BurstFrame<T>>,
    alignments: Seq<AlignmentResult>,
    window: Plane<T>,
    r0: int,
    c0: int,
    forward: F,
    inverse: G,
    tile: Plane<T>,
) -> bool {
    exists|
        ref_tile: Plane<T>,
        reference: Plane<Complex<T>>,
        noise: T,
        alternates: Seq<Plane<Complex<T>>>,
        sum: Plane<Complex<T>>,
        merged: Plane<Complex<T>>,
    |
        {
            &&& #[trigger] is_windowed_tile(frames[0].bayer, window, r0, c0, ref_tile)
            &&& #[trigger] is_dft(forward, ref_tile, reference)
            &&& #[trigger] is_tile_noise(frames[0].noise_model, ref_tile, noise)
            &&& #[trigger] are_alternate_spectra(
                frames,
                alignments,
                window,
                r0,
                c0,
                forward,
                alternates,
            )
            &&& is_spectrum_sum(reference, alternates, sum)
            &&& #[trigger] is_merged_spectrum(
                reference,
                sum,
                alignments.len() as usize,
                noise,
                merged,
            )
            &&& is_idft(inverse, merged, tile)
        }
}

/// Merges one tile across all frames with the Wiener filter in the frequency
/// domain.
pub fn merge_tile<
    T: Sample,
    F: Fn(Vec<Complex<T>>) -> Vec<Complex<T>>,
    G: Fn(Vec<Complex<T>>) -> Vec<Complex<T>>,
>(
    frames: &[BurstFrame<T>],
    alignments: &[AlignmentResult],
    window: &Plane<T>,
    r0: usize,
    c0: usize,
    fft_forward: &F,
    fft_inverse: &G,
) -> (tile: Plane<T>)
    requires
        frames@.len() == alignments@.len() + 1,
        window.wf(),
        window.height() == window.width(),
        window.height() > 0,
        frames@[0].bayer.wf(),
        r0 + window.height() <= frames@[0].bayer.height() <= i32::MAX,
        c0 + window.width() <= frames@[0].bayer.width() <= i32::MAX,
        forall|i: int|
            0 <= i < alignments@.len() ==> is_usable_alternate(
                frames@[i + 1].bayer,
                #[trigger] alignments@[i],
                window.height() as int,
                r0 as int,
                c0 as int,
            ),
        transforms_lines(*fft_forward, window.height() as int),
        transforms_lines(*fft_inverse, window.height() as int),
    ensures
        is_merged_tile(
            frames@,
            alignments@,
            *window,
            r0 as int,
            c0 as int,
            *fft_forward,
            *fft_inverse,
            tile,
        ),
        tile.wf(),
        tile.same_size(window),
{
    let n: usize = alignments.len();
    let ref_tile = extract_windowed_tile(&frames[0].bayer, window, r0, c0);
    let reference = dft_2d(&ref_tile, fft_forward);
    let noise = tile_noise(&frames[0].noise_model, &ref_tile);
    let mut sum = reference.duplicate();
    let ghost mut alternates: Seq<Plane<Complex<T>>> = seq![];
    let mut i: usize = 0;
    while i < n
        invariant
            i <= n,
            n == alignments@.len(),
            frames@.len() == alignments@.len() + 1,
            window.wf(),
            window.height() == window.width(),
            window.height() > 0,
            r0 <= i32::MAX,
            c0 <= i32::MAX,
            forall|k: int|
                0 <= k < alignments@.len() ==> is_usable_alternate(
                    frames@[k + 1].bayer,
                    #[trigger] alignments@[k],
                    window.height() as int,
                    r0 as int,
                    c0 as int,
                ),
            transforms_lines(*fft_forward, window.height() as int),
            sum.wf(),
            sum.same_size(window),
            alternates.len() == i,
            forall|k: int|
                0 <= k < i ==> is_alternate_spectrum(
                    frames@[k + 1].bayer,
                    alignments@[k],
                    *window,
                    r0 as int,
                    c0 as int,
                    *fft_forward,
                    #[trigger] alternates[k],
                ),
            is_spectrum_sum(reference, alternates, sum),
        decreases n - i,
    {
        assert(is_usable_alternate(
            frames@[i + 1].bayer,
            alignments@[i as int],
            window.height() as int,
            r0 as int,
            c0 as int,
        ));
        let z = alternate_spectrum(
            &frames[i + 1].bayer,
            &alignments[i],
            window,
            r0,
            c0,
            fft_forward,
        );
        let next = add_plane(&sum, &z);
        proof {
            let longer = alternates.push(z);
            assert(longer.drop_last() =~= alternates);
            assert(is_plane_sum(sum, longer.last(), next));
            assert(is_spectrum_sum(reference, longer, next));
            alternates = longer;
        }
        sum = next;
        i = i + 1;
    }
    let merged = merge_spectra(&reference, &sum, n, noise);
    assert(are_alternate_spectra(
        frames@,
        alignments@,
        *window,
        r0 as int,
        c0 as int,
        *fft_forward,
        alternates,
    ));
    assert(is_merged_spectrum(reference, sum, alignments@.len() as usize, noise, merged));
    idft_2d(&merged, fft_inverse)
}

/// The step from one tile to the next.
pub open spec fn tile_step(tile: int) -> int {
    tile / OVERLAP as int
}

/// How many tiles start along `size` pixels.
pub open spec fn tiles_along(size: int, tile: int) -> int {
    (size - tile) / tile_step(tile) + 1
}

/// Where the last tile along `size` pixels ends.
pub open spec fn tiled_length(size: int, tile: int) -> int {
    (tiles_along(size, tile) - 1) * tile_step(tile) + tile
}

/// `origins` holds the first pixels of all tiles, row after row.
pub open spec fn are_tile_origins(
    h: int,
    w: int,
    tile: int,
    origins: Seq<(usize, usize)>,
) -> bool {
    let rows = tiles_along(h, tile);
    let cols = tiles_along(w, tile);
    &&& origins.len() == rows * cols
    &&& forall|i: int, j: int|
        0 <= i < rows && 0 <= j < cols ==> #[trigger] origins[flat_index(i, j, cols)] == (
            (i * tile_step(tile)) as usize,
            (j * tile_step(tile)) as usize,
        )
}

/// Does the tile at `origin` hold pixel `(r, c)`?
pub open spec fn covers(origin: (usize, usize), tile: int, r: int, c: int) -> bool {
    &&& origin.0 <= r < origin.0 + tile
    &&& origin.1 <= c < origin.1 + tile
}

/// The tiles along a line start within it and end within it.
pub proof fn lemma_tile_on_line(size: int, tile: int, i: int)
    requires
        2 <= tile <= size,
        0 <= i < tiles_along(size, tile),
    ensures
        0 <= i * tile_step(tile),
        i * tile_step(tile) + tile <= tiled_length(size, tile) <= size,
{
    let step = tile_step(tile);
    let last = tiles_along(size, tile) - 1;
    vstd::arithmetic::div_mod::lemma_fundamental_div_mod(size - tile, step);
    vstd::arithmetic::div_mod::lemma_mod_bound(size - tile, step);
    vstd::arithmetic::mul::lemma_mul_inequality(i, last, step);
    vstd::arithmetic::mul::lemma_mul_inequality(0, i, step);
    vstd::arithmetic::mul::lemma_mul_is_commutative(step, last);
}

/// Every tile lies within the image.
pub proof fn tiles_stay_within_the_image(
    h: int,
    w: int,
    tile: int,
    origins: Seq<(usize, usize)>,
    k: int,
)
    requires
        2 <= tile <= h <= usize::MAX,
        2 <= tile <= w <= usize::MAX,
        are_tile_origins(h, w, tile, origins),
        0 <= k < origins.len(),
    ensures
        origins[k].0 + tile <= h,
        origins[k].1 + tile <= w,
{
    let (i, j) = lemma_origin_of(h, w, tile, origins, k);
    lemma_tile_on_line(h, tile, i);
    lemma_tile_on_line(w, tile, j);
}

/// No tile starts after the last one.
proof fn lemma_origins_before_last(
    h: int,
    w: int,
    tile: int,
    origins: Seq<(usize, usize)>,
    k: int,
)
    requires
        2 <= tile <= h <= usize::MAX,
        2 <= tile <= w <= usize::MAX,
        are_tile_origins(h, w, tile, origins),
        0 <= k < origins.len(),
    ensures
        origins[k].0 <= last_origin(h, tile),
        origins[k].1 <= last_origin(w, tile),
{
    let (i, j) = lemma_origin_of(h, w, tile, origins, k);
    lemma_tiles_along(h, tile);
    vstd::arithmetic::mul::lemma_mul_inequality(i, tiles_along(h, tile) - 1, tile_step(tile));
    vstd::arithmetic::mul::lemma_mul_inequality(j, tiles_along(w, tile) - 1, tile_step(tile));
}

/// The row and the column of a tile.
pub proof fn lemma_origin_of(
    h: int,
    w: int,
    tile: int,
    origins: Seq<(usize, usize)>,
    k: int,
) -> (at: (int, int))
    requires
        2 <= tile <= h <= usize::MAX,
        2 <= tile <= w <= usize::MAX,
        are_tile_origins(h, w, tile, origins),
        0 <= k < origins.len(),
    ensures
        0 <= at.0 < tiles_along(h, tile),
        0 <= at.1 < tiles_along(w, tile),
        at.0 == k / tiles_along(w, tile),
        at.1 == k % tiles_along(w, tile),
        origins[k].0 == at.0 * tile_step(tile),
        origins[k].1 == at.1 * tile_step(tile),
{
    let rows = tiles_along(h, tile);
    let cols = tiles_along(w, tile);
    lemma_tiles_along(h, tile);
    lemma_tiles_along(w, tile);
    let i = k / cols;
    let j = k % cols;
    vstd::arithmetic::div_mod::lemma_fundamental_div_mod(k, cols);
    vstd::arithmetic::div_mod::lemma_mod_bound(k, cols);
    vstd::arithmetic::div_mod::lemma_div_pos_is_pos(k, cols);
    vstd::arithmetic::mul::lemma_mul_is_commutative(rows, cols);
    vstd::arithmetic::mul::lemma_mul_is_commutative(i, cols);
    vstd::arithmetic::div_mod::lemma_multiply_divide_lt(k, cols, rows);
    lemma_tile_on_line(h, tile, i);
    lemma_tile_on_line(w, tile, j);
    assert(k == flat_index(i, j, cols));
    (i, j)
}

/// At least one tile starts along a line that is long enough for it.
pub proof fn lemma_tiles_along(size: int, tile: int)
    requires
        2 <= tile <= size,
    ensures
        1 <= tile_step(tile),
        2 * tile_step(tile) <= tile,
        1 <= tiles_along(size, tile) <= size,
{
    let step = tile_step(tile);
    vstd::arithmetic::div_mod::lemma_div_pos_is_pos(size - tile, step);
    vstd::arithmetic::div_mod::lemma_div_is_ordered_by_denominator(size - tile, 1, step);
    vstd::arithmetic::div_mod::lemma_div_by_self(1);
    vstd::arithmetic::div_mod::lemma_div_basics(size - tile);
}

/// The tiles cover the image but for less than one step at its lower and at
/// its right edge.
pub proof fn tiles_cover_the_image(
    h: int,
    w: int,
    tile: int,
    origins: Seq<(usize, usize)>,
    r: int,
    c: int,
)
    requires
        2 <= tile <= h <= usize::MAX,
        2 <= tile <= w <= usize::MAX,
        are_tile_origins(h, w, tile, origins),
        0 <= r < tiled_length(h, tile),
        0 <= c < tiled_length(w, tile),
    ensures
        exists|k: int| 0 <= k < origins.len() && #[trigger] covers(origins[k], tile, r, c),
        h - tiled_length(h, tile) < tile_step(tile),
        w - tiled_length(w, tile) < tile_step(tile),
{
    lemma_tiles_along(h, tile);
    lemma_tiles_along(w, tile);
    let i = lemma_covering_tile(h, tile, r);
    let j = lemma_covering_tile(w, tile, c);
    let cols = tiles_along(w, tile);
    lemma_flat_index_bound(i, j, tiles_along(h, tile), cols);
    lemma_tile_on_line(h, tile, i);
    lemma_tile_on_line(w, tile, j);
    let k = flat_index(i, j, cols);
    assert(origins[k] == ((i * tile_step(tile)) as usize, (j * tile_step(tile)) as usize));
    assert(covers(origins[k], tile, r, c));
    let step = tile_step(tile);
    vstd::arithmetic::div_mod::lemma_fundamental_div_mod(h - tile, step);
    vstd::arithmetic::div_mod::lemma_mod_bound(h - tile, step);
    vstd::arithmetic::div_mod::lemma_fundamental_div_mod(w - tile, step);
    vstd::arithmetic::div_mod::lemma_mod_bound(w - tile, step);
    vstd::arithmetic::mul::lemma_mul_is_commutative(step, (h - tile) / step);
    vstd::arithmetic::mul::lemma_mul_is_commutative(step, (w - tile) / step);
}

/// One of the tiles along a line holds place `x`.
proof fn lemma_covering_tile(size: int, tile: int, x: int) -> (i: int)
    requires
        2 <= tile <= size,
        0 <= x < tiled_length(size, tile),
    ensures
        0 <= i < tiles_along(size, tile),
        i * tile_step(tile) <= x < i * tile_step(tile) + tile,
{
    let step = tile_step(tile);
    let last = tiles_along(size, tile) - 1;
    lemma_tiles_along(size, tile);
    vstd::arithmetic::div_mod::lemma_fundamental_div_mod(x, step);
    vstd::arithmetic::div_mod::lemma_mod_bound(x, step);
    vstd::arithmetic::div_mod::lemma_div_pos_is_pos(x, step);
    vstd::arithmetic::mul::lemma_mul_is_commutative(step, x / step);
    if x / step <= last {
        x / step
    } else {
        vstd::arithmetic::mul::lemma_mul_inequality(last + 1, x / step, step);
        vstd::arithmetic::mul::lemma_mul_is_distributive_add_other_way(step, last, 1);
        last
    }
}

/// Tiles overlap by half: along a line, every place but those of the first and
/// of the last half tile lies in two of them that follow each other.
pub proof fn inner_places_lie_in_two_tiles(size: int, tile: int, x: int)
    requires
        2 <= tile <= size,
        tile_step(tile) <= x < tiles_along(size, tile) * tile_step(tile),
    ensures
        exists|i: int|
            0 <= i && i + 1 < tiles_along(size, tile) && #[trigger] (i * tile_step(tile)) <= x < i
                * tile_step(tile) + tile && (i + 1) * tile_step(tile) <= x < (i + 1) * tile_step(
                tile,
            ) + tile,
{
    let step = tile_step(tile);
    let count = tiles_along(size, tile);
    let i = x / step - 1;
    lemma_tiles_along(size, tile);
    vstd::arithmetic::div_mod::lemma_fundamental_div_mod(x, step);
    vstd::arithmetic::div_mod::lemma_mod_bound(x, step);
    vstd::arithmetic::mul::lemma_mul_is_commutative(step, x / step);
    vstd::arithmetic::mul::lemma_mul_is_distributive_add_other_way(step, i, 1);
    assert(1 <= x / step < count) by (nonlinear_arith)
        requires
            x == (x / step) * step + x % step,
            0 <= x % step < step,
            step <= x < count * step,
    ;
    assert(i * step <= x < i * step + tile && (i + 1) * step <= x < (i + 1) * step + tile);
}

/// The first pixels of all tiles, row after row.
pub fn tile_origins(h: usize, w: usize, tile: usize) -> (origins: Vec<(usize, usize)>)
    requires
        2 <= tile <= h,
        2 <= tile <= w,
    ensures
        are_tile_origins(h as int, w as int, tile as int, origins@),
{
    let step: usize = tile / OVERLAP;
    let rows: usize = (h - tile) / step + 1;
    let cols: usize = (w - tile) / step + 1;
    let mut origins: Vec<(usize, usize)> = Vec::new();
    let mut i: usize = 0;
    let mut r: usize = 0;
    while i < rows
        invariant
            2 <= tile <= h,
            2 <= tile <= w,
            step == tile_step(tile as int),
            rows == tiles_along(h as int, tile as int),
            cols == tiles_along(w as int, tile as int),
            i <= rows,
            i < rows ==> r == i * step,
            origins@.len() == i * cols,
            forall|p: int, q: int|
                0 <= p < i && 0 <= q < cols ==> #[trigger] origins@[flat_index(p, q, cols as int)]
                    == ((p * step) as usize, (q * step) as usize),
        decreases rows - i,
    {
        let mut j: usize = 0;
        let mut c: usize = 0;
        while j < cols
            invariant
                2 <= tile <= h,
                2 <= tile <= w,
                step == tile_step(tile as int),
                rows == tiles_along(h as int, tile as int),
                cols == tiles_along(w as int, tile as int),
                i < rows,
                r == i * step,
                j <= cols,
                j < cols ==> c == j * step,
                origins@.len() == i * cols + j,
                forall|p: int, q: int|
                    0 <= q < cols && (0 <= p < i || (p == i && q < j))
                        ==> #[trigger] origins@[flat_index(p, q, cols as int)] == (
                        (p * step) as usize,
                        (q * step) as usize,
                    ),
            decreases cols - j,
        {
            let ghost before = origins@;
            origins.push((r, c));
            proof {
                assert forall|p: int, q: int|
                    0 <= q < cols && (0 <= p < i || (p == i && q < j + 1)) implies
                    #[trigger] origins@[flat_index(p, q, cols as int)] == (
                    (p * step) as usize,
                    (q * step) as usize,
                ) by {
                    if p < i {
                        lemma_flat_index_bound(p, q, i as int, cols as int);
                        assert(before[flat_index(p, q, cols as int)] == (
                            (p * step) as usize,
                            (q * step) as usize,
                        ));
                    } else if q < j {
                        lemma_flat_index_bound(p, q, i + 1, cols as int);
                        assert(before[flat_index(p, q, cols as int)] == (
                            (p * step) as usize,
                            (q * step) as usize,
                        ));
                    }
                }
            }
            j = j + 1;
            if j < cols {
                proof {
                    lemma_tile_on_line(w as int, tile as int, j as int);
                    vstd::arithmetic::mul::lemma_mul_is_distributive_add_other_way(
                        step as int,
                        j - 1,
                        1,
                    );
                }
                c = c + step;
            }
        }
        proof {
            vstd::arithmetic::mul::lemma_mul_is_distributive_add_other_way(
                cols as int,
                i as int,
                1,
            );
        }
        i = i + 1;
        if i < rows {
            proof {
                lemma_tile_on_line(h as int, tile as int, i as int);
                vstd::arithmetic::mul::lemma_mul_is_distributive_add_other_way(
                    step as int,
                    i - 1,
                    1,
                );
            }
            r = r + step;
        }
    }
    origins
}

/// `s` came out of adding `value * weight` to `before`.
pub open spec fn is_addition<T: Sample>(before: T, value: T, weight: T, s: T) -> bool {
    exists|p: T| is_product(value, weight, p) && #[trigger] is_sum(before, p, s)
}

/// `s` came out of adding up, in order, what the first `k` tiles put at pixel
/// `(r, c)`: each tile that covers it adds its value there times the window.
pub open spec fn is_total_upto<T: Sample>(
    origins: Seq<(usize, usize)>,
    tiles: Seq<Plane<T>>,
    window: Plane<T>,
    r: int,
    c: int,
    k: int,
    s: T,
) -> bool
    decreases k,
{
    if k <= 0 {
        is_zero(s)
    } else {
        let origin = origins[k - 1];
        if covers(origin, window.height() as int, r, c) {
            exists|before: T|
                is_total_upto(origins, tiles, window, r, c, k - 1, before)
                    && #[trigger] is_addition(
                    before,
                    tiles[k - 1].at(r - origin.0, c - origin.1),
                    window.at(r - origin.0, c - origin.1),
                    s,
                )
        } else {
            is_total_upto(origins, tiles, window, r, c, k - 1, s)
        }
    }
}

/// `v` came out of dividing `total` by `weight`, unless that is next to nothing.
pub open spec fn is_normalized_total<T: Sample>(total: T, weight: T, v: T) -> bool {
    exists|least: T, enough: bool|
        {
            &&& is_ratio(1, 100_000_000, least)
            &&& #[trigger] call_ensures(T::exceeds, (weight, least), enough)
            &&& if enough {
                is_quotient(total, weight, v)
            } else {
                v == total
            }
        }
}

/// `v` came out of what all tiles put at pixel `(r, c)`: the total of their
/// values, normalized by the total of the window itself.
pub open spec fn is_overlap_pixel<T: Sample>(
    origins: Seq<(usize, usize)>,
    tiles: Seq<Plane<T>>,
    window: Plane<T>,
    r: int,
    c: int,
    v: T,
) -> bool {
    let n = origins.len() as int;
    exists|total: T, weight: T|
        {
            &&& is_total_upto(origins, tiles, window, r, c, n, total)
            &&& is_total_upto(origins, windows(window, n), window, r, c, n, weight)
            &&& #[trigger] is_normalized_total(total, weight, v)
        }
}

/// The window, `n` times.
pub open spec fn windows<T>(window: Plane<T>, n: int) -> Seq<Plane<T>> {
    Seq::new(n as nat, |i: int| window)
}

/// `out` came out of putting the tiles together.
pub open spec fn is_overlap_add<T: Sample>(
    origins: Seq<(usize, usize)>,
    tiles: Seq<Plane<T>>,
    window: Plane<T>,
    out: Plane<T>,
) -> bool {
    forall|r: int, c: int|
        out.has(r, c) ==> is_overlap_pixel(origins, tiles, window, r, c, #[trigger] out.at(r, c))
}

/// Adds `tile`, times the window, to the pixels of `total` that it covers.
fn add_tile<T: Sample>(
    total: &mut Plane<T>,
    tile: &Plane<T>,
    window: &Plane<T>,
    origin: (usize, usize),
)
    requires
        old(total).wf(),
        tile.wf(),
        window.wf(),
        window.height() == window.width(),
        tile.same_size(window),
        origin.0 + window.height() <= old(total).height(),
        origin.1 + window.height() <= old(total).width(),
    ensures
        final(total).wf(),
        final(total).same_size(old(total)),
        forall|r: int, c: int|
            final(total).has(r, c) ==> if covers(origin, window.height() as int, r, c) {
                is_addition(
                    old(total).at(r, c),
                    tile.at(r - origin.0, c - origin.1),
                    window.at(r - origin.0, c - origin.1),
                    #[trigger] final(total).at(r, c),
                )
            } else {
                final(total).at(r, c) == old(total).at(r, c)
            },
{
    let (size, _w) = window.dim();
    proof {
        total.lemma_wf();
    }
    let ghost before = *total;
    let mut i: usize = 0;
    while i < size
        invariant
            i <= size,
            total.wf(),
            total.same_size(&before),
            tile.wf(),
            window.wf(),
            size == window.height(),
            size == window.width(),
            tile.same_size(window),
            origin.0 + size <= total.height() <= usize::MAX,
            origin.1 + size <= total.width() <= usize::MAX,
            forall|r: int, c: int|
                #![trigger total.at(r, c)]
                total.has(r, c) ==> if covers(origin, size as int, r, c) && r < origin.0 + i {
                    is_addition(
                        before.at(r, c),
                        tile.at(r - origin.0, c - origin.1),
                        window.at(r - origin.0, c - origin.1),
                        total.at(r, c),
                    )
                } else {
                    total.at(r, c) == before.at(r, c)
                },
        decreases size - i,
    {
        let mut j: usize = 0;
        while j < size
            invariant
                i < size,
                j <= size,
                total.wf(),
                total.same_size(&before),
                tile.wf(),
                window.wf(),
                size == window.height(),
                size == window.width(),
                tile.same_size(window),
                origin.0 + size <= total.height() <= usize::MAX,
                origin.1 + size <= total.width() <= usize::MAX,
                forall|r: int, c: int|
                    #![trigger total.at(r, c)]
                    total.has(r, c) ==> if covers(origin, size as int, r, c) && (r < origin.0 + i
                        || (r == origin.0 + i && c < origin.1 + j)) {
                        is_addition(
                            before.at(r, c),
                            tile.at(r - origin.0, c - origin.1),
                            window.at(r - origin.0, c - origin.1),
                            total.at(r, c),
                        )
                    } else {
                        total.at(r, c) == before.at(r, c)
                    },
            decreases size - j,
        {
            let r: usize = origin.0 + i;
            let c: usize = origin.1 + j;
            let old_value = total.get(r, c);
            let p = tile.get(i, j).times(window.get(i, j));
            let new_value = old_value.plus(p);
            assert(is_addition(
                before.at(r as int, c as int),
                tile.at(r - origin.0, c - origin.1),
                window.at(r - origin.0, c - origin.1),
                new_value,
            ));
            total.set(r, c, new_value);
            j = j + 1;
        }
        i = i + 1;
    }
}

fn normalized_total<T: Sample>(total: T, weight: T) -> (v: T)
    ensures
        is_normalized_total(total, weight, v),
{
    let least: T = T::ratio(1, 100_000_000);
    if weight.exceeds(least) {
        total.over(weight)
    } else {
        total
    }
}

/// Every pixel of `total` came out of what the first `k` tiles put there.
pub open spec fn are_totals_upto<T: Sample>(
    origins: Seq<(usize, usize)>,
    tiles: Seq<Plane<T>>,
    window: Plane<T>,
    k: int,
    total: Plane<T>,
) -> bool {
    forall|r: int, c: int|
        total.has(r, c) ==> is_total_upto(
            origins,
            tiles,
            window,
            r,
            c,
            k,
            #[trigger] total.at(r, c),
        )
}

/// Adds one more tile to the totals.
fn add_next_tile<T: Sample>(
    total: &mut Plane<T>,
    origins: &Vec<(usize, usize)>,
    Ghost(tiles): Ghost<Seq<Plane<T>>>,
    window: &Plane<T>,
    k: usize,
    tile: &Plane<T>,
)
    requires
        k < origins@.len(),
        tiles[k as int] == *tile,
        window.wf(),
        window.height() == window.width(),
        old(total).wf(),
        is_placed(
            old(total).height() as int,
            old(total).width() as int,
            origins@[k as int],
            *tile,
            *window,
        ),
        are_totals_upto(origins@, tiles, *window, k as int, *old(total)),
    ensures
        final(total).wf(),
        final(total).same_size(old(total)),
        are_totals_upto(origins@, tiles, *window, k + 1, *final(total)),
{
    let ghost before = *total;
    add_tile(total, tile, window, origins[k]);
    proof {
        let origin = origins@[k as int];
        assert forall|r: int, c: int| total.has(r, c) implies is_total_upto(
            origins@,
            tiles,
            *window,
            r,
            c,
            k + 1,
            #[trigger] total.at(r, c),
        ) by {
            assert(before.has(r, c));
            assert(is_total_upto(origins@, tiles, *window, r, c, k as int, before.at(r, c)));
            if covers(origin, window.height() as int, r, c) {
                assert(is_addition(
                    before.at(r, c),
                    tiles[(k + 1) - 1].at(r - origin.0, c - origin.1),
                    window.at(r - origin.0, c - origin.1),
                    total.at(r, c),
                ));
            }
        }
    }
}

/// A tile of the size of the window that lies within the image.
pub open spec fn is_placed<T>(
    h: int,
    w: int,
    origin: (usize, usize),
    tile: Plane<T>,
    window: Plane<T>,
) -> bool {
    &&& tile.wf()
    &&& tile.same_size(&window)
    &&& origin.0 + window.height() <= h
    &&& origin.1 + window.height() <= w
}

/// Tiles of the size of the window that lie within the image.
pub open spec fn are_placed_tiles<T>(
    h: int,
    w: int,
    origins: Seq<(usize, usize)>,
    tiles: Seq<Plane<T>>,
    window: Plane<T>,
) -> bool {
    &&& window.wf()
    &&& window.height() == window.width()
    &&& tiles.len() == origins.len()
    &&& forall|k: int|
        0 <= k < tiles.len() ==> is_placed(h, w, origins[k], #[trigger] tiles[k], window)
}

/// Puts the tiles together: overlapping ones are added up, and the sum is
/// normalized by what the window adds up to.
pub fn overlap_add<T: Sample>(
    h: usize,
    w: usize,
    origins: &Vec<(usize, usize)>,
    tiles: &Vec<Plane<T>>,
    window: &Plane<T>,
) -> (out: Plane<T>)
    requires
        h * w <= usize::MAX,
        are_placed_tiles(h as int, w as int, origins@, tiles@, *window),
    ensures
        out.wf(),
        out.height() == h,
        out.width() == w,
        is_overlap_add(origins@, tiles@, *window, out),
{
    let n: usize = origins.len();
    let ghost masks = windows(*window, n as int);
    let mut accum: Plane<T> = Plane::filled(h, w, zero());
    let mut weights: Plane<T> = Plane::filled(h, w, zero());
    let mut k: usize = 0;
    while k < n
        invariant
            k <= n,
            n == origins@.len(),
            are_placed_tiles(h as int, w as int, origins@, tiles@, *window),
            masks == windows(*window, n as int),
            accum.wf(),
            accum.height() == h,
            accum.width() == w,
            weights.wf(),
            weights.height() == h,
            weights.width() == w,
            are_totals_upto(origins@, tiles@, *window, k as int, accum),
            are_totals_upto(origins@, masks, *window, k as int, weights),
        decreases n - k,
    {
        assert(is_placed(h as int, w as int, origins@[k as int], tiles@[k as int], *window));
        add_next_tile(&mut accum, origins, Ghost(tiles@), window, k, &tiles[k]);
        add_next_tile(&mut weights, origins, Ghost(masks), window, k, window);
        k = k + 1;
    }
    let mut out = accum.duplicate();
    let mut r: usize = 0;
    while r < h
        invariant
            r <= h,
            n == origins@.len(),
            masks == windows(*window, n as int),
            accum.wf(),
            accum.height() == h,
            accum.width() == w,
            weights.wf(),
            weights.height() == h,
            weights.width() == w,
            out.wf(),
            out.height() == h,
            out.width() == w,
            are_totals_upto(origins@, tiles@, *window, n as int, accum),
            are_totals_upto(origins@, masks, *window, n as int, weights),
            forall|p: int, q: int|
                #![trigger out.at(p, q)]
                out.has(p, q) && p < r ==> is_overlap_pixel(
                    origins@,
                    tiles@,
                    *window,
                    p,
                    q,
                    out.at(p, q),
                ),
        decreases h - r,
    {
        let mut c: usize = 0;
        while c < w
            invariant
                r < h,
                c <= w,
                n == origins@.len(),
                masks == windows(*window, n as int),
                accum.wf(),
                accum.height() == h,
                accum.width() == w,
                weights.wf(),
                weights.height() == h,
                weights.width() == w,
                out.wf(),
                out.height() == h,
                out.width() == w,
                are_totals_upto(origins@, tiles@, *window, n as int, accum),
                are_totals_upto(origins@, masks, *window, n as int, weights),
                forall|p: int, q: int|
                    #![trigger out.at(p, q)]
                    out.has(p, q) && (p < r || (p == r && q < c)) ==> is_overlap_pixel(
                        origins@,
                        tiles@,
                        *window,
                        p,
                        q,
                        out.at(p, q),
                    ),
            decreases w - c,
        {
            let total = accum.get(r, c);
            let weight = weights.get(r, c);
            let v = normalized_total(total, weight);
            assert(is_overlap_pixel(origins@, tiles@, *window, r as int, c as int, v));
            out.set(r, c, v);
            c = c + 1;
        }
        r = r + 1;
    }
    out
}

/// A pixel that no tile covers stays zero before normalization.
pub proof fn uncovered_pixels_are_zero<T: Sample>(
    origins: Seq<(usize, usize)>,
    tiles: Seq<Plane<T>>,
    window: Plane<T>,
    r: int,
    c: int,
    k: int,
    s: T,
)
    requires
        0 <= k <= origins.len(),
        forall|i: int|
            0 <= i < origins.len() ==> !covers(#[trigger] origins[i], window.height() as int, r, c),
        is_total_upto(origins, tiles, window, r, c, k, s),
    ensures
        is_zero(s),
    decreases k,
{
    if k > 0 {
        assert(!covers(origins[k - 1], window.height() as int, r, c));
        uncovered_pixels_are_zero(origins, tiles, window, r, c, k - 1, s);
    }
}

/// Where the last tile along `size` pixels starts.
pub open spec fn last_origin(size: int, tile: int) -> int {
    (tiles_along(size, tile) - 1) * tile_step(tile)
}

/// A burst and its alignments that can be merged.
pub open spec fn are_mergeable<T>(
    frames: Seq<BurstFrame<T>>,
    alignments: Seq<AlignmentResult>,
) -> bool {
    &&& alignments.len() >= 1
    &&& frames.len() == alignments.len() + 1
    &&& 2 <= alignments[0].tile_size
    &&& frames[0].bayer.wf()
    &&& alignments[0].tile_size <= frames[0].bayer.height() <= i32::MAX
    &&& alignments[0].tile_size <= frames[0].bayer.width() <= i32::MAX
    &&& forall|i: int|
        0 <= i < alignments.len() ==> is_usable_alternate(
            frames[i + 1].bayer,
            #[trigger] alignments[i],
            alignments[0].tile_size as int,
            last_origin(frames[0].bayer.height() as int, alignments[0].tile_size as int),
            last_origin(frames[0].bayer.width() as int, alignments[0].tile_size as int),
        )
}

/// In a burst that can be merged, every alignment has an offset for every tile.
pub proof fn lemma_origins_have_offsets<T>(
    frames: Seq<BurstFrame<T>>,
    alignments: Seq<AlignmentResult>,
    origins: Seq<(usize, usize)>,
    k: int,
    i: int,
)
    requires
        are_mergeable(frames, alignments),
        are_tile_origins(
            frames[0].bayer.height() as int,
            frames[0].bayer.width() as int,
            alignments[0].tile_size as int,
            origins,
        ),
        0 <= k < origins.len(),
        0 <= i < alignments.len(),
    ensures
        0 <= nearest_tile(
            alignments[i],
            origins[k].0 as int,
            origins[k].1 as int,
            alignments[0].tile_size as int,
        ),
        has_offset(
            alignments[i],
            origins[k].0 as int,
            origins[k].1 as int,
            alignments[0].tile_size as int,
        ),
{
    let h = frames[0].bayer.height() as int;
    let w = frames[0].bayer.width() as int;
    let tile = alignments[0].tile_size as int;
    let a = alignments[i];
    let (r0, c0) = (origins[k].0 as int, origins[k].1 as int);
    lemma_origins_before_last(h, w, tile, origins, k);
    assert(is_usable_alternate(
        frames[i + 1].bayer,
        alignments[i],
        tile,
        last_origin(h, tile),
        last_origin(w, tile),
    ));
    lemma_earlier_tiles_have_offsets(a, r0, c0, last_origin(h, tile), last_origin(w, tile), tile);
    vstd::arithmetic::div_mod::lemma_div_pos_is_pos(r0, tile);
    vstd::arithmetic::div_mod::lemma_div_pos_is_pos(c0, tile);
    vstd::arithmetic::mul::lemma_mul_inequality(
        0,
        smaller(r0 / tile, a.n_tile_rows - 1),
        a.n_tile_cols as int,
    );
}

/// What alignment makes of a burst can be merged.
pub proof fn aligned_bursts_can_be_merged<T: Sample>(
    frames: Seq<BurstFrame<T>>,
    alignments: Seq<AlignmentResult>,
)
    requires
        are_alignable(frames),
        frames.len() > 1,
        is_burst_alignment(frames, alignments),
    ensures
        are_mergeable(frames, alignments),
{
    assert(is_alignable(frames[0].bayer) && has_tiles(frames[0].bayer));
    assert(is_frame_alignment(frames[0].bayer, frames[1].bayer, alignments[0]));
    assert forall|i: int| 0 <= i < alignments.len() implies is_usable_alternate(
        frames[i + 1].bayer,
        #[trigger] alignments[i],
        alignments[0].tile_size as int,
        last_origin(frames[0].bayer.height() as int, alignments[0].tile_size as int),
        last_origin(frames[0].bayer.width() as int, alignments[0].tile_size as int),
    ) by {
        assert(is_alignable(frames[i + 1].bayer) && has_tiles(frames[i + 1].bayer));
        assert(is_frame_alignment(frames[0].bayer, frames[i + 1].bayer, alignments[i]));
        let a = alignments[i];
        let h = frames[0].bayer.height() as int;
        let w = frames[0].bayer.width() as int;
        lemma_tiles_along(h, 16);
        lemma_tiles_along(w, 16);
        lemma_tile_on_line(h, 16, tiles_along(h, 16) - 1);
        lemma_tile_on_line(w, 16, tiles_along(w, 16) - 1);
        lemma_flat_index_bound(
            smaller(last_origin(h, 16) / 16, a.n_tile_rows - 1),
            smaller(last_origin(w, 16) / 16, a.n_tile_cols - 1),
            a.n_tile_rows as int,
            a.n_tile_cols as int,
        );
    }
}

/// What merging makes of a burst can be demosaiced.
pub proof fn merged_bursts_can_be_demosaiced<T: Sample>(
    frames: Seq<BurstFrame<T>>,
    alignments: Seq<AlignmentResult>,
    merged: Plane<T>,
)
    requires
        are_mergeable(frames, alignments),
        merged.wf(),
        merged.same_size(&frames[0].bayer),
    ensures
        is_demosaicable(merged),
{
}

/// `tiles` came out of merging every tile of the reference.
pub open spec fn are_merged_tiles<
    T: Sample,
    F: Fn(Vec<Complex<T>>) -> Vec<Complex<T>>,
    G: Fn(Vec<Complex<T>>) -> Vec<Complex<T>>,
>(
    frames: Seq<BurstFrame<T>>,
    alignments: Seq<AlignmentResult>,
    window: Plane<T>,
    origins: Seq<(usize, usize)>,
    forward: F,
    inverse: G,
    tiles: Seq<Plane<T>>,
) -> bool {
    &&& tiles.len() == origins.len()
    &&& forall|k: int|
        0 <= k < tiles.len() ==> is_merged_tile(
            frames,
            alignments,
            window,
            origins[k].0 as int,
            origins[k].1 as int,
            forward,
            inverse,
            #[trigger] tiles[k],
        )
}

/// `out` came out of merging the burst.
pub open spec fn is_merged_burst<
    T: Sample,
    F: Fn(Vec<Complex<T>>) -> Vec<Complex<T>>,
    G: Fn(Vec<Complex<T>>) -> Vec<Complex<T>>,
>(
    frames: Seq<BurstFrame<T>>,
    alignments: Seq<AlignmentResult>,
    forward: F,
    inverse: G,
    out: Plane<T>,
) -> bool {
    let reference = frames[0].bayer;
    let tile = alignments[0].tile_size;
    exists|window: Plane<T>, origins: Seq<(usize, usize)>, tiles: Seq<Plane<T>>|
        {
            &&& is_window(tile, window)
            &&& are_tile_origins(
                reference.height() as int,
                reference.width() as int,
                tile as int,
                origins,
            )
            &&& #[trigger] are_merged_tiles(
                frames,
                alignments,
                window,
                origins,
                forward,
                inverse,
                tiles,
            )
            &&& is_overlap_add(origins, tiles, window, out)
        }
}

/// Full merge of one burst. Returns a single denoised image of the same size as
/// the reference. `fft_forward` and `fft_inverse` make the 1D transforms of
/// lines of as many values as a tile has rows.
pub fn merge_burst<
    T: Sample,
    F: Fn(Vec<Complex<T>>) -> Vec<Complex<T>> + Sync + Send,
    G: Fn(Vec<Complex<T>>) -> Vec<Complex<T>> + Sync + Send,
>(
    frames: &[BurstFrame<T>],
    alignments: &[AlignmentResult],
    fft_forward: &F,
    fft_inverse: &G,
) -> (out: Plane<T>)
    requires
        are_mergeable(frames@, alignments@),
        transforms_lines(*fft_forward, alignments@[0].tile_size as int),
        transforms_lines(*fft_inverse, alignments@[0].tile_size as int),
    ensures
        out.wf(),
        out.same_size(&frames@[0].bayer),
        is_merged_burst(frames@, alignments@, *fft_forward, *fft_inverse, out),
{
    let (h, w) = frames[0].bayer.dim();
    let tile_size: usize = alignments[0].tile_size;
    proof {
        frames@[0].bayer.lemma_wf();
        vstd::arithmetic::mul::lemma_mul_upper_bound(
            tile_size as int,
            h as int,
            tile_size as int,
            w as int,
        );
    }
    let hann: Plane<T> = hann_window_2d(tile_size);
    let window = &hann;
    let origins = tile_origins(h, w, tile_size);
    let n: usize = origins.len();
    let merge = |k: usize| -> (tile: Plane<T>)
        requires
            k < n,
        ensures
            is_merged_tile(
                frames@,
                alignments@,
                *window,
                origins@[k as int].0 as int,
                origins@[k as int].1 as int,
                *fft_forward,
                *fft_inverse,
                tile,
            ),
            tile.wf(),
            tile.same_size(window),
        {
            let (r0, c0) = origins[k];
            proof {
                tiles_stay_within_the_image(
                    h as int,
                    w as int,
                    tile_size as int,
                    origins@,
                    k as int,
                );
                assert forall|i: int| 0 <= i < alignments@.len() implies is_usable_alternate(
                    frames@[i + 1].bayer,
                    #[trigger] alignments@[i],
                    tile_size as int,
                    r0 as int,
                    c0 as int,
                ) by {
                    lemma_origins_have_offsets(frames@, alignments@, origins@, k as int, i);
                }
            }
            merge_tile(frames, alignments, window, r0, c0, fft_forward, fft_inverse)
        };
    let tiles = map_indices(n, merge);
    proof {
        assert forall|k: int| 0 <= k < tiles@.len() implies {
            &&& is_merged_tile(
                frames@,
                alignments@,
                *window,
                origins@[k].0 as int,
                origins@[k].1 as int,
                *fft_forward,
                *fft_inverse,
                #[trigger] tiles@[k],
            )
            &&& is_placed(h as int, w as int, origins@[k], tiles@[k], *window)
        } by {
            let i = k as usize;
            assert(call_ensures(merge, (i,), tiles@[i as int]));
            tiles_stay_within_the_image(h as int, w as int, tile_size as int, origins@, k);
        }
        assert(are_merged_tiles(
            frames@,
            alignments@,
            *window,
            origins@,
            *fft_forward,
            *fft_inverse,
            tiles@,
        ));
    }
    overlap_add(h, w, &origins, &tiles, window)
}

} // verus!
