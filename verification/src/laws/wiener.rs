//! Laws of the filter that merges tiles.
use crate::align::AlignmentResult;
use crate::burst::BurstFrame;
use crate::burst::NoiseModel;
use crate::exact::is_exact;
use crate::exact::lemma_cancel;
use crate::exact::lemma_commute;
use crate::exact::lemma_distribute;
use crate::exact::lemma_not_negative;
use crate::exact::lemma_positive;
use crate::exact::lemma_regroup;
use crate::exact::same_values;
use crate::laws::frame::variance_is_shot_noise_plus_read_noise;
use crate::laws::merge::lemma_power;
use crate::laws::merge::lemma_square;
use crate::laws::reorder::has_steady_cosine;
use crate::laws::reorder::has_steady_mean;
use crate::laws::reorder::imaginary_parts;
use crate::laws::reorder::lemma_same_contents;
use crate::laws::reorder::lemma_sum_of_spectra;
use crate::laws::reorder::order_of_alternates_does_not_matter;
use crate::laws::reorder::real_parts;
use crate::laws::reorder::real_sum;
use crate::laws::tile::kept_within;
use crate::laws::transform::goes_by_values;
use crate::laws::transform::is_plane_multiple;
use crate::laws::transform::is_times;
use crate::laws::transform::lemma_same_dft;
use crate::laws::transform::lemma_same_idft;
use crate::merge::are_alternate_spectra;
use crate::merge::are_mergeable;
use crate::merge::are_merged_tiles;
use crate::merge::are_tile_origins;
use crate::merge::is_alternate_spectrum;
use crate::merge::is_dft;
use crate::merge::is_idft;
use crate::merge::is_merged_bin;
use crate::merge::is_merged_burst;
use crate::merge::is_merged_spectrum;
use crate::merge::is_merged_tile;
use crate::merge::is_overlap_add;
use crate::merge::is_power;
use crate::merge::is_spectrum_sum;
use crate::merge::is_tile_mean;
use crate::merge::is_tile_noise;
use crate::merge::is_weighted_mean;
use crate::merge::is_wiener_weight;
use crate::merge::is_window;
use crate::merge::is_windowed_tile;
use crate::merge::Complex;
use crate::plane::Plane;
use crate::sample::is_count;
use crate::sample::is_product;
use crate::sample::is_quotient;
use crate::sample::is_ratio;
use crate::sample::is_sum;
use crate::sample::Sample;
use vstd::prelude::*;

verus! {

/// The square of the magnitude of a complex number.
pub open spec fn power_of<T>(value: spec_fn(T) -> real, z: Complex<T>) -> real {
    value(z.re) * value(z.re) + value(z.im) * value(z.im)
}

/// The weight, in terms of what it was made of.
proof fn lemma_weight<T: Sample>(
    value: spec_fn(T) -> real,
    z: Complex<T>,
    n: usize,
    noise: T,
    w: T,
)
    requires
        is_exact(value),
        is_wiener_weight(z, n, noise, w),
        0real <= value(noise),
        0real < power_of(value, z) || (0real < value(noise) && 0 < n),
    ensures
        0real < power_of(value, z) + (n as real) * value(noise),
        value(w) * (power_of(value, z) + (n as real) * value(noise)) == power_of(value, z),
        0real <= value(w),
{
    let (power, count, floor, total) = choose|power: T, count: T, floor: T, total: T|
        {
            &&& is_power(z, power)
            &&& is_count(n, count)
            &&& #[trigger] is_product(count, noise, floor)
            &&& #[trigger] is_sum(power, floor, total)
            &&& is_quotient(power, total, w)
        };
    lemma_power(value, z, power);
    lemma_square(value(z.re));
    lemma_square(value(z.im));
    lemma_not_negative(n as real, value(noise));
    if 0real < value(noise) && 0 < n {
        lemma_positive(n as real, value(noise));
    }
    let s = value(total);
    assert(s == power_of(value, z) + (n as real) * value(noise));
    if value(w) < 0real {
        lemma_positive(0real - value(w), s);
        lemma_distribute(s, 0real, value(w));
        assert(0real * s == 0real);
    }
}

/// One part of a filtered frequency.
proof fn lemma_filtered(out: real, sum: real, w: real, n: real, p: real, f: real)
    requires
        out * (1real + n * w) == sum * w,
        w * (p + f) == p,
    ensures
        out * (p + f + n * p) == sum * p,
{
    let s = p + f;
    // out * ((1 + n * w) * s) == sum * (w * s)
    lemma_regroup(out, 1real + n * w, s);
    lemma_regroup(sum, w, s);
    lemma_distribute(s, 1real, n * w);
    lemma_regroup(n, w, s);
    assert(1real * s == s);
    assert((1real + n * w) * s == s + n * p);
}

/// A frequency of the merged tile is the sum over all frames, weighed by how far the
/// reference stands out of the noise. Where `p` is the power of the reference there,
/// `n` the number of alternates and `v` the variance of the noise, it is the sum times
/// `p / (p + n * v + n * p)`: the mean without noise, and less the more noise there is.
pub proof fn frequencies_are_weighed_by_their_power<T: Sample>(
    value: spec_fn(T) -> real,
    reference: Plane<Complex<T>>,
    sum: Plane<Complex<T>>,
    n: usize,
    noise: T,
    out: Plane<Complex<T>>,
    r: int,
    c: int,
)
    requires
        is_exact(value),
        is_merged_spectrum(reference, sum, n, noise, out),
        reference.has(r, c),
        0real <= value(noise),
        0real < power_of(value, reference.at(r, c)) || (0real < value(noise) && 0 < n),
    ensures
        ({
            let p = power_of(value, reference.at(r, c));
            let d = p + (n as real) * value(noise) + (n as real) * p;
            &&& 0real < d
            &&& value(out.at(r, c).re) * d == value(sum.at(r, c).re) * p
            &&& value(out.at(r, c).im) * d == value(sum.at(r, c).im) * p
        }),
{
    let (z, s, o) = (reference.at(r, c), sum.at(r, c), out.at(r, c));
    assert(out.has(r, c));
    assert(is_merged_bin(z, s, n, noise, o));
    let w = choose|w: T| #[trigger]
        is_wiener_weight(z, n, noise, w) && is_weighted_mean(s, n, w, o);
    lemma_weight(value, z, n, noise, w);
    let (re, im, count, extra, one, total) = choose|
        re: T,
        im: T,
        count: T,
        extra: T,
        one: T,
        total: T,
    |
        {
            &&& #[trigger] is_product(s.re, w, re)
            &&& #[trigger] is_product(s.im, w, im)
            &&& is_count(n, count)
            &&& #[trigger] is_product(count, w, extra)
            &&& is_ratio(1, 1, one)
            &&& #[trigger] is_sum(one, extra, total)
            &&& is_quotient(re, total, o.re)
            &&& is_quotient(im, total, o.im)
        };
    assert(value(one) * 1real == 1real);
    lemma_not_negative(n as real, value(w));
    assert(value(total) == 1real + (n as real) * value(w));
    let p = power_of(value, z);
    let f = (n as real) * value(noise);
    lemma_filtered(value(o.re), value(s.re), value(w), n as real, p, f);
    lemma_filtered(value(o.im), value(s.im), value(w), n as real, p, f);
    lemma_square(value(z.re));
    lemma_square(value(z.im));
    lemma_not_negative(n as real, p);
}

/// The tile has the values of the image from `(r0, c0)` on, times the window.
pub open spec fn holds_windowed<T>(
    value: spec_fn(T) -> real,
    image: Plane<T>,
    window: Plane<T>,
    r0: int,
    c0: int,
    tile: Plane<T>,
) -> bool {
    &&& tile.wf()
    &&& tile.height() == window.height()
    &&& tile.width() == window.width()
    &&& forall|i: int, j: int|
        #![trigger tile.at(i, j)]
        0 <= i < window.height() && 0 <= j < window.width() ==> value(tile.at(i, j)) == value(
            image.at(r0 + i, c0 + j),
        ) * value(window.at(i, j))
}

/// A windowed tile holds the pixels from its first one on, each times the window.
pub proof fn windowed_tiles_hold_their_pixels<T: Sample>(
    value: spec_fn(T) -> real,
    image: Plane<T>,
    window: Plane<T>,
    r0: int,
    c0: int,
    tile: Plane<T>,
)
    requires
        is_exact(value),
        is_windowed_tile(image, window, r0, c0, tile),
    ensures
        holds_windowed(value, image, window, r0, c0, tile),
{
    assert forall|i: int, j: int|
        #![trigger tile.at(i, j)]
        0 <= i < window.height() && 0 <= j < window.width() implies value(tile.at(i, j)) == value(
        image.at(r0 + i, c0 + j),
    ) * value(window.at(i, j)) by {
        assert(tile.has(i, j));
        assert(is_product(image.at(r0 + i, c0 + j), window.at(i, j), tile.at(i, j)));
    }
}

/// The first row of the tile of an alternate that goes with the tile at `(r0, c0)`:
/// as far from there as the alignment says for the tile of the reference that this
/// pixel lies in, or for the last one, and kept within the alternate.
pub open spec fn aligned_row(
    a: AlignmentResult,
    height: int,
    size: int,
    r0: int,
    c0: int,
) -> int {
    kept_within(r0 + a.offsets@[aligned_index(a, size, r0, c0)].0, height - size)
}

/// The first column of that tile.
pub open spec fn aligned_column(
    a: AlignmentResult,
    width: int,
    size: int,
    r0: int,
    c0: int,
) -> int {
    kept_within(c0 + a.offsets@[aligned_index(a, size, r0, c0)].1, width - size)
}

/// Which offset goes with the tile at `(r0, c0)`.
pub open spec fn aligned_index(a: AlignmentResult, size: int, r0: int, c0: int) -> int {
    let row = if r0 / size > a.n_tile_rows - 1 {
        a.n_tile_rows - 1
    } else {
        r0 / size
    };
    let column = if c0 / size > a.n_tile_cols - 1 {
        a.n_tile_cols - 1
    } else {
        c0 / size
    };
    row * a.n_tile_cols + column
}

/// The noise of a tile, from the mean of its values.
proof fn lemma_noise<T: Sample>(
    value: spec_fn(T) -> real,
    model: NoiseModel<T>,
    a: Plane<T>,
    b: Plane<T>,
    mean: T,
    noise: T,
)
    requires
        is_exact(value),
        has_steady_mean(value),
        a.wf(),
        b.wf(),
        same_values(value, a, b),
        call_ensures(T::mean, (&b.contents(),), Some(mean)),
        is_tile_noise(model, a, noise),
    ensures
        value(noise) == value(model.lambda_s) * value(mean) + value(model.lambda_r),
{
    let m = choose|m: T| #[trigger] is_tile_mean(a, m) && model.is_variance(m, noise);
    let found = choose|found: Option<T>| #[trigger]
        call_ensures(T::mean, (&a.contents(),), found) && match found {
            Some(x) => m == x,
            None => is_ratio(1, 10, m),
        };
    lemma_same_contents(value, a, b);
    assert(found is Some && value(m) == value(mean)) by {
        let (u, v) = (a.contents(), b.contents());
        assert(call_ensures(T::mean, (&u,), found));
        assert(call_ensures(T::mean, (&v,), Some(mean)));
    }
    variance_is_shot_noise_plus_read_noise(value, model, m, noise);
}

/// A merged tile comes from the tile of the reference and from one of each alternate,
/// taken from where its alignment leads: all are windowed and transformed, each
/// frequency of their sum is weighed by how far the reference's stands out of the
/// noise at the mean of its tile, and the result is transformed back. Here `ref_tile`,
/// `alt_tiles` and their spectra are those, and `merged` is any spectrum with the
/// weighed sums.
pub proof fn merged_tiles_are_weighed_sums<
    T: Sample,
    F: Fn(Vec<Complex<T>>) -> Vec<Complex<T>>,
    G: Fn(Vec<Complex<T>>) -> Vec<Complex<T>>,
>(
    value: spec_fn(T) -> real,
    frames: Seq<BurstFrame<T>>,
    alignments: Seq<AlignmentResult>,
    window: Plane<T>,
    r0: int,
    c0: int,
    forward: F,
    inverse: G,
    tile: Plane<T>,
    ref_tile: Plane<T>,
    reference: Plane<Complex<T>>,
    mean: T,
    alt_tiles: Seq<Plane<T>>,
    alternates: Seq<Plane<Complex<T>>>,
    merged: Plane<Complex<T>>,
    out: Plane<T>,
)
    requires
        is_exact(value),
        has_steady_mean(value),
        goes_by_values(value, forward),
        goes_by_values(value, inverse),
        is_merged_tile(frames, alignments, window, r0, c0, forward, inverse, tile),
        0 < alignments.len() <= usize::MAX,
        alt_tiles.len() == alignments.len(),
        alternates.len() == alignments.len(),
        holds_windowed(value, frames[0].bayer, window, r0, c0, ref_tile),
        is_dft(forward, ref_tile, reference),
        forall|i: int|
            #![trigger alt_tiles[i]]
            #![trigger alternates[i]]
            0 <= i < alt_tiles.len() ==> {
                let image = frames[i + 1].bayer;
                let size = window.height() as int;
                let (h, w) = (image.height() as int, image.width() as int);
                &&& holds_windowed(
                    value,
                    image,
                    window,
                    aligned_row(alignments[i], h, size, r0, c0),
                    aligned_column(alignments[i], w, size, r0, c0),
                    alt_tiles[i],
                )
                &&& is_dft(forward, alt_tiles[i], alternates[i])
            },
        call_ensures(T::mean, (&ref_tile.contents(),), Some(mean)),
        merged.same_size(&reference),
        ({
            let model = frames[0].noise_model;
            let n = alignments.len() as real;
            let v = value(model.lambda_s) * value(mean) + value(model.lambda_r);
            &&& 0real < v
            &&& forall|r: int, c: int|
                reference.has(r, c) ==> {
                    let p = power_of(value, reference.at(r, c));
                    let d = p + n * v + n * p;
                    &&& value((#[trigger] merged.at(r, c)).re) * d == (value(
                        reference.at(r, c).re,
                    ) + real_sum(real_parts(value, alternates, r, c))) * p
                    &&& value(merged.at(r, c).im) * d == (value(reference.at(r, c).im) + real_sum(
                        imaginary_parts(value, alternates, r, c),
                    )) * p
                }
        }),
        is_idft(inverse, merged, out),
    ensures
        same_values(value, tile, out),
{
    let n = alignments.len() as usize;
    let (ref_tile1, reference1, noise1, alternates1, sum1, merged1) = choose|
        ref_tile: Plane<T>,
        reference: Plane<Complex<T>>,
        noise: T,
        alternates: Seq<Plane<Complex<T>>>,
        sum: Plane<Complex<T>>,
        merged: Plane<Complex<T>>,
    |
        {
            &&& #[trigger] is_windowed_tile(frames[0].bayer, window, r0, c0, ref_tile)
            &&& #[trigger] is_dft(forward, ref_tile, reference)
            &&& #[trigger] is_tile_noise(frames[0].noise_model, ref_tile, noise)
            &&& #[trigger] are_alternate_spectra(
                frames,
                alignments,
                window,
                r0,
                c0,
                forward,
                alternates,
            )
            &&& is_spectrum_sum(reference, alternates, sum)
            &&& #[trigger] is_merged_spectrum(
                reference,
                sum,
                alignments.len() as usize,
                noise,
                merged,
            )
            &&& is_idft(inverse, merged, tile)
        };
    windowed_tiles_hold_their_pixels(value, frames[0].bayer, window, r0, c0, ref_tile1);
    lemma_same_windowed(value, frames[0].bayer, window, r0, c0, ref_tile1, ref_tile);
    lemma_same_dft(value, forward, ref_tile1, ref_tile, reference1, reference);
    lemma_noise(value, frames[0].noise_model, ref_tile1, ref_tile, mean, noise1);
    assert forall|i: int| 0 <= i < alternates.len() implies is_plane_multiple(
        value,
        #[trigger] alternates1[i],
        alternates[i],
        1real,
    ) by {
        let a = alignments[i];
        let image = frames[i + 1].bayer;
        let size = window.height() as int;
        let (h, w) = (image.height() as int, image.width() as int);
        let (top, left) = (aligned_row(a, h, size, r0, c0), aligned_column(a, w, size, r0, c0));
        assert(is_alternate_spectrum(image, a, window, r0, c0, forward, alternates1[i]));
        let t = choose|t: Plane<T>| #[trigger]
            is_windowed_tile(image, window, top, left, t) && is_dft(forward, t, alternates1[i]);
        windowed_tiles_hold_their_pixels(value, image, window, top, left, t);
        assert(holds_windowed(value, image, window, top, left, alt_tiles[i]));
        lemma_same_windowed(value, image, window, top, left, t, alt_tiles[i]);
        lemma_same_dft(value, forward, t, alt_tiles[i], alternates1[i], alternates[i]);
    }
    assert(is_plane_multiple(value, merged1, merged, 1real)) by {
        assert forall|r: int, c: int|
            #![trigger merged1.at(r, c)]
            #![trigger merged.at(r, c)]
            merged1.has(r, c) implies is_times(value, merged1.at(r, c), merged.at(r, c), 1real) by {
            lemma_sum_of_spectra(value, reference1, alternates1, sum1, r, c);
            let (re1, re) = (
                real_parts(value, alternates1, r, c),
                real_parts(value, alternates, r, c),
            );
            let (im1, im) = (
                imaginary_parts(value, alternates1, r, c),
                imaginary_parts(value, alternates, r, c),
            );
            assert(is_times(value, reference1.at(r, c), reference.at(r, c), 1real));
            assert forall|i: int| 0 <= i < re.len() implies re1[i] == re[i] && im1[i] == im[i] by {
                assert(is_plane_multiple(value, alternates1[i], alternates[i], 1real));
                assert(alternates1[i].same_size(&reference1)) by {
                    assert(is_alternate_spectrum(
                        frames[i + 1].bayer,
                        alignments[i],
                        window,
                        r0,
                        c0,
                        forward,
                        alternates1[i],
                    ));
                }
                assert(is_times(value, alternates1[i].at(r, c), alternates[i].at(r, c), 1real));
            }
            assert(re1 =~= re && im1 =~= im);
            frequencies_are_weighed_by_their_power(
                value,
                reference1,
                sum1,
                n,
                noise1,
                merged1,
                r,
                c,
            );
            let p = power_of(value, reference.at(r, c));
            assert(power_of(value, reference1.at(r, c)) == p);
            let d = p + (n as real) * value(noise1) + (n as real) * p;
            assert(reference.has(r, c));
            lemma_cancel(value(merged1.at(r, c).re), value(merged.at(r, c).re), d);
            lemma_cancel(value(merged1.at(r, c).im), value(merged.at(r, c).im), d);
        }
    }
    lemma_same_idft(value, inverse, merged1, merged, tile, out);
}

proof fn lemma_same_windowed<T: Sample>(
    value: spec_fn(T) -> real,
    image: Plane<T>,
    window: Plane<T>,
    r0: int,
    c0: int,
    a: Plane<T>,
    b: Plane<T>,
)
    requires
        holds_windowed(value, image, window, r0, c0, a),
        holds_windowed(value, image, window, r0, c0, b),
    ensures
        same_values(value, a, b),
{
}

/// The noise of a tile without pixels is that at a tenth of full light.
pub proof fn empty_tiles_have_the_noise_of_a_tenth<T: Sample>(
    value: spec_fn(T) -> real,
    model: NoiseModel<T>,
    tile: Plane<T>,
    noise: T,
)
    requires
        is_exact(value),
        is_tile_noise(model, tile, noise),
        forall|found: Option<T>| #[trigger]
            call_ensures(T::mean, (&tile.contents(),), found) ==> found is None,
    ensures
        10real * value(noise) == value(model.lambda_s) + 10real * value(model.lambda_r),
{
    let m = choose|m: T| #[trigger] is_tile_mean(tile, m) && model.is_variance(m, noise);
    let found = choose|found: Option<T>| #[trigger]
        call_ensures(T::mean, (&tile.contents(),), found) && match found {
            Some(x) => m == x,
            None => is_ratio(1, 10, m),
        };
    assert(value(m) * 10real == 1real);
    variance_is_shot_noise_plus_read_noise(value, model, m, noise);
    let s = value(model.lambda_s);
    lemma_commute(s, value(m));
    lemma_regroup(10real, value(m), s);
    assert(10real * value(m) == 1real);
    assert(1real * s == s);
}

/// A burst is merged tile by tile: whoever makes the window of the tile size and the
/// origins of all tiles, merges the tiles of all frames at each of these, and puts
/// them together, gets the same values.
pub proof fn bursts_are_merged_tile_by_tile<
    T: Sample,
    F: Fn(Vec<Complex<T>>) -> Vec<Complex<T>>,
    G: Fn(Vec<Complex<T>>) -> Vec<Complex<T>>,
>(
    value: spec_fn(T) -> real,
    frames: Seq<BurstFrame<T>>,
    alignments: Seq<AlignmentResult>,
    forward: F,
    inverse: G,
    merged: Plane<T>,
    window: Plane<T>,
    origins: Seq<(usize, usize)>,
    tiles: Seq<Plane<T>>,
    out: Plane<T>,
)
    requires
        is_exact(value),
        has_steady_cosine(value),
        has_steady_mean(value),
        goes_by_values(value, forward),
        goes_by_values(value, inverse),
        are_mergeable(frames, alignments),
        merged.same_size(&frames[0].bayer),
        is_merged_burst(frames, alignments, forward, inverse, merged),
        is_window(alignments[0].tile_size, window),
        are_tile_origins(
            frames[0].bayer.height() as int,
            frames[0].bayer.width() as int,
            alignments[0].tile_size as int,
            origins,
        ),
        tiles.len() == origins.len(),
        forall|k: int|
            0 <= k < tiles.len() ==> is_merged_tile(
                frames,
                alignments,
                window,
                origins[k].0 as int,
                origins[k].1 as int,
                forward,
                inverse,
                #[trigger] tiles[k],
            ),
        out.same_size(&frames[0].bayer),
        is_overlap_add(origins, tiles, window, out),
    ensures
        same_values(value, merged, out),
{
    assert(are_merged_tiles(frames, alignments, window, origins, forward, inverse, tiles));
    let order = Seq::new(alignments.len(), |i: int| i);
    assert(is_merged_burst(frames, alignments, forward, inverse, out));
    order_of_alternates_does_not_matter(
        value,
        frames,
        alignments,
        frames,
        alignments,
        order,
        forward,
        inverse,
        merged,
        out,
    );
}

} // verus!
