//! Laws of merging.
use crate::align::tile_start;
use crate::align::AlignmentResult;
use crate::burst::BurstFrame;
use crate::burst::NoiseModel;
use crate::exact::is_exact;
use crate::exact::lemma_cancel;
use crate::exact::lemma_commute;
use crate::exact::lemma_distribute;
use crate::exact::lemma_positive;
use crate::exact::lemma_regroup;
use crate::exact::lemma_scale_order;
use crate::exact::same_values;
use crate::laws::transform::goes_by_values;
use crate::laws::transform::inverts_lines;
use crate::laws::transform::is_plane_multiple;
use crate::laws::transform::is_times;
use crate::laws::transform::lemma_round_trip;
use crate::laws::transform::lemma_same_dft;
use crate::merge::are_alternate_spectra;
use crate::merge::are_mergeable;
use crate::merge::are_merged_tiles;
use crate::merge::are_tile_origins;
use crate::merge::covers;
use crate::merge::is_addition;
use crate::merge::is_alternate_spectrum;
use crate::merge::is_complex_sum;
use crate::merge::is_dft;
use crate::merge::is_hann;
use crate::merge::is_hann_angle;
use crate::merge::is_hann_window;
use crate::merge::is_idft;
use crate::merge::is_merged_bin;
use crate::merge::is_merged_burst;
use crate::merge::is_merged_spectrum;
use crate::merge::is_merged_tile;
use crate::merge::is_normalized_total;
use crate::merge::is_overlap_add;
use crate::merge::is_overlap_pixel;
use crate::merge::is_plane_sum;
use crate::merge::is_power;
use crate::merge::is_spectrum_sum;
use crate::merge::is_tile_mean;
use crate::merge::is_tile_noise;
use crate::merge::is_total_upto;
use crate::merge::is_weighted_mean;
use crate::merge::is_wiener_weight;
use crate::merge::is_window;
use crate::merge::is_windowed_tile;
use crate::merge::last_origin;
use crate::merge::lemma_origins_have_offsets;
use crate::merge::lemma_tile_on_line;
use crate::merge::lemma_tiles_along;
use crate::merge::nearest_tile;
use crate::merge::tile_step;
use crate::merge::tiles_along;
use crate::merge::tiles_stay_within_the_image;
use crate::merge::windows;
use crate::merge::Complex;
use crate::plane::flat_index;
use crate::plane::lemma_flat_index_bound;
use crate::plane::Plane;
use crate::sample::is_count;
use crate::sample::is_difference;
use crate::sample::is_product;
use crate::sample::is_quotient;
use crate::sample::is_ratio;
use crate::sample::is_sum;
use crate::sample::Sample;
use vstd::prelude::*;

verus! {

/// Tiles of images with the same values, times windows with the same values, have
/// the same values.
pub proof fn lemma_same_tile<T: Sample>(
    value: spec_fn(T) -> real,
    a: Plane<T>,
    b: Plane<T>,
    u: Plane<T>,
    v: Plane<T>,
    r0: int,
    c0: int,
    a_tile: Plane<T>,
    b_tile: Plane<T>,
)
    requires
        is_exact(value),
        same_values(value, a, b),
        same_values(value, u, v),
        0 <= r0,
        0 <= c0,
        r0 + u.height() <= a.height(),
        c0 + u.width() <= a.width(),
        is_windowed_tile(a, u, r0, c0, a_tile),
        is_windowed_tile(b, v, r0, c0, b_tile),
    ensures
        same_values(value, a_tile, b_tile),
{
    assert forall|i: int, j: int|
        #![trigger a_tile.at(i, j)]
        #![trigger b_tile.at(i, j)]
        a_tile.has(i, j) implies value(a_tile.at(i, j)) == value(b_tile.at(i, j)) by {
        assert(is_product(a.at(r0 + i, c0 + j), u.at(i, j), a_tile.at(i, j)));
        assert(is_product(b.at(r0 + i, c0 + j), v.at(i, j), b_tile.at(i, j)));
        assert(a.has(r0 + i, c0 + j));
    }
}

/// The value of a squared magnitude.
pub proof fn lemma_power<T: Sample>(value: spec_fn(T) -> real, z: Complex<T>, p: T)
    requires
        is_exact(value),
        is_power(z, p),
    ensures
        value(p) == value(z.re) * value(z.re) + value(z.im) * value(z.im),
{
}

/// A square is not negative, and only that of zero is zero.
pub proof fn lemma_square(x: real)
    ensures
        0real <= x * x,
        x != 0real ==> 0real < x * x,
{
    if x > 0real {
        lemma_positive(x, x);
    } else if x < 0real {
        let y = 0real - x;
        lemma_positive(y, y);
        lemma_distribute(y, 0real, x);
        lemma_distribute(x, 0real, x);
        assert(y * 0real == 0real && 0real * x == 0real);
        lemma_commute(y, x);
    } else {
        assert(0real * 0real == 0real);
    }
}

/// Without noise the weight of a frequency that is there is one.
proof fn lemma_noiseless_weight<T: Sample>(
    value: spec_fn(T) -> real,
    z: Complex<T>,
    n: usize,
    noise: T,
    w: T,
)
    requires
        is_exact(value),
        is_wiener_weight(z, n, noise, w),
        value(noise) == 0real,
        value(z.re) != 0real || value(z.im) != 0real,
    ensures
        value(w) == 1real,
{
    let (power, count, floor, total) = choose|power: T, count: T, floor: T, total: T|
        {
            &&& is_power(z, power)
            &&& is_count(n, count)
            &&& #[trigger] is_product(count, noise, floor)
            &&& #[trigger] is_sum(power, floor, total)
            &&& is_quotient(power, total, w)
        };
    lemma_power(value, z, power);
    lemma_square(value(z.re));
    lemma_square(value(z.im));
    assert(value(count) * 0real == 0real);
    assert(value(total) == value(power));
    assert(value(w) * value(power) == 1real * value(power));
    lemma_cancel(value(w), 1real, value(power));
}

/// Without noise a frequency that all frames have in common comes out as it is.
proof fn lemma_noiseless_bin<T: Sample>(
    value: spec_fn(T) -> real,
    z: Complex<T>,
    sum: Complex<T>,
    n: usize,
    noise: T,
    out: Complex<T>,
)
    requires
        is_exact(value),
        is_merged_bin(z, sum, n, noise, out),
        is_times(value, z, sum, n as real + 1real),
        value(noise) == 0real,
        value(z.re) != 0real || value(z.im) != 0real,
    ensures
        is_times(value, z, out, 1real),
{
    let w = choose|w: T| #[trigger]
        is_wiener_weight(z, n, noise, w) && is_weighted_mean(sum, n, w, out);
    lemma_noiseless_weight(value, z, n, noise, w);
    let (re, im, count, extra, one, total) = choose|
        re: T,
        im: T,
        count: T,
        extra: T,
        one: T,
        total: T,
    |
        {
            &&& #[trigger] is_product(sum.re, w, re)
            &&& #[trigger] is_product(sum.im, w, im)
            &&& is_count(n, count)
            &&& #[trigger] is_product(count, w, extra)
            &&& is_ratio(1, 1, one)
            &&& #[trigger] is_sum(one, extra, total)
            &&& is_quotient(re, total, out.re)
            &&& is_quotient(im, total, out.im)
        };
    assert(value(one) * 1real == 1real);
    assert(value(sum.re) * 1real == value(sum.re));
    assert(value(sum.im) * 1real == value(sum.im));
    assert(value(count) * 1real == n as real);
    let t = n as real + 1real;
    assert(value(total) == t);
    lemma_commute(t, value(z.re));
    lemma_commute(t, value(z.im));
    lemma_cancel(value(out.re), value(z.re), t);
    lemma_cancel(value(out.im), value(z.im), t);
}

/// Spectra of the same values add up to a multiple.
proof fn lemma_equal_sum<T: Sample>(
    value: spec_fn(T) -> real,
    reference: Plane<Complex<T>>,
    alternates: Seq<Plane<Complex<T>>>,
    sum: Plane<Complex<T>>,
)
    requires
        is_exact(value),
        is_spectrum_sum(reference, alternates, sum),
        forall|i: int|
            0 <= i < alternates.len() ==> is_plane_multiple(
                value,
                reference,
                #[trigger] alternates[i],
                1real,
            ),
    ensures
        is_plane_multiple(value, reference, sum, alternates.len() as real + 1real),
    decreases alternates.len(),
{
    let k = alternates.len() as real + 1real;
    if alternates.len() == 0 {
        assert forall|r: int, c: int|
            #![trigger reference.at(r, c)]
            #![trigger sum.at(r, c)]
            reference.has(r, c) implies is_times(value, reference.at(r, c), sum.at(r, c), k) by {
            assert(sum.at(r, c) == reference.at(r, c));
        }
    } else {
        let rest = alternates.drop_last();
        let before = choose|before: Plane<Complex<T>>|
            is_spectrum_sum(reference, rest, before) && #[trigger] is_plane_sum(
                before,
                alternates.last(),
                sum,
            );
        assert forall|i: int| 0 <= i < rest.len() implies is_plane_multiple(
            value,
            reference,
            #[trigger] rest[i],
            1real,
        ) by {
            assert(rest[i] == alternates[i]);
        }
        lemma_equal_sum(value, reference, rest, before);
        let last = alternates.last();
        assert(last == alternates[alternates.len() - 1]);
        let j = rest.len() as real + 1real;
        assert(k == j + 1real);
        assert forall|r: int, c: int|
            #![trigger reference.at(r, c)]
            #![trigger sum.at(r, c)]
            reference.has(r, c) implies is_times(value, reference.at(r, c), sum.at(r, c), k) by {
            let z = reference.at(r, c);
            assert(is_times(value, z, before.at(r, c), j));
            assert(is_times(value, z, last.at(r, c), 1real));
            assert(is_complex_sum(before.at(r, c), last.at(r, c), sum.at(r, c)));
            lemma_distribute(value(z.re), j, 1real);
            lemma_distribute(value(z.im), j, 1real);
        }
    }
}

/// Without noise coefficients there is no noise.
proof fn lemma_no_noise<T: Sample>(
    value: spec_fn(T) -> real,
    model: NoiseModel<T>,
    tile: Plane<T>,
    noise: T,
)
    requires
        is_exact(value),
        value(model.lambda_s) == 0real,
        value(model.lambda_r) == 0real,
        is_tile_noise(model, tile, noise),
    ensures
        value(noise) == 0real,
{
    let mean = choose|mean: T| #[trigger]
        is_tile_mean(tile, mean) && model.is_variance(mean, noise);
    let shot = choose|shot: T|
        is_product(model.lambda_s, mean, shot) && #[trigger] is_sum(shot, model.lambda_r, noise);
    assert(0real * value(mean) == 0real);
}

/// All frames have the values of the reference, and alignment moves none of them.
pub open spec fn is_still_burst<T>(
    value: spec_fn(T) -> real,
    frames: Seq<BurstFrame<T>>,
    alignments: Seq<AlignmentResult>,
) -> bool {
    &&& forall|i: int|
        0 <= i < frames.len() ==> same_values(
            value,
            frames[0].bayer,
            (#[trigger] frames[i]).bayer,
        )
    &&& forall|i: int, k: int|
        0 <= i < alignments.len() && 0 <= k < alignments[i].offsets@.len()
            ==> #[trigger] alignments[i].offsets@[k] == (0i32, 0i32)
}

/// `b` shows what `a` shows, moved by `d`: wherever a place and the one it is moved
/// to both lie within the images, they have the same value.
pub open spec fn is_moved<T>(
    value: spec_fn(T) -> real,
    a: Plane<T>,
    b: Plane<T>,
    d: (int, int),
) -> bool {
    forall|r: int, c: int|
        a.has(r, c) && b.has(r + d.0, c + d.1) ==> value(#[trigger] a.at(r, c)) == value(
            b.at(r + d.0, c + d.1),
        )
}

/// Each alternate shows the reference moved by its shift, and its alignment holds
/// that shift for every tile.
pub open spec fn is_moved_burst<T>(
    value: spec_fn(T) -> real,
    frames: Seq<BurstFrame<T>>,
    alignments: Seq<AlignmentResult>,
    shifts: Seq<(int, int)>,
) -> bool {
    &&& frames.len() == shifts.len() + 1
    &&& alignments.len() == shifts.len()
    &&& forall|i: int|
        0 <= i < shifts.len() ==> frames[0].bayer.same_size(&frames[i + 1].bayer) && is_moved(
            value,
            frames[0].bayer,
            frames[i + 1].bayer,
            #[trigger] shifts[i],
        )
    &&& forall|i: int, k: int|
        0 <= i < alignments.len() && 0 <= k < alignments[i].offsets@.len() ==> {
            &&& (#[trigger] alignments[i].offsets@[k]).0 == shifts[i].0
            &&& alignments[i].offsets@[k].1 == shifts[i].1
        }
}

/// All stretches of 16 pixels out of `size` that hold `x` stay within them when
/// they are moved by `d`.
pub open spec fn stretches_stay_within(size: int, x: int, d: int) -> bool {
    let first = if x < 15 {
        0
    } else {
        x - 15
    };
    let last = if x > size - 16 {
        size - 16
    } else {
        x
    };
    0 <= first + d && last + d <= size - 16
}

/// No frequency of any windowed tile of the image is missing.
pub open spec fn has_all_frequencies<T: Sample, F: Fn(Vec<Complex<T>>) -> Vec<Complex<T>>>(
    value: spec_fn(T) -> real,
    image: Plane<T>,
    size: usize,
    forward: F,
) -> bool {
    forall|
        window: Plane<T>,
        r0: int,
        c0: int,
        tile: Plane<T>,
        z: Plane<Complex<T>>,
        r: int,
        c: int,
    |
        #![trigger is_windowed_tile(image, window, r0, c0, tile), is_dft(forward, tile, z), z.at(r, c)]
        {
            &&& is_window(size, window)
            &&& 0 <= r0 && r0 + size <= image.height()
            &&& 0 <= c0 && c0 + size <= image.width()
            &&& is_windowed_tile(image, window, r0, c0, tile)
            &&& is_dft(forward, tile, z)
            &&& z.has(r, c)
        } ==> value(z.at(r, c).re) != 0real || value(z.at(r, c).im) != 0real
}

/// Where one image shows another moved, a tile and the one it is moved to have the
/// same values.
proof fn lemma_moved_values<T: Sample>(
    value: spec_fn(T) -> real,
    a: Plane<T>,
    b: Plane<T>,
    d: (int, int),
    window: Plane<T>,
    r0: int,
    c0: int,
    a_tile: Plane<T>,
    b_tile: Plane<T>,
)
    requires
        is_exact(value),
        is_moved(value, a, b, d),
        0 <= r0 && r0 + window.height() <= a.height(),
        0 <= c0 && c0 + window.width() <= a.width(),
        0 <= r0 + d.0 && r0 + d.0 + window.height() <= b.height(),
        0 <= c0 + d.1 && c0 + d.1 + window.width() <= b.width(),
        is_windowed_tile(a, window, r0, c0, a_tile),
        is_windowed_tile(b, window, r0 + d.0, c0 + d.1, b_tile),
    ensures
        same_values(value, a_tile, b_tile),
{
    assert forall|i: int, j: int|
        #![trigger a_tile.at(i, j)]
        #![trigger b_tile.at(i, j)]
        a_tile.has(i, j) implies value(a_tile.at(i, j)) == value(b_tile.at(i, j)) by {
        assert(is_product(a.at(r0 + i, c0 + j), window.at(i, j), a_tile.at(i, j)));
        assert(is_product(
            b.at(r0 + d.0 + i, c0 + d.1 + j),
            window.at(i, j),
            b_tile.at(i, j),
        ));
        assert(a.has(r0 + i, c0 + j));
        assert(r0 + i + d.0 == r0 + d.0 + i && c0 + j + d.1 == c0 + d.1 + j);
        assert(b.has(r0 + i + d.0, c0 + j + d.1));
    }
}

/// A merged tile of a moved burst without noise has the values of the reference
/// tile, times the window, where the alternates' tiles lie within their images.
proof fn lemma_moved_tile<
    T: Sample,
    F: Fn(Vec<Complex<T>>) -> Vec<Complex<T>>,
    G: Fn(Vec<Complex<T>>) -> Vec<Complex<T>>,
>(
    value: spec_fn(T) -> real,
    frames: Seq<BurstFrame<T>>,
    alignments: Seq<AlignmentResult>,
    shifts: Seq<(int, int)>,
    window: Plane<T>,
    r0: int,
    c0: int,
    forward: F,
    inverse: G,
    tile: Plane<T>,
    size: usize,
)
    requires
        is_exact(value),
        goes_by_values(value, forward),
        inverts_lines(value, forward, inverse, size as nat),
        frames.len() == alignments.len() + 1,
        is_moved_burst(value, frames, alignments, shifts),
        has_all_frequencies(value, frames[0].bayer, size, forward),
        value(frames[0].noise_model.lambda_s) == 0real,
        value(frames[0].noise_model.lambda_r) == 0real,
        0 < size,
        is_window(size, window),
        0 <= r0,
        0 <= c0,
        r0 + size <= frames[0].bayer.height(),
        c0 + size <= frames[0].bayer.width(),
        alignments.len() <= usize::MAX,
        forall|i: int|
            0 <= i < shifts.len() ==> {
                &&& 0 <= r0 + (#[trigger] shifts[i]).0
                &&& r0 + shifts[i].0 + size <= frames[0].bayer.height()
                &&& 0 <= c0 + shifts[i].1
                &&& c0 + shifts[i].1 + size <= frames[0].bayer.width()
            },
        forall|i: int|
            0 <= i < alignments.len() ==> 0 <= nearest_tile(
                #[trigger] alignments[i],
                r0,
                c0,
                size as int,
            ) < alignments[i].offsets@.len(),
        is_merged_tile(frames, alignments, window, r0, c0, forward, inverse, tile),
    ensures
        tile.height() == size,
        tile.width() == size,
        forall|i: int, j: int|
            tile.has(i, j) ==> value(#[trigger] tile.at(i, j)) == value(
                frames[0].bayer.at(r0 + i, c0 + j),
            ) * value(window.at(i, j)),
{
    let image = frames[0].bayer;
    let n = alignments.len() as usize;
    let (ref_tile, reference, noise, alternates, sum, merged) = choose|
        ref_tile: Plane<T>,
        reference: Plane<Complex<T>>,
        noise: T,
        alternates: Seq<Plane<Complex<T>>>,
        sum: Plane<Complex<T>>,
        merged: Plane<Complex<T>>,
    |
        {
            &&& #[trigger] is_windowed_tile(frames[0].bayer, window, r0, c0, ref_tile)
            &&& #[trigger] is_dft(forward, ref_tile, reference)
            &&& #[trigger] is_tile_noise(frames[0].noise_model, ref_tile, noise)
            &&& #[trigger] are_alternate_spectra(
                frames,
                alignments,
                window,
                r0,
                c0,
                forward,
                alternates,
            )
            &&& is_spectrum_sum(reference, alternates, sum)
            &&& #[trigger] is_merged_spectrum(
                reference,
                sum,
                alignments.len() as usize,
                noise,
                merged,
            )
            &&& is_idft(inverse, merged, tile)
        };
    lemma_no_noise(value, frames[0].noise_model, ref_tile, noise);
    assert forall|i: int| 0 <= i < alternates.len() implies is_plane_multiple(
        value,
        reference,
        #[trigger] alternates[i],
        1real,
    ) by {
        let a = alignments[i];
        let other = frames[i + 1].bayer;
        let d = shifts[i];
        assert(is_moved(value, image, other, d));
        assert(is_alternate_spectrum(other, a, window, r0, c0, forward, alternates[i]));
        let at = nearest_tile(a, r0, c0, size as int);
        assert(alignments[i].offsets@[at].0 == d.0 && alignments[i].offsets@[at].1 == d.1);
        assert(tile_start(r0, d.0, other.height() as int, size as int) == r0 + d.0);
        assert(tile_start(c0, d.1, other.width() as int, size as int) == c0 + d.1);
        let t = choose|t: Plane<T>| #[trigger]
            is_windowed_tile(other, window, r0 + d.0, c0 + d.1, t) && is_dft(
                forward,
                t,
                alternates[i],
            );
        lemma_moved_values(value, image, other, d, window, r0, c0, ref_tile, t);
        lemma_same_dft(value, forward, ref_tile, t, reference, alternates[i]);
    }
    lemma_equal_sum(value, reference, alternates, sum);
    assert(is_plane_multiple(value, reference, merged, 1real)) by {
        assert forall|r: int, c: int|
            #![trigger reference.at(r, c)]
            #![trigger merged.at(r, c)]
            reference.has(r, c) implies is_times(
            value,
            reference.at(r, c),
            merged.at(r, c),
            1real,
        ) by {
            assert(is_times(value, reference.at(r, c), sum.at(r, c), n as real + 1real));
            assert(is_merged_bin(reference.at(r, c), sum.at(r, c), n, noise, merged.at(r, c)));
            lemma_noiseless_bin(
                value,
                reference.at(r, c),
                sum.at(r, c),
                n,
                noise,
                merged.at(r, c),
            );
        }
    }
    lemma_round_trip(value, forward, inverse, ref_tile, reference, merged, tile);
    assert forall|i: int, j: int| tile.has(i, j) implies value(#[trigger] tile.at(i, j)) == value(
        image.at(r0 + i, c0 + j),
    ) * value(window.at(i, j)) by {
        assert(is_product(image.at(r0 + i, c0 + j), window.at(i, j), ref_tile.at(i, j)));
    }
}

/// Where every tile puts the value of the image times the window, the total is the
/// value times the total of the window.
proof fn lemma_still_total<T: Sample>(
    value: spec_fn(T) -> real,
    origins: Seq<(usize, usize)>,
    tiles: Seq<Plane<T>>,
    window: Plane<T>,
    n: int,
    r: int,
    c: int,
    k: int,
    x: real,
    total: T,
    weight: T,
)
    requires
        is_exact(value),
        0 <= k <= n,
        window.height() == window.width(),
        forall|i: int|
            #![trigger tiles[i]]
            0 <= i < k && covers(origins[i], window.height() as int, r, c) ==> value(
                tiles[i].at(r - origins[i].0, c - origins[i].1),
            ) == x * value(window.at(r - origins[i].0, c - origins[i].1)),
        is_total_upto(origins, tiles, window, r, c, k, total),
        is_total_upto(origins, windows(window, n), window, r, c, k, weight),
    ensures
        value(total) == x * value(weight),
        0real <= value(weight),
        forall|i: int|
            0 <= i < k && #[trigger] covers(origins[i], window.height() as int, r, c) ==> value(
                window.at(r - origins[i].0, c - origins[i].1),
            ) * value(window.at(r - origins[i].0, c - origins[i].1)) <= value(weight),
    decreases k,
{
    let masks = windows(window, n);
    if k == 0 {
        assert(value(total) * 1real == 0real);
        assert(value(weight) * 1real == 0real);
        assert(x * 0real == 0real);
    } else {
        let origin = origins[k - 1];
        if covers(origin, window.height() as int, r, c) {
            let (i, j) = (r - origin.0, c - origin.1);
            let tile = tiles[k - 1];
            let before = choose|before: T|
                is_total_upto(origins, tiles, window, r, c, k - 1, before)
                    && #[trigger] is_addition(before, tile.at(i, j), window.at(i, j), total);
            let w_before = choose|before: T|
                is_total_upto(origins, masks, window, r, c, k - 1, before)
                    && #[trigger] is_addition(
                    before,
                    masks[k - 1].at(i, j),
                    window.at(i, j),
                    weight,
                );
            assert(masks[k - 1] == window);
            lemma_still_total(
                value,
                origins,
                tiles,
                window,
                n,
                r,
                c,
                k - 1,
                x,
                before,
                w_before,
            );
            let g = value(window.at(i, j));
            lemma_addition(value, before, tile.at(i, j), window.at(i, j), total);
            lemma_addition(value, w_before, window.at(i, j), window.at(i, j), weight);
            assert(value(tile.at(i, j)) == x * g);
            lemma_regroup(x, g, g);
            lemma_distribute(x, value(w_before), g * g);
            lemma_square(g);
        } else {
            lemma_still_total(
                value,
                origins,
                tiles,
                window,
                n,
                r,
                c,
                k - 1,
                x,
                total,
                weight,
            );
        }
    }
}

pub proof fn lemma_addition<T: Sample>(
    value: spec_fn(T) -> real,
    before: T,
    x: T,
    weight: T,
    s: T,
)
    requires
        is_exact(value),
        is_addition(before, x, weight, s),
    ensures
        value(s) == value(before) + value(x) * value(weight),
{
}

/// Angles away from both ends of a window of 16 places have cosines well below one.
pub open spec fn has_open_window<T: Sample>(value: spec_fn(T) -> real) -> bool {
    forall|i: usize, angle: T, cos: T|
        1 <= i <= 14 && #[trigger] is_hann_angle(i, 16, angle) && #[trigger] call_ensures(
            T::cosine,
            (angle,),
            cos,
        ) ==> value(cos) < 98real / 100real
}

/// Inside, the window is not next to nothing.
proof fn lemma_open_window<T: Sample>(
    value: spec_fn(T) -> real,
    window: Plane<T>,
    i: int,
    j: int,
)
    requires
        is_exact(value),
        has_open_window(value),
        is_window(16, window),
        1 <= i <= 14,
        1 <= j <= 14,
    ensures
        value(window.at(i, j)) * value(window.at(i, j)) > 1real / 100_000_000real,
{
    let hann = choose|hann: Seq<T>| #[trigger]
        is_hann_window(16, hann) && forall|r: int, c: int|
            window.has(r, c) ==> is_product(hann[r], hann[c], #[trigger] window.at(r, c));
    lemma_open_hann(value, i as usize, hann[i]);
    lemma_open_hann(value, j as usize, hann[j]);
    let (a, b) = (value(hann[i]), value(hann[j]));
    let least = 1real / 100real;
    assert(window.has(i, j));
    assert(value(window.at(i, j)) == a * b);
    lemma_scale_order(least, a, b);
    lemma_scale_order(least, b, least);
    assert(least * least == 1real / 10_000real);
    let p = a * b;
    assert(p > 1real / 10_000real) by {
        lemma_positive(a - least, b);
        lemma_distribute(b, a, least);
    }
    let tiny = 1real / 10_000real;
    lemma_scale_order(tiny, p, tiny);
    lemma_positive(p - tiny, p);
    lemma_distribute(p, p, tiny);
    lemma_commute(p, tiny);
    assert(tiny * tiny == 1real / 100_000_000real);
}

proof fn lemma_open_hann<T: Sample>(value: spec_fn(T) -> real, i: usize, v: T)
    requires
        is_exact(value),
        has_open_window(value),
        1 <= i <= 14,
        is_hann(i, 16, v),
    ensures
        value(v) > 1real / 100real,
{
    let (angle, cos, one, rest, half) = choose|angle: T, cos: T, one: T, rest: T, half: T|
        {
            &&& is_hann_angle(i, 16, angle)
            &&& #[trigger] call_ensures(T::cosine, (angle,), cos)
            &&& is_ratio(1, 1, one)
            &&& #[trigger] is_difference(one, cos, rest)
            &&& is_ratio(1, 2, half)
            &&& #[trigger] is_product(half, rest, v)
        };
    assert(value(one) * 1real == 1real);
    assert(value(half) * 2real == 1real);
    assert(value(half) * value(rest) == (1real / 2real) * value(rest));
}

/// A place lies well inside one of the stretches of 16 that start at every eighth one.
proof fn lemma_inside_stretch(last: int, x: int) -> (i: int)
    requires
        0 <= last,
        1 <= x <= 8 * last + 14,
    ensures
        0 <= i <= last,
        1 <= x - 8 * i <= 14,
{
    let i = (x - 1) / 8;
    assert(8 * i <= x - 1 < 8 * i + 8);
    if i <= last {
        i
    } else {
        last
    }
}

proof fn lemma_eightfold(i: int, step: int)
    by (nonlinear_arith)
    requires
        step == 8,
    ensures
        i * step == 8 * i,
{
}

/// Away from the first and the last pixel, a place lies inside one of the tiles
/// along a line.
#[verifier::spinoff_prover]
proof fn lemma_inside_tile(size: int, x: int) -> (i: int)
    requires
        16 <= size,
        1 <= x <= last_origin(size, 16) + 14,
    ensures
        0 <= i < tiles_along(size, 16),
        1 <= x - i * tile_step(16) <= 14,
{
    lemma_tiles_along(size, 16);
    let last = tiles_along(size, 16) - 1;
    let step = tile_step(16);
    assert(step == 8);
    lemma_eightfold(last, step);
    assert(last_origin(size, 16) == last * step);
    let i = lemma_inside_stretch(last, x);
    lemma_eightfold(i, step);
    i
}

/// Frames without noise that show the reference moved, each by its own shift, merge
/// to the reference, whatever their number, where the alignments hold the shifts: the
/// tile of an alternate is taken from where its shift puts it. This holds away from
/// the edges, from the rows and columns that no tile reaches, and from places where a
/// moved tile would leave its image.
pub proof fn moved_bursts_merge_to_the_reference<
    T: Sample,
    F: Fn(Vec<Complex<T>>) -> Vec<Complex<T>>,
    G: Fn(Vec<Complex<T>>) -> Vec<Complex<T>>,
>(
    value: spec_fn(T) -> real,
    frames: Seq<BurstFrame<T>>,
    alignments: Seq<AlignmentResult>,
    shifts: Seq<(int, int)>,
    forward: F,
    inverse: G,
    out: Plane<T>,
    r: int,
    c: int,
)
    requires
        is_exact(value),
        has_open_window(value),
        goes_by_values(value, forward),
        inverts_lines(value, forward, inverse, 16),
        are_mergeable(frames, alignments),
        frames.len() <= usize::MAX,
        alignments[0].tile_size == 16,
        is_moved_burst(value, frames, alignments, shifts),
        has_all_frequencies(value, frames[0].bayer, 16, forward),
        value(frames[0].noise_model.lambda_s) == 0real,
        value(frames[0].noise_model.lambda_r) == 0real,
        out.same_size(&frames[0].bayer),
        is_merged_burst(frames, alignments, forward, inverse, out),
        1 <= r <= 8 * ((frames[0].bayer.height() - 16) / 8) + 14,
        1 <= c <= 8 * ((frames[0].bayer.width() - 16) / 8) + 14,
        forall|i: int|
            0 <= i < shifts.len() ==> stretches_stay_within(
                frames[0].bayer.height() as int,
                r,
                (#[trigger] shifts[i]).0,
            ) && stretches_stay_within(frames[0].bayer.width() as int, c, shifts[i].1),
    ensures
        out.has(r, c),
        value(out.at(r, c)) == value(frames[0].bayer.at(r, c)),
{
    let image = frames[0].bayer;
    let h = image.height() as int;
    let w = image.width() as int;
    let (window, origins, tiles) = choose|
        window: Plane<T>,
        origins: Seq<(usize, usize)>,
        tiles: Seq<Plane<T>>,
    |
        {
            &&& is_window(16, window)
            &&& are_tile_origins(h, w, 16, origins)
            &&& #[trigger] are_merged_tiles(
                frames,
                alignments,
                window,
                origins,
                forward,
                inverse,
                tiles,
            )
            &&& is_overlap_add(origins, tiles, window, out)
        };
    let n = origins.len() as int;
    assert(last_origin(h, 16) == ((h - 16) / 8) * 8);
    assert(last_origin(w, 16) == ((w - 16) / 8) * 8);
    lemma_tiles_along(h, 16);
    lemma_tiles_along(w, 16);
    lemma_tile_on_line(h, 16, tiles_along(h, 16) - 1);
    lemma_tile_on_line(w, 16, tiles_along(w, 16) - 1);
    let x = value(image.at(r, c));
    assert forall|i: int|
        #![trigger tiles[i]]
        0 <= i < n && covers(origins[i], window.height() as int, r, c) implies value(
        tiles[i].at(r - origins[i].0, c - origins[i].1),
    ) == x * value(window.at(r - origins[i].0, c - origins[i].1)) by {
        let (r0, c0) = (origins[i].0 as int, origins[i].1 as int);
        tiles_stay_within_the_image(h, w, 16, origins, i);
        assert(is_merged_tile(
            frames,
            alignments,
            window,
            r0,
            c0,
            forward,
            inverse,
            tiles[i],
        ));
        assert forall|k: int| 0 <= k < alignments.len() implies 0 <= nearest_tile(
            #[trigger] alignments[k],
            r0,
            c0,
            16,
        ) < alignments[k].offsets@.len() by {
            lemma_origins_have_offsets(frames, alignments, origins, i, k);
        }
        assert forall|k: int| 0 <= k < shifts.len() implies {
            &&& 0 <= r0 + (#[trigger] shifts[k]).0
            &&& r0 + shifts[k].0 + 16 <= h
            &&& 0 <= c0 + shifts[k].1
            &&& c0 + shifts[k].1 + 16 <= w
        } by {
            assert(stretches_stay_within(h, r, shifts[k].0));
            assert(stretches_stay_within(w, c, shifts[k].1));
        }
        lemma_moved_tile(
            value,
            frames,
            alignments,
            shifts,
            window,
            r0,
            c0,
            forward,
            inverse,
            tiles[i],
            16,
        );
        assert(tiles[i].has(r - r0, c - c0));
    }
    let v = out.at(r, c);
    assert(is_overlap_pixel(origins, tiles, window, r, c, v));
    let (total, weight) = choose|total: T, weight: T|
        {
            &&& is_total_upto(origins, tiles, window, r, c, n, total)
            &&& is_total_upto(origins, windows(window, n), window, r, c, n, weight)
            &&& #[trigger] is_normalized_total(total, weight, v)
        };
    lemma_still_total(value, origins, tiles, window, n, r, c, n, x, total, weight);
    let i = lemma_inside_tile(h, r);
    let j = lemma_inside_tile(w, c);
    let cols = tiles_along(w, 16);
    lemma_flat_index_bound(i, j, tiles_along(h, 16), cols);
    lemma_tile_on_line(h, 16, i);
    lemma_tile_on_line(w, 16, j);
    let k = flat_index(i, j, cols);
    assert(origins[k] == ((i * tile_step(16)) as usize, (j * tile_step(16)) as usize));
    assert(covers(origins[k], window.height() as int, r, c));
    lemma_open_window(value, window, r - origins[k].0, c - origins[k].1);
    let (least, enough) = choose|least: T, enough: bool|
        {
            &&& is_ratio(1, 100_000_000, least)
            &&& #[trigger] call_ensures(T::exceeds, (weight, least), enough)
            &&& if enough {
                is_quotient(total, weight, v)
            } else {
                v == total
            }
        };
    assert(value(least) * 100_000_000real == 1real);
    lemma_cancel(value(v), x, value(weight));
}

/// In a still burst every tile is moved by nothing.
proof fn lemma_still_tile<T>(
    value: spec_fn(T) -> real,
    frames: Seq<BurstFrame<T>>,
    alignments: Seq<AlignmentResult>,
    shifts: Seq<(int, int)>,
)
    requires
        is_still_burst(value, frames, alignments),
        frames.len() == alignments.len() + 1,
        shifts.len() == alignments.len(),
        forall|i: int| 0 <= i < shifts.len() ==> #[trigger] shifts[i] == (0int, 0int),
    ensures
        is_moved_burst(value, frames, alignments, shifts),
{
    assert forall|i: int| 0 <= i < shifts.len() implies frames[0].bayer.same_size(
        &frames[i + 1].bayer,
    ) && is_moved(value, frames[0].bayer, frames[i + 1].bayer, #[trigger] shifts[i]) by {
        assert(same_values(value, frames[0].bayer, frames[i + 1].bayer));
    }
    assert forall|i: int, k: int|
        0 <= i < alignments.len() && 0 <= k < alignments[i].offsets@.len() implies {
        &&& (#[trigger] alignments[i].offsets@[k]).0 == shifts[i].0
        &&& alignments[i].offsets@[k].1 == shifts[i].1
    } by {
        assert(alignments[i].offsets@[k] == (0i32, 0i32));
    }
}

/// Equal frames without noise merge to the reference, whatever their number: away
/// from the edges, and from the rows and columns that no tile reaches.
pub proof fn still_bursts_merge_to_the_reference<
    T: Sample,
    F: Fn(Vec<Complex<T>>) -> Vec<Complex<T>>,
    G: Fn(Vec<Complex<T>>) -> Vec<Complex<T>>,
>(
    value: spec_fn(T) -> real,
    frames: Seq<BurstFrame<T>>,
    alignments: Seq<AlignmentResult>,
    forward: F,
    inverse: G,
    out: Plane<T>,
    r: int,
    c: int,
)
    requires
        is_exact(value),
        has_open_window(value),
        goes_by_values(value, forward),
        inverts_lines(value, forward, inverse, 16),
        are_mergeable(frames, alignments),
        frames.len() <= usize::MAX,
        alignments[0].tile_size == 16,
        is_still_burst(value, frames, alignments),
        has_all_frequencies(value, frames[0].bayer, 16, forward),
        value(frames[0].noise_model.lambda_s) == 0real,
        value(frames[0].noise_model.lambda_r) == 0real,
        out.same_size(&frames[0].bayer),
        is_merged_burst(frames, alignments, forward, inverse, out),
        1 <= r <= last_origin(frames[0].bayer.height() as int, 16) + 14,
        1 <= c <= last_origin(frames[0].bayer.width() as int, 16) + 14,
    ensures
        out.has(r, c),
        value(out.at(r, c)) == value(frames[0].bayer.at(r, c)),
{
    let shifts = Seq::new(alignments.len(), |i: int| (0int, 0int));
    let h = frames[0].bayer.height() as int;
    let w = frames[0].bayer.width() as int;
    lemma_still_tile(value, frames, alignments, shifts);
    assert(last_origin(h, 16) == ((h - 16) / 8) * 8);
    assert(last_origin(w, 16) == ((w - 16) / 8) * 8);
    moved_bursts_merge_to_the_reference(
        value,
        frames,
        alignments,
        shifts,
        forward,
        inverse,
        out,
        r,
        c,
    );
}

} // verus!
