//! Laws of what a finished pixel is made of.
use crate::color_correction::are_gains;
use crate::color_correction::is_balanced;
use crate::color_correction::is_cam_to_srgb;
use crate::color_correction::is_displayed;
use crate::color_correction::is_finish;
use crate::color_correction::is_finished_channel;
use crate::color_correction::is_finished_image;
use crate::color_correction::is_finished_pixel;
use crate::color_correction::is_green_mean;
use crate::color_correction::is_matrix_product;
use crate::color_correction::is_mix;
use crate::color_correction::is_srgb_encoded;
use crate::color_correction::is_tone_mapped;
use crate::exact::is_exact;
use crate::exact::lemma_cancel;
use crate::exact::lemma_commute;
use crate::exact::lemma_distribute;
use crate::exact::lemma_regroup;
use crate::laws::color::has_exact_powers;
use crate::laws::color::lemma_gain;
use crate::laws::color::lemma_mix;
use crate::laws::color::lemma_same_display;
use crate::laws::color::lemma_same_encoding;
use crate::laws::color::lemma_same_matrix;
use crate::laws::color::lemma_tone;
use crate::laws::color::srgb_encoding_has_its_ends;
use crate::laws::color::tone_mapping_grows;
use crate::laws::color::tone_mapping_stays_below_one;
use crate::laws::matrix::camera_and_back_is_srgb;
use crate::plane::Plane;
use crate::sample::is_larger;
use crate::sample::is_product;
use crate::sample::is_quotient;
use crate::sample::is_ratio;
use crate::sample::is_sum;
use crate::sample::Sample;
use vstd::prelude::*;

verus! {

/// What went into one channel of a finished pixel.
proof fn lemma_finished<T: Sample>(
    rgb: Plane<[T; 3]>,
    wb_coeffs: [T; 4],
    xyz_to_cam: [[T; 3]; 3],
    out: Plane<[T; 3]>,
    r: int,
    c: int,
    ch: int,
) -> (parts: ([T; 3], [[T; 3]; 3], [T; 3], T))
    requires
        is_finish(rgb, wb_coeffs, xyz_to_cam, out),
        rgb.has(r, c),
        0 <= ch < 3,
    ensures
        ({
            let (gains, matrix, b, x) = parts;
            let row = matrix[ch];
            &&& are_gains(wb_coeffs, gains)
            &&& is_cam_to_srgb(xyz_to_cam, matrix)
            &&& is_product(rgb.at(r, c)[0], gains[0], b[0])
            &&& is_product(rgb.at(r, c)[1], gains[1], b[1])
            &&& is_product(rgb.at(r, c)[2], gains[2], b[2])
            &&& is_mix(row[0], b[0], row[1], b[1], row[2], b[2], x)
            &&& is_displayed(x, out.at(r, c)[ch])
        }),
{
    let (gains, matrix) = choose|gains: [T; 3], matrix: [[T; 3]; 3]| #[trigger]
        are_gains(wb_coeffs, gains) && #[trigger] is_cam_to_srgb(xyz_to_cam, matrix)
            && is_finished_image(rgb, gains, matrix, out);
    assert(is_finished_pixel(rgb.at(r, c), gains, matrix, out.at(r, c)));
    let b = choose|b: [T; 3]| #[trigger]
        is_balanced(rgb.at(r, c), gains, b) && forall|k: int|
            0 <= k < 3 ==> is_finished_channel(matrix[k], b, #[trigger] out.at(r, c)[k]);
    let v = out.at(r, c)[ch];
    assert(is_finished_channel(matrix[ch], b, v));
    let row = matrix[ch];
    let x = choose|x: T| #[trigger]
        is_mix(row[0], b[0], row[1], b[1], row[2], b[2], x) && is_displayed(x, v);
    assert(is_product(rgb.at(r, c)[0], gains[0], b[0]));
    assert(is_product(rgb.at(r, c)[1], gains[1], b[1]));
    assert(is_product(rgb.at(r, c)[2], gains[2], b[2]));
    (gains, matrix, b, x)
}

/// What has no light is displayed as darkness.
proof fn lemma_dark_display<T: Sample>(value: spec_fn(T) -> real, x: T, v: T)
    requires
        is_exact(value),
        has_exact_powers(value),
        is_displayed(x, v),
        value(x) <= 0real,
    ensures
        value(v) == 0real,
{
    let (floor, positive, mapped) = choose|floor: T, positive: T, mapped: T|
        {
            &&& is_ratio(0, 1, floor)
            &&& #[trigger] is_larger(x, floor, positive)
            &&& #[trigger] is_tone_mapped(positive, mapped)
            &&& is_srgb_encoded(mapped, v)
        };
    assert(value(floor) * 1real == 0real);
    tone_mapping_stays_below_one(value, positive, mapped);
    srgb_encoding_has_its_ends(value, mapped, v);
}

/// Black stays black, and stays where it is: where a pixel has no light in any
/// channel, the pixel in the same place of the finished image has none.
pub proof fn black_stays_black<T: Sample>(
    value: spec_fn(T) -> real,
    rgb: Plane<[T; 3]>,
    wb_coeffs: [T; 4],
    xyz_to_cam: [[T; 3]; 3],
    out: Plane<[T; 3]>,
    r: int,
    c: int,
)
    requires
        is_exact(value),
        has_exact_powers(value),
        is_finish(rgb, wb_coeffs, xyz_to_cam, out),
        rgb.has(r, c),
        value(rgb.at(r, c)[0]) == 0real,
        value(rgb.at(r, c)[1]) == 0real,
        value(rgb.at(r, c)[2]) == 0real,
    ensures
        out.has(r, c),
        value(out.at(r, c)[0]) == 0real,
        value(out.at(r, c)[1]) == 0real,
        value(out.at(r, c)[2]) == 0real,
{
    assert forall|ch: int| 0 <= ch < 3 implies value(#[trigger] out.at(r, c)[ch]) == 0real by {
        let (gains, matrix, b, x) = lemma_finished(rgb, wb_coeffs, xyz_to_cam, out, r, c, ch);
        assert(0real * value(gains[0]) == 0real);
        assert(0real * value(gains[1]) == 0real);
        assert(0real * value(gains[2]) == 0real);
        let row = matrix[ch];
        lemma_mix(value, row[0], b[0], row[1], b[1], row[2], b[2], x);
        assert(value(row[0]) * 0real == 0real);
        assert(value(row[1]) * 0real == 0real);
        assert(value(row[2]) * 0real == 0real);
        lemma_dark_display(value, x, out.at(r, c)[ch]);
    }
    assert(value(out.at(r, c)[0]) == 0real);
    assert(value(out.at(r, c)[1]) == 0real);
    assert(value(out.at(r, c)[2]) == 0real);
}

/// Gains depend on the values alone.
proof fn lemma_same_gains<T: Sample>(
    value: spec_fn(T) -> real,
    wb: [T; 4],
    a: [T; 3],
    b: [T; 3],
)
    requires
        is_exact(value),
        are_gains(wb, a),
        are_gains(wb, b),
    ensures
        value(a[0]) == value(b[0]),
        value(a[1]) == value(b[1]),
        value(a[2]) == value(b[2]),
{
    let g = choose|green: T| #[trigger]
        is_green_mean(wb[1], wb[2], green) && is_quotient(wb[0], green, a[0]) && is_ratio(
            1,
            1,
            a[1],
        ) && is_quotient(wb[3], green, a[2]);
    let h = choose|green: T| #[trigger]
        is_green_mean(wb[1], wb[2], green) && is_quotient(wb[0], green, b[0]) && is_ratio(
            1,
            1,
            b[1],
        ) && is_quotient(wb[3], green, b[2]);
    let (b1, b2) = (wb[1], wb[2]);
    let (s, n) = choose|sum: T, two: T|
        is_sum(b1, b2, sum) && is_ratio(2, 1, two) && #[trigger] is_quotient(sum, two, g);
    let (t, m) = choose|sum: T, two: T|
        is_sum(b1, b2, sum) && is_ratio(2, 1, two) && #[trigger] is_quotient(sum, two, h);
    assert(value(n) * 1real == 2real);
    assert(value(m) * 1real == 2real);
    assert(value(g) == value(h));
    assert(value(a[1]) * 1real == 1real);
    assert(value(b[1]) * 1real == 1real);
}

/// A finished pixel depends on nothing but the pixel in the same place: two
/// images, whatever else they hold, that have the same colour at two places have
/// the same finished colour there.
pub proof fn finished_pixels_depend_on_their_pixel<T: Sample>(
    value: spec_fn(T) -> real,
    rgb1: Plane<[T; 3]>,
    rgb2: Plane<[T; 3]>,
    wb_coeffs: [T; 4],
    xyz_to_cam: [[T; 3]; 3],
    out1: Plane<[T; 3]>,
    out2: Plane<[T; 3]>,
    r1: int,
    c1: int,
    r2: int,
    c2: int,
    ch: int,
)
    requires
        is_exact(value),
        has_exact_powers(value),
        is_finish(rgb1, wb_coeffs, xyz_to_cam, out1),
        is_finish(rgb2, wb_coeffs, xyz_to_cam, out2),
        rgb1.has(r1, c1),
        rgb2.has(r2, c2),
        value(rgb1.at(r1, c1)[0]) == value(rgb2.at(r2, c2)[0]),
        value(rgb1.at(r1, c1)[1]) == value(rgb2.at(r2, c2)[1]),
        value(rgb1.at(r1, c1)[2]) == value(rgb2.at(r2, c2)[2]),
        0 <= ch < 3,
    ensures
        value(out1.at(r1, c1)[ch]) == value(out2.at(r2, c2)[ch]),
{
    let (g1, m1, b1, x1) = lemma_finished(rgb1, wb_coeffs, xyz_to_cam, out1, r1, c1, ch);
    let (g2, m2, b2, x2) = lemma_finished(rgb2, wb_coeffs, xyz_to_cam, out2, r2, c2, ch);
    lemma_same_gains(value, wb_coeffs, g1, g2);
    assert(value(b1[0]) == value(b2[0]));
    assert(value(b1[1]) == value(b2[1]));
    assert(value(b1[2]) == value(b2[2]));
    lemma_same_matrix(value, xyz_to_cam, m1, m2, ch, 0);
    lemma_same_matrix(value, xyz_to_cam, m1, m2, ch, 1);
    lemma_same_matrix(value, xyz_to_cam, m1, m2, ch, 2);
    let (row1, row2) = (m1[ch], m2[ch]);
    lemma_mix(value, row1[0], b1[0], row1[1], b1[1], row1[2], b1[2], x1);
    lemma_mix(value, row2[0], b2[0], row2[1], b2[1], row2[2], b2[2], x2);
    lemma_same_display(value, x1, out1.at(r1, c1)[ch], x2, out2.at(r2, c2)[ch]);
}

/// A gain, times the pixel, times the row's entry, times both greens.
proof fn lemma_gain_term(m: real, p: real, g: real, green: real, w: real)
    requires
        g * green == 2real * w,
    ensures
        (m * (p * g)) * green == 2real * (m * (p * w)),
{
    lemma_regroup(m, p * g, green);
    lemma_regroup(p, g, green);
    lemma_regroup(p, 2real, w);
    lemma_commute(p, 2real);
    lemma_regroup(2real, p, w);
    lemma_regroup(m, 2real, p * w);
    lemma_commute(m, 2real);
    lemma_regroup(2real, m, p * w);
}

/// Each channel of a finished pixel is made of all three channels of the pixel in
/// the same place: they are weighed by the multipliers in units of the mean of
/// both greens and mixed by the channel's row of the matrix from camera values to
/// sRGB; what is left below zero is cut off, and the rest is tone mapped and
/// encoded. The light before the display is `mixed`, and `mapped` and `shown`
/// are what tone mapping and encoding make of it.
pub proof fn finished_channels_are_weighed_mixed_and_shown<T: Sample>(
    value: spec_fn(T) -> real,
    rgb: Plane<[T; 3]>,
    wb_coeffs: [T; 4],
    xyz_to_cam: [[T; 3]; 3],
    out: Plane<[T; 3]>,
    r: int,
    c: int,
    ch: int,
    matrix: [[T; 3]; 3],
    mixed: real,
    light: T,
    mapped: T,
    shown: T,
)
    requires
        is_exact(value),
        has_exact_powers(value),
        is_finish(rgb, wb_coeffs, xyz_to_cam, out),
        rgb.has(r, c),
        0 <= ch < 3,
        is_cam_to_srgb(xyz_to_cam, matrix),
        value(wb_coeffs[1]) + value(wb_coeffs[2]) != 0real,
        ({
            let px = rgb.at(r, c);
            let row = matrix[ch];
            let greens = value(wb_coeffs[1]) + value(wb_coeffs[2]);
            mixed * greens == 2real * (value(row[0]) * (value(px[0]) * value(wb_coeffs[0]))) + (
            value(row[1]) * value(px[1])) * greens + 2real * (value(row[2]) * (value(px[2]) * value(
                wb_coeffs[3],
            )))
        }),
        value(light) == if mixed < 0real {
            0real
        } else {
            mixed
        },
        is_tone_mapped(light, mapped),
        is_srgb_encoded(mapped, shown),
    ensures
        value(out.at(r, c)[ch]) == value(shown),
{
    let v = out.at(r, c)[ch];
    let px = rgb.at(r, c);
    let (gains, m, b, x) = lemma_finished(rgb, wb_coeffs, xyz_to_cam, out, r, c, ch);
    lemma_gain(value, wb_coeffs, gains);
    let greens = value(wb_coeffs[1]) + value(wb_coeffs[2]);
    let row = m[ch];
    lemma_mix(value, row[0], b[0], row[1], b[1], row[2], b[2], x);
    lemma_same_matrix(value, xyz_to_cam, m, matrix, ch, 0);
    lemma_same_matrix(value, xyz_to_cam, m, matrix, ch, 1);
    lemma_same_matrix(value, xyz_to_cam, m, matrix, ch, 2);
    assert(value(px[1]) * 1real == value(px[1]));
    let t0 = value(row[0]) * value(b[0]);
    let t1 = value(row[1]) * value(b[1]);
    let t2 = value(row[2]) * value(b[2]);
    lemma_distribute(greens, t0 + t1, t2);
    lemma_distribute(greens, t0, t1);
    lemma_gain_term(value(row[0]), value(px[0]), value(gains[0]), greens, value(wb_coeffs[0]));
    lemma_gain_term(value(row[2]), value(px[2]), value(gains[2]), greens, value(wb_coeffs[3]));
    assert(value(x) * greens == mixed * greens);
    lemma_cancel(value(x), mixed, greens);
    let (floor, positive, toned) = choose|floor: T, positive: T, mapped: T|
        {
            &&& is_ratio(0, 1, floor)
            &&& #[trigger] is_larger(x, floor, positive)
            &&& #[trigger] is_tone_mapped(positive, mapped)
            &&& is_srgb_encoded(mapped, v)
        };
    assert(value(floor) * 1real == 0real);
    tone_mapping_grows(value, positive, toned, light, mapped);
    tone_mapping_grows(value, light, mapped, positive, toned);
    lemma_same_encoding(value, toned, v, mapped, shown);
}

/// Tone mapping takes `x` to `x / (x + 0.08)`: light of 0.08 is shown half as
/// bright as the brightest.
pub proof fn tone_mapping_has_its_shoulder<T: Sample>(value: spec_fn(T) -> real, x: T, v: T)
    requires
        is_exact(value),
        is_tone_mapped(x, v),
        100real * value(x) + 8real != 0real,
    ensures
        value(v) * (100real * value(x) + 8real) == 100real * value(x),
{
    lemma_tone(value, x, v);
    let d = value(x) + 8real / 100real;
    assert(100real * d == 100real * value(x) + 8real);
    lemma_commute(value(v), d);
    lemma_regroup(100real, d, value(v));
    lemma_commute(100real * d, value(v));
}

/// After the matrix from XYZ to camera values, that from camera values to sRGB
/// takes XYZ to sRGB: with red from X most of all, green from Y and blue from Z.
pub proof fn xyz_comes_out_as_srgb<T: Sample>(
    value: spec_fn(T) -> real,
    xyz_to_cam: [[T; 3]; 3],
    out: [[T; 3]; 3],
    p: [[T; 3]; 3],
)
    requires
        is_exact(value),
        is_cam_to_srgb(xyz_to_cam, out),
        is_matrix_product(out, xyz_to_cam, p),
    ensures
        10_000real * value(p[0][0]) == 32_406real,
        10_000real * value(p[0][1]) == -15_372real,
        10_000real * value(p[0][2]) == -4_986real,
        10_000real * value(p[1][0]) == -9_689real,
        10_000real * value(p[1][1]) == 18_758real,
        10_000real * value(p[1][2]) == 415real,
        10_000real * value(p[2][0]) == 557real,
        10_000real * value(p[2][1]) == -2_040real,
        10_000real * value(p[2][2]) == 10_570real,
{
    camera_and_back_is_srgb(value, xyz_to_cam, out, p, 0, 0);
    camera_and_back_is_srgb(value, xyz_to_cam, out, p, 0, 1);
    camera_and_back_is_srgb(value, xyz_to_cam, out, p, 0, 2);
    camera_and_back_is_srgb(value, xyz_to_cam, out, p, 1, 0);
    camera_and_back_is_srgb(value, xyz_to_cam, out, p, 1, 1);
    camera_and_back_is_srgb(value, xyz_to_cam, out, p, 1, 2);
    camera_and_back_is_srgb(value, xyz_to_cam, out, p, 2, 0);
    camera_and_back_is_srgb(value, xyz_to_cam, out, p, 2, 1);
    camera_and_back_is_srgb(value, xyz_to_cam, out, p, 2, 2);
}

} // verus!
