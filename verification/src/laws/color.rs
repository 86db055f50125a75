//! Laws of the finish.
use crate::color_correction::are_gains;
use crate::color_correction::is_balanced;
use crate::color_correction::is_cam_to_srgb;
use crate::color_correction::is_displayed;
use crate::color_correction::is_finish;
use crate::color_correction::is_finished_channel;
use crate::color_correction::is_finished_image;
use crate::color_correction::is_finished_pixel;
use crate::color_correction::is_gamma_curve;
use crate::color_correction::is_gamma_line;
use crate::color_correction::is_green_mean;
use crate::color_correction::is_inverse;
use crate::color_correction::is_matrix_product;
use crate::color_correction::is_mix;
use crate::color_correction::is_srgb_encoded;
use crate::color_correction::is_tone_mapped;
use crate::color_correction::is_xyz_to_srgb;
use crate::color_correction::srgb_entries;
use crate::exact::clamp_real;
use crate::exact::is_exact;
use crate::exact::lemma_cancel;
use crate::exact::lemma_commute;
use crate::exact::lemma_distribute;
use crate::exact::lemma_not_negative;
use crate::exact::lemma_positive;
use crate::exact::lemma_regroup;
use crate::exact::lemma_scale_order;
use crate::exact::lemma_unit_clamp;
use crate::laws::matrix::determinant_of;
use crate::laws::matrix::lemma_inverse;
use crate::laws::matrix::lemma_product;
use crate::laws::matrix::matrix_values;
use crate::plane::Plane;
use crate::sample::is_difference;
use crate::sample::is_larger;
use crate::sample::is_product;
use crate::sample::is_quotient;
use crate::sample::is_ratio;
use crate::sample::is_sum;
use crate::sample::is_unit_clamped;
use crate::sample::Sample;
use vstd::prelude::*;

verus! {

pub proof fn lemma_tone<T: Sample>(value: spec_fn(T) -> real, x: T, v: T)
    requires
        is_exact(value),
        is_tone_mapped(x, v),
        value(x) + 8real / 100real != 0real,
    ensures
        value(v) * (value(x) + 8real / 100real) == value(x),
{
    let (shoulder, total) = choose|shoulder: T, total: T|
        is_ratio(8, 100, shoulder) && #[trigger] is_sum(x, shoulder, total) && is_quotient(
            x,
            total,
            v,
        );
    assert(value(shoulder) * 100real == 8real);
    assert(value(total) == value(x) + 8real / 100real);
}

/// Tone mapping takes all light from zero up to less than one, and darkness to
/// darkness.
pub proof fn tone_mapping_stays_below_one<T: Sample>(value: spec_fn(T) -> real, x: T, v: T)
    requires
        is_exact(value),
        is_tone_mapped(x, v),
        0real <= value(x),
    ensures
        0real <= value(v) < 1real,
        value(x) == 0real ==> value(v) == 0real,
{
    lemma_tone(value, x, v);
    let d = value(x) + 8real / 100real;
    if value(v) >= 1real {
        lemma_scale_order(1real, value(v), d);
        assert(1real * d == d);
    }
    if value(v) < 0real {
        lemma_positive(0real - value(v), d);
        lemma_distribute(d, 0real, value(v));
        assert(0real * d == 0real);
    }
    if value(x) == 0real && value(v) > 0real {
        lemma_positive(value(v), d);
    }
}

/// Tone mapping keeps the order of lights.
pub proof fn tone_mapping_grows<T: Sample>(
    value: spec_fn(T) -> real,
    x: T,
    v: T,
    brighter: T,
    w: T,
)
    requires
        is_exact(value),
        is_tone_mapped(x, v),
        is_tone_mapped(brighter, w),
        0real <= value(x) <= value(brighter),
    ensures
        value(v) <= value(w),
{
    lemma_tone(value, x, v);
    lemma_tone(value, brighter, w);
    tone_mapping_stays_below_one(value, x, v);
    tone_mapping_stays_below_one(value, brighter, w);
    if value(v) > value(w) {
        let d = value(x) + 8real / 100real;
        let e = value(brighter) + 8real / 100real;
        let rest_v = 1real - value(v);
        let rest_w = 1real - value(w);
        lemma_distribute(d, 1real, value(v));
        lemma_distribute(e, 1real, value(w));
        assert(1real * d == d && 1real * e == e);
        assert(rest_v * d == 8real / 100real);
        assert(rest_w * e == 8real / 100real);
        lemma_scale_order(d, e, rest_w);
        lemma_positive(rest_w - rest_v, d);
        lemma_distribute(d, rest_w, rest_v);
    }
}

/// `x`, `n` times a factor.
pub open spec fn real_power(x: real, n: nat) -> real
    decreases n,
{
    if n == 0 {
        1real
    } else {
        x * real_power(x, (n - 1) as nat)
    }
}

/// `e` is the fraction `m / k`.
pub open spec fn is_fraction(e: real, m: nat, k: nat) -> bool {
    k > 0 && e * (k as real) == m as real
}

/// A number from zero up, raised to a fraction `m / k`, gives the number from
/// zero up whose `k`-th power is the `m`-th power of the first.
pub open spec fn has_exact_powers<T: Sample>(value: spec_fn(T) -> real) -> bool {
    forall|x: T, e: T, p: T, m: nat, k: nat|
        #![trigger call_ensures(T::power, (x, e), p), is_fraction(value(e), m, k)]
        0real <= value(x) && is_fraction(value(e), m, k) && call_ensures(T::power, (x, e), p)
            ==> 0real <= value(p) && real_power(value(p), k) == real_power(value(x), m)
}

pub proof fn lemma_power_order(x: real, y: real, n: nat)
    requires
        0real <= x <= y,
    ensures
        0real <= real_power(x, n) <= real_power(y, n),
        n > 0 && x < y ==> real_power(x, n) < real_power(y, n),
    decreases n,
{
    if n > 0 {
        let k = (n - 1) as nat;
        let a = real_power(x, k);
        let b = real_power(y, k);
        lemma_power_order(x, y, k);
        lemma_not_negative(x, a);
        lemma_scale_order(a, b, x);
        lemma_scale_order(x, y, b);
        if x < y {
            lemma_power_positive(y, k);
            lemma_positive(y - x, b);
            lemma_distribute(b, y, x);
        }
    }
}

proof fn lemma_power_positive(x: real, n: nat)
    requires
        0real < x,
    ensures
        0real < real_power(x, n),
    decreases n,
{
    if n > 0 {
        lemma_power_positive(x, (n - 1) as nat);
        lemma_positive(x, real_power(x, (n - 1) as nat));
    }
}

pub proof fn lemma_power_of_one(n: nat)
    ensures
        real_power(1real, n) == 1real,
    decreases n,
{
    if n > 0 {
        lemma_power_of_one((n - 1) as nat);
    }
}

/// The curved part of the encoding, as a root.
proof fn lemma_curve<T: Sample>(value: spec_fn(T) -> real, x: T, v: T) -> (p: real)
    requires
        is_exact(value),
        has_exact_powers(value),
        is_gamma_curve(x, v),
        0real <= value(x),
    ensures
        0real <= p,
        real_power(p, 12) == real_power(value(x), 5),
        1000real * value(v) == 1055real * p - 55real,
{
    let (one, gamma, exponent, power, factor, scaled, offset) = choose|
        one: T,
        gamma: T,
        exponent: T,
        power: T,
        factor: T,
        scaled: T,
        offset: T,
    |
        {
            &&& is_ratio(1, 1, one)
            &&& is_ratio(24, 10, gamma)
            &&& #[trigger] is_quotient(one, gamma, exponent)
            &&& #[trigger] call_ensures(T::power, (x, exponent), power)
            &&& is_ratio(1055, 1000, factor)
            &&& #[trigger] is_product(factor, power, scaled)
            &&& is_ratio(55, 1000, offset)
            &&& #[trigger] is_difference(scaled, offset, v)
        };
    assert(value(one) * 1real == 1real);
    assert(value(gamma) * 10real == 24real);
    assert(value(factor) * 1000real == 1055real);
    assert(value(offset) * 1000real == 55real);
    assert(value(exponent) * value(gamma) == 1real);
    lemma_commute(value(exponent), value(gamma));
    assert(value(gamma) * value(exponent) == (24real / 10real) * value(exponent));
    lemma_commute(value(exponent), 12nat as real);
    assert((12nat as real) * value(exponent) == 12real * value(exponent));
    assert(is_fraction(value(exponent), 5, 12));
    assert(value(factor) * value(power) == (1055real / 1000real) * value(power));
    value(power)
}

/// What the curve gives lies between zero and one.
proof fn lemma_curve_range<T: Sample>(value: spec_fn(T) -> real, x: T, v: T)
    requires
        is_exact(value),
        has_exact_powers(value),
        is_gamma_curve(x, v),
        3real / 1000real < value(x) <= 1real,
    ensures
        0real <= value(v) <= 1real,
{
    let p = lemma_curve(value, x, v);
    lemma_power_of_one(12);
    lemma_power_of_one(5);
    lemma_power_order(value(x), 1real, 5);
    if p > 1real {
        lemma_power_order(1real, p, 12);
    }
    let q = 1real / 19real;
    if p < q {
        lemma_power_order(p, q, 12);
        lemma_power_order(3real / 1000real, value(x), 5);
        assert(real_power(q, 12) < real_power(3real / 1000real, 5)) by {
            reveal_with_fuel(real_power, 13);
        }
    }
}

/// The encoding stays between zero and one.
pub proof fn srgb_encoding_stays_in_range<T: Sample>(value: spec_fn(T) -> real, x: T, v: T)
    requires
        is_exact(value),
        has_exact_powers(value),
        is_srgb_encoded(x, v),
    ensures
        0real <= value(v) <= 1real,
{
    let (clamped, limit, low) = choose|clamped: T, limit: T, low: bool|
        {
            &&& is_unit_clamped(x, clamped)
            &&& is_ratio(31_308, 10_000_000, limit)
            &&& #[trigger] call_ensures(T::at_most, (clamped, limit), low)
            &&& if low {
                is_gamma_line(clamped, v)
            } else {
                is_gamma_curve(clamped, v)
            }
        };
    lemma_unit_clamp(value, x, clamped);
    assert(value(limit) * 10_000_000real == 31_308real);
    if low {
        lemma_line(value, clamped, v);
    } else {
        lemma_curve_range(value, clamped, v);
    }
}

proof fn lemma_line<T: Sample>(value: spec_fn(T) -> real, x: T, v: T)
    requires
        is_exact(value),
        is_gamma_line(x, v),
    ensures
        100real * value(v) == 1292real * value(x),
{
    let slope = choose|slope: T| is_ratio(1292, 100, slope) && #[trigger] is_product(slope, x, v);
    assert(value(slope) * 100real == 1292real);
    assert(value(slope) * value(x) == (1292real / 100real) * value(x));
}

/// The encoding keeps the order of values, but for one dip: where the curve takes
/// over from the line, at 0.0031308, it starts a trace below the end of the line.
/// From 0.0031309 on it is above again.
pub proof fn srgb_encoding_grows<T: Sample>(
    value: spec_fn(T) -> real,
    x: T,
    v: T,
    brighter: T,
    w: T,
)
    requires
        is_exact(value),
        has_exact_powers(value),
        is_srgb_encoded(x, v),
        is_srgb_encoded(brighter, w),
        value(x) <= value(brighter),
        value(brighter) <= 31_308real / 10_000_000real || 31_308real / 10_000_000real < value(x)
            || 31_309real / 10_000_000real <= value(brighter),
    ensures
        value(v) <= value(w),
{
    let (x1, limit1, low1) = choose|clamped: T, limit: T, low: bool|
        {
            &&& is_unit_clamped(x, clamped)
            &&& is_ratio(31_308, 10_000_000, limit)
            &&& #[trigger] call_ensures(T::at_most, (clamped, limit), low)
            &&& if low {
                is_gamma_line(clamped, v)
            } else {
                is_gamma_curve(clamped, v)
            }
        };
    let (x2, limit2, low2) = choose|clamped: T, limit: T, low: bool|
        {
            &&& is_unit_clamped(brighter, clamped)
            &&& is_ratio(31_308, 10_000_000, limit)
            &&& #[trigger] call_ensures(T::at_most, (clamped, limit), low)
            &&& if low {
                is_gamma_line(clamped, w)
            } else {
                is_gamma_curve(clamped, w)
            }
        };
    lemma_unit_clamp(value, x, x1);
    lemma_unit_clamp(value, brighter, x2);
    assert(value(limit1) * 10_000_000real == 31_308real);
    assert(value(limit2) * 10_000_000real == 31_308real);
    if low2 {
        lemma_line(value, x1, v);
        lemma_line(value, x2, w);
    } else {
        let q = lemma_curve(value, x2, w);
        if low1 {
            lemma_line(value, x1, v);
            let end = 904_739real / 10_000_000real;
            let start = 31_309real / 10_000_000real;
            if q < end {
                lemma_power_order(q, end, 12);
                lemma_power_order(start, value(x2), 5);
                assert(real_power(end, 12) < real_power(start, 5)) by {
                    reveal_with_fuel(real_power, 13);
                }
            }
        } else {
            let p = lemma_curve(value, x1, v);
            lemma_power_order(value(x1), value(x2), 5);
            if q < p {
                lemma_power_order(q, p, 12);
            }
        }
    }
}

/// The encoding keeps the order of all values up to a millionth: the dip at
/// 0.0031308 is no deeper.
pub proof fn srgb_encoding_grows_up_to_a_millionth<T: Sample>(
    value: spec_fn(T) -> real,
    x: T,
    v: T,
    brighter: T,
    w: T,
)
    requires
        is_exact(value),
        has_exact_powers(value),
        is_srgb_encoded(x, v),
        is_srgb_encoded(brighter, w),
        value(x) <= value(brighter),
    ensures
        value(v) <= value(w) + 1real / 1_000_000real,
{
    let knee = 31_308real / 10_000_000real;
    if value(brighter) <= knee || knee < value(x) || 31_309real / 10_000_000real <= value(
        brighter,
    ) {
        srgb_encoding_grows(value, x, v, brighter, w);
    } else {
        lemma_low_encoding(value, x, v);
        let q = lemma_high_encoding(value, brighter, w);
        let start = 90_473real / 1_000_000real;
        if q < start {
            lemma_power_order(q, start, 12);
            lemma_power_order(knee, value(brighter), 5);
            assert(real_power(start, 12) < real_power(knee, 5)) by {
                reveal_with_fuel(real_power, 13);
            }
        }
    }
}

/// Up to 0.0031308 the encoding is a straight line, from zero on.
pub proof fn lemma_low_encoding<T: Sample>(value: spec_fn(T) -> real, x: T, v: T)
    requires
        is_exact(value),
        is_srgb_encoded(x, v),
        value(x) <= 31_308real / 10_000_000real,
    ensures
        value(x) <= 0real ==> value(v) == 0real,
        0real <= value(x) ==> 100real * value(v) == 1292real * value(x),
{
    let (clamped, limit, low) = choose|clamped: T, limit: T, low: bool|
        {
            &&& is_unit_clamped(x, clamped)
            &&& is_ratio(31_308, 10_000_000, limit)
            &&& #[trigger] call_ensures(T::at_most, (clamped, limit), low)
            &&& if low {
                is_gamma_line(clamped, v)
            } else {
                is_gamma_curve(clamped, v)
            }
        };
    lemma_unit_clamp(value, x, clamped);
    assert(value(limit) * 10_000_000real == 31_308real);
    lemma_line(value, clamped, v);
}

/// Above 0.0031308 the encoding is a curve, by the root of the clamped value.
pub proof fn lemma_high_encoding<T: Sample>(value: spec_fn(T) -> real, x: T, v: T) -> (p: real)
    requires
        is_exact(value),
        has_exact_powers(value),
        is_srgb_encoded(x, v),
        31_308real / 10_000_000real < value(x),
    ensures
        0real <= p,
        real_power(p, 12) == real_power(clamp_real(value(x), 0real, 1real), 5),
        1000real * value(v) == 1055real * p - 55real,
{
    let (clamped, limit, low) = choose|clamped: T, limit: T, low: bool|
        {
            &&& is_unit_clamped(x, clamped)
            &&& is_ratio(31_308, 10_000_000, limit)
            &&& #[trigger] call_ensures(T::at_most, (clamped, limit), low)
            &&& if low {
                is_gamma_line(clamped, v)
            } else {
                is_gamma_curve(clamped, v)
            }
        };
    lemma_unit_clamp(value, x, clamped);
    assert(value(limit) * 10_000_000real == 31_308real);
    lemma_curve(value, clamped, v)
}

/// The encoding takes everything up to zero to zero, everything from one up to one,
/// and follows its line in between up to 0.0031308.
pub proof fn srgb_encoding_has_its_ends<T: Sample>(value: spec_fn(T) -> real, x: T, v: T)
    requires
        is_exact(value),
        has_exact_powers(value),
        is_srgb_encoded(x, v),
    ensures
        value(x) <= 0real ==> value(v) == 0real,
        0real <= value(x) <= 31_308real / 10_000_000real ==> 100real * value(v) == 1292real * value(
            x,
        ),
        1real <= value(x) ==> value(v) == 1real,
{
    if value(x) <= 31_308real / 10_000_000real {
        lemma_low_encoding(value, x, v);
    }
    if 1real <= value(x) {
        let p = lemma_high_encoding(value, x, v);
        lemma_power_of_one(12);
        lemma_power_of_one(5);
        if p < 1real {
            lemma_power_order(p, 1real, 12);
        } else if p > 1real {
            lemma_power_order(1real, p, 12);
        }
    }
}

/// What is ready for display lies between zero and one.
proof fn lemma_displayed_range<T: Sample>(value: spec_fn(T) -> real, x: T, v: T)
    requires
        is_exact(value),
        has_exact_powers(value),
        is_displayed(x, v),
    ensures
        0real <= value(v) <= 1real,
{
    let (floor, positive, mapped) = choose|floor: T, positive: T, mapped: T|
        {
            &&& is_ratio(0, 1, floor)
            &&& #[trigger] is_larger(x, floor, positive)
            &&& #[trigger] is_tone_mapped(positive, mapped)
            &&& is_srgb_encoded(mapped, v)
        };
    srgb_encoding_stays_in_range(value, mapped, v);
}

/// A finished image has values between zero and one.
pub proof fn finished_values_stay_in_range<T: Sample>(
    value: spec_fn(T) -> real,
    rgb: Plane<[T; 3]>,
    wb_coeffs: [T; 4],
    xyz_to_cam: [[T; 3]; 3],
    out: Plane<[T; 3]>,
    r: int,
    c: int,
    ch: int,
)
    requires
        is_exact(value),
        has_exact_powers(value),
        is_finish(rgb, wb_coeffs, xyz_to_cam, out),
        rgb.has(r, c),
        0 <= ch < 3,
    ensures
        0real <= value(out.at(r, c)[ch]) <= 1real,
{
    let (gains, matrix) = choose|gains: [T; 3], matrix: [[T; 3]; 3]| #[trigger]
        are_gains(wb_coeffs, gains)
            && #[trigger] is_cam_to_srgb(xyz_to_cam, matrix)
            && is_finished_image(rgb, gains, matrix, out);
    assert(is_finished_pixel(rgb.at(r, c), gains, matrix, out.at(r, c)));
    let b = choose|b: [T; 3]| #[trigger]
        is_balanced(rgb.at(r, c), gains, b) && forall|k: int|
            0 <= k < 3 ==> is_finished_channel(matrix[k], b, #[trigger] out.at(r, c)[k]);
    let v = out.at(r, c)[ch];
    assert(is_finished_channel(matrix[ch], b, v));
    let row = matrix[ch];
    let x = choose|x: T| #[trigger]
        is_mix(row[0], b[0], row[1], b[1], row[2], b[2], x) && is_displayed(x, v);
    lemma_displayed_range(value, x, v);
}

/// The encoding depends on the value alone.
pub proof fn lemma_same_encoding<T: Sample>(value: spec_fn(T) -> real, x: T, v: T, y: T, w: T)
    requires
        is_exact(value),
        has_exact_powers(value),
        is_srgb_encoded(x, v),
        is_srgb_encoded(y, w),
        value(x) == value(y),
    ensures
        value(v) == value(w),
{
    srgb_encoding_grows(value, x, v, y, w);
    srgb_encoding_grows(value, y, w, x, v);
}

/// What is displayed depends on the value alone.
pub proof fn lemma_same_display<T: Sample>(value: spec_fn(T) -> real, x: T, v: T, y: T, w: T)
    requires
        is_exact(value),
        has_exact_powers(value),
        is_displayed(x, v),
        is_displayed(y, w),
        value(x) == value(y),
    ensures
        value(v) == value(w),
{
    let (f1, p1, t1) = choose|floor: T, positive: T, mapped: T|
        {
            &&& is_ratio(0, 1, floor)
            &&& #[trigger] is_larger(x, floor, positive)
            &&& #[trigger] is_tone_mapped(positive, mapped)
            &&& is_srgb_encoded(mapped, v)
        };
    let (f2, p2, t2) = choose|floor: T, positive: T, mapped: T|
        {
            &&& is_ratio(0, 1, floor)
            &&& #[trigger] is_larger(y, floor, positive)
            &&& #[trigger] is_tone_mapped(positive, mapped)
            &&& is_srgb_encoded(mapped, w)
        };
    assert(value(f1) * 1real == 0real);
    assert(value(f2) * 1real == 0real);
    tone_mapping_grows(value, p1, t1, p2, t2);
    tone_mapping_grows(value, p2, t2, p1, t1);
    lemma_same_encoding(value, t1, v, t2, w);
}

/// The matrix from camera values to sRGB depends on the values alone.
pub proof fn lemma_same_matrix<T: Sample>(
    value: spec_fn(T) -> real,
    m: [[T; 3]; 3],
    a: [[T; 3]; 3],
    b: [[T; 3]; 3],
    i: int,
    j: int,
)
    requires
        is_exact(value),
        is_cam_to_srgb(m, a),
        is_cam_to_srgb(m, b),
        0 <= i < 3,
        0 <= j < 3,
    ensures
        value(a[i][j]) == value(b[i][j]),
{
    let (s, n) = choose|s: [[T; 3]; 3], n: [[T; 3]; 3]|
        is_xyz_to_srgb(s) && #[trigger] is_inverse(m, n) && #[trigger] is_matrix_product(s, n, a);
    let (t, q) = choose|t: [[T; 3]; 3], q: [[T; 3]; 3]|
        is_xyz_to_srgb(t) && #[trigger] is_inverse(m, q) && #[trigger] is_matrix_product(t, q, b);
    let k = lemma_inverse(value, m, n);
    let l = lemma_inverse(value, m, q);
    let det = determinant_of(matrix_values(value, m));
    assert(det != 0real) by {
        if det == 0real {
            assert(k * 0real == 0real);
        }
    }
    lemma_cancel(k, l, det);
    assert(value(n[0][j]) == value(q[0][j]));
    assert(value(n[1][j]) == value(q[1][j]));
    assert(value(n[2][j]) == value(q[2][j]));
    lemma_product(value, s, n, a, i, j);
    lemma_product(value, t, q, b, i, j);
    assert forall|k: int| 0 <= k < 3 implies value(#[trigger] s[i][k]) == value(t[i][k]) by {
        let e = srgb_entries()[i][k] as i64;
        assert(is_ratio(e, 10_000, s[i][k]));
        assert(is_ratio(e, 10_000, t[i][k]));
        assert(value(s[i][k]) * 10_000real == e as real);
        assert(value(t[i][k]) * 10_000real == e as real);
    }
    assert(value(s[i][0]) == value(t[i][0]));
    assert(value(s[i][1]) == value(t[i][1]));
    assert(value(s[i][2]) == value(t[i][2]));
}

/// The value of a gain: the multiplier over the mean of both greens.
pub proof fn lemma_gain<T: Sample>(value: spec_fn(T) -> real, wb: [T; 4], gains: [T; 3])
    requires
        is_exact(value),
        are_gains(wb, gains),
        value(wb[1]) + value(wb[2]) != 0real,
    ensures
        value(gains[0]) * (value(wb[1]) + value(wb[2])) == 2real * value(wb[0]),
        value(gains[1]) == 1real,
        value(gains[2]) * (value(wb[1]) + value(wb[2])) == 2real * value(wb[3]),
{
    let green = choose|green: T| #[trigger]
        is_green_mean(wb[1], wb[2], green) && is_quotient(wb[0], green, gains[0]) && is_ratio(
            1,
            1,
            gains[1],
        ) && is_quotient(wb[3], green, gains[2]);
    let (b1, b2) = (wb[1], wb[2]);
    let (sum, two) = choose|sum: T, two: T|
        is_sum(b1, b2, sum) && is_ratio(2, 1, two) && #[trigger] is_quotient(sum, two, green);
    assert(value(two) * 1real == 2real);
    lemma_commute(value(green), value(two));
    assert(value(two) * value(green) == 2real * value(green));
    let g = value(green);
    assert(2real * g == value(wb[1]) + value(wb[2]));
    assert(value(gains[1]) * 1real == 1real);
    lemma_distribute(value(gains[0]), g, g);
    lemma_distribute(value(gains[2]), g, g);
    assert(g + g == value(wb[1]) + value(wb[2]));
}

/// Multipliers with the same ratio to the greens give the same gain.
proof fn lemma_same_gain(x: real, y: real, a: real, b: real, g: real, h: real)
    requires
        g != 0real,
        h != 0real,
        x * g == 2real * a,
        y * h == 2real * b,
        a * h == b * g,
    ensures
        x == y,
{
    // x * g * h == 2 * a * h == 2 * b * g == y * h * g
    lemma_regroup(x, g, h);
    lemma_regroup(y, h, g);
    lemma_commute(g, h);
    lemma_regroup(2real, a, h);
    lemma_regroup(2real, b, g);
    let gh = g * h;
    assert(gh != 0real) by {
        if gh == 0real {
            assert(0real * h == 0real);
            lemma_cancel(g, 0real, h);
        }
    }
    assert(x * gh == y * gh);
    lemma_cancel(x, y, gh);
}

/// The value of a mix.
pub proof fn lemma_mix<T: Sample>(
    value: spec_fn(T) -> real,
    a: T,
    x: T,
    b: T,
    y: T,
    c: T,
    z: T,
    v: T,
)
    requires
        is_exact(value),
        is_mix(a, x, b, y, c, z, v),
    ensures
        value(v) == value(a) * value(x) + value(b) * value(y) + value(c) * value(z),
{
}

/// Only the ratios of the white balance multipliers to the mean of both greens
/// count: multipliers that agree in these give the same picture.
pub proof fn only_ratios_of_multipliers_count<T: Sample>(
    value: spec_fn(T) -> real,
    rgb: Plane<[T; 3]>,
    wb1: [T; 4],
    wb2: [T; 4],
    m: [[T; 3]; 3],
    out1: Plane<[T; 3]>,
    out2: Plane<[T; 3]>,
    r: int,
    c: int,
    ch: int,
)
    requires
        is_exact(value),
        has_exact_powers(value),
        is_finish(rgb, wb1, m, out1),
        is_finish(rgb, wb2, m, out2),
        value(wb1[1]) + value(wb1[2]) != 0real,
        value(wb2[1]) + value(wb2[2]) != 0real,
        value(wb1[0]) * (value(wb2[1]) + value(wb2[2])) == value(wb2[0]) * (value(wb1[1]) + value(
            wb1[2],
        )),
        value(wb1[3]) * (value(wb2[1]) + value(wb2[2])) == value(wb2[3]) * (value(wb1[1]) + value(
            wb1[2],
        )),
        rgb.has(r, c),
        0 <= ch < 3,
    ensures
        value(out1.at(r, c)[ch]) == value(out2.at(r, c)[ch]),
{
    let (gains1, matrix1) = choose|gains: [T; 3], matrix: [[T; 3]; 3]| #[trigger]
        are_gains(wb1, gains) && #[trigger] is_cam_to_srgb(m, matrix) && is_finished_image(
            rgb,
            gains,
            matrix,
            out1,
        );
    let (gains2, matrix2) = choose|gains: [T; 3], matrix: [[T; 3]; 3]| #[trigger]
        are_gains(wb2, gains) && #[trigger] is_cam_to_srgb(m, matrix) && is_finished_image(
            rgb,
            gains,
            matrix,
            out2,
        );
    lemma_gain(value, wb1, gains1);
    lemma_gain(value, wb2, gains2);
    let g = value(wb1[1]) + value(wb1[2]);
    let h = value(wb2[1]) + value(wb2[2]);
    lemma_same_gain(
        value(gains1[0]),
        value(gains2[0]),
        value(wb1[0]),
        value(wb2[0]),
        g,
        h,
    );
    lemma_same_gain(
        value(gains1[2]),
        value(gains2[2]),
        value(wb1[3]),
        value(wb2[3]),
        g,
        h,
    );
    let px = rgb.at(r, c);
    let (px1, px2) = (out1.at(r, c), out2.at(r, c));
    assert(is_finished_pixel(px, gains1, matrix1, px1));
    assert(is_finished_pixel(px, gains2, matrix2, px2));
    let b1 = choose|b: [T; 3]| #[trigger]
        is_balanced(px, gains1, b) && forall|k: int|
            0 <= k < 3 ==> is_finished_channel(matrix1[k], b, #[trigger] px1[k]);
    let b2 = choose|b: [T; 3]| #[trigger]
        is_balanced(px, gains2, b) && forall|k: int|
            0 <= k < 3 ==> is_finished_channel(matrix2[k], b, #[trigger] px2[k]);
    assert forall|k: int| 0 <= k < 3 implies value(#[trigger] b1[k]) == value(b2[k]) by {
        assert(is_product(px[k], gains1[k], b1[k]));
        assert(is_product(px[k], gains2[k], b2[k]));
        assert(k == 0 || k == 1 || k == 2);
    }
    assert(value(b1[0]) == value(b2[0]));
    assert(value(b1[1]) == value(b2[1]));
    assert(value(b1[2]) == value(b2[2]));
    lemma_same_matrix(value, m, matrix1, matrix2, ch, 0);
    lemma_same_matrix(value, m, matrix1, matrix2, ch, 1);
    lemma_same_matrix(value, m, matrix1, matrix2, ch, 2);
    let (row1, row2) = (matrix1[ch], matrix2[ch]);
    let (v1, v2) = (px1[ch], px2[ch]);
    assert(is_finished_channel(row1, b1, v1));
    assert(is_finished_channel(row2, b2, v2));
    let x1 = choose|x: T| #[trigger]
        is_mix(row1[0], b1[0], row1[1], b1[1], row1[2], b1[2], x) && is_displayed(x, v1);
    let x2 = choose|x: T| #[trigger]
        is_mix(row2[0], b2[0], row2[1], b2[1], row2[2], b2[2], x) && is_displayed(x, v2);
    lemma_mix(value, row1[0], b1[0], row1[1], b1[1], row1[2], b1[2], x1);
    lemma_mix(value, row2[0], b2[0], row2[1], b2[1], row2[2], b2[2], x2);
    lemma_same_display(value, x1, v1, x2, v2);
}

} // verus!
