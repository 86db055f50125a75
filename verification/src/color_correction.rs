//! From linear camera values to an image ready for display.
use crate::plane::Plane;
use crate::sample::is_difference;
use crate::sample::is_larger;
use crate::sample::is_magnitude;
use crate::sample::is_one;
use crate::sample::is_product;
use crate::sample::is_quotient;
use crate::sample::is_ratio;
use crate::sample::is_sum;
use crate::sample::is_unit_clamped;
use crate::sample::is_zero;
use crate::sample::unit_clamped;
use crate::sample::zero;
use crate::sample::Sample;
use vstd::prelude::*;

verus! {

/// `v` came out of the Reinhard operator: `x / (x + 0.08)`.
pub open spec fn is_tone_mapped<T: Sample>(x: T, v: T) -> bool {
    exists|shoulder: T, total: T|
        is_ratio(8, 100, shoulder) && #[trigger] is_sum(x, shoulder, total) && is_quotient(
            x,
            total,
            v,
        )
}

/// Reinhard tone mapping. It maps all light from zero up to less than one, keeps
/// shadows nearly linear and compresses highlights.
pub fn tone_map<T: Sample>(x: T) -> (v: T)
    ensures
        is_tone_mapped(x, v),
{
    let shoulder: T = T::ratio(8, 100);
    let total = x.plus(shoulder);
    x.over(total)
}

/// `v` came out of the curved part of the sRGB encoding:
/// `1.055 * x^(1 / 2.4) - 0.055`.
pub open spec fn is_gamma_curve<T: Sample>(x: T, v: T) -> bool {
    exists|one: T, gamma: T, exponent: T, power: T, factor: T, scaled: T, offset: T|
        {
            &&& is_one(one)
            &&& is_ratio(24, 10, gamma)
            &&& #[trigger] is_quotient(one, gamma, exponent)
            &&& #[trigger] call_ensures(T::power, (x, exponent), power)
            &&& is_ratio(1055, 1000, factor)
            &&& #[trigger] is_product(factor, power, scaled)
            &&& is_ratio(55, 1000, offset)
            &&& #[trigger] is_difference(scaled, offset, v)
        }
}

/// `v` came out of the straight part of the sRGB encoding: `12.92 * x`.
pub open spec fn is_gamma_line<T: Sample>(x: T, v: T) -> bool {
    exists|slope: T| is_ratio(1292, 100, slope) && #[trigger] is_product(slope, x, v)
}

/// `v` came out of the sRGB encoding of `x`: clamped to `0 ..= 1`, then a
/// straight line up to 0.0031308 and a curve above.
pub open spec fn is_srgb_encoded<T: Sample>(x: T, v: T) -> bool {
    exists|clamped: T, limit: T, low: bool|
        {
            &&& is_unit_clamped(x, clamped)
            &&& is_ratio(31_308, 10_000_000, limit)
            &&& #[trigger] call_ensures(T::at_most, (clamped, limit), low)
            &&& if low {
                is_gamma_line(clamped, v)
            } else {
                is_gamma_curve(clamped, v)
            }
        }
}

fn gamma_curve<T: Sample>(x: T) -> (v: T)
    ensures
        is_gamma_curve(x, v),
{
    let one: T = T::ratio(1, 1);
    let gamma: T = T::ratio(24, 10);
    let exponent = one.over(gamma);
    let power = x.power(exponent);
    let factor: T = T::ratio(1055, 1000);
    let scaled = factor.times(power);
    let offset: T = T::ratio(55, 1000);
    scaled.minus(offset)
}

/// sRGB gamma encoding: from linear light to perceptually uniform values.
pub fn srgb_gamma<T: Sample>(x: T) -> (v: T)
    ensures
        is_srgb_encoded(x, v),
{
    let clamped = unit_clamped(x);
    let limit: T = T::ratio(31_308, 10_000_000);
    if clamped.at_most(limit) {
        let slope: T = T::ratio(1292, 100);
        slope.times(clamped)
    } else {
        gamma_curve(clamped)
    }
}

/// The entries of a two by two determinant, by their places in a three by three
/// matrix: it is `a * b - c * d`.
pub struct Minor {
    pub a: (int, int),
    pub b: (int, int),
    pub c: (int, int),
    pub d: (int, int),
}

/// The entry in row `i` and column `j` of the adjugate of a matrix.
pub open spec fn minor(i: int, j: int) -> Minor {
    if i == 0 {
        if j == 0 {
            Minor { a: (1, 1), b: (2, 2), c: (1, 2), d: (2, 1) }
        } else if j == 1 {
            Minor { a: (0, 2), b: (2, 1), c: (0, 1), d: (2, 2) }
        } else {
            Minor { a: (0, 1), b: (1, 2), c: (0, 2), d: (1, 1) }
        }
    } else if i == 1 {
        if j == 0 {
            Minor { a: (1, 2), b: (2, 0), c: (1, 0), d: (2, 2) }
        } else if j == 1 {
            Minor { a: (0, 0), b: (2, 2), c: (0, 2), d: (2, 0) }
        } else {
            Minor { a: (0, 2), b: (1, 0), c: (0, 0), d: (1, 2) }
        }
    } else {
        if j == 0 {
            Minor { a: (1, 0), b: (2, 1), c: (1, 1), d: (2, 0) }
        } else if j == 1 {
            Minor { a: (0, 1), b: (2, 0), c: (0, 0), d: (2, 1) }
        } else {
            Minor { a: (0, 0), b: (1, 1), c: (0, 1), d: (1, 0) }
        }
    }
}

/// `v` came out of `a * b - c * d`.
pub open spec fn is_cross<T: Sample>(a: T, b: T, c: T, d: T, v: T) -> bool {
    exists|p: T, q: T| #[trigger]
        is_product(a, b, p) && #[trigger] is_product(c, d, q) && is_difference(p, q, v)
}

/// `v` came out as an entry of the adjugate of `m`.
pub open spec fn is_minor_of<T: Sample>(m: [[T; 3]; 3], at: Minor, v: T) -> bool {
    is_cross(
        m[at.a.0][at.a.1],
        m[at.b.0][at.b.1],
        m[at.c.0][at.c.1],
        m[at.d.0][at.d.1],
        v,
    )
}

/// `v` came out of `a * x - b * y + c * z`.
pub open spec fn is_alternating_sum<T: Sample>(a: T, x: T, b: T, y: T, c: T, z: T, v: T) -> bool {
    exists|p: T, q: T, pq: T, s: T| #[trigger]
        is_product(a, x, p) && #[trigger] is_product(b, y, q) && #[trigger] is_difference(p, q, pq)
            && #[trigger] is_product(c, z, s) && is_sum(pq, s, v)
}

/// `det` came out as the determinant of `m`, expanded along its first row.
pub open spec fn is_determinant<T: Sample>(m: [[T; 3]; 3], det: T) -> bool {
    exists|x: T, y: T, z: T| #[trigger]
        is_first_row_minors(m, x, y, z) && is_alternating_sum(
            m[0][0],
            x,
            m[0][1],
            y,
            m[0][2],
            z,
            det,
        )
}

/// `x`, `y` and `z` came out as the minors that belong to the first row of `m`.
pub open spec fn is_first_row_minors<T: Sample>(m: [[T; 3]; 3], x: T, y: T, z: T) -> bool {
    &&& is_cross(m[1][1], m[2][2], m[1][2], m[2][1], x)
    &&& is_cross(m[1][0], m[2][2], m[1][2], m[2][0], y)
    &&& is_cross(m[1][0], m[2][1], m[1][1], m[2][0], z)
}

/// `regular` came out of the question whether a determinant is far enough from
/// zero to divide by.
pub open spec fn is_regularity_check<T: Sample>(det: T, regular: bool) -> bool {
    exists|size: T, least: T|
        is_magnitude(det, size) && is_ratio(1, 10_000_000_000, least) && #[trigger] call_ensures(
            T::exceeds,
            (size, least),
            regular,
        )
}

/// `v` came out of one entry of the adjugate, divided by the determinant.
pub open spec fn is_inverse_entry<T: Sample>(m: [[T; 3]; 3], at: Minor, inv_det: T, v: T) -> bool {
    exists|x: T| is_minor_of(m, at, x) && #[trigger] is_product(x, inv_det, v)
}

/// `inv` came out of Cramer's rule for a matrix with the determinant `det`.
pub open spec fn is_cramer<T: Sample>(m: [[T; 3]; 3], det: T, inv: [[T; 3]; 3]) -> bool {
    exists|one: T, inv_det: T|
        is_one(one) && #[trigger] is_quotient(one, det, inv_det) && forall|i: int, j: int|
            0 <= i < 3 && 0 <= j < 3 ==> is_inverse_entry(
                m,
                minor(i, j),
                inv_det,
                #[trigger] inv[i][j],
            )
}

/// `inv` came out as the inverse of `m`, whose determinant passed the check.
pub open spec fn is_inverse<T: Sample>(m: [[T; 3]; 3], inv: [[T; 3]; 3]) -> bool {
    exists|det: T| #[trigger]
        is_determinant(m, det) && is_regularity_check(det, true) && is_cramer(m, det, inv)
}

/// The determinant of `m` did not pass the check.
pub open spec fn is_singular<T: Sample>(m: [[T; 3]; 3]) -> bool {
    exists|det: T| #[trigger] is_determinant(m, det) && is_regularity_check(det, false)
}

fn cross<T: Sample>(a: T, b: T, c: T, d: T) -> (v: T)
    ensures
        is_cross(a, b, c, d, v),
{
    let p = a.times(b);
    let q = c.times(d);
    p.minus(q)
}

fn alternating_sum<T: Sample>(a: T, x: T, b: T, y: T, c: T, z: T) -> (v: T)
    ensures
        is_alternating_sum(a, x, b, y, c, z, v),
{
    let p = a.times(x);
    let q = b.times(y);
    let pq = p.minus(q);
    let s = c.times(z);
    pq.plus(s)
}

fn determinant<T: Sample>(m: &[[T; 3]; 3]) -> (det: T)
    ensures
        is_determinant(*m, det),
{
    let x = cross(m[1][1], m[2][2], m[1][2], m[2][1]);
    let y = cross(m[1][0], m[2][2], m[1][2], m[2][0]);
    let z = cross(m[1][0], m[2][1], m[1][1], m[2][0]);
    assert(is_first_row_minors(*m, x, y, z));
    alternating_sum(m[0][0], x, m[0][1], y, m[0][2], z)
}

fn is_regular<T: Sample>(det: T) -> (regular: bool)
    ensures
        is_regularity_check(det, regular),
{
    let size = det.magnitude();
    let least: T = T::ratio(1, 10_000_000_000);
    size.exceeds(least)
}

fn inverse_entry<T: Sample>(a: T, b: T, c: T, d: T, inv_det: T) -> (v: T)
    ensures
        exists|x: T| is_cross(a, b, c, d, x) && #[trigger] is_product(x, inv_det, v),
{
    let x = cross(a, b, c, d);
    x.times(inv_det)
}

/// 3x3 matrix inversion by Cramer's rule, unless the matrix is singular.
pub fn invert_3x3<T: Sample>(m: &[[T; 3]; 3]) -> (inv: Option<[[T; 3]; 3]>)
    ensures
        match inv {
            Some(v) => is_inverse(*m, v),
            None => is_singular(*m),
        },
{
    let det = determinant(m);
    if !is_regular(det) {
        return None;
    }
    let one: T = T::ratio(1, 1);
    let inv_det = one.over(det);
    let inv = [
        [
            inverse_entry(m[1][1], m[2][2], m[1][2], m[2][1], inv_det),
            inverse_entry(m[0][2], m[2][1], m[0][1], m[2][2], inv_det),
            inverse_entry(m[0][1], m[1][2], m[0][2], m[1][1], inv_det),
        ],
        [
            inverse_entry(m[1][2], m[2][0], m[1][0], m[2][2], inv_det),
            inverse_entry(m[0][0], m[2][2], m[0][2], m[2][0], inv_det),
            inverse_entry(m[0][2], m[1][0], m[0][0], m[1][2], inv_det),
        ],
        [
            inverse_entry(m[1][0], m[2][1], m[1][1], m[2][0], inv_det),
            inverse_entry(m[0][1], m[2][0], m[0][0], m[2][1], inv_det),
            inverse_entry(m[0][0], m[1][1], m[0][1], m[1][0], inv_det),
        ],
    ];
    assert(is_cramer(*m, det, inv));
    Some(inv)
}

/// `v` came out of adding three products to zero, in order.
pub open spec fn is_dot<T: Sample>(a: [T; 3], x: T, y: T, z: T, v: T) -> bool {
    exists|start: T, p: T, s: T, q: T, t: T, u: T|
        {
            &&& is_zero(start)
            &&& #[trigger] is_product(a[0], x, p)
            &&& #[trigger] is_sum(start, p, s)
            &&& #[trigger] is_product(a[1], y, q)
            &&& #[trigger] is_sum(s, q, t)
            &&& #[trigger] is_product(a[2], z, u)
            &&& is_sum(t, u, v)
        }
}

/// `out` came out of the matrix product of `a` and `b`.
pub open spec fn is_matrix_product<T: Sample>(
    a: [[T; 3]; 3],
    b: [[T; 3]; 3],
    out: [[T; 3]; 3],
) -> bool {
    forall|i: int, j: int|
        0 <= i < 3 && 0 <= j < 3 ==> is_dot(
            a[i],
            b[0][j],
            b[1][j],
            b[2][j],
            #[trigger] out[i][j],
        )
}

fn dot<T: Sample>(a: [T; 3], x: T, y: T, z: T) -> (v: T)
    ensures
        is_dot(a, x, y, z, v),
{
    let start: T = zero();
    let p = a[0].times(x);
    let s = start.plus(p);
    let q = a[1].times(y);
    let t = s.plus(q);
    let u = a[2].times(z);
    let v = t.plus(u);
    assert(is_product(a@[0], x, p) && is_product(a@[1], y, q) && is_product(a@[2], z, u));
    v
}

/// 3x3 matrix multiplication.
pub fn mat_mul_3x3<T: Sample>(a: &[[T; 3]; 3], b: &[[T; 3]; 3]) -> (out: [[T; 3]; 3])
    ensures
        is_matrix_product(*a, *b, out),
{
    [
        [
            dot(a[0], b[0][0], b[1][0], b[2][0]),
            dot(a[0], b[0][1], b[1][1], b[2][1]),
            dot(a[0], b[0][2], b[1][2], b[2][2]),
        ],
        [
            dot(a[1], b[0][0], b[1][0], b[2][0]),
            dot(a[1], b[0][1], b[1][1], b[2][1]),
            dot(a[1], b[0][2], b[1][2], b[2][2]),
        ],
        [
            dot(a[2], b[0][0], b[1][0], b[2][0]),
            dot(a[2], b[0][1], b[1][1], b[2][1]),
            dot(a[2], b[0][2], b[1][2], b[2][2]),
        ],
    ]
}

/// The entries of the matrix from XYZ to sRGB (D65 white point), in ten
/// thousandths.
pub open spec fn srgb_entries() -> Seq<Seq<int>> {
    seq![seq![32406, -15372, -4986], seq![-9689, 18758, 415], seq![557, -2040, 10570]]
}

/// `m` is the matrix from XYZ to sRGB.
pub open spec fn is_xyz_to_srgb<T: Sample>(m: [[T; 3]; 3]) -> bool {
    forall|i: int, j: int|
        0 <= i < 3 && 0 <= j < 3 ==> is_ratio(
            srgb_entries()[i][j] as i64,
            10_000,
            #[trigger] m[i][j],
        )
}

/// `out` came out as the matrix from camera values to sRGB: the inverse of the
/// matrix from XYZ, then the matrix to sRGB.
pub open spec fn is_cam_to_srgb<T: Sample>(xyz_to_cam: [[T; 3]; 3], out: [[T; 3]; 3]) -> bool {
    exists|xyz_to_srgb: [[T; 3]; 3], cam_to_xyz: [[T; 3]; 3]|
        is_xyz_to_srgb(xyz_to_srgb) && #[trigger] is_inverse(xyz_to_cam, cam_to_xyz)
            && #[trigger] is_matrix_product(xyz_to_srgb, cam_to_xyz, out)
}

/// Computes the matrix from camera values to sRGB, unless the matrix from XYZ
/// to camera values is singular.
pub fn compute_cam_to_srgb<T: Sample>(xyz_to_cam: &[[T; 3]; 3]) -> (out: Option<[[T; 3]; 3]>)
    ensures
        match out {
            Some(m) => is_cam_to_srgb(*xyz_to_cam, m),
            None => is_singular(*xyz_to_cam),
        },
{
    let xyz_to_srgb = [
        [T::ratio(32406, 10_000), T::ratio(-15372, 10_000), T::ratio(-4986, 10_000)],
        [T::ratio(-9689, 10_000), T::ratio(18758, 10_000), T::ratio(415, 10_000)],
        [T::ratio(557, 10_000), T::ratio(-2040, 10_000), T::ratio(10570, 10_000)],
    ];
    assert forall|i: int, j: int| 0 <= i < 3 && 0 <= j < 3 implies is_ratio(
        srgb_entries()[i][j] as i64,
        10_000,
        #[trigger] xyz_to_srgb[i][j],
    ) by {
        assert(i == 0 || i == 1 || i == 2);
        assert(j == 0 || j == 1 || j == 2);
    }
    match invert_3x3(xyz_to_cam) {
        Some(cam_to_xyz) => {
            let m = mat_mul_3x3(&xyz_to_srgb, &cam_to_xyz);
            assert(is_xyz_to_srgb(xyz_to_srgb));
            Some(m)
        },
        None => None,
    }
}

/// `gains` came out of the white balance multipliers, scaled so that the one
/// for green, the mean of both greens, is one.
pub open spec fn are_gains<T: Sample>(wb: [T; 4], gains: [T; 3]) -> bool {
    exists|green: T| #[trigger]
        is_green_mean(wb[1], wb[2], green) && is_quotient(wb[0], green, gains[0]) && is_one(
            gains[1],
        ) && is_quotient(wb[3], green, gains[2])
}

/// `v` came out as the mean of two values.
pub open spec fn is_green_mean<T: Sample>(a: T, b: T, v: T) -> bool {
    exists|sum: T, two: T|
        is_sum(a, b, sum) && is_ratio(2, 1, two) && #[trigger] is_quotient(sum, two, v)
}

fn green_mean<T: Sample>(a: T, b: T) -> (v: T)
    ensures
        is_green_mean(a, b, v),
{
    let sum = a.plus(b);
    let two: T = T::ratio(2, 1);
    sum.over(two)
}

/// Gains for red, green and blue from the white balance multipliers. Green
/// stays as it is, which keeps the overall brightness.
pub fn normalized_gains<T: Sample>(wb: &[T; 4]) -> (gains: [T; 3])
    ensures
        are_gains(*wb, gains),
{
    let green = green_mean(wb[1], wb[2]);
    let gains = [wb[0].over(green), T::ratio(1, 1), wb[3].over(green)];
    assert(is_green_mean(wb@[1], wb@[2], green));
    gains
}

/// `v` came out of `a * x + b * y + c * z`.
pub open spec fn is_mix<T: Sample>(a: T, x: T, b: T, y: T, c: T, z: T, v: T) -> bool {
    exists|p: T, q: T, pq: T, s: T| #[trigger]
        is_product(a, x, p) && #[trigger] is_product(b, y, q) && #[trigger] is_sum(p, q, pq)
            && #[trigger] is_product(c, z, s) && is_sum(pq, s, v)
}

fn mix<T: Sample>(a: T, x: T, b: T, y: T, c: T, z: T) -> (v: T)
    ensures
        is_mix(a, x, b, y, c, z, v),
{
    let p = a.times(x);
    let q = b.times(y);
    let pq = p.plus(q);
    let s = c.times(z);
    pq.plus(s)
}

/// `v` came out of a corrected value: negatives cut off, tone mapped, encoded.
pub open spec fn is_displayed<T: Sample>(x: T, v: T) -> bool {
    exists|floor: T, positive: T, mapped: T|
        {
            &&& is_zero(floor)
            &&& #[trigger] is_larger(x, floor, positive)
            &&& #[trigger] is_tone_mapped(positive, mapped)
            &&& is_srgb_encoded(mapped, v)
        }
}

fn displayed<T: Sample>(x: T) -> (v: T)
    ensures
        is_displayed(x, v),
{
    let floor: T = zero();
    let positive = x.larger(floor);
    let mapped = tone_map(positive);
    srgb_gamma(mapped)
}

/// `v` came out of one channel of a pixel with the balanced values `b`: mixed
/// by a row of the colour matrix, then displayed.
pub open spec fn is_finished_channel<T: Sample>(row: [T; 3], b: [T; 3], v: T) -> bool {
    exists|x: T| #[trigger]
        is_mix(row[0], b[0], row[1], b[1], row[2], b[2], x) && is_displayed(x, v)
}

fn finished_channel<T: Sample>(row: [T; 3], b: [T; 3]) -> (v: T)
    ensures
        is_finished_channel(row, b, v),
{
    let x = mix(row[0], b[0], row[1], b[1], row[2], b[2]);
    assert(is_mix(row@[0], b@[0], row@[1], b@[1], row@[2], b@[2], x));
    displayed(x)
}

/// `b` came out of a pixel by the gains of the white balance.
pub open spec fn is_balanced<T: Sample>(px: [T; 3], gains: [T; 3], b: [T; 3]) -> bool {
    forall|k: int| 0 <= k < 3 ==> is_product(px[k], gains[k], #[trigger] b[k])
}

/// `out` came out of a pixel: white balance, then each channel.
pub open spec fn is_finished_pixel<T: Sample>(
    px: [T; 3],
    gains: [T; 3],
    matrix: [[T; 3]; 3],
    out: [T; 3],
) -> bool {
    exists|b: [T; 3]| #[trigger]
        is_balanced(px, gains, b) && forall|k: int|
            0 <= k < 3 ==> is_finished_channel(matrix[k], b, #[trigger] out[k])
}

fn finished_pixel<T: Sample>(px: [T; 3], gains: &[T; 3], matrix: &[[T; 3]; 3]) -> (out: [T; 3])
    ensures
        is_finished_pixel(px, *gains, *matrix, out),
{
    let b = [px[0].times(gains[0]), px[1].times(gains[1]), px[2].times(gains[2])];
    assert(is_balanced(px, *gains, b));
    [
        finished_channel(matrix[0], b),
        finished_channel(matrix[1], b),
        finished_channel(matrix[2], b),
    ]
}

/// `out` came out of every pixel of `rgb`.
pub open spec fn is_finished_image<T: Sample>(
    rgb: Plane<[T; 3]>,
    gains: [T; 3],
    matrix: [[T; 3]; 3],
    out: Plane<[T; 3]>,
) -> bool {
    &&& out.wf()
    &&& out.same_size(&rgb)
    &&& forall|r: int, c: int|
        rgb.has(r, c) ==> is_finished_pixel(rgb.at(r, c), gains, matrix, #[trigger] out.at(r, c))
}

/// `out` came out of finishing `rgb`.
pub open spec fn is_finish<T: Sample>(
    rgb: Plane<[T; 3]>,
    wb_coeffs: [T; 4],
    xyz_to_cam: [[T; 3]; 3],
    out: Plane<[T; 3]>,
) -> bool {
    exists|gains: [T; 3], matrix: [[T; 3]; 3]| #[trigger]
        are_gains(wb_coeffs, gains) && #[trigger] is_cam_to_srgb(xyz_to_cam, matrix)
            && is_finished_image(rgb, gains, matrix, out)
}

/// Full finish of a linear image: white balance, colour correction, tone mapping
/// and gamma. There is no result where the colour matrix is singular.
pub fn finish<T: Sample>(
    rgb: &Plane<[T; 3]>,
    wb_coeffs: &[T; 4],
    xyz_to_cam: &[[T; 3]; 3],
) -> (out: Option<Plane<[T; 3]>>)
    requires
        rgb.wf(),
    ensures
        match out {
            Some(image) => is_finish(*rgb, *wb_coeffs, *xyz_to_cam, image),
            None => is_singular(*xyz_to_cam),
        },
{
    let matrix = match compute_cam_to_srgb(xyz_to_cam) {
        Some(m) => m,
        None => {
            return None;
        },
    };
    let gains = normalized_gains(wb_coeffs);
    let (h, w) = rgb.dim();
    let mut out = rgb.duplicate();
    let mut r: usize = 0;
    while r < h
        invariant
            r <= h,
            rgb.wf(),
            h == rgb.height(),
            w == rgb.width(),
            out.wf(),
            out.same_size(rgb),
            forall|p: int, q: int|
                #![trigger out.at(p, q)]
                rgb.has(p, q) && p < r ==> is_finished_pixel(
                    rgb.at(p, q),
                    gains,
                    matrix,
                    out.at(p, q),
                ),
        decreases h - r,
    {
        let mut c: usize = 0;
        while c < w
            invariant
                r < h,
                c <= w,
                rgb.wf(),
                h == rgb.height(),
                w == rgb.width(),
                out.wf(),
                out.same_size(rgb),
                forall|p: int, q: int|
                    #![trigger out.at(p, q)]
                    rgb.has(p, q) && (p < r || (p == r && q < c)) ==> is_finished_pixel(
                        rgb.at(p, q),
                        gains,
                        matrix,
                        out.at(p, q),
                    ),
            decreases w - c,
        {
            let px = finished_pixel(rgb.get(r, c), &gains, &matrix);
            out.set(r, c, px);
            c = c + 1;
        }
        r = r + 1;
    }
    assert(is_finished_image(*rgb, gains, matrix, out));
    Some(out)
}

} // verus!
