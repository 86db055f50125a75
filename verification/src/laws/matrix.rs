//! Laws of three by three matrices.
use crate::color_correction::is_alternating_sum;
use crate::color_correction::is_cam_to_srgb;
use crate::color_correction::is_cramer;
use crate::color_correction::is_cross;
use crate::color_correction::is_determinant;
use crate::color_correction::is_dot;
use crate::color_correction::is_first_row_minors;
use crate::color_correction::is_inverse;
use crate::color_correction::is_inverse_entry;
use crate::color_correction::is_matrix_product;
use crate::color_correction::is_minor_of;
use crate::color_correction::is_regularity_check;
use crate::color_correction::is_singular;
use crate::color_correction::is_xyz_to_srgb;
use crate::color_correction::minor;
use crate::color_correction::srgb_entries;
use crate::exact::is_exact;
use crate::exact::lemma_commute;
use crate::exact::lemma_distribute;
use crate::exact::lemma_regroup;
use crate::exact::size_of_real;
use crate::sample::is_difference;
use crate::sample::is_magnitude;
use crate::sample::is_product;
use crate::sample::is_quotient;
use crate::sample::is_ratio;
use crate::sample::is_sum;
use crate::sample::Sample;
use vstd::prelude::*;

verus! {

/// Three rows of three numbers.
pub open spec fn is_3x3(m: Seq<Seq<real>>) -> bool {
    m.len() == 3 && m[0].len() == 3 && m[1].len() == 3 && m[2].len() == 3
}

/// The entry in row `i` and column `j` of the adjugate of a matrix.
pub open spec fn adjugate(m: Seq<Seq<real>>, i: int, j: int) -> real {
    let at = minor(i, j);
    m[at.a.0][at.a.1] * m[at.b.0][at.b.1] - m[at.c.0][at.c.1] * m[at.d.0][at.d.1]
}

/// The determinant of a matrix, expanded along its first row.
pub open spec fn determinant_of(m: Seq<Seq<real>>) -> real {
    m[0][0] * (m[1][1] * m[2][2] - m[1][2] * m[2][1]) - m[0][1] * (m[1][0] * m[2][2] - m[1][2]
        * m[2][0]) + m[0][2] * (m[1][0] * m[2][1] - m[1][1] * m[2][0])
}

proof fn lemma_expand(x: real, a: real, b: real, c: real, d: real)
    ensures
        x * (a * b - c * d) == x * a * b - x * c * d,
        (a * b - c * d) * x == x * a * b - x * c * d,
{
    lemma_distribute(x, a * b, c * d);
    lemma_commute(x, a * b - c * d);
    lemma_regroup(x, a, b);
    lemma_regroup(x, c, d);
}

proof fn lemma_orders(x: real, y: real, z: real)
    ensures
        x * y * z == x * z * y,
        x * y * z == y * x * z,
        x * y * z == y * z * x,
        x * y * z == z * x * y,
        x * y * z == z * y * x,
{
    lemma_commute(x, y);
    lemma_commute(y, z);
    lemma_commute(x, z);
    lemma_regroup(x, y, z);
    lemma_regroup(x, z, y);
    lemma_regroup(y, z, x);
    lemma_regroup(z, y, x);
    lemma_commute(x, y * z);
}

proof fn lemma_matrix_times_adjugate(a: real, b: real, c: real, d: real, e: real, f: real, g: real, h: real, k: real)
    ensures
        a * (e * k - f * h) + b * (f * g - d * k) + c * (d * h - e * g) == a * (e * k - f * h) - b * (d * k - f * g) + c * (d * h - e * g),
        a * (c * h - b * k) + b * (a * k - c * g) + c * (b * g - a * h) == 0real,
        a * (b * f - c * e) + b * (c * d - a * f) + c * (a * e - b * d) == 0real,
        d * (e * k - f * h) + e * (f * g - d * k) + f * (d * h - e * g) == 0real,
        d * (c * h - b * k) + e * (a * k - c * g) + f * (b * g - a * h) == a * (e * k - f * h) - b * (d * k - f * g) + c * (d * h - e * g),
        d * (b * f - c * e) + e * (c * d - a * f) + f * (a * e - b * d) == 0real,
        g * (e * k - f * h) + h * (f * g - d * k) + k * (d * h - e * g) == 0real,
        g * (c * h - b * k) + h * (a * k - c * g) + k * (b * g - a * h) == 0real,
        g * (b * f - c * e) + h * (c * d - a * f) + k * (a * e - b * d) == a * (e * k - f * h) - b * (d * k - f * g) + c * (d * h - e * g),
{
    lemma_expand(a, e, k, f, h);
    lemma_expand(b, d, k, f, g);
    lemma_expand(c, d, h, e, g);
    lemma_expand(b, f, g, d, k);
    lemma_expand(a, c, h, b, k);
    lemma_expand(b, a, k, c, g);
    lemma_expand(c, b, g, a, h);
    lemma_expand(a, b, f, c, e);
    lemma_expand(b, c, d, a, f);
    lemma_expand(c, a, e, b, d);
    lemma_expand(d, e, k, f, h);
    lemma_expand(e, f, g, d, k);
    lemma_expand(f, d, h, e, g);
    lemma_expand(d, c, h, b, k);
    lemma_expand(e, a, k, c, g);
    lemma_expand(f, b, g, a, h);
    lemma_expand(d, b, f, c, e);
    lemma_expand(e, c, d, a, f);
    lemma_expand(f, a, e, b, d);
    lemma_expand(g, e, k, f, h);
    lemma_expand(h, f, g, d, k);
    lemma_expand(k, d, h, e, g);
    lemma_expand(g, c, h, b, k);
    lemma_expand(h, a, k, c, g);
    lemma_expand(k, b, g, a, h);
    lemma_expand(g, b, f, c, e);
    lemma_expand(h, c, d, a, f);
    lemma_expand(k, a, e, b, d);
    lemma_orders(a, b, f);
    lemma_orders(a, b, k);
    lemma_orders(a, c, e);
    lemma_orders(a, c, h);
    lemma_orders(a, e, f);
    lemma_orders(a, e, k);
    lemma_orders(a, f, h);
    lemma_orders(a, h, k);
    lemma_orders(b, c, d);
    lemma_orders(b, c, g);
    lemma_orders(b, d, f);
    lemma_orders(b, d, k);
    lemma_orders(b, f, g);
    lemma_orders(b, g, k);
    lemma_orders(c, d, e);
    lemma_orders(c, d, h);
    lemma_orders(c, e, g);
    lemma_orders(c, g, h);
    lemma_orders(d, e, k);
    lemma_orders(d, f, h);
    lemma_orders(d, h, k);
    lemma_orders(e, f, g);
    lemma_orders(e, g, k);
    lemma_orders(f, g, h);
}

proof fn lemma_adjugate_times_matrix(a: real, b: real, c: real, d: real, e: real, f: real, g: real, h: real, k: real)
    ensures
        (e * k - f * h) * a + (c * h - b * k) * d + (b * f - c * e) * g == a * (e * k - f * h) - b * (d * k - f * g) + c * (d * h - e * g),
        (e * k - f * h) * b + (c * h - b * k) * e + (b * f - c * e) * h == 0real,
        (e * k - f * h) * c + (c * h - b * k) * f + (b * f - c * e) * k == 0real,
        (f * g - d * k) * a + (a * k - c * g) * d + (c * d - a * f) * g == 0real,
        (f * g - d * k) * b + (a * k - c * g) * e + (c * d - a * f) * h == a * (e * k - f * h) - b * (d * k - f * g) + c * (d * h - e * g),
        (f * g - d * k) * c + (a * k - c * g) * f + (c * d - a * f) * k == 0real,
        (d * h - e * g) * a + (b * g - a * h) * d + (a * e - b * d) * g == 0real,
        (d * h - e * g) * b + (b * g - a * h) * e + (a * e - b * d) * h == 0real,
        (d * h - e * g) * c + (b * g - a * h) * f + (a * e - b * d) * k == a * (e * k - f * h) - b * (d * k - f * g) + c * (d * h - e * g),
{
    lemma_expand(a, e, k, f, h);
    lemma_expand(b, d, k, f, g);
    lemma_expand(c, d, h, e, g);
    lemma_expand(d, c, h, b, k);
    lemma_expand(g, b, f, c, e);
    lemma_expand(b, e, k, f, h);
    lemma_expand(e, c, h, b, k);
    lemma_expand(h, b, f, c, e);
    lemma_expand(c, e, k, f, h);
    lemma_expand(f, c, h, b, k);
    lemma_expand(k, b, f, c, e);
    lemma_expand(a, f, g, d, k);
    lemma_expand(d, a, k, c, g);
    lemma_expand(g, c, d, a, f);
    lemma_expand(b, f, g, d, k);
    lemma_expand(e, a, k, c, g);
    lemma_expand(h, c, d, a, f);
    lemma_expand(c, f, g, d, k);
    lemma_expand(f, a, k, c, g);
    lemma_expand(k, c, d, a, f);
    lemma_expand(a, d, h, e, g);
    lemma_expand(d, b, g, a, h);
    lemma_expand(g, a, e, b, d);
    lemma_expand(b, d, h, e, g);
    lemma_expand(e, b, g, a, h);
    lemma_expand(h, a, e, b, d);
    lemma_expand(f, b, g, a, h);
    lemma_expand(k, a, e, b, d);
    lemma_orders(a, d, h);
    lemma_orders(a, d, k);
    lemma_orders(a, e, g);
    lemma_orders(a, e, h);
    lemma_orders(a, e, k);
    lemma_orders(a, f, g);
    lemma_orders(a, f, h);
    lemma_orders(a, f, k);
    lemma_orders(b, d, g);
    lemma_orders(b, d, h);
    lemma_orders(b, d, k);
    lemma_orders(b, e, g);
    lemma_orders(b, e, k);
    lemma_orders(b, f, g);
    lemma_orders(b, f, h);
    lemma_orders(b, f, k);
    lemma_orders(c, d, g);
    lemma_orders(c, d, h);
    lemma_orders(c, d, k);
    lemma_orders(c, e, g);
    lemma_orders(c, e, h);
    lemma_orders(c, e, k);
    lemma_orders(c, f, g);
    lemma_orders(c, f, h);
}

/// Cramer's rule: a matrix times its adjugate has the determinant on its diagonal
/// and zeros elsewhere, whichever comes first.
pub proof fn cramers_rule_is_exact(m: Seq<Seq<real>>, i: int, j: int)
    requires
        is_3x3(m),
        0 <= i < 3,
        0 <= j < 3,
    ensures
        m[i][0] * adjugate(m, 0, j) + m[i][1] * adjugate(m, 1, j) + m[i][2] * adjugate(m, 2, j)
            == if i == j {
            determinant_of(m)
        } else {
            0real
        },
        adjugate(m, i, 0) * m[0][j] + adjugate(m, i, 1) * m[1][j] + adjugate(m, i, 2) * m[2][j]
            == if i == j {
            determinant_of(m)
        } else {
            0real
        },
{
    lemma_matrix_times_adjugate(
        m[0][0],
        m[0][1],
        m[0][2],
        m[1][0],
        m[1][1],
        m[1][2],
        m[2][0],
        m[2][1],
        m[2][2],
    );
    lemma_adjugate_times_matrix(
        m[0][0],
        m[0][1],
        m[0][2],
        m[1][0],
        m[1][1],
        m[1][2],
        m[2][0],
        m[2][1],
        m[2][2],
    );
    assert(i == 0 || i == 1 || i == 2);
    assert(j == 0 || j == 1 || j == 2);
}

/// The values of a matrix.
pub open spec fn matrix_values<T>(value: spec_fn(T) -> real, m: [[T; 3]; 3]) -> Seq<Seq<real>> {
    Seq::new(3, |i: int| Seq::new(3, |j: int| value(m[i][j])))
}

proof fn lemma_dot<T: Sample>(
    value: spec_fn(T) -> real,
    a: [T; 3],
    x: T,
    y: T,
    z: T,
    v: T,
)
    requires
        is_exact(value),
        is_dot(a, x, y, z, v),
    ensures
        value(v) == value(a[0]) * value(x) + value(a[1]) * value(y) + value(a[2]) * value(z),
{
    let (start, p, s, q, t, u) = choose|start: T, p: T, s: T, q: T, t: T, u: T|
        {
            &&& is_ratio(0, 1, start)
            &&& #[trigger] is_product(a[0], x, p)
            &&& #[trigger] is_sum(start, p, s)
            &&& #[trigger] is_product(a[1], y, q)
            &&& #[trigger] is_sum(s, q, t)
            &&& #[trigger] is_product(a[2], z, u)
            &&& is_sum(t, u, v)
        };
    assert(value(start) * 1real == 0real);
}

/// The entries of a product of matrices.
pub proof fn lemma_product<T: Sample>(
    value: spec_fn(T) -> real,
    a: [[T; 3]; 3],
    b: [[T; 3]; 3],
    p: [[T; 3]; 3],
    i: int,
    j: int,
)
    requires
        is_exact(value),
        is_matrix_product(a, b, p),
        0 <= i < 3,
        0 <= j < 3,
    ensures
        value(p[i][j]) == value(a[i][0]) * value(b[0][j]) + value(a[i][1]) * value(b[1][j]) + value(
            a[i][2],
        ) * value(b[2][j]),
{
    assert(is_dot(a[i], b[0][j], b[1][j], b[2][j], p[i][j]));
    lemma_dot(value, a[i], b[0][j], b[1][j], b[2][j], p[i][j]);
}

proof fn lemma_cross<T: Sample>(value: spec_fn(T) -> real, a: T, b: T, c: T, d: T, v: T)
    requires
        is_exact(value),
        is_cross(a, b, c, d, v),
    ensures
        value(v) == value(a) * value(b) - value(c) * value(d),
{
}

/// The determinant has the value that it should have.
pub proof fn lemma_determinant<T: Sample>(value: spec_fn(T) -> real, m: [[T; 3]; 3], det: T)
    requires
        is_exact(value),
        is_determinant(m, det),
    ensures
        value(det) == determinant_of(matrix_values(value, m)),
{
    let (x, y, z) = choose|x: T, y: T, z: T| #[trigger]
        is_first_row_minors(m, x, y, z) && is_alternating_sum(
            m[0][0],
            x,
            m[0][1],
            y,
            m[0][2],
            z,
            det,
        );
    lemma_cross(value, m[1][1], m[2][2], m[1][2], m[2][1], x);
    lemma_cross(value, m[1][0], m[2][2], m[1][2], m[2][0], y);
    lemma_cross(value, m[1][0], m[2][1], m[1][1], m[2][0], z);
    let (a, b, c) = (m[0][0], m[0][1], m[0][2]);
    let (p, q, pq, s) = choose|p: T, q: T, pq: T, s: T| #[trigger]
        is_product(a, x, p) && #[trigger] is_product(b, y, q) && #[trigger] is_difference(p, q, pq)
            && #[trigger] is_product(c, z, s) && is_sum(pq, s, det);
    assert(value(det) == value(a) * value(x) - value(b) * value(y) + value(c) * value(z));
}

proof fn lemma_regularity<T: Sample>(value: spec_fn(T) -> real, det: T, regular: bool)
    requires
        is_exact(value),
        is_regularity_check(det, regular),
    ensures
        regular == (size_of_real(value(det)) > 1real / 10_000_000_000real),
{
    let (size, least) = choose|size: T, least: T|
        is_magnitude(det, size) && is_ratio(1, 10_000_000_000, least) && #[trigger] call_ensures(
            T::exceeds,
            (size, least),
            regular,
        );
    assert(value(least) * 10_000_000_000real == 1real);
}

/// Whether a matrix is inverted goes by the size of its determinant.
pub proof fn inversion_goes_by_the_determinant<T: Sample>(
    value: spec_fn(T) -> real,
    m: [[T; 3]; 3],
    inv: [[T; 3]; 3],
)
    requires
        is_exact(value),
    ensures
        is_inverse(m, inv) ==> size_of_real(determinant_of(matrix_values(value, m))) > 1real
            / 10_000_000_000real,
        is_singular(m) ==> size_of_real(determinant_of(matrix_values(value, m))) <= 1real
            / 10_000_000_000real,
{
    if is_inverse(m, inv) {
        let det = choose|det: T| #[trigger]
            is_determinant(m, det) && is_regularity_check(det, true) && is_cramer(m, det, inv);
        lemma_determinant(value, m, det);
        lemma_regularity(value, det, true);
    }
    if is_singular(m) {
        let det = choose|det: T| #[trigger]
            is_determinant(m, det) && is_regularity_check(det, false);
        lemma_determinant(value, m, det);
        lemma_regularity(value, det, false);
    }
}

/// The entries of an inverse are those of the adjugate, all times one factor.
pub proof fn lemma_inverse<T: Sample>(
    value: spec_fn(T) -> real,
    m: [[T; 3]; 3],
    inv: [[T; 3]; 3],
) -> (k: real)
    requires
        is_exact(value),
        is_inverse(m, inv),
    ensures
        k * determinant_of(matrix_values(value, m)) == 1real,
        forall|i: int, j: int|
            0 <= i < 3 && 0 <= j < 3 ==> value(#[trigger] inv[i][j]) == adjugate(
                matrix_values(value, m),
                i,
                j,
            ) * k,
{
    let det = choose|det: T| #[trigger]
        is_determinant(m, det) && is_regularity_check(det, true) && is_cramer(m, det, inv);
    lemma_determinant(value, m, det);
    lemma_regularity(value, det, true);
    let (one, inv_det) = choose|one: T, inv_det: T|
        is_ratio(1, 1, one) && #[trigger] is_quotient(one, det, inv_det) && forall|i: int, j: int|
            0 <= i < 3 && 0 <= j < 3 ==> is_inverse_entry(
                m,
                minor(i, j),
                inv_det,
                #[trigger] inv[i][j],
            );
    assert(value(one) * 1real == 1real);
    assert forall|i: int, j: int| 0 <= i < 3 && 0 <= j < 3 implies value(#[trigger] inv[i][j])
        == adjugate(matrix_values(value, m), i, j) * value(inv_det) by {
        let at = minor(i, j);
        let v = inv[i][j];
        assert(is_inverse_entry(m, at, inv_det, v));
        let x = choose|x: T| is_minor_of(m, at, x) && #[trigger] is_product(x, inv_det, v);
        lemma_cross(
            value,
            m[at.a.0][at.a.1],
            m[at.b.0][at.b.1],
            m[at.c.0][at.c.1],
            m[at.d.0][at.d.1],
            x,
        );
    }
    value(inv_det)
}

/// `(x * k + y * k + z * k)`, whichever way the factors are grouped.
proof fn lemma_common_factor(a: real, b: real, c: real, x: real, y: real, z: real, k: real)
    ensures
        a * (x * k) + b * (y * k) + c * (z * k) == (a * x + b * y + c * z) * k,
        (x * k) * a + (y * k) * b + (z * k) * c == (x * a + y * b + z * c) * k,
{
    lemma_regroup(a, x, k);
    lemma_regroup(b, y, k);
    lemma_regroup(c, z, k);
    lemma_distribute(k, a * x + b * y, c * z);
    lemma_distribute(k, a * x, b * y);
    lemma_commute(a, x);
    lemma_commute(b, y);
    lemma_commute(c, z);
    lemma_commute(a, x * k);
    lemma_commute(b, y * k);
    lemma_commute(c, z * k);
}

/// A matrix times its inverse is the identity, whichever comes first.
pub proof fn inverses_multiply_to_one<T: Sample>(
    value: spec_fn(T) -> real,
    m: [[T; 3]; 3],
    inv: [[T; 3]; 3],
    p: [[T; 3]; 3],
    q: [[T; 3]; 3],
    i: int,
    j: int,
)
    requires
        is_exact(value),
        is_inverse(m, inv),
        is_matrix_product(m, inv, p),
        is_matrix_product(inv, m, q),
        0 <= i < 3,
        0 <= j < 3,
    ensures
        value(p[i][j]) == if i == j {
            1real
        } else {
            0real
        },
        value(q[i][j]) == if i == j {
            1real
        } else {
            0real
        },
{
    lemma_product(value, m, inv, p, i, j);
    lemma_product(value, inv, m, q, i, j);
    lemma_identity(value, m, inv, i, j);
}

/// What the entries of a matrix and of its inverse add up to.
proof fn lemma_identity<T: Sample>(
    value: spec_fn(T) -> real,
    m: [[T; 3]; 3],
    inv: [[T; 3]; 3],
    i: int,
    j: int,
)
    requires
        is_exact(value),
        is_inverse(m, inv),
        0 <= i < 3,
        0 <= j < 3,
    ensures
        value(m[i][0]) * value(inv[0][j]) + value(m[i][1]) * value(inv[1][j]) + value(m[i][2])
            * value(inv[2][j]) == if i == j {
            1real
        } else {
            0real
        },
        value(inv[i][0]) * value(m[0][j]) + value(inv[i][1]) * value(m[1][j]) + value(inv[i][2])
            * value(m[2][j]) == if i == j {
            1real
        } else {
            0real
        },
{
    let mv = matrix_values(value, m);
    let k = lemma_inverse(value, m, inv);
    cramers_rule_is_exact(mv, i, j);
    assert(mv[i][0] == value(m[i][0]) && mv[i][1] == value(m[i][1]) && mv[i][2] == value(m[i][2]));
    assert(mv[0][j] == value(m[0][j]) && mv[1][j] == value(m[1][j]) && mv[2][j] == value(m[2][j]));
    lemma_common_factor(
        mv[i][0],
        mv[i][1],
        mv[i][2],
        adjugate(mv, 0, j),
        adjugate(mv, 1, j),
        adjugate(mv, 2, j),
        k,
    );
    lemma_common_factor(
        mv[0][j],
        mv[1][j],
        mv[2][j],
        adjugate(mv, i, 0),
        adjugate(mv, i, 1),
        adjugate(mv, i, 2),
        k,
    );
    lemma_commute(k, determinant_of(mv));
    assert(0real * k == 0real);
}

/// A row of a product of matrices, times a number.
proof fn lemma_row_times(
    s0: real,
    s1: real,
    s2: real,
    n0: real,
    n1: real,
    n2: real,
    x: real,
)
    ensures
        (s0 * n0 + s1 * n1 + s2 * n2) * x == s0 * (n0 * x) + s1 * (n1 * x) + s2 * (n2 * x),
{
    lemma_distribute(x, s0 * n0 + s1 * n1, s2 * n2);
    lemma_distribute(x, s0 * n0, s1 * n1);
    lemma_regroup(s0, n0, x);
    lemma_regroup(s1, n1, x);
    lemma_regroup(s2, n2, x);
}

proof fn lemma_times_three(s: real, x: real, y: real, z: real)
    ensures
        s * (x + y + z) == s * x + s * y + s * z,
{
    lemma_distribute(s, x + y, z);
    lemma_distribute(s, x, y);
}

/// The matrix from camera values to sRGB, after the one from XYZ to camera
/// values, is the matrix from XYZ to sRGB.
pub proof fn camera_and_back_is_srgb<T: Sample>(
    value: spec_fn(T) -> real,
    xyz_to_cam: [[T; 3]; 3],
    out: [[T; 3]; 3],
    p: [[T; 3]; 3],
    i: int,
    j: int,
)
    requires
        is_exact(value),
        is_cam_to_srgb(xyz_to_cam, out),
        is_matrix_product(out, xyz_to_cam, p),
        0 <= i < 3,
        0 <= j < 3,
    ensures
        10_000real * value(p[i][j]) == srgb_entries()[i][j] as real,
{
    let m = xyz_to_cam;
    let (s, n) = choose|s: [[T; 3]; 3], n: [[T; 3]; 3]|
        is_xyz_to_srgb(s) && #[trigger] is_inverse(m, n) && #[trigger] is_matrix_product(s, n, out);
    lemma_product(value, out, m, p, i, j);
    lemma_product(value, s, n, out, i, 0);
    lemma_product(value, s, n, out, i, 1);
    lemma_product(value, s, n, out, i, 2);
    lemma_identity(value, m, n, 0, j);
    lemma_identity(value, m, n, 1, j);
    lemma_identity(value, m, n, 2, j);
    let (s0, s1, s2) = (value(s[i][0]), value(s[i][1]), value(s[i][2]));
    let (x0, x1, x2) = (value(m[0][j]), value(m[1][j]), value(m[2][j]));
    lemma_row_times(s0, s1, s2, value(n[0][0]), value(n[1][0]), value(n[2][0]), x0);
    lemma_row_times(s0, s1, s2, value(n[0][1]), value(n[1][1]), value(n[2][1]), x1);
    lemma_row_times(s0, s1, s2, value(n[0][2]), value(n[1][2]), value(n[2][2]), x2);
    lemma_times_three(s0, value(n[0][0]) * x0, value(n[0][1]) * x1, value(n[0][2]) * x2);
    lemma_times_three(s1, value(n[1][0]) * x0, value(n[1][1]) * x1, value(n[1][2]) * x2);
    lemma_times_three(s2, value(n[2][0]) * x0, value(n[2][1]) * x1, value(n[2][2]) * x2);
    assert(s0 * 1real == s0 && s1 * 1real == s1 && s2 * 1real == s2);
    assert(s0 * 0real == 0real && s1 * 0real == 0real && s2 * 0real == 0real);
    assert(value(p[i][j]) == value(s[i][j])) by {
        assert(j == 0 || j == 1 || j == 2);
    }
    assert(is_ratio(srgb_entries()[i][j] as i64, 10_000, s[i][j]));
    assert(value(s[i][j]) * 10_000real == (srgb_entries()[i][j] as i64) as real);
    assert(-20_000 <= srgb_entries()[i][j] <= 40_000) by {
        assert(i == 0 || i == 1 || i == 2);
        assert(j == 0 || j == 1 || j == 2);
    }
    lemma_commute(value(s[i][j]), 10_000real);
}

} // verus!
