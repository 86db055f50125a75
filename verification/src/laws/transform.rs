//! Laws of the two-dimensional transforms.
use crate::exact::is_exact;
use crate::exact::lemma_commute;
use crate::exact::lemma_positive;
use crate::exact::lemma_regroup;
use crate::exact::lemma_whole_product;
use crate::exact::same_values;
use crate::merge::column_of;
use crate::merge::is_column_pass;
use crate::merge::is_dft;
use crate::merge::is_idft;
use crate::merge::is_inverse_scale;
use crate::merge::is_lifted;
use crate::merge::is_row_pass;
use crate::merge::is_scaled_real;
use crate::merge::is_transformed;
use crate::merge::row_of;
use crate::merge::Complex;
use crate::plane::Plane;
use crate::sample::is_count;
use crate::sample::is_product;
use crate::sample::is_quotient;
use crate::sample::is_ratio;
use crate::sample::Sample;
use vstd::prelude::*;

verus! {

/// The values of `w` are `k` times those of `z`.
pub open spec fn is_times<T>(
    value: spec_fn(T) -> real,
    z: Complex<T>,
    w: Complex<T>,
    k: real,
) -> bool {
    value(w.re) == k * value(z.re) && value(w.im) == k * value(z.im)
}

/// The values of the line `b` are `k` times those of the line `a`.
pub open spec fn is_multiple<T>(
    value: spec_fn(T) -> real,
    a: Seq<Complex<T>>,
    b: Seq<Complex<T>>,
    k: real,
) -> bool {
    &&& a.len() == b.len()
    &&& forall|i: int|
        #![trigger a[i]]
        #![trigger b[i]]
        0 <= i < a.len() ==> is_times(value, a[i], b[i], k)
}

/// The values of the plane `b` are `k` times those of the plane `a`.
pub open spec fn is_plane_multiple<T>(
    value: spec_fn(T) -> real,
    a: Plane<Complex<T>>,
    b: Plane<Complex<T>>,
    k: real,
) -> bool {
    &&& a.same_size(&b)
    &&& forall|r: int, c: int|
        #![trigger a.at(r, c)]
        #![trigger b.at(r, c)]
        a.has(r, c) ==> is_times(value, a.at(r, c), b.at(r, c), k)
}

/// What `f` makes of a line depends on its values alone.
pub open spec fn goes_by_values<T: Sample, F: Fn(Vec<Complex<T>>) -> Vec<Complex<T>>>(
    value: spec_fn(T) -> real,
    f: F,
) -> bool {
    forall|a: Seq<Complex<T>>, b: Seq<Complex<T>>, u: Seq<Complex<T>>, v: Seq<Complex<T>>|
        #![trigger is_transformed(f, a, u), is_transformed(f, b, v)]
        is_transformed(f, a, u) && is_transformed(f, b, v) && is_multiple(value, a, b, 1real)
            ==> is_multiple(value, u, v, 1real)
}

/// For lines of `n` values, `inverse` undoes `forward` but for the factor `n`: it
/// makes of a multiple of a transformed line `n` times that multiple of the line.
pub open spec fn inverts_lines<
    T: Sample,
    F: Fn(Vec<Complex<T>>) -> Vec<Complex<T>>,
    G: Fn(Vec<Complex<T>>) -> Vec<Complex<T>>,
>(value: spec_fn(T) -> real, forward: F, inverse: G, n: nat) -> bool {
    forall|
        line: Seq<Complex<T>>,
        there: Seq<Complex<T>>,
        handed: Seq<Complex<T>>,
        back: Seq<Complex<T>>,
        k: real,
    |
        #![trigger is_transformed(forward, line, there), is_transformed(inverse, handed, back), is_multiple(value, there, handed, k)]
        line.len() == n && is_transformed(forward, line, there) && is_multiple(
            value,
            there,
            handed,
            k,
        ) && is_transformed(inverse, handed, back) ==> is_multiple(
            value,
            line,
            back,
            k * (n as real),
        )
}

/// Rows and columns of a multiple are multiples.
proof fn lemma_lines_of_multiple<T>(
    value: spec_fn(T) -> real,
    a: Plane<Complex<T>>,
    b: Plane<Complex<T>>,
    k: real,
)
    requires
        is_plane_multiple(value, a, b, k),
    ensures
        forall|r: int|
            0 <= r < a.height() ==> is_multiple(
                value,
                #[trigger] row_of(a, r),
                row_of(b, r),
                k,
            ),
        forall|c: int|
            0 <= c < a.width() ==> is_multiple(
                value,
                #[trigger] column_of(a, c),
                column_of(b, c),
                k,
            ),
{
    assert forall|r: int| 0 <= r < a.height() implies is_multiple(
        value,
        #[trigger] row_of(a, r),
        row_of(b, r),
        k,
    ) by {
        let (u, v) = (row_of(a, r), row_of(b, r));
        assert forall|i: int|
            #![trigger u[i]]
            #![trigger v[i]]
            0 <= i < u.len() implies is_times(value, u[i], v[i], k) by {
            assert(a.has(r, i));
            assert(is_times(value, a.at(r, i), b.at(r, i), k));
        }
    }
    assert forall|c: int| 0 <= c < a.width() implies is_multiple(
        value,
        #[trigger] column_of(a, c),
        column_of(b, c),
        k,
    ) by {
        let (u, v) = (column_of(a, c), column_of(b, c));
        assert forall|i: int|
            #![trigger u[i]]
            #![trigger v[i]]
            0 <= i < u.len() implies is_times(value, u[i], v[i], k) by {
            assert(a.has(i, c));
            assert(is_times(value, a.at(i, c), b.at(i, c), k));
        }
    }
}

/// The inverse transform of the transform of a tile is the tile: the passes bring
/// back its values times the number of its cells, and the scale takes that factor
/// away again.
pub proof fn inverse_transform_undoes_transform<
    T: Sample,
    F: Fn(Vec<Complex<T>>) -> Vec<Complex<T>>,
    G: Fn(Vec<Complex<T>>) -> Vec<Complex<T>>,
>(
    value: spec_fn(T) -> real,
    forward: F,
    inverse: G,
    tile: Plane<T>,
    z: Plane<Complex<T>>,
    out: Plane<T>,
)
    requires
        is_exact(value),
        tile.wf(),
        tile.height() == tile.width(),
        tile.height() > 0,
        inverts_lines(value, forward, inverse, tile.height()),
        is_dft(forward, tile, z),
        is_idft(inverse, z, out),
    ensures
        same_values(value, tile, out),
{
    lemma_round_trip(value, forward, inverse, tile, z, z, out);
}

/// The inverse transform of a spectrum with the values of the transform of a tile
/// has the values of the tile.
pub proof fn lemma_round_trip<
    T: Sample,
    F: Fn(Vec<Complex<T>>) -> Vec<Complex<T>>,
    G: Fn(Vec<Complex<T>>) -> Vec<Complex<T>>,
>(
    value: spec_fn(T) -> real,
    forward: F,
    inverse: G,
    tile: Plane<T>,
    z: Plane<Complex<T>>,
    handed: Plane<Complex<T>>,
    out: Plane<T>,
)
    requires
        is_exact(value),
        tile.wf(),
        tile.height() == tile.width(),
        tile.height() > 0,
        inverts_lines(value, forward, inverse, tile.height()),
        is_dft(forward, tile, z),
        is_plane_multiple(value, z, handed, 1real),
        is_idft(inverse, handed, out),
    ensures
        same_values(value, tile, out),
{
    let n = tile.height();
    let m = n as real;
    let (lifted, rows) = choose|lifted: Plane<Complex<T>>, rows: Plane<Complex<T>>|
        is_lifted(tile, lifted) && #[trigger] is_row_pass(forward, lifted, rows)
            && #[trigger] is_column_pass(forward, rows, z);
    let (middle, back) = choose|middle: Plane<Complex<T>>, back: Plane<Complex<T>>| #[trigger]
        is_column_pass(inverse, handed, middle) && #[trigger] is_row_pass(inverse, middle, back)
            && is_scaled_real(back, out);
    let once = 1real * m;
    let twice = once * m;
    lemma_lines_of_multiple(value, z, handed, 1real);
    assert(is_plane_multiple(value, rows, middle, once)) by {
        assert forall|r: int, c: int|
            #![trigger rows.at(r, c)]
            #![trigger middle.at(r, c)]
            rows.has(r, c) implies is_times(value, rows.at(r, c), middle.at(r, c), once) by {
            let (line, there) = (column_of(rows, c), column_of(z, c));
            let (passed, again) = (column_of(handed, c), column_of(middle, c));
            assert(is_transformed(forward, line, there));
            assert(is_transformed(inverse, passed, again));
            assert(is_multiple(value, there, passed, 1real));
            assert(is_multiple(value, line, again, once));
            assert(is_times(value, line[r], again[r], once));
        }
    }
    lemma_lines_of_multiple(value, rows, middle, once);
    let (one, cells, scale) = lemma_scale_of(value, back, out);
    lemma_whole_product(n, n);
    tile.lemma_wf();
    assert(value(scale) * (m * m) == 1real) by {
        assert(m * m > 0real) by {
            lemma_positive(m, m);
        }
    }
    assert(once == m);
    assert(twice == m * m);
    assert forall|r: int, c: int|
        #![trigger tile.at(r, c)]
        #![trigger out.at(r, c)]
        tile.has(r, c) implies value(tile.at(r, c)) == value(out.at(r, c)) by {
        let (line, there) = (row_of(lifted, r), row_of(rows, r));
        let (passed, again) = (row_of(middle, r), row_of(back, r));
        assert(is_transformed(forward, line, there));
        assert(is_transformed(inverse, passed, again));
        assert(is_multiple(value, there, passed, once));
        assert(is_multiple(value, line, again, twice));
        assert(is_times(value, line[c], again[c], twice));
        let x = value(tile.at(r, c));
        assert(lifted.at(r, c).re == tile.at(r, c));
        assert(value(back.at(r, c).re) == twice * x);
        assert(back.has(r, c));
        assert(is_product(back.at(r, c).re, scale, out.at(r, c)));
        // (twice * x) * scale == x * (scale * twice)
        lemma_commute(twice, x);
        lemma_regroup(x, twice, value(scale));
        lemma_commute(twice, value(scale));
        assert(x * 1real == x);
    }
}

/// The scale by which an inverse transform was multiplied.
pub proof fn lemma_scale_of<T: Sample>(
    value: spec_fn(T) -> real,
    z: Plane<Complex<T>>,
    out: Plane<T>,
) -> (s: (T, T, T))
    requires
        is_exact(value),
        is_scaled_real(z, out),
    ensures
        value(s.0) == 1real,
        value(s.1) == ((z.height() * z.height()) as usize) as real,
        value(s.1) != 0real ==> value(s.2) * value(s.1) == 1real,
        is_quotient(s.0, s.1, s.2),
        forall|r: int, c: int|
            z.has(r, c) ==> is_product(z.at(r, c).re, s.2, #[trigger] out.at(r, c)),
{
    let scale = choose|scale: T| #[trigger]
        is_inverse_scale(z.height(), scale) && forall|r: int, c: int|
            z.has(r, c) ==> is_product(z.at(r, c).re, scale, #[trigger] out.at(r, c));
    let (one, cells) = choose|one: T, cells: T|
        is_ratio(1, 1, one) && is_count((z.height() * z.height()) as usize, cells)
            && #[trigger] is_quotient(one, cells, scale);
    assert(value(one) * 1real == 1real);
    (one, cells, scale)
}

/// Tiles of the same values have transforms of the same values.
pub proof fn lemma_same_dft<T: Sample, F: Fn(Vec<Complex<T>>) -> Vec<Complex<T>>>(
    value: spec_fn(T) -> real,
    f: F,
    a: Plane<T>,
    b: Plane<T>,
    u: Plane<Complex<T>>,
    v: Plane<Complex<T>>,
)
    requires
        is_exact(value),
        goes_by_values(value, f),
        same_values(value, a, b),
        is_dft(f, a, u),
        is_dft(f, b, v),
    ensures
        is_plane_multiple(value, u, v, 1real),
{
    let (a_lifted, a_rows) = choose|lifted: Plane<Complex<T>>, rows: Plane<Complex<T>>|
        is_lifted(a, lifted) && #[trigger] is_row_pass(f, lifted, rows)
            && #[trigger] is_column_pass(f, rows, u);
    let (b_lifted, b_rows) = choose|lifted: Plane<Complex<T>>, rows: Plane<Complex<T>>|
        is_lifted(b, lifted) && #[trigger] is_row_pass(f, lifted, rows)
            && #[trigger] is_column_pass(f, rows, v);
    assert(is_plane_multiple(value, a_lifted, b_lifted, 1real)) by {
        assert forall|r: int, c: int|
            #![trigger a_lifted.at(r, c)]
            #![trigger b_lifted.at(r, c)]
            a_lifted.has(r, c) implies is_times(
            value,
            a_lifted.at(r, c),
            b_lifted.at(r, c),
            1real,
        ) by {
            assert(a_lifted.at(r, c).re == a.at(r, c));
            assert(b_lifted.at(r, c).re == b.at(r, c));
            assert(is_ratio(0, 1, a_lifted.at(r, c).im));
            assert(is_ratio(0, 1, b_lifted.at(r, c).im));
            assert(value(a_lifted.at(r, c).im) * 1real == 0real);
            assert(value(b_lifted.at(r, c).im) * 1real == 0real);
        }
    }
    lemma_same_row_pass(value, f, a_lifted, b_lifted, a_rows, b_rows);
    lemma_same_column_pass(value, f, a_rows, b_rows, u, v);
}

proof fn lemma_same_row_pass<T: Sample, F: Fn(Vec<Complex<T>>) -> Vec<Complex<T>>>(
    value: spec_fn(T) -> real,
    f: F,
    a: Plane<Complex<T>>,
    b: Plane<Complex<T>>,
    u: Plane<Complex<T>>,
    v: Plane<Complex<T>>,
)
    requires
        goes_by_values(value, f),
        is_plane_multiple(value, a, b, 1real),
        is_row_pass(f, a, u),
        is_row_pass(f, b, v),
    ensures
        is_plane_multiple(value, u, v, 1real),
{
    lemma_lines_of_multiple(value, a, b, 1real);
    assert forall|r: int, c: int|
        #![trigger u.at(r, c)]
        #![trigger v.at(r, c)]
        u.has(r, c) implies is_times(value, u.at(r, c), v.at(r, c), 1real) by {
        assert(is_transformed(f, row_of(a, r), row_of(u, r)));
        assert(is_transformed(f, row_of(b, r), row_of(v, r)));
        assert(is_multiple(value, row_of(u, r), row_of(v, r), 1real));
        assert(is_times(value, row_of(u, r)[c], row_of(v, r)[c], 1real));
    }
}

proof fn lemma_same_column_pass<T: Sample, F: Fn(Vec<Complex<T>>) -> Vec<Complex<T>>>(
    value: spec_fn(T) -> real,
    f: F,
    a: Plane<Complex<T>>,
    b: Plane<Complex<T>>,
    u: Plane<Complex<T>>,
    v: Plane<Complex<T>>,
)
    requires
        goes_by_values(value, f),
        is_plane_multiple(value, a, b, 1real),
        is_column_pass(f, a, u),
        is_column_pass(f, b, v),
    ensures
        is_plane_multiple(value, u, v, 1real),
{
    lemma_lines_of_multiple(value, a, b, 1real);
    assert forall|r: int, c: int|
        #![trigger u.at(r, c)]
        #![trigger v.at(r, c)]
        u.has(r, c) implies is_times(value, u.at(r, c), v.at(r, c), 1real) by {
        assert(is_transformed(f, column_of(a, c), column_of(u, c)));
        assert(is_transformed(f, column_of(b, c), column_of(v, c)));
        assert(is_multiple(value, column_of(u, c), column_of(v, c), 1real));
        assert(is_times(value, column_of(u, c)[r], column_of(v, c)[r], 1real));
    }
}

/// Spectra of the same values have inverse transforms of the same values.
pub proof fn lemma_same_idft<T: Sample, F: Fn(Vec<Complex<T>>) -> Vec<Complex<T>>>(
    value: spec_fn(T) -> real,
    f: F,
    a: Plane<Complex<T>>,
    b: Plane<Complex<T>>,
    u: Plane<T>,
    v: Plane<T>,
)
    requires
        is_exact(value),
        goes_by_values(value, f),
        is_plane_multiple(value, a, b, 1real),
        is_idft(f, a, u),
        is_idft(f, b, v),
    ensures
        same_values(value, u, v),
{
    let (a_middle, a_back) = choose|middle: Plane<Complex<T>>, back: Plane<Complex<T>>| #[trigger]
        is_column_pass(f, a, middle) && #[trigger] is_row_pass(f, middle, back) && is_scaled_real(
            back,
            u,
        );
    let (b_middle, b_back) = choose|middle: Plane<Complex<T>>, back: Plane<Complex<T>>| #[trigger]
        is_column_pass(f, b, middle) && #[trigger] is_row_pass(f, middle, back) && is_scaled_real(
            back,
            v,
        );
    lemma_same_column_pass(value, f, a, b, a_middle, b_middle);
    lemma_same_row_pass(value, f, a_middle, b_middle, a_back, b_back);
    let s = lemma_scale_of(value, a_back, u);
    let t = lemma_scale_of(value, b_back, v);
    assert(value(s.2) == value(t.2));
    assert forall|r: int, c: int|
        #![trigger u.at(r, c)]
        #![trigger v.at(r, c)]
        u.has(r, c) implies value(u.at(r, c)) == value(v.at(r, c)) by {
        assert(is_times(value, a_back.at(r, c), b_back.at(r, c), 1real));
        assert(is_product(a_back.at(r, c).re, s.2, u.at(r, c)));
        assert(is_product(b_back.at(r, c).re, t.2, v.at(r, c)));
    }
}

} // verus!
