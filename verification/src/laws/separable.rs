//! Laws of transforms in two directions.
use crate::exact::is_exact;
use crate::exact::lemma_commute;
use crate::exact::lemma_positive;
use crate::exact::lemma_regroup;
use crate::exact::lemma_whole_product;
use crate::laws::transform::lemma_scale_of;
use crate::merge::column_of;
use crate::merge::is_column_pass;
use crate::merge::is_dft;
use crate::merge::is_idft;
use crate::merge::is_lifted;
use crate::merge::is_row_pass;
use crate::merge::is_scaled_real;
use crate::merge::is_transformed;
use crate::merge::row_of;
use crate::merge::Complex;
use crate::plane::Plane;
use crate::sample::is_product;
use crate::sample::is_ratio;
use crate::sample::Sample;
use vstd::prelude::*;

verus! {

/// `w` is the product of `z` and the complex number `k`.
pub open spec fn is_product_with<T>(
    value: spec_fn(T) -> real,
    z: Complex<T>,
    k: (real, real),
    w: Complex<T>,
) -> bool {
    &&& value(w.re) == k.0 * value(z.re) - k.1 * value(z.im)
    &&& value(w.im) == k.0 * value(z.im) + k.1 * value(z.re)
}

/// The line `b` is the line `a` times the complex number `k`.
pub open spec fn is_line_times<T>(
    value: spec_fn(T) -> real,
    a: Seq<Complex<T>>,
    k: (real, real),
    b: Seq<Complex<T>>,
) -> bool {
    &&& a.len() == b.len()
    &&& forall|i: int|
        #![trigger a[i]]
        #![trigger b[i]]
        0 <= i < a.len() ==> is_product_with(value, a[i], k, b[i])
}

/// What `f` makes of a multiple of a line is that multiple of what it makes of the
/// line, whatever the complex factor.
pub open spec fn keeps_factors<T: Sample, F: Fn(Vec<Complex<T>>) -> Vec<Complex<T>>>(
    value: spec_fn(T) -> real,
    f: F,
) -> bool {
    forall|
        a: Seq<Complex<T>>,
        b: Seq<Complex<T>>,
        u: Seq<Complex<T>>,
        v: Seq<Complex<T>>,
        k: (real, real),
    |
        #![trigger is_transformed(f, a, u), is_transformed(f, b, v), is_line_times(value, a, k, b)]
        is_transformed(f, a, u) && is_transformed(f, b, v) && is_line_times(value, a, k, b)
            ==> is_line_times(value, u, k, v)
}

/// The value of a complex number.
pub open spec fn pair_of<T>(value: spec_fn(T) -> real, z: Complex<T>) -> (real, real) {
    (value(z.re), value(z.im))
}

/// A tile goes through the transform in both directions: where each of its values is
/// the product of one that stands for its row and one that stands for its column, the
/// spectrum at `(u, v)` is the product of what the transform makes of the former at
/// `u` and of the latter at `v`.
pub proof fn transforms_go_both_ways<T: Sample, F: Fn(Vec<Complex<T>>) -> Vec<Complex<T>>>(
    value: spec_fn(T) -> real,
    f: F,
    tile: Plane<T>,
    z: Plane<Complex<T>>,
    down: Seq<Complex<T>>,
    down_after: Seq<Complex<T>>,
    across: Seq<Complex<T>>,
    across_after: Seq<Complex<T>>,
    u: int,
    v: int,
)
    requires
        is_exact(value),
        keeps_factors(value, f),
        is_dft(f, tile, z),
        down.len() == tile.height(),
        across.len() == tile.width(),
        forall|i: int| 0 <= i < down.len() ==> value((#[trigger] down[i]).im) == 0real,
        forall|j: int| 0 <= j < across.len() ==> value((#[trigger] across[j]).im) == 0real,
        forall|i: int, j: int|
            tile.has(i, j) ==> value(#[trigger] tile.at(i, j)) == value(down[i].re) * value(
                across[j].re,
            ),
        is_transformed(f, down, down_after),
        is_transformed(f, across, across_after),
        tile.has(u, v),
    ensures
        is_product_with(value, down_after[u], pair_of(value, across_after[v]), z.at(u, v)),
{
    let (lifted, rows) = choose|lifted: Plane<Complex<T>>, rows: Plane<Complex<T>>|
        is_lifted(tile, lifted) && #[trigger] is_row_pass(f, lifted, rows)
            && #[trigger] is_column_pass(f, rows, z);
    assert forall|r: int| 0 <= r < tile.height() implies is_line_times(
        value,
        across_after,
        (value(down[r].re), 0real),
        #[trigger] row_of(rows, r),
    ) by {
        let k = (value(down[r].re), 0real);
        let line = row_of(lifted, r);
        assert forall|i: int|
            #![trigger across[i]]
            #![trigger line[i]]
            0 <= i < across.len() implies is_product_with(value, across[i], k, line[i]) by {
            assert(tile.has(r, i));
            assert(line[i] == lifted.at(r, i));
            assert(lifted.at(r, i).re == tile.at(r, i));
            assert(is_ratio(0, 1, lifted.at(r, i).im));
            assert(value(lifted.at(r, i).im) * 1real == 0real);
            assert(value(across[i].im) == 0real);
            assert(k.0 * 0real == 0real && 0real * 0real == 0real);
            assert(0real * value(across[i].re) == 0real);
        }
        assert(is_line_times(value, across, k, line));
        assert(is_transformed(f, line, row_of(rows, r)));
    }
    let k = pair_of(value, across_after[v]);
    let column = column_of(rows, v);
    assert(column.len() == down.len());
    assert forall|i: int|
        #![trigger down[i]]
        #![trigger column[i]]
        0 <= i < down.len() implies is_product_with(value, down[i], k, column[i]) by {
        let row = row_of(rows, i);
        assert(is_line_times(value, across_after, (value(down[i].re), 0real), row));
        assert(is_product_with(value, across_after[v], (value(down[i].re), 0real), row[v]));
        assert(column[i] == rows.at(i, v) && row[v] == rows.at(i, v));
        let x = value(down[i].re);
        lemma_commute(x, k.0);
        lemma_commute(x, k.1);
        assert(value(down[i].im) == 0real);
        assert(k.0 * 0real == 0real && k.1 * 0real == 0real);
        assert(0real * k.0 == 0real && 0real * k.1 == 0real);
    }
    assert(is_line_times(value, down, k, column));
    assert(is_transformed(f, column, column_of(z, v)));
    assert(is_line_times(value, down_after, k, column_of(z, v)));
    assert(column_of(z, v)[u] == z.at(u, v));
}

/// So does a spectrum through the inverse transform, and what comes out is the real
/// part, over the number of cells.
pub proof fn inverse_transforms_go_both_ways<
    T: Sample,
    F: Fn(Vec<Complex<T>>) -> Vec<Complex<T>>,
>(
    value: spec_fn(T) -> real,
    f: F,
    z: Plane<Complex<T>>,
    tile: Plane<T>,
    down: Seq<Complex<T>>,
    down_after: Seq<Complex<T>>,
    across: Seq<Complex<T>>,
    across_after: Seq<Complex<T>>,
    r: int,
    c: int,
)
    requires
        is_exact(value),
        keeps_factors(value, f),
        z.wf(),
        z.height() == z.width(),
        is_idft(f, z, tile),
        down.len() == z.height(),
        across.len() == z.width(),
        forall|i: int, j: int|
            z.has(i, j) ==> is_product_with(
                value,
                down[i],
                pair_of(value, across[j]),
                #[trigger] z.at(i, j),
            ),
        is_transformed(f, down, down_after),
        is_transformed(f, across, across_after),
        z.has(r, c),
    ensures
        value(tile.at(r, c)) * ((z.height() * z.width()) as real) == value(down_after[r].re)
            * value(across_after[c].re) - value(down_after[r].im) * value(across_after[c].im),
{
    let (middle, back) = choose|middle: Plane<Complex<T>>, back: Plane<Complex<T>>| #[trigger]
        is_column_pass(f, z, middle) && #[trigger] is_row_pass(f, middle, back) && is_scaled_real(
            back,
            tile,
        );
    assert forall|j: int| 0 <= j < z.width() implies is_line_times(
        value,
        down_after,
        pair_of(value, across[j]),
        #[trigger] column_of(middle, j),
    ) by {
        let k = pair_of(value, across[j]);
        let line = column_of(z, j);
        assert forall|i: int|
            #![trigger down[i]]
            #![trigger line[i]]
            0 <= i < down.len() implies is_product_with(value, down[i], k, line[i]) by {
            assert(z.has(i, j));
            assert(line[i] == z.at(i, j));
        }
        assert(is_line_times(value, down, k, line));
        assert(is_transformed(f, line, column_of(middle, j)));
    }
    let k = pair_of(value, down_after[r]);
    let row = row_of(middle, r);
    assert(row.len() == across.len());
    assert forall|j: int|
        #![trigger across[j]]
        #![trigger row[j]]
        0 <= j < across.len() implies is_product_with(value, across[j], k, row[j]) by {
        let column = column_of(middle, j);
        assert(is_line_times(value, down_after, pair_of(value, across[j]), column));
        assert(is_product_with(value, down_after[r], pair_of(value, across[j]), column[r]));
        assert(row[j] == middle.at(r, j) && column[r] == middle.at(r, j));
        lemma_commute(value(across[j].re), k.0);
        lemma_commute(value(across[j].im), k.1);
        lemma_commute(value(across[j].re), k.1);
        lemma_commute(value(across[j].im), k.0);
    }
    assert(is_line_times(value, across, k, row));
    assert(is_transformed(f, row, row_of(back, r)));
    assert(is_line_times(value, across_after, k, row_of(back, r)));
    assert(row_of(back, r)[c] == back.at(r, c));
    assert(is_product_with(value, across_after[c], k, back.at(r, c)));
    let (one, cells, scale) = lemma_scale_of(value, back, tile);
    assert(is_product(back.at(r, c).re, scale, tile.at(r, c)));
    let n = z.height();
    z.lemma_wf();
    lemma_whole_product(n, n);
    lemma_positive(n as real, n as real);
    let x = value(back.at(r, c).re);
    assert(value(scale) * value(cells) == 1real);
    lemma_regroup(x, value(scale), value(cells));
    assert(x * 1real == x);
}

} // verus!
