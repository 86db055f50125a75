//! Laws of pyramids.
use crate::align::blur_weights;
use crate::align::column_window;
use crate::align::is_blur;
use crate::align::is_column_blur;
use crate::align::is_mean_of_four;
use crate::align::is_next_level;
use crate::align::is_pyramid;
use crate::align::is_row_blur;
use crate::align::is_smoothed;
use crate::align::is_subsample;
use crate::align::is_weighted_total;
use crate::align::row_window;
use crate::exact::is_exact;
use crate::exact::lemma_commute;
use crate::exact::lies_within;
use crate::exact::same_values;
use crate::plane::clamp_index;
use crate::plane::Plane;
use crate::sample::is_product;
use crate::sample::is_quotient;
use crate::sample::is_ratio;
use crate::sample::is_sum;
use crate::sample::Sample;
use vstd::prelude::*;

verus! {

/// The first `n` values, each times its weight, added up.
pub open spec fn weighted_sum<T>(
    value: spec_fn(T) -> real,
    values: Seq<T>,
    weights: Seq<i64>,
    n: nat,
) -> real
    decreases n,
{
    if n == 0 {
        0real
    } else {
        weighted_sum(value, values, weights, (n - 1) as nat) + value(values[n - 1]) * (weights[n
            - 1] as real)
    }
}

proof fn lemma_weighted_total<T: Sample>(
    value: spec_fn(T) -> real,
    values: Seq<T>,
    weights: Seq<i64>,
    n: nat,
    s: T,
)
    requires
        is_exact(value),
        n <= values.len(),
        n <= weights.len(),
        is_weighted_total(values.take(n as int), weights.take(n as int), s),
    ensures
        value(s) == weighted_sum(value, values, weights, n),
    decreases n,
{
    let vs = values.take(n as int);
    let ws = weights.take(n as int);
    if n == 0 {
        assert(value(s) * 1real == 0real);
    } else {
        let (p, k, m) = choose|p: T, k: T, m: T|
            is_weighted_total(vs.drop_last(), ws.drop_last(), p) && is_ratio(ws.last(), 1, k)
                && #[trigger] is_product(vs.last(), k, m) && #[trigger] is_sum(p, m, s);
        assert(vs.drop_last() =~= values.take(n - 1));
        assert(ws.drop_last() =~= weights.take(n - 1));
        assert(vs.last() == values[n - 1]);
        assert(ws.last() == weights[n - 1]);
        lemma_weighted_total(value, values, weights, (n - 1) as nat, p);
        assert(value(k) * (1i64 as real) == weights[n - 1] as real);
        assert(value(k) * 1real == value(k));
    }
}

/// The value of five smoothed values.
proof fn lemma_smoothed<T: Sample>(value: spec_fn(T) -> real, values: Seq<T>, v: T)
    requires
        is_exact(value),
        values.len() == 5,
        is_smoothed(values, v),
    ensures
        16real * value(v) == value(values[0]) + 4real * value(values[1]) + 6real * value(values[2])
            + 4real * value(values[3]) + value(values[4]),
{
    let weights = blur_weights();
    let (s, n) = choose|s: T, n: T|
        is_weighted_total(values, weights, s) && is_ratio(16, 1, n) && #[trigger] is_quotient(
            s,
            n,
            v,
        );
    assert(values.take(5) =~= values);
    assert(weights.take(5) =~= weights);
    lemma_weighted_total(value, values, weights, 5, s);
    reveal_with_fuel(weighted_sum, 6);
    lemma_commute(value(values[0]), weights[0] as real);
    lemma_commute(value(values[1]), weights[1] as real);
    lemma_commute(value(values[2]), weights[2] as real);
    lemma_commute(value(values[3]), weights[3] as real);
    lemma_commute(value(values[4]), weights[4] as real);
    assert((weights[0] as real) * value(values[0]) == 1real * value(values[0]));
    assert((weights[1] as real) * value(values[1]) == 4real * value(values[1]));
    assert((weights[2] as real) * value(values[2]) == 6real * value(values[2]));
    assert((weights[3] as real) * value(values[3]) == 4real * value(values[3]));
    assert((weights[4] as real) * value(values[4]) == 1real * value(values[4]));
    assert(value(n) * 1real == 16real);
    lemma_commute(value(v), value(n));
    assert(value(n) * value(v) == 16real * value(v));
}

/// The value of a pixel of a blurred row.
pub proof fn lemma_row_blur<T: Sample>(
    value: spec_fn(T) -> real,
    image: Plane<T>,
    out: Plane<T>,
    r: int,
    c: int,
)
    requires
        is_exact(value),
        is_row_blur(image, out),
        image.has(r, c),
    ensures
        ({
            let w = image.width() as int;
            16real * value(out.at(r, c)) == value(image.at(r, clamp_index(c - 2, w))) + 4real
                * value(image.at(r, clamp_index(c - 1, w))) + 6real * value(image.at(r, c)) + 4real
                * value(image.at(r, clamp_index(c + 1, w))) + value(
                image.at(r, clamp_index(c + 2, w)),
            )
        }),
{
    lemma_smoothed(value, row_window(image, r, c), out.at(r, c));
}

/// The value of a pixel of a blurred column.
pub proof fn lemma_column_blur<T: Sample>(
    value: spec_fn(T) -> real,
    image: Plane<T>,
    out: Plane<T>,
    r: int,
    c: int,
)
    requires
        is_exact(value),
        is_column_blur(image, out),
        image.has(r, c),
    ensures
        ({
            let h = image.height() as int;
            16real * value(out.at(r, c)) == value(image.at(clamp_index(r - 2, h), c)) + 4real
                * value(image.at(clamp_index(r - 1, h), c)) + 6real * value(image.at(r, c)) + 4real
                * value(image.at(clamp_index(r + 1, h), c)) + value(
                image.at(clamp_index(r + 2, h), c),
            )
        }),
{
    lemma_smoothed(value, column_window(image, r, c), out.at(r, c));
}

/// The blur stays within the range of its image; so it keeps a flat one as it is.
pub proof fn blur_stays_in_range<T: Sample>(
    value: spec_fn(T) -> real,
    image: Plane<T>,
    out: Plane<T>,
    low: real,
    high: real,
)
    requires
        is_exact(value),
        is_blur(image, out),
        lies_within(value, image, low, high),
    ensures
        out.same_size(&image),
        lies_within(value, out, low, high),
{
    let middle = choose|middle: Plane<T>| #[trigger]
        is_row_blur(image, middle) && is_column_blur(middle, out);
    let h = image.height() as int;
    let w = image.width() as int;
    assert forall|r: int, c: int| middle.has(r, c) implies low <= value(
        #[trigger] middle.at(r, c),
    ) <= high by {
        lemma_row_blur(value, image, middle, r, c);
        assert(image.has(r, clamp_index(c - 2, w)));
        assert(image.has(r, clamp_index(c - 1, w)));
        assert(image.has(r, clamp_index(c + 1, w)));
        assert(image.has(r, clamp_index(c + 2, w)));
    }
    assert forall|r: int, c: int| out.has(r, c) implies low <= value(#[trigger] out.at(r, c))
        <= high by {
        lemma_column_blur(value, middle, out, r, c);
        assert(middle.has(clamp_index(r - 2, h), c));
        assert(middle.has(clamp_index(r - 1, h), c));
        assert(middle.has(clamp_index(r + 1, h), c));
        assert(middle.has(clamp_index(r + 2, h), c));
    }
}

/// `b` has the values of `a`, rows and columns exchanged.
pub open spec fn is_transpose<T>(value: spec_fn(T) -> real, a: Plane<T>, b: Plane<T>) -> bool {
    &&& a.height() == b.width()
    &&& a.width() == b.height()
    &&& forall|r: int, c: int|
        #![trigger a.at(r, c)]
        #![trigger b.at(c, r)]
        a.has(r, c) ==> value(a.at(r, c)) == value(b.at(c, r))
}

/// The blur commutes with exchanging rows and columns.
pub proof fn blur_commutes_with_transposition<T: Sample>(
    value: spec_fn(T) -> real,
    image: Plane<T>,
    out: Plane<T>,
    flipped: Plane<T>,
    flipped_out: Plane<T>,
)
    requires
        is_exact(value),
        is_transpose(value, image, flipped),
        is_blur(image, out),
        is_blur(flipped, flipped_out),
    ensures
        is_transpose(value, out, flipped_out),
{
    let middle = choose|middle: Plane<T>| #[trigger]
        is_row_blur(image, middle) && is_column_blur(middle, out);
    let flipped_middle = choose|middle: Plane<T>| #[trigger]
        is_row_blur(flipped, middle) && is_column_blur(middle, flipped_out);
    assert forall|r: int, c: int|
        #![trigger out.at(r, c)]
        #![trigger flipped_out.at(c, r)]
        out.has(r, c) implies value(out.at(r, c)) == value(flipped_out.at(c, r)) by {
        let h = image.height() as int;
        let w = image.width() as int;
        let (r0, r1, r3, r4) = (
            clamp_index(r - 2, h),
            clamp_index(r - 1, h),
            clamp_index(r + 1, h),
            clamp_index(r + 2, h),
        );
        let (c0, c1, c3, c4) = (
            clamp_index(c - 2, w),
            clamp_index(c - 1, w),
            clamp_index(c + 1, w),
            clamp_index(c + 2, w),
        );
        lemma_column_blur(value, middle, out, r, c);
        lemma_row_blur(value, image, middle, r0, c);
        lemma_row_blur(value, image, middle, r1, c);
        lemma_row_blur(value, image, middle, r, c);
        lemma_row_blur(value, image, middle, r3, c);
        lemma_row_blur(value, image, middle, r4, c);
        lemma_column_blur(value, flipped_middle, flipped_out, c, r);
        lemma_row_blur(value, flipped, flipped_middle, c0, r);
        lemma_row_blur(value, flipped, flipped_middle, c1, r);
        lemma_row_blur(value, flipped, flipped_middle, c, r);
        lemma_row_blur(value, flipped, flipped_middle, c3, r);
        lemma_row_blur(value, flipped, flipped_middle, c4, r);
    }
}

/// The value of a pixel that stands for four.
pub proof fn lemma_mean_of_four<T: Sample>(
    value: spec_fn(T) -> real,
    a: T,
    b: T,
    c: T,
    d: T,
    v: T,
)
    requires
        is_exact(value),
        is_mean_of_four(a, b, c, d, v),
    ensures
        4real * value(v) == value(a) + value(b) + value(c) + value(d),
{
    let (ab, abc, abcd, n) = choose|ab: T, abc: T, abcd: T, n: T|
        is_sum(a, b, ab) && #[trigger] is_sum(ab, c, abc) && is_sum(abc, d, abcd) && is_ratio(
            4,
            1,
            n,
        ) && #[trigger] is_quotient(abcd, n, v);
    assert(value(n) * 1real == 4real);
    lemma_commute(value(v), value(n));
    assert(value(n) * value(v) == 4real * value(v));
}

/// All levels of a pyramid stay within the range of the image; so a flat image
/// has the same flat value on all levels.
pub proof fn pyramids_stay_in_range<T: Sample>(
    value: spec_fn(T) -> real,
    image: Plane<T>,
    levels: Seq<Plane<T>>,
    k: int,
    low: real,
    high: real,
)
    requires
        is_exact(value),
        is_pyramid(image, levels),
        lies_within(value, image, low, high),
        0 <= k < levels.len(),
    ensures
        lies_within(value, levels[k], low, high),
    decreases k,
{
    if k == 0 {
        assert forall|r: int, c: int| levels[0].has(r, c) implies low <= value(
            #[trigger] levels[0].at(r, c),
        ) <= high by {
            assert(image.has(r, c));
            assert(levels[0].at(r, c) == image.at(r, c));
        }
    } else {
        let prev = levels[k - 1];
        let next = levels[k];
        pyramids_stay_in_range(value, image, levels, k - 1, low, high);
        assert(is_next_level(prev, next));
        let blurred = choose|blurred: Plane<T>| #[trigger]
            is_blur(prev, blurred) && is_subsample(blurred, next);
        blur_stays_in_range(value, prev, blurred, low, high);
        assert forall|r: int, c: int| next.has(r, c) implies low <= value(#[trigger] next.at(r, c))
            <= high by {
            lemma_mean_of_four(
                value,
                blurred.at(2 * r, 2 * c),
                blurred.at(2 * r, 2 * c + 1),
                blurred.at(2 * r + 1, 2 * c),
                blurred.at(2 * r + 1, 2 * c + 1),
                next.at(r, c),
            );
            assert(blurred.has(2 * r, 2 * c));
            assert(blurred.has(2 * r, 2 * c + 1));
            assert(blurred.has(2 * r + 1, 2 * c));
            assert(blurred.has(2 * r + 1, 2 * c + 1));
        }
    }
}

/// Images of the same values blur to the same values.
pub proof fn lemma_same_blur<T: Sample>(
    value: spec_fn(T) -> real,
    a: Plane<T>,
    b: Plane<T>,
    a_out: Plane<T>,
    b_out: Plane<T>,
)
    requires
        is_exact(value),
        same_values(value, a, b),
        is_blur(a, a_out),
        is_blur(b, b_out),
    ensures
        same_values(value, a_out, b_out),
{
    let a_middle = choose|middle: Plane<T>| #[trigger]
        is_row_blur(a, middle) && is_column_blur(middle, a_out);
    let b_middle = choose|middle: Plane<T>| #[trigger]
        is_row_blur(b, middle) && is_column_blur(middle, b_out);
    let h = a.height() as int;
    let w = a.width() as int;
    assert forall|r: int, c: int| a.has(r, c) implies value(#[trigger] a_middle.at(r, c)) == value(
        b_middle.at(r, c),
    ) by {
        lemma_row_blur(value, a, a_middle, r, c);
        lemma_row_blur(value, b, b_middle, r, c);
        assert(a.has(r, clamp_index(c - 2, w)) && a.has(r, clamp_index(c - 1, w)));
        assert(a.has(r, clamp_index(c + 1, w)) && a.has(r, clamp_index(c + 2, w)));
    }
    assert forall|r: int, c: int|
        #![trigger a_out.at(r, c)]
        #![trigger b_out.at(r, c)]
        a_out.has(r, c) implies value(a_out.at(r, c)) == value(b_out.at(r, c)) by {
        lemma_column_blur(value, a_middle, a_out, r, c);
        lemma_column_blur(value, b_middle, b_out, r, c);
        assert(a.has(clamp_index(r - 2, h), c) && a.has(clamp_index(r - 1, h), c));
        assert(a.has(clamp_index(r + 1, h), c) && a.has(clamp_index(r + 2, h), c));
    }
}

/// Pyramids over images of the same values have the same values on all levels
/// that both have: more levels leave the first ones as they are.
pub proof fn pyramids_agree<T: Sample>(
    value: spec_fn(T) -> real,
    image: Plane<T>,
    other: Plane<T>,
    levels: Seq<Plane<T>>,
    more: Seq<Plane<T>>,
    k: int,
)
    requires
        is_exact(value),
        same_values(value, image, other),
        is_pyramid(image, levels),
        is_pyramid(other, more),
        0 <= k < levels.len(),
        k < more.len(),
    ensures
        same_values(value, levels[k], more[k]),
    decreases k,
{
    let a = levels[k];
    let b = more[k];
    if k == 0 {
        assert forall|r: int, c: int|
            #![trigger a.at(r, c)]
            #![trigger b.at(r, c)]
            a.has(r, c) implies value(a.at(r, c)) == value(b.at(r, c)) by {
            assert(a.at(r, c) == image.at(r, c));
            assert(b.at(r, c) == other.at(r, c));
        }
    } else {
        pyramids_agree(value, image, other, levels, more, k - 1);
        let p = levels[k - 1];
        let q = more[k - 1];
        assert(is_next_level(p, a));
        assert(is_next_level(q, b));
        let a_blur = choose|blurred: Plane<T>| #[trigger]
            is_blur(p, blurred) && is_subsample(blurred, a);
        let b_blur = choose|blurred: Plane<T>| #[trigger]
            is_blur(q, blurred) && is_subsample(blurred, b);
        lemma_same_blur(value, p, q, a_blur, b_blur);
        assert forall|r: int, c: int|
            #![trigger a.at(r, c)]
            #![trigger b.at(r, c)]
            a.has(r, c) implies value(a.at(r, c)) == value(b.at(r, c)) by {
            lemma_mean_of_four(
                value,
                a_blur.at(2 * r, 2 * c),
                a_blur.at(2 * r, 2 * c + 1),
                a_blur.at(2 * r + 1, 2 * c),
                a_blur.at(2 * r + 1, 2 * c + 1),
                a.at(r, c),
            );
            lemma_mean_of_four(
                value,
                b_blur.at(2 * r, 2 * c),
                b_blur.at(2 * r, 2 * c + 1),
                b_blur.at(2 * r + 1, 2 * c),
                b_blur.at(2 * r + 1, 2 * c + 1),
                b.at(r, c),
            );
            assert(a_blur.has(2 * r, 2 * c) && a_blur.has(2 * r, 2 * c + 1));
            assert(a_blur.has(2 * r + 1, 2 * c) && a_blur.has(2 * r + 1, 2 * c + 1));
        }
    }
}

} // verus!
