//! Laws of what each pixel of a pyramid is made of.
use crate::align::is_blur;
use crate::align::is_column_blur;
use crate::align::is_next_level;
use crate::align::is_pyramid;
use crate::align::is_row_blur;
use crate::align::is_subsample;
use crate::exact::is_exact;
use crate::laws::align::lemma_column_blur;
use crate::laws::align::lemma_mean_of_four;
use crate::laws::align::lemma_row_blur;
use crate::laws::align::lemma_same_blur;
use crate::laws::kernel::near;
use crate::laws::kernel::within;
use crate::plane::Plane;
use crate::sample::Sample;
use vstd::prelude::*;

verus! {

/// Five values along a row, weighed one, four, six, four and one; beyond the edge
/// the last value is repeated.
pub open spec fn row_of_five<T>(
    value: spec_fn(T) -> real,
    image: Plane<T>,
    r: int,
    c: int,
) -> real {
    let w = image.width() as int;
    value(image.at(r, within(c - 2, w))) + 4real * value(image.at(r, within(c - 1, w))) + 6real
        * value(image.at(r, c)) + 4real * value(image.at(r, within(c + 1, w))) + value(
        image.at(r, within(c + 2, w)),
    )
}

/// A blurred pixel is made of the 25 pixels around it, weighed by one, four, six,
/// four and one along rows and along columns, over 256; beyond the edges the pixels
/// at the edge are repeated.
pub proof fn blurred_pixels_are_made_of_25<T: Sample>(
    value: spec_fn(T) -> real,
    image: Plane<T>,
    out: Plane<T>,
    r: int,
    c: int,
)
    requires
        is_exact(value),
        is_blur(image, out),
        image.has(r, c),
    ensures
        out.has(r, c),
        ({
            let h = image.height() as int;
            256real * value(out.at(r, c)) == row_of_five(value, image, within(r - 2, h), c) + 4real
                * row_of_five(value, image, within(r - 1, h), c) + 6real * row_of_five(
                value,
                image,
                r,
                c,
            ) + 4real * row_of_five(value, image, within(r + 1, h), c) + row_of_five(
                value,
                image,
                within(r + 2, h),
                c,
            )
        }),
{
    let middle = choose|middle: Plane<T>| #[trigger]
        is_row_blur(image, middle) && is_column_blur(middle, out);
    let h = image.height() as int;
    lemma_column_blur(value, middle, out, r, c);
    lemma_row_blur(value, image, middle, within(r - 2, h), c);
    lemma_row_blur(value, image, middle, within(r - 1, h), c);
    lemma_row_blur(value, image, middle, r, c);
    lemma_row_blur(value, image, middle, within(r + 1, h), c);
    lemma_row_blur(value, image, middle, within(r + 2, h), c);
}

/// Away from the edges the blur looks the same on all sides: mirrored left for
/// right or upside down, it gives the same value.
pub proof fn blur_has_no_favourite_side<T: Sample>(
    value: spec_fn(T) -> real,
    a: Plane<T>,
    a_out: Plane<T>,
    ar: int,
    ac: int,
    b: Plane<T>,
    b_out: Plane<T>,
    br: int,
    bc: int,
)
    requires
        is_exact(value),
        is_blur(a, a_out),
        is_blur(b, b_out),
        2 <= ar < a.height() - 2,
        2 <= ac < a.width() - 2,
        2 <= br < b.height() - 2,
        2 <= bc < b.width() - 2,
        (forall|i: int, j: int|
            -2 <= i <= 2 && -2 <= j <= 2 ==> #[trigger] near(value, a, ar, ac, i, j) == near(
                value,
                b,
                br,
                bc,
                i,
                -j,
            )) || (forall|i: int, j: int|
            -2 <= i <= 2 && -2 <= j <= 2 ==> #[trigger] near(value, a, ar, ac, i, j) == near(
                value,
                b,
                br,
                bc,
                -i,
                j,
            )),
    ensures
        value(a_out.at(ar, ac)) == value(b_out.at(br, bc)),
{
    blurred_pixels_are_made_of_25(value, a, a_out, ar, ac);
    blurred_pixels_are_made_of_25(value, b, b_out, br, bc);
    lemma_five(value, a, ar, ac, -2);
    lemma_five(value, a, ar, ac, -1);
    lemma_five(value, a, ar, ac, 0);
    lemma_five(value, a, ar, ac, 1);
    lemma_five(value, a, ar, ac, 2);
    lemma_five(value, b, br, bc, -2);
    lemma_five(value, b, br, bc, -1);
    lemma_five(value, b, br, bc, 0);
    lemma_five(value, b, br, bc, 1);
    lemma_five(value, b, br, bc, 2);
}

proof fn lemma_five<T>(value: spec_fn(T) -> real, image: Plane<T>, r: int, c: int, i: int)
    requires
        2 <= c < image.width() - 2,
    ensures
        row_of_five(value, image, r + i, c) == near(value, image, r, c, i, -2) + 4real * near(
            value,
            image,
            r,
            c,
            i,
            -1,
        ) + 6real * near(value, image, r, c, i, 0) + 4real * near(value, image, r, c, i, 1) + near(
            value,
            image,
            r,
            c,
            i,
            2,
        ),
{
}

/// A subsampled pixel is the mean of the four that it stands for, and the image has
/// half as many rows and columns.
pub proof fn subsampled_pixels_stand_for_four<T: Sample>(
    value: spec_fn(T) -> real,
    image: Plane<T>,
    out: Plane<T>,
    r: int,
    c: int,
)
    requires
        is_exact(value),
        is_subsample(image, out),
        0 <= r,
        0 <= c,
        2 * r + 1 < image.height(),
        2 * c + 1 < image.width(),
    ensures
        out.has(r, c),
        image.height() - 1 <= 2 * out.height() <= image.height(),
        image.width() - 1 <= 2 * out.width() <= image.width(),
        4real * value(out.at(r, c)) == value(image.at(2 * r, 2 * c)) + value(
            image.at(2 * r, 2 * c + 1),
        ) + value(image.at(2 * r + 1, 2 * c)) + value(image.at(2 * r + 1, 2 * c + 1)),
{
    assert(out.has(r, c));
    lemma_mean_of_four(
        value,
        image.at(2 * r, 2 * c),
        image.at(2 * r, 2 * c + 1),
        image.at(2 * r + 1, 2 * c),
        image.at(2 * r + 1, 2 * c + 1),
        out.at(r, c),
    );
}

/// The first level of a pyramid is the image, and each pixel of each further level
/// is the mean of four pixels of the blurred level before.
pub proof fn levels_are_blurred_and_halved<T: Sample>(
    value: spec_fn(T) -> real,
    image: Plane<T>,
    levels: Seq<Plane<T>>,
    k: int,
    blurred: Plane<T>,
    r: int,
    c: int,
)
    requires
        is_exact(value),
        is_pyramid(image, levels),
        1 <= k < levels.len(),
        is_blur(levels[k - 1], blurred),
        0 <= r,
        0 <= c,
        2 * r + 1 < levels[k - 1].height(),
        2 * c + 1 < levels[k - 1].width(),
    ensures
        levels[0].same_size(&image),
        forall|i: int, j: int| image.has(i, j) ==> #[trigger] levels[0].at(i, j) == image.at(i, j),
        levels[k].has(r, c),
        levels[k - 1].height() - 1 <= 2 * levels[k].height() <= levels[k - 1].height(),
        levels[k - 1].width() - 1 <= 2 * levels[k].width() <= levels[k - 1].width(),
        4real * value(levels[k].at(r, c)) == value(blurred.at(2 * r, 2 * c)) + value(
            blurred.at(2 * r, 2 * c + 1),
        ) + value(blurred.at(2 * r + 1, 2 * c)) + value(blurred.at(2 * r + 1, 2 * c + 1)),
{
    let prev = levels[k - 1];
    let next = levels[k];
    assert(is_next_level(prev, next));
    let b = choose|b: Plane<T>| #[trigger] is_blur(prev, b) && is_subsample(b, next);
    lemma_same_blur(value, prev, prev, b, blurred);
    assert(b.has(2 * r, 2 * c) && b.has(2 * r, 2 * c + 1));
    assert(b.has(2 * r + 1, 2 * c) && b.has(2 * r + 1, 2 * c + 1));
    subsampled_pixels_stand_for_four(value, b, next, r, c);
}

} // verus!
