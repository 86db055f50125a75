//! Laws of what each colour of a pixel is estimated from.
use crate::burst::CfaPattern;
use crate::demosaic::block_values;
use crate::demosaic::channel_of;
use crate::demosaic::is_block_mean;
use crate::demosaic::is_blue_at_red;
use crate::demosaic::is_blue_in_blue_row;
use crate::demosaic::is_blue_in_red_row;
use crate::demosaic::is_border_value;
use crate::demosaic::is_demosaiced;
use crate::demosaic::is_demosaiced_image;
use crate::demosaic::is_estimated;
use crate::demosaic::is_green_at_red_or_blue;
use crate::demosaic::is_interior;
use crate::demosaic::is_interpolated;
use crate::demosaic::is_red_at_blue;
use crate::demosaic::is_red_in_blue_row;
use crate::demosaic::is_red_in_red_row;
use crate::demosaic::is_tap_sum;
use crate::demosaic::is_total;
use crate::demosaic::is_weighted;
use crate::demosaic::kernel_for;
use crate::demosaic::tap;
use crate::demosaic::under_tap;
use crate::demosaic::Kernel;
use crate::demosaic::Tap;
use crate::exact::clamp_real;
use crate::exact::is_exact;
use crate::exact::lemma_commute;
use crate::exact::lemma_unit_clamp;
use crate::laws::demosaic::lemma_weighted;
use crate::plane::Plane;
use crate::sample::is_count;
use crate::sample::is_quotient;
use crate::sample::is_ratio;
use crate::sample::is_sum;
use crate::sample::is_unit_clamped;
use crate::sample::Sample;
use vstd::prelude::*;

verus! {

/// The value of the pixel `dr` rows below and `dc` columns to the right of
/// `(r, c)`.
pub open spec fn near<T>(
    value: spec_fn(T) -> real,
    image: Plane<T>,
    r: int,
    c: int,
    dr: int,
    dc: int,
) -> real {
    value(image.at(r + dr, c + dc))
}

/// Twice what the first `n` taps add up to.
spec fn twice_taps<T>(
    value: spec_fn(T) -> real,
    bayer: Plane<T>,
    r: int,
    c: int,
    taps: Seq<Tap>,
    n: nat,
) -> real
    decreases n,
{
    if n == 0 {
        0real
    } else {
        let t = taps[n - 1];
        twice_taps(value, bayer, r, c, taps, (n - 1) as nat) + (t.halves as real) * near(
            value,
            bayer,
            r,
            c,
            t.dr as int,
            t.dc as int,
        )
    }
}

proof fn lemma_taps<T: Sample>(
    value: spec_fn(T) -> real,
    bayer: Plane<T>,
    r: int,
    c: int,
    taps: Seq<Tap>,
    n: nat,
    s: T,
)
    requires
        is_exact(value),
        0 < n <= taps.len(),
        is_tap_sum(bayer, r, c, taps.take(n as int), s),
    ensures
        2real * value(s) == twice_taps(value, bayer, r, c, taps, n),
    decreases n,
{
    let upto = taps.take(n as int);
    let t = taps[n - 1];
    assert(upto.last() == t);
    let x = under_tap(bayer, r, c, t);
    if n == 1 {
        lemma_weighted(value, x, t.halves, s);
        assert(twice_taps(value, bayer, r, c, taps, 0) == 0real);
    } else {
        let (p, w) = choose|p: T, w: T|
            is_tap_sum(bayer, r, c, upto.drop_last(), p) && is_weighted(x, t.halves, w)
                && #[trigger] is_sum(p, w, s);
        assert(upto.drop_last() =~= taps.take(n - 1));
        lemma_taps(value, bayer, r, c, taps, (n - 1) as nat, p);
        lemma_weighted(value, x, t.halves, w);
    }
}

/// One more tap, with what it stands for written out.
proof fn lemma_tap_step<T>(
    value: spec_fn(T) -> real,
    bayer: Plane<T>,
    r: int,
    c: int,
    taps: Seq<Tap>,
    n: nat,
    dr: int,
    dc: int,
    halves: int,
)
    requires
        n < taps.len(),
        -2 <= dr <= 2,
        -2 <= dc <= 2,
        -12 <= halves <= 12,
        taps[n as int] == tap(dr, dc, halves),
    ensures
        twice_taps(value, bayer, r, c, taps, n + 1) == twice_taps(value, bayer, r, c, taps, n) + (
        halves as real) * near(value, bayer, r, c, dr, dc),
{
}

proof fn lemma_green_value<T>(value: spec_fn(T) -> real, bayer: Plane<T>, r: int, c: int)
    ensures
        twice_taps(value, bayer, r, c, Kernel::GreenAtRedOrBlue.taps(), 9) == 8real * near(
            value,
            bayer,
            r,
            c,
            0,
            0,
        ) + 4real * (near(value, bayer, r, c, -1, 0) + near(value, bayer, r, c, 1, 0) + near(
            value,
            bayer,
            r,
            c,
            0,
            -1,
        ) + near(value, bayer, r, c, 0, 1)) - 2real * (near(value, bayer, r, c, -2, 0) + near(
            value,
            bayer,
            r,
            c,
            2,
            0,
        ) + near(value, bayer, r, c, 0, -2) + near(value, bayer, r, c, 0, 2)),
{
    let taps = Kernel::GreenAtRedOrBlue.taps();
    lemma_tap_step(value, bayer, r, c, taps, 0, -2, 0, -2);
    lemma_tap_step(value, bayer, r, c, taps, 1, 0, -2, -2);
    lemma_tap_step(value, bayer, r, c, taps, 2, -1, 0, 4);
    lemma_tap_step(value, bayer, r, c, taps, 3, 0, -1, 4);
    lemma_tap_step(value, bayer, r, c, taps, 4, 0, 0, 8);
    lemma_tap_step(value, bayer, r, c, taps, 5, 1, 0, 4);
    lemma_tap_step(value, bayer, r, c, taps, 6, 0, 1, 4);
    lemma_tap_step(value, bayer, r, c, taps, 7, 2, 0, -2);
    lemma_tap_step(value, bayer, r, c, taps, 8, 0, 2, -2);
}

proof fn lemma_diagonal_value<T>(value: spec_fn(T) -> real, bayer: Plane<T>, r: int, c: int)
    ensures
        twice_taps(value, bayer, r, c, Kernel::BlueAtRed.taps(), 9) == 12real * near(
            value,
            bayer,
            r,
            c,
            0,
            0,
        ) + 4real * (near(value, bayer, r, c, -1, -1) + near(value, bayer, r, c, -1, 1) + near(
            value,
            bayer,
            r,
            c,
            1,
            -1,
        ) + near(value, bayer, r, c, 1, 1)) - 3real * (near(value, bayer, r, c, -2, 0) + near(
            value,
            bayer,
            r,
            c,
            2,
            0,
        ) + near(value, bayer, r, c, 0, -2) + near(value, bayer, r, c, 0, 2)),
{
    let taps = Kernel::BlueAtRed.taps();
    lemma_tap_step(value, bayer, r, c, taps, 0, -2, 0, -3);
    lemma_tap_step(value, bayer, r, c, taps, 1, 0, -2, -3);
    lemma_tap_step(value, bayer, r, c, taps, 2, -1, -1, 4);
    lemma_tap_step(value, bayer, r, c, taps, 3, -1, 1, 4);
    lemma_tap_step(value, bayer, r, c, taps, 4, 0, 0, 12);
    lemma_tap_step(value, bayer, r, c, taps, 5, 1, -1, 4);
    lemma_tap_step(value, bayer, r, c, taps, 6, 1, 1, 4);
    lemma_tap_step(value, bayer, r, c, taps, 7, 2, 0, -3);
    lemma_tap_step(value, bayer, r, c, taps, 8, 0, 2, -3);
}

proof fn lemma_row_value<T>(value: spec_fn(T) -> real, bayer: Plane<T>, r: int, c: int)
    ensures
        twice_taps(value, bayer, r, c, Kernel::GreenRow.taps(), 11) == 10real * near(
            value,
            bayer,
            r,
            c,
            0,
            0,
        ) + 8real * (near(value, bayer, r, c, 0, -1) + near(value, bayer, r, c, 0, 1)) - 2real * (
        near(value, bayer, r, c, -1, -1) + near(value, bayer, r, c, -1, 1) + near(
            value,
            bayer,
            r,
            c,
            1,
            -1,
        ) + near(value, bayer, r, c, 1, 1) + near(value, bayer, r, c, 0, -2) + near(
            value,
            bayer,
            r,
            c,
            0,
            2,
        )) + near(value, bayer, r, c, -2, 0) + near(value, bayer, r, c, 2, 0),
{
    let taps = Kernel::GreenRow.taps();
    lemma_tap_step(value, bayer, r, c, taps, 0, -2, 0, 1);
    lemma_tap_step(value, bayer, r, c, taps, 1, -1, -1, -2);
    lemma_tap_step(value, bayer, r, c, taps, 2, -1, 1, -2);
    lemma_tap_step(value, bayer, r, c, taps, 3, 0, -2, -2);
    lemma_tap_step(value, bayer, r, c, taps, 4, 0, -1, 8);
    lemma_tap_step(value, bayer, r, c, taps, 5, 0, 0, 10);
    lemma_tap_step(value, bayer, r, c, taps, 6, 0, 1, 8);
    lemma_tap_step(value, bayer, r, c, taps, 7, 0, 2, -2);
    lemma_tap_step(value, bayer, r, c, taps, 8, 1, -1, -2);
    lemma_tap_step(value, bayer, r, c, taps, 9, 1, 1, -2);
    lemma_tap_step(value, bayer, r, c, taps, 10, 2, 0, 1);
}

proof fn lemma_column_value<T>(value: spec_fn(T) -> real, bayer: Plane<T>, r: int, c: int)
    ensures
        twice_taps(value, bayer, r, c, Kernel::GreenColumn.taps(), 11) == 10real * near(
            value,
            bayer,
            r,
            c,
            0,
            0,
        ) + 8real * (near(value, bayer, r, c, -1, 0) + near(value, bayer, r, c, 1, 0)) - 2real * (
        near(value, bayer, r, c, -1, -1) + near(value, bayer, r, c, -1, 1) + near(
            value,
            bayer,
            r,
            c,
            1,
            -1,
        ) + near(value, bayer, r, c, 1, 1) + near(value, bayer, r, c, -2, 0) + near(
            value,
            bayer,
            r,
            c,
            2,
            0,
        )) + near(value, bayer, r, c, 0, -2) + near(value, bayer, r, c, 0, 2),
{
    let taps = Kernel::GreenColumn.taps();
    lemma_tap_step(value, bayer, r, c, taps, 0, 0, -2, 1);
    lemma_tap_step(value, bayer, r, c, taps, 1, -1, -1, -2);
    lemma_tap_step(value, bayer, r, c, taps, 2, 1, -1, -2);
    lemma_tap_step(value, bayer, r, c, taps, 3, -2, 0, -2);
    lemma_tap_step(value, bayer, r, c, taps, 4, -1, 0, 8);
    lemma_tap_step(value, bayer, r, c, taps, 5, 0, 0, 10);
    lemma_tap_step(value, bayer, r, c, taps, 6, 1, 0, 8);
    lemma_tap_step(value, bayer, r, c, taps, 7, 2, 0, -2);
    lemma_tap_step(value, bayer, r, c, taps, 8, -1, 1, -2);
    lemma_tap_step(value, bayer, r, c, taps, 9, 1, 1, -2);
    lemma_tap_step(value, bayer, r, c, taps, 10, 0, 2, 1);
}

/// What each kernel makes of the pixels around the one that it is laid on, times
/// the divisor. Where `x(i, j)` is the value `i` rows below and `j` columns to
/// the right: green at a red or blue pixel weighs the pixel four times, its
/// neighbours across the edges twice and takes away those two steps on; the
/// other kernels likewise.
pub proof fn kernels_weigh_their_neighbours<T: Sample>(
    value: spec_fn(T) -> real,
    bayer: Plane<T>,
    r: int,
    c: int,
    kernel: Kernel,
    v: T,
)
    requires
        is_exact(value),
        is_interpolated(bayer, r, c, kernel, v),
    ensures
        ({
            let x = |i: int, j: int| near(value, bayer, r, c, i, j);
            match kernel {
                Kernel::GreenAtRedOrBlue => 8real * value(v) == 4real * x(0, 0) + 2real * (x(-1, 0)
                    + x(1, 0) + x(0, -1) + x(0, 1)) - (x(-2, 0) + x(2, 0) + x(0, -2) + x(0, 2)),
                Kernel::BlueAtRed => 16real * value(v) == 12real * x(0, 0) + 4real * (x(-1, -1)
                    + x(-1, 1) + x(1, -1) + x(1, 1)) - 3real * (x(-2, 0) + x(2, 0) + x(0, -2) + x(
                    0,
                    2,
                )),
                Kernel::GreenRow => 16real * value(v) == 10real * x(0, 0) + 8real * (x(0, -1) + x(
                    0,
                    1,
                )) - 2real * (x(-1, -1) + x(-1, 1) + x(1, -1) + x(1, 1) + x(0, -2) + x(0, 2)) + x(
                    -2,
                    0,
                ) + x(2, 0),
                Kernel::GreenColumn => 16real * value(v) == 10real * x(0, 0) + 8real * (x(-1, 0)
                    + x(1, 0)) - 2real * (x(-1, -1) + x(-1, 1) + x(1, -1) + x(1, 1) + x(-2, 0) + x(
                    2,
                    0,
                )) + x(0, -2) + x(0, 2),
            }
        }),
{
    let taps = kernel.taps();
    let (s, n) = choose|s: T, n: T|
        is_tap_sum(bayer, r, c, taps, s) && is_ratio(8, 1, n) && #[trigger] is_quotient(s, n, v);
    assert(taps.take(taps.len() as int) =~= taps);
    lemma_taps(value, bayer, r, c, taps, taps.len(), s);
    assert(value(n) * 1real == 8real);
    assert(value(v) * value(n) == value(s));
    lemma_commute(value(v), value(n));
    assert(value(n) * value(v) == 8real * value(v));
    match kernel {
        Kernel::GreenAtRedOrBlue => {
            assert(taps.len() == 9);
            lemma_green_value(value, bayer, r, c);
        },
        Kernel::BlueAtRed => {
            assert(taps.len() == 9);
            lemma_diagonal_value(value, bayer, r, c);
        },
        Kernel::GreenRow => {
            assert(taps.len() == 11);
            lemma_row_value(value, bayer, r, c);
        },
        Kernel::GreenColumn => {
            assert(taps.len() == 11);
            lemma_column_value(value, bayer, r, c);
        },
    }
}

/// Each estimate weighs the pixels that it should: green at red and blue the cross,
/// blue at red and red at blue the diagonals, and at a green pixel the colour of its
/// row the row and the other one the column.
pub proof fn estimates_weigh_the_right_neighbours<T: Sample>(
    value: spec_fn(T) -> real,
    bayer: Plane<T>,
    r: int,
    c: int,
    v: T,
)
    requires
        is_exact(value),
    ensures
        ({
            let x = |i: int, j: int| near(value, bayer, r, c, i, j);
            let cross = 8real * x(0, 0) + 4real * (x(-1, 0) + x(1, 0) + x(0, -1) + x(0, 1)) - 2real
                * (x(-2, 0) + x(2, 0) + x(0, -2) + x(0, 2));
            let diagonals = 12real * x(0, 0) + 4real * (x(-1, -1) + x(-1, 1) + x(1, -1) + x(1, 1))
                - 3real * (x(-2, 0) + x(2, 0) + x(0, -2) + x(0, 2));
            let along_the_row = 10real * x(0, 0) + 8real * (x(0, -1) + x(0, 1)) - 2real * (x(-1, -1)
                + x(-1, 1) + x(1, -1) + x(1, 1) + x(0, -2) + x(0, 2)) + x(-2, 0) + x(2, 0);
            let along_the_column = 10real * x(0, 0) + 8real * (x(-1, 0) + x(1, 0)) - 2real * (x(
                -1,
                -1,
            ) + x(-1, 1) + x(1, -1) + x(1, 1) + x(-2, 0) + x(2, 0)) + x(0, -2) + x(0, 2);
            &&& is_green_at_red_or_blue(bayer, r, c, v) ==> 16real * value(v) == cross
            &&& is_blue_at_red(bayer, r, c, v) ==> 16real * value(v) == diagonals
            &&& is_red_at_blue(bayer, r, c, v) ==> 16real * value(v) == diagonals
            &&& is_red_in_red_row(bayer, r, c, v) ==> 16real * value(v) == along_the_row
            &&& is_blue_in_blue_row(bayer, r, c, v) ==> 16real * value(v) == along_the_row
            &&& is_blue_in_red_row(bayer, r, c, v) ==> 16real * value(v) == along_the_column
            &&& is_red_in_blue_row(bayer, r, c, v) ==> 16real * value(v) == along_the_column
        }),
{
    if is_interpolated(bayer, r, c, Kernel::GreenAtRedOrBlue, v) {
        kernels_weigh_their_neighbours(value, bayer, r, c, Kernel::GreenAtRedOrBlue, v);
    }
    if is_interpolated(bayer, r, c, Kernel::BlueAtRed, v) {
        kernels_weigh_their_neighbours(value, bayer, r, c, Kernel::BlueAtRed, v);
    }
    if is_interpolated(bayer, r, c, Kernel::GreenRow, v) {
        kernels_weigh_their_neighbours(value, bayer, r, c, Kernel::GreenRow, v);
    }
    if is_interpolated(bayer, r, c, Kernel::GreenColumn, v) {
        kernels_weigh_their_neighbours(value, bayer, r, c, Kernel::GreenColumn, v);
    }
}

/// The kernels have no favourite side: an image and its mirror image, left for
/// right or upside down, give the same estimate at the pixel and its image; and
/// across the diagonal the kernel of rows gives what that of columns gives.
pub proof fn mirrored_images_give_the_same_estimates<T: Sample>(
    value: spec_fn(T) -> real,
    a: Plane<T>,
    ar: int,
    ac: int,
    b: Plane<T>,
    br: int,
    bc: int,
    kernel: Kernel,
    v: T,
    w: T,
)
    requires
        is_exact(value),
        is_interpolated(a, ar, ac, kernel, v),
    ensures
        is_interpolated(b, br, bc, kernel, w) && (forall|i: int, j: int|
            -2 <= i <= 2 && -2 <= j <= 2 ==> #[trigger] near(value, a, ar, ac, i, j) == near(
                value,
                b,
                br,
                bc,
                i,
                -j,
            )) ==> value(v) == value(w),
        is_interpolated(b, br, bc, kernel, w) && (forall|i: int, j: int|
            -2 <= i <= 2 && -2 <= j <= 2 ==> #[trigger] near(value, a, ar, ac, i, j) == near(
                value,
                b,
                br,
                bc,
                -i,
                j,
            )) ==> value(v) == value(w),
        is_interpolated(
            b,
            br,
            bc,
            match kernel {
                Kernel::GreenRow => Kernel::GreenColumn,
                Kernel::GreenColumn => Kernel::GreenRow,
                other => other,
            },
            w,
        ) && (forall|i: int, j: int|
            -2 <= i <= 2 && -2 <= j <= 2 ==> #[trigger] near(value, a, ar, ac, i, j) == near(
                value,
                b,
                br,
                bc,
                j,
                i,
            )) ==> value(v) == value(w),
{
    kernels_weigh_their_neighbours(value, a, ar, ac, kernel, v);
    if is_interpolated(b, br, bc, kernel, w) {
        kernels_weigh_their_neighbours(value, b, br, bc, kernel, w);
    }
    let turned = match kernel {
        Kernel::GreenRow => Kernel::GreenColumn,
        Kernel::GreenColumn => Kernel::GreenRow,
        other => other,
    };
    if is_interpolated(b, br, bc, turned, w) {
        kernels_weigh_their_neighbours(value, b, br, bc, turned, w);
    }
}

/// The letter of the colour that pixel `(r, c)` measures: the pattern's name,
/// read row by row, repeats over the image.
pub open spec fn letter_of(pattern: CfaPattern, r: int, c: int) -> char {
    pattern.letters()[2 * (r % 2) + c % 2]
}

/// The letters and the channels.
proof fn lemma_letter(pattern: CfaPattern, r: int, c: int)
    ensures
        letter_of(pattern, r, c) == 'R' <==> channel_of(pattern.places(), r, c) == 0,
        letter_of(pattern, r, c) == 'G' <==> channel_of(pattern.places(), r, c) == 1,
        letter_of(pattern, r, c) == 'B' <==> channel_of(pattern.places(), r, c) == 2,
        letter_of(pattern, r, c) == 'R' || letter_of(pattern, r, c) == 'G' || letter_of(
            pattern,
            r,
            c,
        ) == 'B',
{
    let i = r % 2;
    let j = c % 2;
    assert((i == 0 || i == 1) && (j == 0 || j == 1));
}

/// Every pixel keeps the value that it measured, in the channel of its letter.
pub proof fn measured_values_are_kept<T: Sample>(
    bayer: Plane<T>,
    pattern: CfaPattern,
    rgb: Plane<[T; 3]>,
    r: int,
    c: int,
)
    requires
        is_demosaiced_image(bayer, pattern, rgb),
        bayer.has(r, c),
    ensures
        letter_of(pattern, r, c) == 'R' ==> rgb.at(r, c)[0] == bayer.at(r, c),
        letter_of(pattern, r, c) == 'G' ==> rgb.at(r, c)[1] == bayer.at(r, c),
        letter_of(pattern, r, c) == 'B' ==> rgb.at(r, c)[2] == bayer.at(r, c),
{
    lemma_letter(pattern, r, c);
    assert(is_demosaiced(bayer, pattern.places(), r, c, rgb.at(r, c)));
}

/// An estimate, clamped.
proof fn lemma_estimated<T: Sample>(
    value: spec_fn(T) -> real,
    bayer: Plane<T>,
    r: int,
    c: int,
    kernel: Kernel,
    v: T,
) -> (x: T)
    requires
        is_exact(value),
        is_estimated(bayer, r, c, kernel, v),
    ensures
        is_interpolated(bayer, r, c, kernel, x),
        value(v) == clamp_real(value(x), 0real, 1real),
        16real * value(v) == clamp_real(16real * value(x), 0real, 16real),
{
    let x = choose|x: T|
        is_interpolated(bayer, r, c, kernel, x) && #[trigger] is_unit_clamped(x, v);
    lemma_unit_clamp(value, x, v);
    kernels_weigh_their_neighbours(value, bayer, r, c, kernel, x);
    x
}

/// At pixels two or more away from every edge the two colours that were not
/// measured come out of the pixels around, clamped to `0 ..= 1`: green at red and
/// blue from the cross, blue at red and red at blue from the diagonals, and at a
/// green pixel the colour that lies beside it from its row and the colour that
/// lies above it from its column.
pub proof fn inner_colours_come_from_their_neighbours<T: Sample>(
    value: spec_fn(T) -> real,
    bayer: Plane<T>,
    pattern: CfaPattern,
    rgb: Plane<[T; 3]>,
    r: int,
    c: int,
)
    requires
        is_exact(value),
        is_demosaiced_image(bayer, pattern, rgb),
        2 <= r < bayer.height() - 2,
        2 <= c < bayer.width() - 2,
    ensures
        ({
            let x = |i: int, j: int| near(value, bayer, r, c, i, j);
            let px = rgb.at(r, c);
            let cross = 8real * x(0, 0) + 4real * (x(-1, 0) + x(1, 0) + x(0, -1) + x(0, 1)) - 2real
                * (x(-2, 0) + x(2, 0) + x(0, -2) + x(0, 2));
            let diagonals = 12real * x(0, 0) + 4real * (x(-1, -1) + x(-1, 1) + x(1, -1) + x(1, 1))
                - 3real * (x(-2, 0) + x(2, 0) + x(0, -2) + x(0, 2));
            let along_the_row = 10real * x(0, 0) + 8real * (x(0, -1) + x(0, 1)) - 2real * (x(-1, -1)
                + x(-1, 1) + x(1, -1) + x(1, 1) + x(0, -2) + x(0, 2)) + x(-2, 0) + x(2, 0);
            let along_the_column = 10real * x(0, 0) + 8real * (x(-1, 0) + x(1, 0)) - 2real * (x(
                -1,
                -1,
            ) + x(-1, 1) + x(1, -1) + x(1, 1) + x(-2, 0) + x(2, 0)) + x(0, -2) + x(0, 2);
            let (red, blue) = (value(px[0]), value(px[2]));
            let green = value(px[1]);
            &&& letter_of(pattern, r, c) == 'R' ==> 16real * green == clamp_real(
                cross,
                0real,
                16real,
            ) && 16real * blue == clamp_real(diagonals, 0real, 16real)
            &&& letter_of(pattern, r, c) == 'B' ==> 16real * green == clamp_real(
                cross,
                0real,
                16real,
            ) && 16real * red == clamp_real(diagonals, 0real, 16real)
            &&& letter_of(pattern, r, c) == 'G' && letter_of(pattern, r, c + 1) == 'R' ==> 16real
                * red == clamp_real(along_the_row, 0real, 16real) && 16real * blue == clamp_real(
                along_the_column,
                0real,
                16real,
            )
            &&& letter_of(pattern, r, c) == 'G' && letter_of(pattern, r, c + 1) == 'B' ==> 16real
                * blue == clamp_real(along_the_row, 0real, 16real) && 16real * red == clamp_real(
                along_the_column,
                0real,
                16real,
            )
        }),
{
    let o = pattern.places();
    let px = rgb.at(r, c);
    lemma_letter(pattern, r, c);
    lemma_letter(pattern, r, c + 1);
    assert(is_demosaiced(bayer, o, r, c, px));
    assert(is_interior(bayer.height() as int, bayer.width() as int, r, c));
    let own = channel_of(o, r, c);
    if own == 1 {
        let k0 = kernel_for(o, r, c, 0);
        let k2 = kernel_for(o, r, c, 2);
        assert(is_estimated(bayer, r, c, k0, px[0]));
        assert(is_estimated(bayer, r, c, k2, px[2]));
        let x0 = lemma_estimated(value, bayer, r, c, k0, px[0]);
        let x2 = lemma_estimated(value, bayer, r, c, k2, px[2]);
        kernels_weigh_their_neighbours(value, bayer, r, c, k0, x0);
        kernels_weigh_their_neighbours(value, bayer, r, c, k2, x2);
    } else {
        let other = 2 - own;
        assert(is_estimated(bayer, r, c, Kernel::GreenAtRedOrBlue, px[1]));
        assert(is_estimated(bayer, r, c, Kernel::BlueAtRed, px[other]));
        let x1 = lemma_estimated(value, bayer, r, c, Kernel::GreenAtRedOrBlue, px[1]);
        let x2 = lemma_estimated(value, bayer, r, c, Kernel::BlueAtRed, px[other]);
        kernels_weigh_their_neighbours(value, bayer, r, c, Kernel::GreenAtRedOrBlue, x1);
        kernels_weigh_their_neighbours(value, bayer, r, c, Kernel::BlueAtRed, x2);
    }
}

/// `i`, or the nearest of `0 .. n`.
pub open spec fn within(i: int, n: int) -> int {
    if i < 0 {
        0
    } else if i > n - 1 {
        n - 1
    } else {
        i
    }
}

/// The row and the column of the `k`-th of the 25 pixels around `(r, c)`, those
/// outside the image replaced by the nearest on its edge.
pub open spec fn around(h: int, w: int, r: int, c: int, k: int) -> (int, int) {
    (within(r - 2 + k / 5, h), within(c - 2 + k % 5, w))
}

/// How many of the first `k` pixels around `(r, c)` measure the colour with that
/// letter.
pub open spec fn measurements(
    pattern: CfaPattern,
    letter: char,
    h: int,
    w: int,
    r: int,
    c: int,
    k: nat,
) -> nat
    decreases k,
{
    if k == 0 {
        0
    } else {
        let p = around(h, w, r, c, k - 1);
        let before = measurements(pattern, letter, h, w, r, c, (k - 1) as nat);
        if letter_of(pattern, p.0, p.1) == letter {
            before + 1
        } else {
            before
        }
    }
}

/// What those measurements add up to.
pub open spec fn measured_total<T>(
    value: spec_fn(T) -> real,
    bayer: Plane<T>,
    pattern: CfaPattern,
    letter: char,
    r: int,
    c: int,
    k: nat,
) -> real
    decreases k,
{
    if k == 0 {
        0real
    } else {
        let p = around(bayer.height() as int, bayer.width() as int, r, c, k - 1);
        let before = measured_total(value, bayer, pattern, letter, r, c, (k - 1) as nat);
        if letter_of(pattern, p.0, p.1) == letter {
            before + value(bayer.at(p.0, p.1))
        } else {
            before
        }
    }
}

proof fn lemma_block_total<T: Sample>(
    value: spec_fn(T) -> real,
    bayer: Plane<T>,
    pattern: CfaPattern,
    ch: int,
    letter: char,
    r: int,
    c: int,
    k: nat,
    s: T,
)
    requires
        is_exact(value),
        bayer.has(r, c),
        k <= 25,
        ch == 0 && letter == 'R' || ch == 1 && letter == 'G' || ch == 2 && letter == 'B',
    ensures
        block_values(bayer, pattern.places(), r, c, ch, k).len() == measurements(
            pattern,
            letter,
            bayer.height() as int,
            bayer.width() as int,
            r,
            c,
            k,
        ),
        is_total(block_values(bayer, pattern.places(), r, c, ch, k), s) ==> value(s)
            == measured_total(value, bayer, pattern, letter, r, c, k),
    decreases k,
{
    let o = pattern.places();
    let values = block_values(bayer, o, r, c, ch, k);
    if k == 0 {
        if is_total(values, s) {
            assert(value(s) * 1real == 0real);
        }
    } else {
        let m = (k - 1) as nat;
        let before = block_values(bayer, o, r, c, ch, m);
        let p = around(bayer.height() as int, bayer.width() as int, r, c, k - 1);
        lemma_letter(pattern, p.0, p.1);
        lemma_block_total(value, bayer, pattern, ch, letter, r, c, m, s);
        if channel_of(o, p.0, p.1) == ch && is_total(values, s) {
            assert(values == before.push(bayer.at(p.0, p.1)));
            let q = choose|q: T| is_total(values.drop_last(), q) && #[trigger] is_sum(
                q,
                values.last(),
                s,
            );
            assert(values.drop_last() =~= before);
            lemma_block_total(value, bayer, pattern, ch, letter, r, c, m, q);
        }
    }
}

/// At pixels less than two away from an edge each colour that was not measured
/// is the mean of its measurements among the 25 pixels around, or zero where
/// there is none.
pub proof fn border_colours_are_means<T: Sample>(
    value: spec_fn(T) -> real,
    bayer: Plane<T>,
    pattern: CfaPattern,
    rgb: Plane<[T; 3]>,
    r: int,
    c: int,
    ch: int,
    letter: char,
)
    requires
        is_exact(value),
        is_demosaiced_image(bayer, pattern, rgb),
        bayer.has(r, c),
        !(2 <= r < bayer.height() - 2 && 2 <= c < bayer.width() - 2),
        ch == 0 && letter == 'R' || ch == 1 && letter == 'G' || ch == 2 && letter == 'B',
        letter_of(pattern, r, c) != letter,
    ensures
        ({
            let n = measurements(
                pattern,
                letter,
                bayer.height() as int,
                bayer.width() as int,
                r,
                c,
                25,
            );
            if n == 0 {
                value(rgb.at(r, c)[ch]) == 0real
            } else {
                value(rgb.at(r, c)[ch]) * (n as real) == measured_total(
                    value,
                    bayer,
                    pattern,
                    letter,
                    r,
                    c,
                    25,
                )
            }
        }),
{
    let o = pattern.places();
    let px = rgb.at(r, c);
    let v = px[ch];
    lemma_letter(pattern, r, c);
    assert(is_demosaiced(bayer, o, r, c, px));
    assert(!is_interior(bayer.height() as int, bayer.width() as int, r, c));
    assert(is_border_value(bayer, o, r, c, ch, v));
    let values = block_values(bayer, o, r, c, ch, 25);
    lemma_block_total(value, bayer, pattern, ch, letter, r, c, 25, v);
    if values.len() == 0 {
        assert(value(v) * 1real == 0real);
    } else {
        assert(is_block_mean(bayer, o, r, c, ch, v));
        let (s, n) = choose|s: T, n: T|
            is_total(values, s) && is_count(values.len() as usize, n) && #[trigger] is_quotient(
                s,
                n,
                v,
            );
        lemma_block_total(value, bayer, pattern, ch, letter, r, c, 25, s);
        lemma_measurements(pattern, letter, bayer.height() as int, bayer.width() as int, r, c, 25);
        assert(value(n) == values.len() as real);
        assert(value(v) * value(n) == value(s));
    }
}

proof fn lemma_measurements(
    pattern: CfaPattern,
    letter: char,
    h: int,
    w: int,
    r: int,
    c: int,
    k: nat,
)
    ensures
        measurements(pattern, letter, h, w, r, c, k) <= k,
    decreases k,
{
    if k > 0 {
        lemma_measurements(pattern, letter, h, w, r, c, (k - 1) as nat);
    }
}

} // verus!
