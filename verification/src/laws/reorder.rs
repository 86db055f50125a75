//! The order of the alternates of a burst.
use crate::align::tile_start;
use crate::align::AlignmentResult;
use crate::burst::BurstFrame;
use crate::burst::NoiseModel;
use crate::exact::is_exact;
use crate::exact::same_values;
use crate::laws::merge::lemma_addition;
use crate::laws::merge::lemma_power;
use crate::laws::merge::lemma_same_tile;
use crate::laws::transform::goes_by_values;
use crate::laws::transform::is_plane_multiple;
use crate::laws::transform::is_times;
use crate::laws::transform::lemma_same_dft;
use crate::laws::transform::lemma_same_idft;
use crate::merge::are_alternate_spectra;
use crate::merge::are_mergeable;
use crate::merge::are_merged_tiles;
use crate::merge::are_tile_origins;
use crate::merge::covers;
use crate::merge::is_addition;
use crate::merge::is_alternate_spectrum;
use crate::merge::is_complex_sum;
use crate::merge::is_dft;
use crate::merge::is_hann;
use crate::merge::is_hann_angle;
use crate::merge::is_hann_window;
use crate::merge::is_idft;
use crate::merge::is_merged_bin;
use crate::merge::is_merged_burst;
use crate::merge::is_merged_spectrum;
use crate::merge::is_merged_tile;
use crate::merge::is_normalized_total;
use crate::merge::is_overlap_add;
use crate::merge::is_overlap_pixel;
use crate::merge::is_plane_sum;
use crate::merge::is_power;
use crate::merge::is_spectrum_sum;
use crate::merge::is_tile_mean;
use crate::merge::is_tile_noise;
use crate::merge::is_total_upto;
use crate::merge::is_usable_alternate;
use crate::merge::is_weighted_mean;
use crate::merge::is_wiener_weight;
use crate::merge::is_window;
use crate::merge::is_windowed_tile;
use crate::merge::last_origin;
use crate::merge::lemma_origin_of;
use crate::merge::nearest_offset;
use crate::merge::tiles_stay_within_the_image;
use crate::merge::windows;
use crate::merge::Complex;
use crate::plane::flat_index;
use crate::plane::Plane;
use crate::sample::is_count;
use crate::sample::is_difference;
use crate::sample::is_product;
use crate::sample::is_quotient;
use crate::sample::is_ratio;
use crate::sample::is_sum;
use crate::sample::Sample;
use vstd::prelude::*;

verus! {

/// The numbers, added up.
pub open spec fn real_sum(a: Seq<real>) -> real
    decreases a.len(),
{
    if a.len() == 0 {
        0real
    } else {
        real_sum(a.drop_last()) + a.last()
    }
}

/// Taking a number out takes it off the sum.
proof fn lemma_sum_without(a: Seq<real>, k: int)
    requires
        0 <= k < a.len(),
    ensures
        real_sum(a) == real_sum(a.remove(k)) + a[k],
    decreases a.len(),
{
    if k == a.len() - 1 {
        assert(a.remove(k) =~= a.drop_last());
    } else {
        lemma_sum_without(a.drop_last(), k);
        assert(a.remove(k).drop_last() =~= a.drop_last().remove(k));
        assert(a.remove(k).last() == a.last());
    }
}

/// `order` names every index below `n` once.
pub open spec fn is_order(order: Seq<int>, n: int) -> bool {
    &&& order.len() == n
    &&& forall|i: int| 0 <= i < n ==> 0 <= #[trigger] order[i] < n
    &&& forall|i: int, j: int| 0 <= i < j < n ==> #[trigger] order[i] != #[trigger] order[j]
}

/// The order of numbers does not matter to their sum.
proof fn lemma_sum_in_any_order(a: Seq<real>, b: Seq<real>, order: Seq<int>)
    requires
        a.len() == b.len(),
        is_order(order, a.len() as int),
        forall|i: int| 0 <= i < b.len() ==> #[trigger] b[i] == a[order[i]],
    ensures
        real_sum(a) == real_sum(b),
    decreases a.len(),
{
    if a.len() > 0 {
        let n = a.len() as int;
        let k = order[n - 1];
        let rest = Seq::new(
            (n - 1) as nat,
            |i: int|
                if order[i] > k {
                    order[i] - 1
                } else {
                    order[i]
                },
        );
        assert(is_order(rest, n - 1)) by {
            assert forall|i: int| 0 <= i < n - 1 implies 0 <= #[trigger] rest[i] < n - 1 by {
                assert(order[i] != order[n - 1]);
            }
            assert forall|i: int, j: int| 0 <= i < j < n - 1 implies #[trigger] rest[i]
                != #[trigger] rest[j] by {
                assert(order[i] != order[j]);
                assert(order[i] != order[n - 1]);
                assert(order[j] != order[n - 1]);
            }
        }
        let shorter = b.drop_last();
        assert forall|i: int| 0 <= i < shorter.len() implies #[trigger] shorter[i] == a.remove(
            k,
        )[rest[i]] by {
            assert(order[i] != order[n - 1]);
            assert(b[i] == a[order[i]]);
        }
        lemma_sum_in_any_order(a.remove(k), shorter, rest);
        lemma_sum_without(a, k);
        assert(b[n - 1] == a[order[n - 1]]);
    }
}

/// A cosine depends on the value of its angle alone, and half a turn has one value.
pub open spec fn has_steady_cosine<T: Sample>(value: spec_fn(T) -> real) -> bool {
    &&& forall|p: T, q: T| #[trigger]
        call_ensures(T::half_turn, (), p) && #[trigger] call_ensures(T::half_turn, (), q) ==> value(
            p,
        ) == value(q)
    &&& forall|a: T, u: T, b: T, v: T|
        value(a) == value(b) && #[trigger] call_ensures(T::cosine, (a,), u)
            && #[trigger] call_ensures(T::cosine, (b,), v) ==> value(u) == value(v)
}

/// Both have the same number of values, and the same values.
pub open spec fn same_list<T>(value: spec_fn(T) -> real, a: Seq<T>, b: Seq<T>) -> bool {
    &&& a.len() == b.len()
    &&& forall|i: int| 0 <= i < a.len() ==> value(#[trigger] a[i]) == value(b[i])
}

/// A mean depends on the values alone.
pub open spec fn has_steady_mean<T: Sample>(value: spec_fn(T) -> real) -> bool {
    forall|a: Vec<T>, b: Vec<T>, m: Option<T>, n: Option<T>|
        same_list(value, a@, b@) && #[trigger] call_ensures(T::mean, (&a,), m)
            && #[trigger] call_ensures(T::mean, (&b,), n) ==> match (m, n) {
            (Some(x), Some(y)) => value(x) == value(y),
            (None, None) => true,
            _ => false,
        }
}

proof fn lemma_same_hann<T: Sample>(value: spec_fn(T) -> real, i: usize, n: usize, u: T, v: T)
    requires
        is_exact(value),
        has_steady_cosine(value),
        is_hann(i, n, u),
        is_hann(i, n, v),
    ensures
        value(u) == value(v),
{
    let (angle1, cos1, one1, rest1, half1) = choose|angle: T, cos: T, one: T, rest: T, half: T|
        {
            &&& is_hann_angle(i, n, angle)
            &&& #[trigger] call_ensures(T::cosine, (angle,), cos)
            &&& is_ratio(1, 1, one)
            &&& #[trigger] is_difference(one, cos, rest)
            &&& is_ratio(1, 2, half)
            &&& #[trigger] is_product(half, rest, u)
        };
    let (angle2, cos2, one2, rest2, half2) = choose|angle: T, cos: T, one: T, rest: T, half: T|
        {
            &&& is_hann_angle(i, n, angle)
            &&& #[trigger] call_ensures(T::cosine, (angle,), cos)
            &&& is_ratio(1, 1, one)
            &&& #[trigger] is_difference(one, cos, rest)
            &&& is_ratio(1, 2, half)
            &&& #[trigger] is_product(half, rest, v)
        };
    lemma_same_angle(value, i, n, angle1, angle2);
    assert(value(one1) * 1real == 1real && value(one2) * 1real == 1real);
    assert(value(half1) * 2real == 1real && value(half2) * 2real == 1real);
    assert(value(half1) == value(half2));
}

proof fn lemma_same_angle<T: Sample>(value: spec_fn(T) -> real, i: usize, n: usize, u: T, v: T)
    requires
        is_exact(value),
        has_steady_cosine(value),
        is_hann_angle(i, n, u),
        is_hann_angle(i, n, v),
    ensures
        value(u) == value(v),
{
    let (two1, pi1, turn1, at1, part1, last1) = choose|
        two: T,
        pi: T,
        turn: T,
        at: T,
        part: T,
        last: T,
    |
        {
            &&& is_ratio(2, 1, two)
            &&& call_ensures(T::half_turn, (), pi)
            &&& #[trigger] is_product(two, pi, turn)
            &&& is_count(i, at)
            &&& #[trigger] is_product(turn, at, part)
            &&& is_count((n - 1) as usize, last)
            &&& #[trigger] is_quotient(part, last, u)
        };
    let (two2, pi2, turn2, at2, part2, last2) = choose|
        two: T,
        pi: T,
        turn: T,
        at: T,
        part: T,
        last: T,
    |
        {
            &&& is_ratio(2, 1, two)
            &&& call_ensures(T::half_turn, (), pi)
            &&& #[trigger] is_product(two, pi, turn)
            &&& is_count(i, at)
            &&& #[trigger] is_product(turn, at, part)
            &&& is_count((n - 1) as usize, last)
            &&& #[trigger] is_quotient(part, last, v)
        };
    assert(value(two1) * 1real == 2real && value(two2) * 1real == 2real);
    assert(value(two1) == value(two2) && value(pi1) == value(pi2));
    assert(value(part1) == value(part2));
}

proof fn lemma_same_window<T: Sample>(
    value: spec_fn(T) -> real,
    n: usize,
    u: Plane<T>,
    v: Plane<T>,
)
    requires
        is_exact(value),
        has_steady_cosine(value),
        is_window(n, u),
        is_window(n, v),
    ensures
        same_values(value, u, v),
{
    let a = choose|hann: Seq<T>| #[trigger]
        is_hann_window(n, hann) && forall|r: int, c: int|
            u.has(r, c) ==> is_product(hann[r], hann[c], #[trigger] u.at(r, c));
    let b = choose|hann: Seq<T>| #[trigger]
        is_hann_window(n, hann) && forall|r: int, c: int|
            v.has(r, c) ==> is_product(hann[r], hann[c], #[trigger] v.at(r, c));
    assert forall|r: int, c: int|
        #![trigger u.at(r, c)]
        #![trigger v.at(r, c)]
        u.has(r, c) implies value(u.at(r, c)) == value(v.at(r, c)) by {
        lemma_same_hann(value, r as usize, n, a[r], b[r]);
        lemma_same_hann(value, c as usize, n, a[c], b[c]);
        assert(is_product(a[r], a[c], u.at(r, c)));
        assert(is_product(b[r], b[c], v.at(r, c)));
    }
}

/// Planes of the same values hold the same values in the same order.
pub proof fn lemma_same_contents<T>(value: spec_fn(T) -> real, a: Plane<T>, b: Plane<T>)
    requires
        a.wf(),
        b.wf(),
        same_values(value, a, b),
    ensures
        same_list(value, a.contents()@, b.contents()@),
{
    a.lemma_wf();
    b.lemma_wf();
    let (u, v) = (a.contents()@, b.contents()@);
    assert forall|i: int| 0 <= i < u.len() implies value(#[trigger] u[i]) == value(v[i]) by {
        let w = a.width() as int;
        let h = a.height() as int;
        assert(w > 0) by {
            if w == 0 {
                assert(h * 0 == 0);
            }
        }
        vstd::arithmetic::div_mod::lemma_fundamental_div_mod(i, w);
        vstd::arithmetic::div_mod::lemma_mod_bound(i, w);
        vstd::arithmetic::div_mod::lemma_div_pos_is_pos(i, w);
        vstd::arithmetic::mul::lemma_mul_is_commutative(h, w);
        vstd::arithmetic::mul::lemma_mul_is_commutative(i / w, w);
        vstd::arithmetic::div_mod::lemma_multiply_divide_lt(i, w, h);
        assert(flat_index(i / w, i % w, w) == i);
        assert(a.has(i / w, i % w));
        assert(a.at(i / w, i % w) == u[i]);
        assert(b.at(i / w, i % w) == v[i]);
    }
}

/// Tiles of the same values have the same noise.
proof fn lemma_same_noise<T: Sample>(
    value: spec_fn(T) -> real,
    model: NoiseModel<T>,
    a: Plane<T>,
    b: Plane<T>,
    u: T,
    v: T,
)
    requires
        is_exact(value),
        has_steady_mean(value),
        a.wf(),
        b.wf(),
        same_values(value, a, b),
        is_tile_noise(model, a, u),
        is_tile_noise(model, b, v),
    ensures
        value(u) == value(v),
{
    let m = choose|mean: T| #[trigger] is_tile_mean(a, mean) && model.is_variance(mean, u);
    let n = choose|mean: T| #[trigger] is_tile_mean(b, mean) && model.is_variance(mean, v);
    lemma_same_contents(value, a, b);
    let x = choose|mean: Option<T>| #[trigger]
        call_ensures(T::mean, (&a.contents(),), mean) && match mean {
            Some(x) => m == x,
            None => is_ratio(1, 10, m),
        };
    let y = choose|mean: Option<T>| #[trigger]
        call_ensures(T::mean, (&b.contents(),), mean) && match mean {
            Some(x) => n == x,
            None => is_ratio(1, 10, n),
        };
    assert(value(m) == value(n)) by {
        if x is None {
            assert(value(m) * 10real == 1real && value(n) * 10real == 1real);
        }
    }
    let s = choose|shot: T|
        is_product(model.lambda_s, m, shot) && #[trigger] is_sum(shot, model.lambda_r, u);
    let t = choose|shot: T|
        is_product(model.lambda_s, n, shot) && #[trigger] is_sum(shot, model.lambda_r, v);
    assert(value(s) == value(t));
}

/// What comes out of a frequency depends on the values alone.
proof fn lemma_same_bin<T: Sample>(
    value: spec_fn(T) -> real,
    z1: Complex<T>,
    z2: Complex<T>,
    sum1: Complex<T>,
    sum2: Complex<T>,
    n: usize,
    noise1: T,
    noise2: T,
    out1: Complex<T>,
    out2: Complex<T>,
)
    requires
        is_exact(value),
        is_times(value, z1, z2, 1real),
        is_times(value, sum1, sum2, 1real),
        value(noise1) == value(noise2),
        is_merged_bin(z1, sum1, n, noise1, out1),
        is_merged_bin(z2, sum2, n, noise2, out2),
    ensures
        is_times(value, out1, out2, 1real),
{
    let w1 = choose|w: T| #[trigger]
        is_wiener_weight(z1, n, noise1, w) && is_weighted_mean(sum1, n, w, out1);
    let w2 = choose|w: T| #[trigger]
        is_wiener_weight(z2, n, noise2, w) && is_weighted_mean(sum2, n, w, out2);
    lemma_same_weight(value, z1, z2, n, noise1, noise2, w1, w2);
    lemma_same_weighted_mean(value, sum1, sum2, n, w1, w2, out1, out2);
}

proof fn lemma_same_weight<T: Sample>(
    value: spec_fn(T) -> real,
    z1: Complex<T>,
    z2: Complex<T>,
    n: usize,
    noise1: T,
    noise2: T,
    w1: T,
    w2: T,
)
    requires
        is_exact(value),
        is_times(value, z1, z2, 1real),
        value(noise1) == value(noise2),
        is_wiener_weight(z1, n, noise1, w1),
        is_wiener_weight(z2, n, noise2, w2),
    ensures
        value(w1) == value(w2),
{
    let (power1, count1, floor1, total1) = choose|power: T, count: T, floor: T, total: T|
        {
            &&& is_power(z1, power)
            &&& is_count(n, count)
            &&& #[trigger] is_product(count, noise1, floor)
            &&& #[trigger] is_sum(power, floor, total)
            &&& is_quotient(power, total, w1)
        };
    let (power2, count2, floor2, total2) = choose|power: T, count: T, floor: T, total: T|
        {
            &&& is_power(z2, power)
            &&& is_count(n, count)
            &&& #[trigger] is_product(count, noise2, floor)
            &&& #[trigger] is_sum(power, floor, total)
            &&& is_quotient(power, total, w2)
        };
    lemma_power(value, z1, power1);
    lemma_power(value, z2, power2);
    assert(value(z1.re) == value(z2.re) && value(z1.im) == value(z2.im));
    assert(value(power1) == value(power2));
    assert(value(total1) == value(total2));
}

proof fn lemma_same_weighted_mean<T: Sample>(
    value: spec_fn(T) -> real,
    sum1: Complex<T>,
    sum2: Complex<T>,
    n: usize,
    w1: T,
    w2: T,
    out1: Complex<T>,
    out2: Complex<T>,
)
    requires
        is_exact(value),
        is_times(value, sum1, sum2, 1real),
        value(w1) == value(w2),
        is_weighted_mean(sum1, n, w1, out1),
        is_weighted_mean(sum2, n, w2, out2),
    ensures
        is_times(value, out1, out2, 1real),
{
    let (re1, im1, count1, extra1, one1, total1) = choose|
        re: T,
        im: T,
        count: T,
        extra: T,
        one: T,
        total: T,
    |
        {
            &&& #[trigger] is_product(sum1.re, w1, re)
            &&& #[trigger] is_product(sum1.im, w1, im)
            &&& is_count(n, count)
            &&& #[trigger] is_product(count, w1, extra)
            &&& is_ratio(1, 1, one)
            &&& #[trigger] is_sum(one, extra, total)
            &&& is_quotient(re, total, out1.re)
            &&& is_quotient(im, total, out1.im)
        };
    let (re2, im2, count2, extra2, one2, total2) = choose|
        re: T,
        im: T,
        count: T,
        extra: T,
        one: T,
        total: T,
    |
        {
            &&& #[trigger] is_product(sum2.re, w2, re)
            &&& #[trigger] is_product(sum2.im, w2, im)
            &&& is_count(n, count)
            &&& #[trigger] is_product(count, w2, extra)
            &&& is_ratio(1, 1, one)
            &&& #[trigger] is_sum(one, extra, total)
            &&& is_quotient(re, total, out2.re)
            &&& is_quotient(im, total, out2.im)
        };
    assert(value(one1) * 1real == 1real && value(one2) * 1real == 1real);
    assert(value(sum1.re) == value(sum2.re) && value(sum1.im) == value(sum2.im));
    assert(value(re1) == value(re2) && value(im1) == value(im2));
    assert(value(total1) == value(total2));
}

/// The real parts of all spectra at one frequency.
pub open spec fn real_parts<T>(
    value: spec_fn(T) -> real,
    spectra: Seq<Plane<Complex<T>>>,
    r: int,
    c: int,
) -> Seq<real> {
    Seq::new(spectra.len(), |i: int| value(spectra[i].at(r, c).re))
}

/// The imaginary parts of all spectra at one frequency.
pub open spec fn imaginary_parts<T>(
    value: spec_fn(T) -> real,
    spectra: Seq<Plane<Complex<T>>>,
    r: int,
    c: int,
) -> Seq<real> {
    Seq::new(spectra.len(), |i: int| value(spectra[i].at(r, c).im))
}

/// What spectra add up to at one frequency.
pub proof fn lemma_sum_of_spectra<T: Sample>(
    value: spec_fn(T) -> real,
    reference: Plane<Complex<T>>,
    alternates: Seq<Plane<Complex<T>>>,
    sum: Plane<Complex<T>>,
    r: int,
    c: int,
)
    requires
        is_exact(value),
        is_spectrum_sum(reference, alternates, sum),
        reference.has(r, c),
    ensures
        sum.same_size(&reference),
        value(sum.at(r, c).re) == value(reference.at(r, c).re) + real_sum(
            real_parts(value, alternates, r, c),
        ),
        value(sum.at(r, c).im) == value(reference.at(r, c).im) + real_sum(
            imaginary_parts(value, alternates, r, c),
        ),
    decreases alternates.len(),
{
    if alternates.len() == 0 {
        assert(sum.at(r, c) == reference.at(r, c));
    } else {
        let rest = alternates.drop_last();
        let last = alternates.last();
        let before = choose|before: Plane<Complex<T>>|
            is_spectrum_sum(reference, rest, before) && #[trigger] is_plane_sum(before, last, sum);
        lemma_sum_of_spectra(value, reference, rest, before, r, c);
        assert(is_complex_sum(before.at(r, c), last.at(r, c), sum.at(r, c)));
        assert(real_parts(value, alternates, r, c).drop_last() =~= real_parts(value, rest, r, c));
        assert(imaginary_parts(value, alternates, r, c).drop_last() =~= imaginary_parts(
            value,
            rest,
            r,
            c,
        ));
    }
}

/// The second burst is the first one, its alternates and their alignments in
/// another order.
pub open spec fn is_reordered<T>(
    frames1: Seq<BurstFrame<T>>,
    alignments1: Seq<AlignmentResult>,
    frames2: Seq<BurstFrame<T>>,
    alignments2: Seq<AlignmentResult>,
    order: Seq<int>,
) -> bool {
    &&& frames2.len() == frames1.len()
    &&& alignments2.len() == alignments1.len()
    &&& frames2[0] == frames1[0]
    &&& is_order(order, alignments1.len() as int)
    &&& forall|i: int|
        0 <= i < alignments2.len() ==> #[trigger] alignments2[i] == alignments1[order[i]]
            && frames2[i + 1] == frames1[order[i] + 1]
    &&& alignments2[0].tile_size == alignments1[0].tile_size
}

/// A merged tile does not depend on the order of the alternates.
proof fn lemma_reordered_tile<
    T: Sample,
    F: Fn(Vec<Complex<T>>) -> Vec<Complex<T>>,
    G: Fn(Vec<Complex<T>>) -> Vec<Complex<T>>,
>(
    value: spec_fn(T) -> real,
    frames1: Seq<BurstFrame<T>>,
    alignments1: Seq<AlignmentResult>,
    frames2: Seq<BurstFrame<T>>,
    alignments2: Seq<AlignmentResult>,
    order: Seq<int>,
    window1: Plane<T>,
    window2: Plane<T>,
    r0: int,
    c0: int,
    forward: F,
    inverse: G,
    tile1: Plane<T>,
    tile2: Plane<T>,
)
    requires
        is_exact(value),
        has_steady_mean(value),
        goes_by_values(value, forward),
        goes_by_values(value, inverse),
        are_mergeable(frames1, alignments1),
        is_reordered(frames1, alignments1, frames2, alignments2, order),
        same_values(value, window1, window2),
        window1.height() == alignments1[0].tile_size,
        window1.width() == alignments1[0].tile_size,
        0 <= r0,
        0 <= c0,
        r0 + window1.height() <= frames1[0].bayer.height(),
        c0 + window1.width() <= frames1[0].bayer.width(),
        is_merged_tile(frames1, alignments1, window1, r0, c0, forward, inverse, tile1),
        is_merged_tile(frames2, alignments2, window2, r0, c0, forward, inverse, tile2),
    ensures
        same_values(value, tile1, tile2),
{
    let image = frames1[0].bayer;
    let n = alignments1.len() as usize;
    let (t1, z1, noise1, alts1, sum1, merged1) = choose|
        ref_tile: Plane<T>,
        reference: Plane<Complex<T>>,
        noise: T,
        alternates: Seq<Plane<Complex<T>>>,
        sum: Plane<Complex<T>>,
        merged: Plane<Complex<T>>,
    |
        {
            &&& #[trigger] is_windowed_tile(frames1[0].bayer, window1, r0, c0, ref_tile)
            &&& #[trigger] is_dft(forward, ref_tile, reference)
            &&& #[trigger] is_tile_noise(frames1[0].noise_model, ref_tile, noise)
            &&& #[trigger] are_alternate_spectra(
                frames1,
                alignments1,
                window1,
                r0,
                c0,
                forward,
                alternates,
            )
            &&& is_spectrum_sum(reference, alternates, sum)
            &&& #[trigger] is_merged_spectrum(
                reference,
                sum,
                alignments1.len() as usize,
                noise,
                merged,
            )
            &&& is_idft(inverse, merged, tile1)
        };
    let (t2, z2, noise2, alts2, sum2, merged2) = choose|
        ref_tile: Plane<T>,
        reference: Plane<Complex<T>>,
        noise: T,
        alternates: Seq<Plane<Complex<T>>>,
        sum: Plane<Complex<T>>,
        merged: Plane<Complex<T>>,
    |
        {
            &&& #[trigger] is_windowed_tile(frames2[0].bayer, window2, r0, c0, ref_tile)
            &&& #[trigger] is_dft(forward, ref_tile, reference)
            &&& #[trigger] is_tile_noise(frames2[0].noise_model, ref_tile, noise)
            &&& #[trigger] are_alternate_spectra(
                frames2,
                alignments2,
                window2,
                r0,
                c0,
                forward,
                alternates,
            )
            &&& is_spectrum_sum(reference, alternates, sum)
            &&& #[trigger] is_merged_spectrum(
                reference,
                sum,
                alignments2.len() as usize,
                noise,
                merged,
            )
            &&& is_idft(inverse, merged, tile2)
        };
    assert(same_values(value, image, image));
    lemma_same_tile(value, image, image, window1, window2, r0, c0, t1, t2);
    lemma_same_dft(value, forward, t1, t2, z1, z2);
    lemma_same_noise(value, frames1[0].noise_model, t1, t2, noise1, noise2);
    assert forall|i: int| 0 <= i < alts2.len() implies is_plane_multiple(
        value,
        alts1[order[i]],
        #[trigger] alts2[i],
        1real,
    ) by {
        let k = order[i];
        lemma_reordered_alternate(
            value,
            frames1,
            alignments1,
            k,
            window1,
            window2,
            r0,
            c0,
            forward,
            alts1[k],
            alts2[i],
        );
    }
    assert(is_plane_multiple(value, merged1, merged2, 1real)) by {
        assert forall|r: int, c: int|
            #![trigger merged1.at(r, c)]
            #![trigger merged2.at(r, c)]
            merged1.has(r, c) implies is_times(
            value,
            merged1.at(r, c),
            merged2.at(r, c),
            1real,
        ) by {
            lemma_sum_of_spectra(value, z1, alts1, sum1, r, c);
            lemma_sum_of_spectra(value, z2, alts2, sum2, r, c);
            let (re1, re2) = (real_parts(value, alts1, r, c), real_parts(value, alts2, r, c));
            let (im1, im2) = (
                imaginary_parts(value, alts1, r, c),
                imaginary_parts(value, alts2, r, c),
            );
            assert forall|i: int| 0 <= i < alts2.len() implies #[trigger] re2[i] == re1[order[i]]
                && im2[i] == im1[order[i]] by {
                assert(is_plane_multiple(value, alts1[order[i]], alts2[i], 1real));
                assert(alts1[order[i]].has(r, c)) by {
                    lemma_spectrum_size(
                        frames1[order[i] + 1].bayer,
                        alignments1[order[i]],
                        window1,
                        r0,
                        c0,
                        forward,
                        alts1[order[i]],
                    );
                }
                assert(is_times(value, alts1[order[i]].at(r, c), alts2[i].at(r, c), 1real));
            }
            assert forall|i: int| 0 <= i < im2.len() implies #[trigger] im2[i] == im1[order[i]] by {
                assert(re2[i] == re1[order[i]]);
            }
            lemma_sum_in_any_order(re1, re2, order);
            lemma_sum_in_any_order(im1, im2, order);
            assert(is_times(value, z1.at(r, c), z2.at(r, c), 1real));
            assert(is_times(value, sum1.at(r, c), sum2.at(r, c), 1real));
            assert(is_merged_bin(z1.at(r, c), sum1.at(r, c), n, noise1, merged1.at(r, c)));
            assert(is_merged_bin(z2.at(r, c), sum2.at(r, c), n, noise2, merged2.at(r, c)));
            lemma_same_bin(
                value,
                z1.at(r, c),
                z2.at(r, c),
                sum1.at(r, c),
                sum2.at(r, c),
                n,
                noise1,
                noise2,
                merged1.at(r, c),
                merged2.at(r, c),
            );
        }
    }
    lemma_same_idft(value, inverse, merged1, merged2, tile1, tile2);
}

proof fn lemma_spectrum_size<T: Sample, F: Fn(Vec<Complex<T>>) -> Vec<Complex<T>>>(
    alternate: Plane<T>,
    a: AlignmentResult,
    window: Plane<T>,
    r0: int,
    c0: int,
    forward: F,
    z: Plane<Complex<T>>,
)
    requires
        is_alternate_spectrum(alternate, a, window, r0, c0, forward, z),
    ensures
        z.same_size(&window),
{
}

/// The spectrum of an alternate, wherever it stands in the burst.
proof fn lemma_reordered_alternate<T: Sample, F: Fn(Vec<Complex<T>>) -> Vec<Complex<T>>>(
    value: spec_fn(T) -> real,
    frames: Seq<BurstFrame<T>>,
    alignments: Seq<AlignmentResult>,
    k: int,
    window1: Plane<T>,
    window2: Plane<T>,
    r0: int,
    c0: int,
    forward: F,
    u: Plane<Complex<T>>,
    v: Plane<Complex<T>>,
)
    requires
        is_exact(value),
        goes_by_values(value, forward),
        are_mergeable(frames, alignments),
        0 <= k < alignments.len(),
        same_values(value, window1, window2),
        window1.height() == alignments[0].tile_size,
        window1.width() == alignments[0].tile_size,
        is_alternate_spectrum(
            frames[k + 1].bayer,
            alignments[k],
            window1,
            r0,
            c0,
            forward,
            u,
        ),
        is_alternate_spectrum(
            frames[k + 1].bayer,
            alignments[k],
            window2,
            r0,
            c0,
            forward,
            v,
        ),
    ensures
        is_plane_multiple(value, u, v, 1real),
{
    let image = frames[k + 1].bayer;
    let a = alignments[k];
    let size = alignments[0].tile_size as int;
    assert(is_usable_alternate(
        frames[k + 1].bayer,
        alignments[k],
        size,
        last_origin(frames[0].bayer.height() as int, size),
        last_origin(frames[0].bayer.width() as int, size),
    ));
    let offset = nearest_offset(a, r0, c0, size);
    let r1 = tile_start(r0, offset.0 as int, image.height() as int, size);
    let c1 = tile_start(c0, offset.1 as int, image.width() as int, size);
    let s = choose|tile: Plane<T>| #[trigger]
        is_windowed_tile(image, window1, r1, c1, tile) && is_dft(forward, tile, u);
    let t = choose|tile: Plane<T>| #[trigger]
        is_windowed_tile(image, window2, r1, c1, tile) && is_dft(forward, tile, v);
    assert(same_values(value, image, image));
    lemma_same_tile(value, image, image, window1, window2, r1, c1, s, t);
    lemma_same_dft(value, forward, s, t, u, v);
}

/// Tiles of the same values add up to the same values.
proof fn lemma_same_total<T: Sample>(
    value: spec_fn(T) -> real,
    origins: Seq<(usize, usize)>,
    tiles1: Seq<Plane<T>>,
    tiles2: Seq<Plane<T>>,
    window1: Plane<T>,
    window2: Plane<T>,
    r: int,
    c: int,
    k: int,
    s1: T,
    s2: T,
)
    requires
        is_exact(value),
        0 <= k <= tiles1.len(),
        k <= tiles2.len(),
        window1.height() == window1.width(),
        same_values(value, window1, window2),
        forall|i: int|
            0 <= i < k ==> same_values(value, #[trigger] tiles1[i], tiles2[i])
                && tiles1[i].same_size(&window1),
        is_total_upto(origins, tiles1, window1, r, c, k, s1),
        is_total_upto(origins, tiles2, window2, r, c, k, s2),
    ensures
        value(s1) == value(s2),
    decreases k,
{
    if k == 0 {
        assert(value(s1) * 1real == 0real && value(s2) * 1real == 0real);
    } else {
        let origin = origins[k - 1];
        if covers(origin, window1.height() as int, r, c) {
            let (i, j) = (r - origin.0, c - origin.1);
            let (t1, t2) = (tiles1[k - 1], tiles2[k - 1]);
            let b1 = choose|before: T|
                is_total_upto(origins, tiles1, window1, r, c, k - 1, before)
                    && #[trigger] is_addition(before, t1.at(i, j), window1.at(i, j), s1);
            let b2 = choose|before: T|
                is_total_upto(origins, tiles2, window2, r, c, k - 1, before)
                    && #[trigger] is_addition(before, t2.at(i, j), window2.at(i, j), s2);
            lemma_same_total(
                value,
                origins,
                tiles1,
                tiles2,
                window1,
                window2,
                r,
                c,
                k - 1,
                b1,
                b2,
            );
            lemma_addition(value, b1, t1.at(i, j), window1.at(i, j), s1);
            lemma_addition(value, b2, t2.at(i, j), window2.at(i, j), s2);
            assert(t1.has(i, j) && window1.has(i, j));
            assert(value(t1.at(i, j)) == value(t2.at(i, j)));
            assert(value(window1.at(i, j)) == value(window2.at(i, j)));
        } else {
            lemma_same_total(
                value,
                origins,
                tiles1,
                tiles2,
                window1,
                window2,
                r,
                c,
                k - 1,
                s1,
                s2,
            );
        }
    }
}

/// What is normalized depends on the values alone.
proof fn lemma_same_normalized<T: Sample>(
    value: spec_fn(T) -> real,
    total1: T,
    weight1: T,
    v1: T,
    total2: T,
    weight2: T,
    v2: T,
)
    requires
        is_exact(value),
        value(total1) == value(total2),
        value(weight1) == value(weight2),
        is_normalized_total(total1, weight1, v1),
        is_normalized_total(total2, weight2, v2),
    ensures
        value(v1) == value(v2),
{
    let (least1, enough1) = choose|least: T, enough: bool|
        {
            &&& is_ratio(1, 100_000_000, least)
            &&& #[trigger] call_ensures(T::exceeds, (weight1, least), enough)
            &&& if enough {
                is_quotient(total1, weight1, v1)
            } else {
                v1 == total1
            }
        };
    let (least2, enough2) = choose|least: T, enough: bool|
        {
            &&& is_ratio(1, 100_000_000, least)
            &&& #[trigger] call_ensures(T::exceeds, (weight2, least), enough)
            &&& if enough {
                is_quotient(total2, weight2, v2)
            } else {
                v2 == total2
            }
        };
    assert(value(least1) * 100_000_000real == 1real);
    assert(value(least2) * 100_000_000real == 1real);
}

/// There is one list of tile origins.
proof fn lemma_same_origins(
    h: int,
    w: int,
    tile: int,
    a: Seq<(usize, usize)>,
    b: Seq<(usize, usize)>,
)
    requires
        2 <= tile <= h <= usize::MAX,
        2 <= tile <= w <= usize::MAX,
        are_tile_origins(h, w, tile, a),
        are_tile_origins(h, w, tile, b),
    ensures
        a == b,
{
    assert forall|k: int| 0 <= k < a.len() implies a[k] == b[k] by {
        let p = lemma_origin_of(h, w, tile, a, k);
        let q = lemma_origin_of(h, w, tile, b, k);
        assert(p == q);
    }
    assert(a =~= b);
}

/// The order of the alternates does not matter: the first frame is the reference,
/// and the others come to the same in any order.
pub proof fn order_of_alternates_does_not_matter<
    T: Sample,
    F: Fn(Vec<Complex<T>>) -> Vec<Complex<T>>,
    G: Fn(Vec<Complex<T>>) -> Vec<Complex<T>>,
>(
    value: spec_fn(T) -> real,
    frames1: Seq<BurstFrame<T>>,
    alignments1: Seq<AlignmentResult>,
    frames2: Seq<BurstFrame<T>>,
    alignments2: Seq<AlignmentResult>,
    order: Seq<int>,
    forward: F,
    inverse: G,
    out1: Plane<T>,
    out2: Plane<T>,
)
    requires
        is_exact(value),
        has_steady_cosine(value),
        has_steady_mean(value),
        goes_by_values(value, forward),
        goes_by_values(value, inverse),
        are_mergeable(frames1, alignments1),
        is_reordered(frames1, alignments1, frames2, alignments2, order),
        out1.same_size(&frames1[0].bayer),
        out2.same_size(&frames2[0].bayer),
        is_merged_burst(frames1, alignments1, forward, inverse, out1),
        is_merged_burst(frames2, alignments2, forward, inverse, out2),
    ensures
        same_values(value, out1, out2),
{
    let h = frames1[0].bayer.height() as int;
    let w = frames1[0].bayer.width() as int;
    let size = alignments1[0].tile_size;
    let (window1, origins1, tiles1) = choose|
        window: Plane<T>,
        origins: Seq<(usize, usize)>,
        tiles: Seq<Plane<T>>,
    |
        {
            &&& is_window(size, window)
            &&& are_tile_origins(h, w, size as int, origins)
            &&& #[trigger] are_merged_tiles(
                frames1,
                alignments1,
                window,
                origins,
                forward,
                inverse,
                tiles,
            )
            &&& is_overlap_add(origins, tiles, window, out1)
        };
    let (window2, origins2, tiles2) = choose|
        window: Plane<T>,
        origins: Seq<(usize, usize)>,
        tiles: Seq<Plane<T>>,
    |
        {
            &&& is_window(size, window)
            &&& are_tile_origins(h, w, size as int, origins)
            &&& #[trigger] are_merged_tiles(
                frames2,
                alignments2,
                window,
                origins,
                forward,
                inverse,
                tiles,
            )
            &&& is_overlap_add(origins, tiles, window, out2)
        };
    lemma_same_window(value, size, window1, window2);
    lemma_same_origins(h, w, size as int, origins1, origins2);
    let n = origins1.len() as int;
    assert forall|i: int| 0 <= i < n implies same_values(value, #[trigger] tiles1[i], tiles2[i])
        && tiles1[i].same_size(&window1) by {
        let (r0, c0) = (origins1[i].0 as int, origins1[i].1 as int);
        tiles_stay_within_the_image(h, w, size as int, origins1, i);
        assert(is_merged_tile(
            frames1,
            alignments1,
            window1,
            r0,
            c0,
            forward,
            inverse,
            tiles1[i],
        ));
        assert(is_merged_tile(
            frames2,
            alignments2,
            window2,
            r0,
            c0,
            forward,
            inverse,
            tiles2[i],
        ));
        lemma_reordered_tile(
            value,
            frames1,
            alignments1,
            frames2,
            alignments2,
            order,
            window1,
            window2,
            r0,
            c0,
            forward,
            inverse,
            tiles1[i],
            tiles2[i],
        );
    }
    let (masks1, masks2) = (windows(window1, n), windows(window2, n));
    assert forall|r: int, c: int|
        #![trigger out1.at(r, c)]
        #![trigger out2.at(r, c)]
        out1.has(r, c) implies value(out1.at(r, c)) == value(out2.at(r, c)) by {
        let (v1, v2) = (out1.at(r, c), out2.at(r, c));
        assert(is_overlap_pixel(origins1, tiles1, window1, r, c, v1));
        assert(is_overlap_pixel(origins2, tiles2, window2, r, c, v2));
        let (total1, weight1) = choose|total: T, weight: T|
            {
                &&& is_total_upto(origins1, tiles1, window1, r, c, n, total)
                &&& is_total_upto(origins1, masks1, window1, r, c, n, weight)
                &&& #[trigger] is_normalized_total(total, weight, v1)
            };
        let (total2, weight2) = choose|total: T, weight: T|
            {
                &&& is_total_upto(origins1, tiles2, window2, r, c, n, total)
                &&& is_total_upto(origins1, masks2, window2, r, c, n, weight)
                &&& #[trigger] is_normalized_total(total, weight, v2)
            };
        lemma_same_total(
            value,
            origins1,
            tiles1,
            tiles2,
            window1,
            window2,
            r,
            c,
            n,
            total1,
            total2,
        );
        lemma_same_total(
            value,
            origins1,
            masks1,
            masks2,
            window1,
            window2,
            r,
            c,
            n,
            weight1,
            weight2,
        );
        lemma_same_normalized(value, total1, weight1, v1, total2, weight2, v2);
    }
}

} // verus!
