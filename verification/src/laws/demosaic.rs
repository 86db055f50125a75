//! Laws of demosaicing.
use crate::burst::CfaPattern;
use crate::burst::ChannelOffsets;
use crate::demosaic::block_pixel;
use crate::demosaic::block_values;
use crate::demosaic::channel_of;
use crate::demosaic::every_block_holds_every_channel;
use crate::demosaic::halves_on;
use crate::demosaic::is_block_mean;
use crate::demosaic::is_border_value;
use crate::demosaic::is_demosaiced;
use crate::demosaic::is_estimated;
use crate::demosaic::is_interior;
use crate::demosaic::is_interpolated;
use crate::demosaic::is_tap_sum;
use crate::demosaic::is_total;
use crate::demosaic::is_weighted;
use crate::demosaic::kernel_for;
use crate::demosaic::kernels_estimate_their_channel;
use crate::demosaic::kernels_reach_two_pixels;
use crate::demosaic::under_tap;
use crate::demosaic::Tap;
use crate::exact::is_exact;
use crate::exact::lemma_cancel;
use crate::exact::lemma_commute;
use crate::exact::lemma_distribute;
use crate::exact::lemma_scale_order;
use crate::exact::lemma_unit_clamp;
use crate::exact::lies_within;
use crate::plane::Plane;
use crate::sample::is_count;
use crate::sample::is_product;
use crate::sample::is_quotient;
use crate::sample::is_ratio;
use crate::sample::is_sum;
use crate::sample::is_unit_clamped;
use crate::sample::Sample;
use vstd::prelude::*;

verus! {

/// A total of values within bounds lies within as many times the bounds.
proof fn lemma_total_bounds<T: Sample>(
    value: spec_fn(T) -> real,
    values: Seq<T>,
    s: T,
    low: real,
    high: real,
)
    requires
        is_exact(value),
        is_total(values, s),
        forall|i: int| 0 <= i < values.len() ==> low <= value(#[trigger] values[i]) <= high,
    ensures
        (values.len() as real) * low <= value(s) <= (values.len() as real) * high,
    decreases values.len(),
{
    if values.len() == 0 {
        assert(value(s) * 1real == 0real);
        assert(0real * low == 0real && 0real * high == 0real);
    } else {
        let rest = values.drop_last();
        let p = choose|p: T| is_total(rest, p) && #[trigger] is_sum(p, values.last(), s);
        assert forall|i: int| 0 <= i < rest.len() implies low <= value(#[trigger] rest[i])
            <= high by {
            assert(rest[i] == values[i]);
        }
        lemma_total_bounds(value, rest, p, low, high);
        assert(values.last() == values[values.len() - 1]);
        lemma_distribute(low, rest.len() as real, 1real);
        lemma_distribute(high, rest.len() as real, 1real);
        assert(values.len() as real == rest.len() as real + 1real);
    }
}

/// A mean of values within bounds lies within the bounds.
proof fn lemma_mean_bounds<T: Sample>(
    value: spec_fn(T) -> real,
    bayer: Plane<T>,
    o: ChannelOffsets,
    r: int,
    c: int,
    ch: int,
    v: T,
    low: real,
    high: real,
)
    requires
        is_exact(value),
        is_block_mean(bayer, o, r, c, ch, v),
        0 < block_values(bayer, o, r, c, ch, 25).len() <= 25,
        forall|i: int|
            0 <= i < block_values(bayer, o, r, c, ch, 25).len() ==> low <= value(
                #[trigger] block_values(bayer, o, r, c, ch, 25)[i],
            ) <= high,
    ensures
        low <= value(v) <= high,
{
    let values = block_values(bayer, o, r, c, ch, 25);
    let (s, n) = choose|s: T, n: T|
        is_total(values, s) && is_count(values.len() as usize, n) && #[trigger] is_quotient(
            s,
            n,
            v,
        );
    lemma_total_bounds(value, values, s, low, high);
    let k = values.len() as real;
    assert(value(n) == k);
    assert(value(v) * k == value(s));
    lemma_commute(k, low);
    lemma_commute(k, high);
    if value(v) < low {
        lemma_scale_order(value(v), low, k);
        if value(v) * k == low * k {
            lemma_cancel(value(v), low, k);
        }
    }
    if value(v) > high {
        lemma_scale_order(high, value(v), k);
        if value(v) * k == high * k {
            lemma_cancel(value(v), high, k);
        }
    }
}

/// The values of a block are those of pixels of the image that measure the channel.
proof fn lemma_block_values<T>(
    bayer: Plane<T>,
    o: ChannelOffsets,
    r: int,
    c: int,
    ch: int,
    k: nat,
    i: int,
) -> (at: (int, int))
    requires
        bayer.has(r, c),
        k <= 25,
        0 <= i < block_values(bayer, o, r, c, ch, k).len(),
    ensures
        bayer.has(at.0, at.1),
        channel_of(o, at.0, at.1) == ch,
        block_values(bayer, o, r, c, ch, k)[i] == bayer.at(at.0, at.1),
    decreases k,
{
    let before = block_values(bayer, o, r, c, ch, (k - 1) as nat);
    if i < before.len() {
        lemma_block_values(bayer, o, r, c, ch, (k - 1) as nat, i)
    } else {
        block_pixel(bayer.height() as int, bayer.width() as int, r, c, k - 1)
    }
}

proof fn lemma_block_length<T>(
    bayer: Plane<T>,
    o: ChannelOffsets,
    r: int,
    c: int,
    ch: int,
    k: nat,
)
    ensures
        block_values(bayer, o, r, c, ch, k).len() <= k,
    decreases k,
{
    if k > 0 {
        lemma_block_length(bayer, o, r, c, ch, (k - 1) as nat);
    }
}

/// Values remain in linear light: where the sensor measured values of `0 ..= 1`,
/// all channels of all pixels come out within `0 ..= 1`.
pub proof fn demosaiced_values_stay_in_range<T: Sample>(
    value: spec_fn(T) -> real,
    bayer: Plane<T>,
    o: ChannelOffsets,
    r: int,
    c: int,
    px: [T; 3],
    ch: int,
)
    requires
        is_exact(value),
        lies_within(value, bayer, 0real, 1real),
        bayer.has(r, c),
        is_demosaiced(bayer, o, r, c, px),
        0 <= ch < 3,
    ensures
        0real <= value(px[ch]) <= 1real,
{
    let h = bayer.height() as int;
    let w = bayer.width() as int;
    let v = px[ch];
    if ch == channel_of(o, r, c) {
        assert(v == bayer.at(r, c));
    } else if is_interior(h, w, r, c) {
        let kernel = kernel_for(o, r, c, ch);
        assert(is_estimated(bayer, r, c, kernel, v));
        let x = choose|x: T|
            is_interpolated(bayer, r, c, kernel, x) && #[trigger] is_unit_clamped(x, v);
        lemma_unit_clamp(value, x, v);
    } else {
        assert(is_border_value(bayer, o, r, c, ch, v));
        let values = block_values(bayer, o, r, c, ch, 25);
        if values.len() == 0 {
            assert(value(v) * 1real == 0real);
        } else {
            assert forall|i: int| 0 <= i < values.len() implies 0real <= value(
                #[trigger] values[i],
            ) <= 1real by {
                let at = lemma_block_values(bayer, o, r, c, ch, 25, i);
                assert(bayer.has(at.0, at.1));
            }
            lemma_block_length(bayer, o, r, c, ch, 25);
            lemma_mean_bounds(value, bayer, o, r, c, ch, v, 0real, 1real);
        }
    }
}

/// The image is the mosaic of one flat colour: every pixel has the value that
/// the colour has in the channel that it measures.
pub open spec fn is_flat_mosaic<T>(
    value: spec_fn(T) -> real,
    bayer: Plane<T>,
    o: ChannelOffsets,
    colour: spec_fn(int) -> real,
) -> bool {
    forall|r: int, c: int|
        bayer.has(r, c) ==> value(#[trigger] bayer.at(r, c)) == colour(channel_of(o, r, c))
}

/// Twice what a kernel adds up to on a flat colour: for each channel its value
/// times the weights, in halves, on that channel.
pub open spec fn flat_total(
    taps: Seq<Tap>,
    o: ChannelOffsets,
    r: int,
    c: int,
    colour: spec_fn(int) -> real,
    n: nat,
) -> real {
    (halves_on(taps, o, r, c, 0, n) as real) * colour(0) + (halves_on(taps, o, r, c, 1, n) as real)
        * colour(1) + (halves_on(taps, o, r, c, 2, n) as real) * colour(2)
}

pub proof fn lemma_weighted<T: Sample>(value: spec_fn(T) -> real, x: T, halves: i64, w: T)
    requires
        is_exact(value),
        is_weighted(x, halves, w),
    ensures
        2real * value(w) == (halves as real) * value(x),
{
    let k = choose|k: T| is_ratio(halves, 2, k) && #[trigger] is_product(k, x, w);
    assert(value(k) * 2real == halves as real);
    lemma_distribute(value(x), value(k), value(k));
    assert(value(k) + value(k) == halves as real);
}

/// One more tap on a flat colour.
proof fn lemma_flat_step(
    taps: Seq<Tap>,
    o: ChannelOffsets,
    r: int,
    c: int,
    colour: spec_fn(int) -> real,
    n: nat,
)
    requires
        n > 0,
    ensures
        ({
            let t = taps[n - 1];
            flat_total(taps, o, r, c, colour, n) == flat_total(
                taps,
                o,
                r,
                c,
                colour,
                (n - 1) as nat,
            ) + (t.halves as real) * colour(channel_of(o, r + t.dr, c + t.dc))
        }),
{
    let t = taps[n - 1];
    let m = (n - 1) as nat;
    let ch = channel_of(o, r + t.dr, c + t.dc);
    lemma_distribute(
        colour(ch),
        halves_on(taps, o, r, c, ch, m) as real,
        t.halves as real,
    );
    assert(halves_on(taps, o, r, c, ch, n) as real == halves_on(taps, o, r, c, ch, m) as real + (
    t.halves as real));
    assert(ch == 0 || ch == 1 || ch == 2);
}

/// What taps add up to on a flat colour.
proof fn lemma_flat_taps<T: Sample>(
    value: spec_fn(T) -> real,
    bayer: Plane<T>,
    o: ChannelOffsets,
    colour: spec_fn(int) -> real,
    r: int,
    c: int,
    taps: Seq<Tap>,
    n: nat,
    s: T,
)
    requires
        is_exact(value),
        is_flat_mosaic(value, bayer, o, colour),
        0 < n <= taps.len(),
        forall|i: int|
            0 <= i < taps.len() ==> bayer.has(r + (#[trigger] taps[i]).dr, c + taps[i].dc),
        is_tap_sum(bayer, r, c, taps.take(n as int), s),
    ensures
        2real * value(s) == flat_total(taps, o, r, c, colour, n),
    decreases n,
{
    let upto = taps.take(n as int);
    let t = taps[n - 1];
    assert(upto.last() == t);
    let x = under_tap(bayer, r, c, t);
    assert(bayer.has(r + t.dr, c + t.dc));
    assert(value(x) == colour(channel_of(o, r + t.dr, c + t.dc)));
    lemma_flat_step(taps, o, r, c, colour, n);
    if n == 1 {
        lemma_weighted(value, x, t.halves, s);
        assert(flat_total(taps, o, r, c, colour, 0) == 0real) by {
            assert(0real * colour(0) == 0real);
            assert(0real * colour(1) == 0real);
            assert(0real * colour(2) == 0real);
        }
    } else {
        let (p, w) = choose|p: T, w: T|
            is_tap_sum(bayer, r, c, upto.drop_last(), p) && is_weighted(x, t.halves, w)
                && #[trigger] is_sum(p, w, s);
        assert(upto.drop_last() =~= taps.take(n - 1));
        lemma_flat_taps(value, bayer, o, colour, r, c, taps, (n - 1) as nat, p);
        lemma_weighted(value, x, t.halves, w);
    }
}

/// The mosaic of one flat colour comes out as that colour, at every pixel.
pub proof fn flat_colours_come_out<T: Sample>(
    value: spec_fn(T) -> real,
    bayer: Plane<T>,
    pattern: CfaPattern,
    colour: spec_fn(int) -> real,
    r: int,
    c: int,
    px: [T; 3],
    ch: int,
)
    requires
        is_exact(value),
        bayer.height() >= 2,
        bayer.width() >= 2,
        bayer.has(r, c),
        is_flat_mosaic(value, bayer, pattern.places(), colour),
        is_demosaiced(bayer, pattern.places(), r, c, px),
        0 <= ch < 3,
        0real <= colour(ch) <= 1real,
    ensures
        value(px[ch]) == colour(ch),
{
    let h = bayer.height() as int;
    let w = bayer.width() as int;
    let o = pattern.places();
    let v = px[ch];
    if ch == channel_of(o, r, c) {
        assert(v == bayer.at(r, c));
    } else if is_interior(h, w, r, c) {
        let kernel = kernel_for(o, r, c, ch);
        assert(is_estimated(bayer, r, c, kernel, v));
        let x = choose|x: T|
            is_interpolated(bayer, r, c, kernel, x) && #[trigger] is_unit_clamped(x, v);
        lemma_unit_clamp(value, x, v);
        let taps = kernel.taps();
        let (s, n) = choose|s: T, n: T|
            is_tap_sum(bayer, r, c, taps, s) && is_ratio(8, 1, n) && #[trigger] is_quotient(
                s,
                n,
                x,
            );
        assert forall|i: int| 0 <= i < taps.len() implies bayer.has(
            r + (#[trigger] taps[i]).dr,
            c + taps[i].dc,
        ) by {
            kernels_reach_two_pixels(kernel, i);
        }
        assert(taps.len() > 0);
        assert(taps.take(taps.len() as int) =~= taps);
        lemma_flat_taps(value, bayer, o, colour, r, c, taps, taps.len(), s);
        kernels_estimate_their_channel(pattern, r, c, ch, 0);
        kernels_estimate_their_channel(pattern, r, c, ch, 1);
        kernels_estimate_their_channel(pattern, r, c, ch, 2);
        assert(0real * colour(0) == 0real && 0real * colour(1) == 0real && 0real * colour(2)
            == 0real);
        assert(flat_total(taps, o, r, c, colour, taps.len()) == 16real * colour(ch)) by {
            assert(ch == 0 || ch == 1 || ch == 2);
        }
        assert(value(n) * 1real == 8real);
        lemma_commute(value(x), value(n));
        assert(value(n) * value(x) == 8real * value(x));
    } else {
        assert(is_border_value(bayer, o, r, c, ch, v));
        every_block_holds_every_channel(bayer, pattern, r, c, ch);
        let values = block_values(bayer, o, r, c, ch, 25);
        assert forall|i: int| 0 <= i < values.len() implies colour(ch) <= value(
            #[trigger] values[i],
        ) <= colour(ch) by {
            let at = lemma_block_values(bayer, o, r, c, ch, 25, i);
            assert(bayer.has(at.0, at.1));
        }
        lemma_block_length(bayer, o, r, c, ch, 25);
        lemma_mean_bounds(value, bayer, o, r, c, ch, v, colour(ch), colour(ch));
    }
}

} // verus!
