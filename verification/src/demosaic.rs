//! From one colour per pixel to three.
use crate::burst::CfaPattern;
use crate::burst::ChannelOffsets;
use crate::plane::clamp_index;
use crate::plane::clamped_neighbour;
use crate::plane::Plane;
use crate::sample::is_count;
use crate::sample::is_product;
use crate::sample::is_quotient;
use crate::sample::is_ratio;
use crate::sample::is_sum;
use crate::sample::is_unit_clamped;
use crate::sample::is_zero;
use crate::sample::unit_clamped;
use crate::sample::zero;
use crate::sample::Sample;
use vstd::prelude::*;

verus! {

/// One term of a kernel: a neighbour and the weight of its value, in halves.
#[derive(Debug, Clone, Copy)]
pub struct Tap {
    pub dr: i32,
    pub dc: i32,
    pub halves: i64,
}

/// The kernels that estimate a colour that a pixel did not measure.
#[derive(Debug, Clone, Copy, PartialEq, Eq, Structural)]
pub enum Kernel {
    /// Green at a red or blue pixel.
    GreenAtRedOrBlue,
    /// Blue at a red pixel and the other way round.
    BlueAtRed,
    /// At a green pixel, the colour that shares its row: red at Gr, blue at Gb.
    GreenRow,
    /// At a green pixel, the colour that shares its column: blue at Gr, red at Gb.
    GreenColumn,
}

/// What the weighted sum of a kernel is divided by.
pub const KERNEL_DIVISOR: i64 = 8;

/// The neighbour `(dr, dc)` with the weight `halves / 2`.
pub open spec fn tap(dr: int, dc: int, halves: int) -> Tap {
    Tap { dr: dr as i32, dc: dc as i32, halves: halves as i64 }
}

impl Kernel {
    /// The terms of the kernel, in the order in which they are added up.
    pub open spec fn taps(self) -> Seq<Tap> {
        match self {
            Kernel::GreenAtRedOrBlue => seq![
                tap(-2, 0, -2),
                tap(0, -2, -2),
                tap(-1, 0, 4),
                tap(0, -1, 4),
                tap(0, 0, 8),
                tap(1, 0, 4),
                tap(0, 1, 4),
                tap(2, 0, -2),
                tap(0, 2, -2),
            ],
            Kernel::BlueAtRed => seq![
                tap(-2, 0, -3),
                tap(0, -2, -3),
                tap(-1, -1, 4),
                tap(-1, 1, 4),
                tap(0, 0, 12),
                tap(1, -1, 4),
                tap(1, 1, 4),
                tap(2, 0, -3),
                tap(0, 2, -3),
            ],
            Kernel::GreenRow => seq![
                tap(-2, 0, 1),
                tap(-1, -1, -2),
                tap(-1, 1, -2),
                tap(0, -2, -2),
                tap(0, -1, 8),
                tap(0, 0, 10),
                tap(0, 1, 8),
                tap(0, 2, -2),
                tap(1, -1, -2),
                tap(1, 1, -2),
                tap(2, 0, 1),
            ],
            Kernel::GreenColumn => seq![
                tap(0, -2, 1),
                tap(-1, -1, -2),
                tap(1, -1, -2),
                tap(-2, 0, -2),
                tap(-1, 0, 8),
                tap(0, 0, 10),
                tap(1, 0, 8),
                tap(2, 0, -2),
                tap(-1, 1, -2),
                tap(1, 1, -2),
                tap(0, 2, 1),
            ],
        }
    }
}

/// `w` came out as `x` times a weight given in halves.
pub open spec fn is_weighted<T: Sample>(x: T, halves: i64, w: T) -> bool {
    exists|k: T| is_ratio(halves, 2, k) && #[trigger] is_product(k, x, w)
}

/// The value under a tap that is laid on pixel `(r, c)`.
pub open spec fn under_tap<T>(bayer: Plane<T>, r: int, c: int, t: Tap) -> T {
    bayer.at(r + t.dr, c + t.dc)
}

/// `s` came out of adding up the weighted values under the taps, in order.
pub open spec fn is_tap_sum<T: Sample>(bayer: Plane<T>, r: int, c: int, taps: Seq<Tap>, s: T) -> bool
    decreases taps.len(),
{
    let x = under_tap(bayer, r, c, taps.last());
    if taps.len() <= 1 {
        is_weighted(x, taps.last().halves, s)
    } else {
        exists|p: T, w: T|
            is_tap_sum(bayer, r, c, taps.drop_last(), p) && is_weighted(x, taps.last().halves, w)
                && #[trigger] is_sum(p, w, s)
    }
}

/// `v` came out of the kernel laid on pixel `(r, c)`.
pub open spec fn is_interpolated<T: Sample>(
    bayer: Plane<T>,
    r: int,
    c: int,
    kernel: Kernel,
    v: T,
) -> bool {
    exists|s: T, n: T|
        is_tap_sum(bayer, r, c, kernel.taps(), s) && is_ratio(KERNEL_DIVISOR, 1, n)
            && #[trigger] is_quotient(s, n, v)
}

/// `v` came out as green at a red or blue pixel.
pub open spec fn is_green_at_red_or_blue<T: Sample>(bayer: Plane<T>, r: int, c: int, v: T) -> bool {
    is_interpolated(bayer, r, c, Kernel::GreenAtRedOrBlue, v)
}

/// `v` came out as blue at a red pixel.
pub open spec fn is_blue_at_red<T: Sample>(bayer: Plane<T>, r: int, c: int, v: T) -> bool {
    is_interpolated(bayer, r, c, Kernel::BlueAtRed, v)
}

/// `v` came out as red at a blue pixel.
pub open spec fn is_red_at_blue<T: Sample>(bayer: Plane<T>, r: int, c: int, v: T) -> bool {
    is_interpolated(bayer, r, c, Kernel::BlueAtRed, v)
}

/// `v` came out as red at a green pixel of a red row.
pub open spec fn is_red_in_red_row<T: Sample>(bayer: Plane<T>, r: int, c: int, v: T) -> bool {
    is_interpolated(bayer, r, c, Kernel::GreenRow, v)
}

/// `v` came out as blue at a green pixel of a red row.
pub open spec fn is_blue_in_red_row<T: Sample>(bayer: Plane<T>, r: int, c: int, v: T) -> bool {
    is_interpolated(bayer, r, c, Kernel::GreenColumn, v)
}

/// `v` came out as blue at a green pixel of a blue row.
pub open spec fn is_blue_in_blue_row<T: Sample>(bayer: Plane<T>, r: int, c: int, v: T) -> bool {
    is_interpolated(bayer, r, c, Kernel::GreenRow, v)
}

/// `v` came out as red at a green pixel of a blue row.
pub open spec fn is_red_in_blue_row<T: Sample>(bayer: Plane<T>, r: int, c: int, v: T) -> bool {
    is_interpolated(bayer, r, c, Kernel::GreenColumn, v)
}

/// Is the pixel at least two pixels away from every edge?
pub open spec fn is_interior(h: int, w: int, r: int, c: int) -> bool {
    2 <= r < h - 2 && 2 <= c < w - 2
}

fn weighted<T: Sample>(x: T, halves: i64) -> (w: T)
    ensures
        is_weighted(x, halves, w),
{
    let k = T::ratio(halves, 2);
    k.times(x)
}

/// Lays taps on pixel `(r, c)` and adds up the weighted values.
fn tap_sum<T: Sample>(bayer: &Plane<T>, r: usize, c: usize, taps: &[Tap]) -> (s: T)
    requires
        bayer.wf(),
        taps@.len() > 0,
        forall|i: int|
            0 <= i < taps@.len() ==> bayer.has(r + (#[trigger] taps@[i]).dr, c + taps@[i].dc),
    ensures
        is_tap_sum(*bayer, r as int, c as int, taps@, s),
{
    let n: usize = taps.len();
    let first = taps[0];
    let mut s = weighted(bayer.get_near(r, c, first.dr, first.dc), first.halves);
    let mut i: usize = 1;
    assert(taps@.take(1).last() == first);
    while i < n
        invariant
            1 <= i <= n,
            n == taps@.len(),
            bayer.wf(),
            forall|i: int|
                0 <= i < taps@.len() ==> bayer.has(r + (#[trigger] taps@[i]).dr, c + taps@[i].dc),
            is_tap_sum(*bayer, r as int, c as int, taps@.take(i as int), s),
        decreases n - i,
    {
        let t = taps[i];
        let x = bayer.get_near(r, c, t.dr, t.dc);
        let w = weighted(x, t.halves);
        assert(taps@.take(i + 1).drop_last() =~= taps@.take(i as int));
        assert(taps@.take(i + 1).last() == t);
        s = s.plus(w);
        i = i + 1;
    }
    assert(taps@.take(n as int) =~= taps@);
    s
}

fn t(dr: i32, dc: i32, halves: i64) -> (tap: Tap)
    ensures
        tap == (Tap { dr, dc, halves }),
{
    Tap { dr, dc, halves }
}

/// The taps of [`Kernel::GreenAtRedOrBlue`].
pub fn g_at_rb() -> (taps: [Tap; 9])
    ensures
        taps@ == Kernel::GreenAtRedOrBlue.taps(),
{
    [
        t(-2, 0, -2),
        t(0, -2, -2),
        t(-1, 0, 4),
        t(0, -1, 4),
        t(0, 0, 8),
        t(1, 0, 4),
        t(0, 1, 4),
        t(2, 0, -2),
        t(0, 2, -2),
    ]
}

/// The taps of [`Kernel::BlueAtRed`].
pub fn b_at_r() -> (taps: [Tap; 9])
    ensures
        taps@ == Kernel::BlueAtRed.taps(),
{
    [
        t(-2, 0, -3),
        t(0, -2, -3),
        t(-1, -1, 4),
        t(-1, 1, 4),
        t(0, 0, 12),
        t(1, -1, 4),
        t(1, 1, 4),
        t(2, 0, -3),
        t(0, 2, -3),
    ]
}

/// The taps of [`Kernel::GreenRow`].
pub fn row_at_green() -> (taps: [Tap; 11])
    ensures
        taps@ == Kernel::GreenRow.taps(),
{
    [
        t(-2, 0, 1),
        t(-1, -1, -2),
        t(-1, 1, -2),
        t(0, -2, -2),
        t(0, -1, 8),
        t(0, 0, 10),
        t(0, 1, 8),
        t(0, 2, -2),
        t(1, -1, -2),
        t(1, 1, -2),
        t(2, 0, 1),
    ]
}

/// The taps of [`Kernel::GreenColumn`].
pub fn column_at_green() -> (taps: [Tap; 11])
    ensures
        taps@ == Kernel::GreenColumn.taps(),
{
    [
        t(0, -2, 1),
        t(-1, -1, -2),
        t(1, -1, -2),
        t(-2, 0, -2),
        t(-1, 0, 8),
        t(0, 0, 10),
        t(1, 0, 8),
        t(2, 0, -2),
        t(-1, 1, -2),
        t(1, 1, -2),
        t(0, 2, 1),
    ]
}

/// No tap reaches further than two pixels.
pub proof fn kernels_reach_two_pixels(kernel: Kernel, i: int)
    requires
        0 <= i < kernel.taps().len(),
    ensures
        -2 <= kernel.taps()[i].dr <= 2,
        -2 <= kernel.taps()[i].dc <= 2,
{
}

fn over_divisor<T: Sample>(s: T) -> (v: T)
    ensures
        exists|n: T| is_ratio(KERNEL_DIVISOR, 1, n) && #[trigger] is_quotient(s, n, v),
{
    let n = T::ratio(KERNEL_DIVISOR, 1);
    s.over(n)
}

/// Estimates green at a red or blue pixel.
pub fn interp_g_at_rb<T: Sample>(bayer: &Plane<T>, r: usize, c: usize) -> (v: T)
    requires
        bayer.wf(),
        is_interior(bayer.height() as int, bayer.width() as int, r as int, c as int),
    ensures
        is_green_at_red_or_blue(*bayer, r as int, c as int, v),
        is_interpolated(*bayer, r as int, c as int, Kernel::GreenAtRedOrBlue, v),
{
    let taps = g_at_rb();
    over_divisor(tap_sum(bayer, r, c, taps.as_slice()))
}

/// Estimates blue at a red pixel.
pub fn interp_b_at_r<T: Sample>(bayer: &Plane<T>, r: usize, c: usize) -> (v: T)
    requires
        bayer.wf(),
        is_interior(bayer.height() as int, bayer.width() as int, r as int, c as int),
    ensures
        is_blue_at_red(*bayer, r as int, c as int, v),
        is_interpolated(*bayer, r as int, c as int, Kernel::BlueAtRed, v),
{
    let taps = b_at_r();
    over_divisor(tap_sum(bayer, r, c, taps.as_slice()))
}

/// Estimates red at a blue pixel: by symmetry, as blue at a red one.
pub fn interp_r_at_b<T: Sample>(bayer: &Plane<T>, r: usize, c: usize) -> (v: T)
    requires
        bayer.wf(),
        is_interior(bayer.height() as int, bayer.width() as int, r as int, c as int),
    ensures
        is_red_at_blue(*bayer, r as int, c as int, v),
        is_interpolated(*bayer, r as int, c as int, Kernel::BlueAtRed, v),
{
    interp_b_at_r(bayer, r, c)
}

/// Estimates red at a green pixel of a red row.
pub fn interp_r_at_gr<T: Sample>(bayer: &Plane<T>, r: usize, c: usize) -> (v: T)
    requires
        bayer.wf(),
        is_interior(bayer.height() as int, bayer.width() as int, r as int, c as int),
    ensures
        is_red_in_red_row(*bayer, r as int, c as int, v),
        is_interpolated(*bayer, r as int, c as int, Kernel::GreenRow, v),
{
    let taps = row_at_green();
    over_divisor(tap_sum(bayer, r, c, taps.as_slice()))
}

/// Estimates blue at a green pixel of a red row: the same kernel, transposed.
pub fn interp_b_at_gr<T: Sample>(bayer: &Plane<T>, r: usize, c: usize) -> (v: T)
    requires
        bayer.wf(),
        is_interior(bayer.height() as int, bayer.width() as int, r as int, c as int),
    ensures
        is_blue_in_red_row(*bayer, r as int, c as int, v),
        is_interpolated(*bayer, r as int, c as int, Kernel::GreenColumn, v),
{
    let taps = column_at_green();
    over_divisor(tap_sum(bayer, r, c, taps.as_slice()))
}

/// Estimates blue at a green pixel of a blue row: as red in a red row.
pub fn interp_b_at_gb<T: Sample>(bayer: &Plane<T>, r: usize, c: usize) -> (v: T)
    requires
        bayer.wf(),
        is_interior(bayer.height() as int, bayer.width() as int, r as int, c as int),
    ensures
        is_blue_in_blue_row(*bayer, r as int, c as int, v),
        is_interpolated(*bayer, r as int, c as int, Kernel::GreenRow, v),
{
    let taps = row_at_green();
    over_divisor(tap_sum(bayer, r, c, taps.as_slice()))
}

/// Estimates red at a green pixel of a blue row: the same kernel, transposed.
pub fn interp_r_at_gb<T: Sample>(bayer: &Plane<T>, r: usize, c: usize) -> (v: T)
    requires
        bayer.wf(),
        is_interior(bayer.height() as int, bayer.width() as int, r as int, c as int),
    ensures
        is_red_in_blue_row(*bayer, r as int, c as int, v),
        is_interpolated(*bayer, r as int, c as int, Kernel::GreenColumn, v),
{
    let taps = column_at_green();
    over_divisor(tap_sum(bayer, r, c, taps.as_slice()))
}

/// The channel (0 red, 1 green, 2 blue) that pixel `(r, c)` measures.
pub open spec fn channel_of(o: ChannelOffsets, r: int, c: int) -> int {
    if r % 2 == o.r.0 && c % 2 == o.r.1 {
        0
    } else if r % 2 == o.b.0 && c % 2 == o.b.1 {
        2
    } else {
        1
    }
}

/// The channel (0 red, 1 green, 2 blue) that pixel `(r, c)` measures.
pub fn channel_at(o: &ChannelOffsets, r: usize, c: usize) -> (ch: usize)
    ensures
        ch == channel_of(*o, r as int, c as int),
        ch < 3,
{
    if r % 2 == o.r.0 && c % 2 == o.r.1 {
        0
    } else if r % 2 == o.b.0 && c % 2 == o.b.1 {
        2
    } else {
        1
    }
}

/// The kernel that estimates channel `ch` at pixel `(r, c)`.
pub open spec fn kernel_for(o: ChannelOffsets, r: int, c: int, ch: int) -> Kernel {
    if channel_of(o, r, c) != 1 {
        if ch == 1 {
            Kernel::GreenAtRedOrBlue
        } else {
            Kernel::BlueAtRed
        }
    } else if (r % 2 == o.gr.0 && c % 2 == o.gr.1) == (ch == 0) {
        Kernel::GreenRow
    } else {
        Kernel::GreenColumn
    }
}

/// The `k`-th pixel of the 5x5 block around `(r, c)`, read row by row, each
/// coordinate moved to the edge where it lies outside the image.
pub open spec fn block_pixel(h: int, w: int, r: int, c: int, k: int) -> (int, int) {
    (clamp_index(r + k / 5 - 2, h), clamp_index(c + k % 5 - 2, w))
}

/// The values of channel `ch` among the first `k` pixels of the 5x5 block
/// around `(r, c)`.
pub open spec fn block_values<T>(
    bayer: Plane<T>,
    o: ChannelOffsets,
    r: int,
    c: int,
    ch: int,
    k: nat,
) -> Seq<T>
    decreases k,
{
    if k == 0 {
        seq![]
    } else {
        let before = block_values(bayer, o, r, c, ch, (k - 1) as nat);
        let p = block_pixel(bayer.height() as int, bayer.width() as int, r, c, k - 1);
        if channel_of(o, p.0, p.1) == ch {
            before.push(bayer.at(p.0, p.1))
        } else {
            before
        }
    }
}

/// `s` came out of adding the values to zero, in order.
pub open spec fn is_total<T: Sample>(values: Seq<T>, s: T) -> bool
    decreases values.len(),
{
    if values.len() == 0 {
        is_zero(s)
    } else {
        exists|p: T| is_total(values.drop_last(), p) && #[trigger] is_sum(p, values.last(), s)
    }
}

/// `v` came out as the mean of channel `ch` over the 5x5 block around `(r, c)`.
pub open spec fn is_block_mean<T: Sample>(
    bayer: Plane<T>,
    o: ChannelOffsets,
    r: int,
    c: int,
    ch: int,
    v: T,
) -> bool {
    let values = block_values(bayer, o, r, c, ch, 25);
    exists|s: T, n: T|
        is_total(values, s) && is_count(values.len() as usize, n) && #[trigger] is_quotient(
            s,
            n,
            v,
        )
}

/// `v` came out of a kernel, clamped to `0 ..= 1`.
pub open spec fn is_estimated<T: Sample>(
    bayer: Plane<T>,
    r: int,
    c: int,
    kernel: Kernel,
    v: T,
) -> bool {
    exists|x: T| is_interpolated(bayer, r, c, kernel, x) && #[trigger] is_unit_clamped(x, v)
}

/// `v` came out as channel `ch` of a pixel close to an edge: the mean over the
/// block around it, or zero where the block has no pixel of that channel.
pub open spec fn is_border_value<T: Sample>(
    bayer: Plane<T>,
    o: ChannelOffsets,
    r: int,
    c: int,
    ch: int,
    v: T,
) -> bool {
    if block_values(bayer, o, r, c, ch, 25).len() == 0 {
        is_zero(v)
    } else {
        is_block_mean(bayer, o, r, c, ch, v)
    }
}

/// `px` came out as the colour of pixel `(r, c)`: the measured channel as it
/// is, the others by a kernel, or by a block mean close to the edges.
pub open spec fn is_demosaiced<T: Sample>(
    bayer: Plane<T>,
    o: ChannelOffsets,
    r: int,
    c: int,
    px: [T; 3],
) -> bool {
    let own = channel_of(o, r, c);
    &&& px[own] == bayer.at(r, c)
    &&& forall|ch: int|
        0 <= ch < 3 && ch != own ==> if is_interior(
            bayer.height() as int,
            bayer.width() as int,
            r,
            c,
        ) {
            is_estimated(bayer, r, c, kernel_for(o, r, c, ch), #[trigger] px[ch])
        } else {
            is_border_value(bayer, o, r, c, ch, px[ch])
        }
}

/// `v` came out as the mean of channel `ch` over the 5x5 block around `(r, c)`,
/// or is `before` where the block has no pixel of that channel.
pub open spec fn is_block_mean_or<T: Sample>(
    bayer: Plane<T>,
    o: ChannelOffsets,
    r: int,
    c: int,
    ch: int,
    before: T,
    v: T,
) -> bool {
    if block_values(bayer, o, r, c, ch, 25).len() == 0 {
        v == before
    } else {
        is_block_mean(bayer, o, r, c, ch, v)
    }
}

/// `px` came out of filling in pixel `(r, c)`, which was `before`: the measured
/// channel as it is, the others by block means, where there is one.
pub open spec fn is_filled<T: Sample>(
    bayer: Plane<T>,
    o: ChannelOffsets,
    r: int,
    c: int,
    before: [T; 3],
    px: [T; 3],
) -> bool {
    let own = channel_of(o, r, c);
    &&& px[own] == bayer.at(r, c)
    &&& forall|ch: int|
        0 <= ch < 3 && ch != own ==> is_block_mean_or(
            bayer,
            o,
            r,
            c,
            ch,
            before[ch],
            #[trigger] px[ch],
        )
}

/// The mean of channel `ch` over the 5x5 block around `(r, c)`, or `before`
/// where the block has no pixel of that channel.
fn block_mean<T: Sample>(
    bayer: &Plane<T>,
    o: &ChannelOffsets,
    r: usize,
    c: usize,
    ch: usize,
    before: T,
) -> (v: T)
    requires
        bayer.wf(),
        bayer.has(r as int, c as int),
        bayer.height() <= i32::MAX,
        bayer.width() <= i32::MAX,
    ensures
        is_block_mean_or(*bayer, *o, r as int, c as int, ch as int, before, v),
{
    let (h, w) = bayer.dim();
    let mut sum: T = zero();
    let mut n: usize = 0;
    let mut i: usize = 0;
    while i < 5
        invariant
            bayer.wf(),
            bayer.has(r as int, c as int),
            h == bayer.height(),
            w == bayer.width(),
            h <= i32::MAX,
            w <= i32::MAX,
            i <= 5,
            n <= 5 * i,
            n == block_values(*bayer, *o, r as int, c as int, ch as int, (5 * i) as nat).len(),
            is_total(
                block_values(*bayer, *o, r as int, c as int, ch as int, (5 * i) as nat),
                sum,
            ),
        decreases 5 - i,
    {
        let mut j: usize = 0;
        while j < 5
            invariant
                bayer.wf(),
                bayer.has(r as int, c as int),
                h == bayer.height(),
                w == bayer.width(),
                h <= i32::MAX,
                w <= i32::MAX,
                i < 5,
                j <= 5,
                n <= 5 * i + j,
                n == block_values(
                    *bayer,
                    *o,
                    r as int,
                    c as int,
                    ch as int,
                    (5 * i + j) as nat,
                ).len(),
                is_total(
                    block_values(*bayer, *o, r as int, c as int, ch as int, (5 * i + j) as nat),
                    sum,
                ),
            decreases 5 - j,
        {
            let nr = clamped_neighbour(r, i, h);
            let nc = clamped_neighbour(c, j, w);
            let ghost shorter = block_values(
                *bayer,
                *o,
                r as int,
                c as int,
                ch as int,
                (5 * i + j) as nat,
            );
            assert((5 * i + j) / 5 == i && (5 * i + j) % 5 == j as int);
            if channel_at(o, nr, nc) == ch {
                let x = bayer.get(nr, nc);
                let ghost partial = sum;
                sum = sum.plus(x);
                n = n + 1;
                proof {
                    let after = shorter.push(x);
                    assert(after.drop_last() =~= shorter);
                    assert(after.last() == x);
                    assert(is_sum(partial, x, sum));
                    assert(is_total(after, sum));
                    assert(block_values(
                        *bayer,
                        *o,
                        r as int,
                        c as int,
                        ch as int,
                        (5 * i + j + 1) as nat,
                    ) == after);
                }
            }
            j = j + 1;
        }
        i = i + 1;
    }
    if n > 0 {
        let count = T::count(n);
        sum.over(count)
    } else {
        before
    }
}

/// Fills in the pixels that lie less than two pixels away from an edge: the
/// measured channel as it is, the others by block means. A channel that no pixel
/// of the block measures stays as it was.
fn fill_border_bilinear<T: Sample>(rgb: &mut Plane<[T; 3]>, bayer: &Plane<T>, o: &ChannelOffsets)
    requires
        old(rgb).wf(),
        bayer.wf(),
        old(rgb).same_size(bayer),
        bayer.height() <= i32::MAX,
        bayer.width() <= i32::MAX,
    ensures
        final(rgb).wf(),
        final(rgb).same_size(bayer),
        forall|r: int, c: int|
            bayer.has(r, c) ==> if is_interior(
                bayer.height() as int,
                bayer.width() as int,
                r,
                c,
            ) {
                #[trigger] final(rgb).at(r, c) == old(rgb).at(r, c)
            } else {
                is_filled(*bayer, *o, r, c, old(rgb).at(r, c), final(rgb).at(r, c))
            },
{
    let (h, w) = bayer.dim();
    let mut r: usize = 0;
    while r < h
        invariant
            rgb.wf(),
            bayer.wf(),
            rgb.same_size(bayer),
            h == bayer.height(),
            w == bayer.width(),
            h <= i32::MAX,
            w <= i32::MAX,
            r <= h,
            forall|i: int, j: int|
                bayer.has(i, j) ==> if i >= r || is_interior(h as int, w as int, i, j) {
                    #[trigger] rgb.at(i, j) == old(rgb).at(i, j)
                } else {
                    is_filled(*bayer, *o, i, j, old(rgb).at(i, j), rgb.at(i, j))
                },
        decreases h - r,
    {
        let mut c: usize = 0;
        while c < w
            invariant
                rgb.wf(),
                bayer.wf(),
                rgb.same_size(bayer),
                h == bayer.height(),
                w == bayer.width(),
                h <= i32::MAX,
                w <= i32::MAX,
                r < h,
                c <= w,
                forall|i: int, j: int|
                    bayer.has(i, j) ==> if i > r || (i == r && j >= c) || is_interior(
                        h as int,
                        w as int,
                        i,
                        j,
                    ) {
                        #[trigger] rgb.at(i, j) == old(rgb).at(i, j)
                    } else {
                        is_filled(*bayer, *o, i, j, old(rgb).at(i, j), rgb.at(i, j))
                    },
            decreases w - c,
        {
            if !(r >= 2 && r + 2 < h && c >= 2 && c + 2 < w) {
                let own = channel_at(o, r, c);
                let x = bayer.get(r, c);
                let old_px = rgb.get(r, c);
                let px: [T; 3] = if own == 0 {
                    [x, block_mean(bayer, o, r, c, 1, old_px[1]), block_mean(bayer, o, r, c, 2, old_px[2])]
                } else if own == 1 {
                    [block_mean(bayer, o, r, c, 0, old_px[0]), x, block_mean(bayer, o, r, c, 2, old_px[2])]
                } else {
                    [block_mean(bayer, o, r, c, 0, old_px[0]), block_mean(bayer, o, r, c, 1, old_px[1]), x]
                };
                rgb.set(r, c, px);
            }
            c = c + 1;
        }
        r = r + 1;
    }
}

/// The colour of a pixel that lies at least two pixels away from every edge.
fn interior_pixel<T: Sample>(bayer: &Plane<T>, o: &ChannelOffsets, r: usize, c: usize) -> (px: [T; 3])
    requires
        bayer.wf(),
        is_interior(bayer.height() as int, bayer.width() as int, r as int, c as int),
    ensures
        is_demosaiced(*bayer, *o, r as int, c as int, px),
{
    let own = channel_at(o, r, c);
    let x = bayer.get(r, c);
    if own == 0 {
        [
            x,
            unit_clamped(interp_g_at_rb(bayer, r, c)),
            unit_clamped(interp_b_at_r(bayer, r, c)),
        ]
    } else if own == 2 {
        [
            unit_clamped(interp_r_at_b(bayer, r, c)),
            unit_clamped(interp_g_at_rb(bayer, r, c)),
            x,
        ]
    } else if r % 2 == o.gr.0 && c % 2 == o.gr.1 {
        [
            unit_clamped(interp_r_at_gr(bayer, r, c)),
            x,
            unit_clamped(interp_b_at_gr(bayer, r, c)),
        ]
    } else {
        [
            unit_clamped(interp_r_at_gb(bayer, r, c)),
            x,
            unit_clamped(interp_b_at_gb(bayer, r, c)),
        ]
    }
}

/// A Bayer plane that can be demosaiced: it has a border on each side, or is
/// all border.
pub open spec fn is_demosaicable<T>(bayer: Plane<T>) -> bool {
    &&& bayer.wf()
    &&& 2 <= bayer.height() <= i32::MAX
    &&& bayer.width() <= i32::MAX
    &&& bayer.width() >= 2 || bayer.height() <= 4
}

/// `rgb` came out of demosaicing: every pixel has its colour.
pub open spec fn is_demosaiced_image<T: Sample>(
    bayer: Plane<T>,
    pattern: CfaPattern,
    rgb: Plane<[T; 3]>,
) -> bool {
    &&& rgb.wf()
    &&& rgb.same_size(&bayer)
    &&& forall|r: int, c: int|
        bayer.has(r, c) ==> is_demosaiced(bayer, pattern.places(), r, c, #[trigger] rgb.at(r, c))
}

/// Demosaics a Bayer plane into the red, green and blue of every pixel. The
/// values remain in linear light of `0 ..= 1`; gamma comes later.
pub fn demosaic<T: Sample>(bayer: &Plane<T>, pattern: CfaPattern) -> (rgb: Plane<[T; 3]>)
    requires
        is_demosaicable(*bayer),
    ensures
        rgb.wf(),
        rgb.same_size(bayer),
        is_demosaiced_image(*bayer, pattern, rgb),
{
    let (h, w) = bayer.dim();
    let o = pattern.offsets();
    let z: T = zero();
    proof {
        bayer.lemma_wf();
    }
    let mut rgb = Plane::filled(h, w, [z, z, z]);
    let mut r: usize = 2;
    while r + 2 < h
        invariant
            rgb.wf(),
            bayer.wf(),
            rgb.same_size(bayer),
            h == bayer.height(),
            w == bayer.width(),
            2 <= h <= i32::MAX,
            w <= i32::MAX,
            2 <= r,
            r + 2 <= h || r == 2,
            forall|i: int, j: int|
                #![trigger rgb.at(i, j)]
                rgb.has(i, j) && !is_interior(h as int, w as int, i, j) ==> rgb.at(i, j) == [z, z, z],
            forall|i: int, j: int|
                #![trigger rgb.at(i, j)]
                is_interior(h as int, w as int, i, j) && i < r ==> is_demosaiced(
                    *bayer,
                    o,
                    i,
                    j,
                    rgb.at(i, j),
                ),
        decreases h - r,
    {
        let mut c: usize = 2;
        while c + 2 < w
            invariant
                rgb.wf(),
                bayer.wf(),
                rgb.same_size(bayer),
                h == bayer.height(),
                w == bayer.width(),
                h <= i32::MAX,
                w <= i32::MAX,
                2 <= r,
                r + 2 < h,
                2 <= c,
                c + 2 <= w || c == 2,
                forall|i: int, j: int|
                    #![trigger rgb.at(i, j)]
                    rgb.has(i, j) && !is_interior(h as int, w as int, i, j) ==> rgb.at(i, j) == [
                        z,
                        z,
                        z,
                    ],
                forall|i: int, j: int|
                    #![trigger rgb.at(i, j)]
                    is_interior(h as int, w as int, i, j) && (i < r || (i == r && j < c))
                        ==> is_demosaiced(*bayer, o, i, j, rgb.at(i, j)),
            decreases w - c,
        {
            let px = interior_pixel(bayer, &o, r, c);
            rgb.set(r, c, px);
            c = c + 1;
        }
        r = r + 1;
    }
    let ghost inner = rgb;
    fill_border_bilinear(&mut rgb, bayer, &o);
    assert forall|i: int, j: int| bayer.has(i, j) implies is_demosaiced(
        *bayer,
        o,
        i,
        j,
        #[trigger] rgb.at(i, j),
    ) by {
        if is_interior(h as int, w as int, i, j) {
            assert(rgb.at(i, j) == inner.at(i, j));
        } else {
            assert(inner.at(i, j) == [z, z, z]);
            assert(is_filled(*bayer, o, i, j, inner.at(i, j), rgb.at(i, j)));
        }
    }
    rgb
}

/// The weights of the taps, added up, in halves.
pub open spec fn halves_total(taps: Seq<Tap>) -> int
    decreases taps.len(),
{
    if taps.len() == 0 {
        0
    } else {
        halves_total(taps.drop_last()) + taps.last().halves
    }
}

/// The weights of every kernel, over its divisor, add up to one: an even
/// field of light stays as it is.
pub proof fn kernels_have_unit_gain(kernel: Kernel)
    ensures
        halves_total(kernel.taps()) == 2 * KERNEL_DIVISOR,
{
    reveal_with_fuel(halves_total, 12);
}

/// The same weight for the neighbour across the diagonal.
pub open spec fn transposed(t: Tap) -> Tap {
    Tap { dr: t.dc, dc: t.dr, halves: t.halves }
}

/// At green pixels, the kernel for the colour of the column is the one for the
/// colour of the row, transposed.
pub proof fn column_kernel_is_row_kernel_transposed()
    ensures
        Kernel::GreenColumn.taps() == Kernel::GreenRow.taps().map_values(|t: Tap| transposed(t)),
{
    assert(Kernel::GreenColumn.taps() =~= Kernel::GreenRow.taps().map_values(
        |t: Tap| transposed(t),
    ));
}

/// The weights, in halves, of those among the first `n` taps that lie on pixels
/// of channel `ch`.
pub open spec fn halves_on(
    taps: Seq<Tap>,
    o: ChannelOffsets,
    r: int,
    c: int,
    ch: int,
    n: nat,
) -> int
    decreases n,
{
    if n == 0 {
        0
    } else {
        let t = taps[n - 1];
        halves_on(taps, o, r, c, ch, (n - 1) as nat) + if channel_of(o, r + t.dr, c + t.dc) == ch {
            t.halves as int
        } else {
            0
        }
    }
}

/// `halves` where a tap lies on channel `ch`, else nothing.
pub open spec fn halves_if(lies_on: int, ch: int, halves: int) -> int {
    if lies_on == ch {
        halves
    } else {
        0
    }
}

proof fn lemma_green_kernel(o: ChannelOffsets, r: int, c: int, ch: int)
    ensures
        halves_on(Kernel::GreenAtRedOrBlue.taps(), o, r, c, ch, 9) == halves_if(channel_of(o, r + 0, c + 1), ch, 8) + halves_if(channel_of(o, r + 1, c + 0), ch, 8),
{
    let taps = Kernel::GreenAtRedOrBlue.taps();
    assert(taps[0] == tap(-2, 0, -2));
    assert(channel_of(o, r - 2, c + 0) == channel_of(o, r + 0, c + 0));
    assert(halves_on(taps, o, r, c, ch, 1) == halves_on(taps, o, r, c, ch, 0) + halves_if(
        channel_of(o, r + 0, c + 0),
        ch,
        -2,
    ));
    assert(taps[1] == tap(0, -2, -2));
    assert(channel_of(o, r + 0, c - 2) == channel_of(o, r + 0, c + 0));
    assert(halves_on(taps, o, r, c, ch, 2) == halves_on(taps, o, r, c, ch, 1) + halves_if(
        channel_of(o, r + 0, c + 0),
        ch,
        -2,
    ));
    assert(taps[2] == tap(-1, 0, 4));
    assert(channel_of(o, r - 1, c + 0) == channel_of(o, r + 1, c + 0));
    assert(halves_on(taps, o, r, c, ch, 3) == halves_on(taps, o, r, c, ch, 2) + halves_if(
        channel_of(o, r + 1, c + 0),
        ch,
        4,
    ));
    assert(taps[3] == tap(0, -1, 4));
    assert(channel_of(o, r + 0, c - 1) == channel_of(o, r + 0, c + 1));
    assert(halves_on(taps, o, r, c, ch, 4) == halves_on(taps, o, r, c, ch, 3) + halves_if(
        channel_of(o, r + 0, c + 1),
        ch,
        4,
    ));
    assert(taps[4] == tap(0, 0, 8));
    assert(halves_on(taps, o, r, c, ch, 5) == halves_on(taps, o, r, c, ch, 4) + halves_if(
        channel_of(o, r + 0, c + 0),
        ch,
        8,
    ));
    assert(taps[5] == tap(1, 0, 4));
    assert(halves_on(taps, o, r, c, ch, 6) == halves_on(taps, o, r, c, ch, 5) + halves_if(
        channel_of(o, r + 1, c + 0),
        ch,
        4,
    ));
    assert(taps[6] == tap(0, 1, 4));
    assert(halves_on(taps, o, r, c, ch, 7) == halves_on(taps, o, r, c, ch, 6) + halves_if(
        channel_of(o, r + 0, c + 1),
        ch,
        4,
    ));
    assert(taps[7] == tap(2, 0, -2));
    assert(channel_of(o, r + 2, c + 0) == channel_of(o, r + 0, c + 0));
    assert(halves_on(taps, o, r, c, ch, 8) == halves_on(taps, o, r, c, ch, 7) + halves_if(
        channel_of(o, r + 0, c + 0),
        ch,
        -2,
    ));
    assert(taps[8] == tap(0, 2, -2));
    assert(channel_of(o, r + 0, c + 2) == channel_of(o, r + 0, c + 0));
    assert(halves_on(taps, o, r, c, ch, 9) == halves_on(taps, o, r, c, ch, 8) + halves_if(
        channel_of(o, r + 0, c + 0),
        ch,
        -2,
    ));
}

proof fn lemma_diagonal_kernel(o: ChannelOffsets, r: int, c: int, ch: int)
    ensures
        halves_on(Kernel::BlueAtRed.taps(), o, r, c, ch, 9) == halves_if(channel_of(o, r + 1, c + 1), ch, 16),
{
    let taps = Kernel::BlueAtRed.taps();
    assert(taps[0] == tap(-2, 0, -3));
    assert(channel_of(o, r - 2, c + 0) == channel_of(o, r + 0, c + 0));
    assert(halves_on(taps, o, r, c, ch, 1) == halves_on(taps, o, r, c, ch, 0) + halves_if(
        channel_of(o, r + 0, c + 0),
        ch,
        -3,
    ));
    assert(taps[1] == tap(0, -2, -3));
    assert(channel_of(o, r + 0, c - 2) == channel_of(o, r + 0, c + 0));
    assert(halves_on(taps, o, r, c, ch, 2) == halves_on(taps, o, r, c, ch, 1) + halves_if(
        channel_of(o, r + 0, c + 0),
        ch,
        -3,
    ));
    assert(taps[2] == tap(-1, -1, 4));
    assert(channel_of(o, r - 1, c - 1) == channel_of(o, r + 1, c + 1));
    assert(halves_on(taps, o, r, c, ch, 3) == halves_on(taps, o, r, c, ch, 2) + halves_if(
        channel_of(o, r + 1, c + 1),
        ch,
        4,
    ));
    assert(taps[3] == tap(-1, 1, 4));
    assert(channel_of(o, r - 1, c + 1) == channel_of(o, r + 1, c + 1));
    assert(halves_on(taps, o, r, c, ch, 4) == halves_on(taps, o, r, c, ch, 3) + halves_if(
        channel_of(o, r + 1, c + 1),
        ch,
        4,
    ));
    assert(taps[4] == tap(0, 0, 12));
    assert(halves_on(taps, o, r, c, ch, 5) == halves_on(taps, o, r, c, ch, 4) + halves_if(
        channel_of(o, r + 0, c + 0),
        ch,
        12,
    ));
    assert(taps[5] == tap(1, -1, 4));
    assert(channel_of(o, r + 1, c - 1) == channel_of(o, r + 1, c + 1));
    assert(halves_on(taps, o, r, c, ch, 6) == halves_on(taps, o, r, c, ch, 5) + halves_if(
        channel_of(o, r + 1, c + 1),
        ch,
        4,
    ));
    assert(taps[6] == tap(1, 1, 4));
    assert(halves_on(taps, o, r, c, ch, 7) == halves_on(taps, o, r, c, ch, 6) + halves_if(
        channel_of(o, r + 1, c + 1),
        ch,
        4,
    ));
    assert(taps[7] == tap(2, 0, -3));
    assert(channel_of(o, r + 2, c + 0) == channel_of(o, r + 0, c + 0));
    assert(halves_on(taps, o, r, c, ch, 8) == halves_on(taps, o, r, c, ch, 7) + halves_if(
        channel_of(o, r + 0, c + 0),
        ch,
        -3,
    ));
    assert(taps[8] == tap(0, 2, -3));
    assert(channel_of(o, r + 0, c + 2) == channel_of(o, r + 0, c + 0));
    assert(halves_on(taps, o, r, c, ch, 9) == halves_on(taps, o, r, c, ch, 8) + halves_if(
        channel_of(o, r + 0, c + 0),
        ch,
        -3,
    ));
}

proof fn lemma_row_kernel(o: ChannelOffsets, r: int, c: int, ch: int)
    ensures
        halves_on(Kernel::GreenRow.taps(), o, r, c, ch, 11) == halves_if(channel_of(o, r + 0, c + 0), ch, 8) + halves_if(channel_of(o, r + 0, c + 1), ch, 16) + halves_if(channel_of(o, r + 1, c + 1), ch, -8),
{
    let taps = Kernel::GreenRow.taps();
    assert(taps[0] == tap(-2, 0, 1));
    assert(channel_of(o, r - 2, c + 0) == channel_of(o, r + 0, c + 0));
    assert(halves_on(taps, o, r, c, ch, 1) == halves_on(taps, o, r, c, ch, 0) + halves_if(
        channel_of(o, r + 0, c + 0),
        ch,
        1,
    ));
    assert(taps[1] == tap(-1, -1, -2));
    assert(channel_of(o, r - 1, c - 1) == channel_of(o, r + 1, c + 1));
    assert(halves_on(taps, o, r, c, ch, 2) == halves_on(taps, o, r, c, ch, 1) + halves_if(
        channel_of(o, r + 1, c + 1),
        ch,
        -2,
    ));
    assert(taps[2] == tap(-1, 1, -2));
    assert(channel_of(o, r - 1, c + 1) == channel_of(o, r + 1, c + 1));
    assert(halves_on(taps, o, r, c, ch, 3) == halves_on(taps, o, r, c, ch, 2) + halves_if(
        channel_of(o, r + 1, c + 1),
        ch,
        -2,
    ));
    assert(taps[3] == tap(0, -2, -2));
    assert(channel_of(o, r + 0, c - 2) == channel_of(o, r + 0, c + 0));
    assert(halves_on(taps, o, r, c, ch, 4) == halves_on(taps, o, r, c, ch, 3) + halves_if(
        channel_of(o, r + 0, c + 0),
        ch,
        -2,
    ));
    assert(taps[4] == tap(0, -1, 8));
    assert(channel_of(o, r + 0, c - 1) == channel_of(o, r + 0, c + 1));
    assert(halves_on(taps, o, r, c, ch, 5) == halves_on(taps, o, r, c, ch, 4) + halves_if(
        channel_of(o, r + 0, c + 1),
        ch,
        8,
    ));
    assert(taps[5] == tap(0, 0, 10));
    assert(halves_on(taps, o, r, c, ch, 6) == halves_on(taps, o, r, c, ch, 5) + halves_if(
        channel_of(o, r + 0, c + 0),
        ch,
        10,
    ));
    assert(taps[6] == tap(0, 1, 8));
    assert(halves_on(taps, o, r, c, ch, 7) == halves_on(taps, o, r, c, ch, 6) + halves_if(
        channel_of(o, r + 0, c + 1),
        ch,
        8,
    ));
    assert(taps[7] == tap(0, 2, -2));
    assert(channel_of(o, r + 0, c + 2) == channel_of(o, r + 0, c + 0));
    assert(halves_on(taps, o, r, c, ch, 8) == halves_on(taps, o, r, c, ch, 7) + halves_if(
        channel_of(o, r + 0, c + 0),
        ch,
        -2,
    ));
    assert(taps[8] == tap(1, -1, -2));
    assert(channel_of(o, r + 1, c - 1) == channel_of(o, r + 1, c + 1));
    assert(halves_on(taps, o, r, c, ch, 9) == halves_on(taps, o, r, c, ch, 8) + halves_if(
        channel_of(o, r + 1, c + 1),
        ch,
        -2,
    ));
    assert(taps[9] == tap(1, 1, -2));
    assert(halves_on(taps, o, r, c, ch, 10) == halves_on(taps, o, r, c, ch, 9) + halves_if(
        channel_of(o, r + 1, c + 1),
        ch,
        -2,
    ));
    assert(taps[10] == tap(2, 0, 1));
    assert(channel_of(o, r + 2, c + 0) == channel_of(o, r + 0, c + 0));
    assert(halves_on(taps, o, r, c, ch, 11) == halves_on(taps, o, r, c, ch, 10) + halves_if(
        channel_of(o, r + 0, c + 0),
        ch,
        1,
    ));
}

proof fn lemma_column_kernel(o: ChannelOffsets, r: int, c: int, ch: int)
    ensures
        halves_on(Kernel::GreenColumn.taps(), o, r, c, ch, 11) == halves_if(channel_of(o, r + 0, c + 0), ch, 8) + halves_if(channel_of(o, r + 1, c + 0), ch, 16) + halves_if(channel_of(o, r + 1, c + 1), ch, -8),
{
    let taps = Kernel::GreenColumn.taps();
    assert(taps[0] == tap(0, -2, 1));
    assert(channel_of(o, r + 0, c - 2) == channel_of(o, r + 0, c + 0));
    assert(halves_on(taps, o, r, c, ch, 1) == halves_on(taps, o, r, c, ch, 0) + halves_if(
        channel_of(o, r + 0, c + 0),
        ch,
        1,
    ));
    assert(taps[1] == tap(-1, -1, -2));
    assert(channel_of(o, r - 1, c - 1) == channel_of(o, r + 1, c + 1));
    assert(halves_on(taps, o, r, c, ch, 2) == halves_on(taps, o, r, c, ch, 1) + halves_if(
        channel_of(o, r + 1, c + 1),
        ch,
        -2,
    ));
    assert(taps[2] == tap(1, -1, -2));
    assert(channel_of(o, r + 1, c - 1) == channel_of(o, r + 1, c + 1));
    assert(halves_on(taps, o, r, c, ch, 3) == halves_on(taps, o, r, c, ch, 2) + halves_if(
        channel_of(o, r + 1, c + 1),
        ch,
        -2,
    ));
    assert(taps[3] == tap(-2, 0, -2));
    assert(channel_of(o, r - 2, c + 0) == channel_of(o, r + 0, c + 0));
    assert(halves_on(taps, o, r, c, ch, 4) == halves_on(taps, o, r, c, ch, 3) + halves_if(
        channel_of(o, r + 0, c + 0),
        ch,
        -2,
    ));
    assert(taps[4] == tap(-1, 0, 8));
    assert(channel_of(o, r - 1, c + 0) == channel_of(o, r + 1, c + 0));
    assert(halves_on(taps, o, r, c, ch, 5) == halves_on(taps, o, r, c, ch, 4) + halves_if(
        channel_of(o, r + 1, c + 0),
        ch,
        8,
    ));
    assert(taps[5] == tap(0, 0, 10));
    assert(halves_on(taps, o, r, c, ch, 6) == halves_on(taps, o, r, c, ch, 5) + halves_if(
        channel_of(o, r + 0, c + 0),
        ch,
        10,
    ));
    assert(taps[6] == tap(1, 0, 8));
    assert(halves_on(taps, o, r, c, ch, 7) == halves_on(taps, o, r, c, ch, 6) + halves_if(
        channel_of(o, r + 1, c + 0),
        ch,
        8,
    ));
    assert(taps[7] == tap(2, 0, -2));
    assert(channel_of(o, r + 2, c + 0) == channel_of(o, r + 0, c + 0));
    assert(halves_on(taps, o, r, c, ch, 8) == halves_on(taps, o, r, c, ch, 7) + halves_if(
        channel_of(o, r + 0, c + 0),
        ch,
        -2,
    ));
    assert(taps[8] == tap(-1, 1, -2));
    assert(channel_of(o, r - 1, c + 1) == channel_of(o, r + 1, c + 1));
    assert(halves_on(taps, o, r, c, ch, 9) == halves_on(taps, o, r, c, ch, 8) + halves_if(
        channel_of(o, r + 1, c + 1),
        ch,
        -2,
    ));
    assert(taps[9] == tap(1, 1, -2));
    assert(halves_on(taps, o, r, c, ch, 10) == halves_on(taps, o, r, c, ch, 9) + halves_if(
        channel_of(o, r + 1, c + 1),
        ch,
        -2,
    ));
    assert(taps[10] == tap(0, 2, 1));
    assert(channel_of(o, r + 0, c + 2) == channel_of(o, r + 0, c + 0));
    assert(halves_on(taps, o, r, c, ch, 11) == halves_on(taps, o, r, c, ch, 10) + halves_if(
        channel_of(o, r + 0, c + 0),
        ch,
        1,
    ));
}

proof fn lemma_tap_counts()
    ensures
        Kernel::GreenAtRedOrBlue.taps().len() == 9,
        Kernel::BlueAtRed.taps().len() == 9,
        Kernel::GreenRow.taps().len() == 11,
        Kernel::GreenColumn.taps().len() == 11,
{
}

/// The kernel of each channel estimates that channel: its weights add up to the
/// divisor on pixels of the channel, and to zero on those of each other one.
pub proof fn kernels_estimate_their_channel(
    pattern: CfaPattern,
    r: int,
    c: int,
    ch: int,
    other: int,
)
    requires
        0 <= ch < 3,
        0 <= other < 3,
        ch != channel_of(pattern.places(), r, c),
    ensures
        ({
            let taps = kernel_for(pattern.places(), r, c, ch).taps();
            halves_on(taps, pattern.places(), r, c, other, taps.len()) == if other == ch {
                2 * KERNEL_DIVISOR
            } else {
                0
            }
        }),
{
    let o = pattern.places();
    lemma_green_kernel(o, r, c, other);
    lemma_diagonal_kernel(o, r, c, other);
    lemma_row_kernel(o, r, c, other);
    lemma_column_kernel(o, r, c, other);
    lemma_tap_counts();
}

/// The kernels at red and blue pixels treat rows and columns alike.
pub proof fn kernels_at_red_and_blue_are_symmetric(kernel: Kernel, t: Tap)
    requires
        kernel == Kernel::GreenAtRedOrBlue || kernel == Kernel::BlueAtRed,
        kernel.taps().contains(t),
    ensures
        kernel.taps().contains(transposed(t)),
{
    let taps = kernel.taps();
    let i = choose|i: int| 0 <= i < taps.len() && taps[i] == t;
    // Each tap and its partner across the diagonal.
    let partners: Seq<int> = if kernel == Kernel::GreenAtRedOrBlue {
        seq![1, 0, 3, 2, 4, 6, 5, 8, 7]
    } else {
        seq![1, 0, 2, 5, 4, 3, 6, 8, 7]
    };
    assert(taps[partners[i]] == transposed(t));
}

/// Reading on in a block loses no value.
proof fn lemma_block_values_grow<T>(
    bayer: Plane<T>,
    o: ChannelOffsets,
    r: int,
    c: int,
    ch: int,
    k: nat,
    m: nat,
)
    requires
        k <= m,
    ensures
        block_values(bayer, o, r, c, ch, k).len() <= block_values(bayer, o, r, c, ch, m).len(),
    decreases m,
{
    if k < m {
        lemma_block_values_grow(bayer, o, r, c, ch, k, (m - 1) as nat);
    }
}

/// Around every pixel of an image with two rows and two columns, the 5x5
/// block holds values of all three channels: no channel is left empty.
pub proof fn every_block_holds_every_channel<T>(
    bayer: Plane<T>,
    pattern: CfaPattern,
    r: int,
    c: int,
    ch: int,
)
    requires
        bayer.height() >= 2,
        bayer.width() >= 2,
        bayer.has(r, c),
        0 <= ch < 3,
    ensures
        block_values(bayer, pattern.places(), r, c, ch, 25).len() > 0,
{
    let h = bayer.height() as int;
    let w = bayer.width() as int;
    let o = pattern.places();
    let place = if ch == 0 {
        o.r
    } else if ch == 1 {
        o.gr
    } else {
        o.b
    };
    // Two rows of the block have different parities, and so have two columns.
    let i: int = if r % 2 == place.0 {
        2
    } else if r + 1 < h {
        3
    } else {
        1
    };
    let j: int = if c % 2 == place.1 {
        2
    } else if c + 1 < w {
        3
    } else {
        1
    };
    let k = 5 * i + j;
    assert(k / 5 == i && k % 5 == j);
    let p = block_pixel(h, w, r, c, k);
    assert(p == (r + i - 2, c + j - 2));
    assert(channel_of(o, p.0, p.1) == ch);
    let upto = block_values(bayer, o, r, c, ch, (k + 1) as nat);
    assert(upto == block_values(bayer, o, r, c, ch, k as nat).push(bayer.at(p.0, p.1)));
    lemma_block_values_grow(bayer, o, r, c, ch, (k + 1) as nat, 25);
}

} // verus!
