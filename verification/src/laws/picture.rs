//! Laws of picture files and of the files that make up a burst.
use crate::burst::BurstFrame;
use crate::exact::clamp_real;
use crate::exact::is_exact;
use crate::exact::lemma_commute;
use crate::exact::lemma_unit_clamp;
use crate::files::differs_in_size;
use crate::files::is_first_misfit;
use crate::files::is_raw_suffix;
use crate::files::MIN_FRAMES;
use crate::laws::color::has_exact_powers;
use crate::laws::color::is_fraction;
use crate::laws::color::lemma_power_of_one;
use crate::laws::color::lemma_power_order;
use crate::laws::color::real_power;
use crate::output::are_preview_bytes;
use crate::output::are_rgb_bytes;
use crate::output::channels_lie_in_order;
use crate::output::is_brightened;
use crate::output::is_byte_of;
use crate::output::is_channel_byte;
use crate::output::is_preview_byte;
use crate::plane::lemma_flat_index_bound;
use crate::plane::Plane;
use crate::sample::is_product;
use crate::sample::is_quotient;
use crate::sample::is_ratio;
use crate::sample::is_unit_clamped;
use crate::sample::Sample;
use vstd::prelude::*;

verus! {

/// A number of `0 ..= 255` is cut down to the greatest whole number not above it.
pub open spec fn has_exact_bytes<T: Sample>(value: spec_fn(T) -> real) -> bool {
    forall|y: T, b: u8| #[trigger]
        call_ensures(T::to_byte, (y,), b) && 0real <= value(y) <= 255real ==> b as real <= value(y)
            && value(y) < b as real + 1real
}

/// The byte of a value of `0 ..= 1`.
proof fn lemma_byte<T: Sample>(value: spec_fn(T) -> real, x: T, b: u8)
    requires
        is_exact(value),
        has_exact_bytes(value),
        0real <= value(x) <= 1real,
        is_byte_of(x, b),
    ensures
        b as real <= 255real * value(x),
        255real * value(x) < b as real + 1real,
{
    let (most, y) = choose|most: T, y: T|
        is_ratio(255, 1, most) && #[trigger] is_product(x, most, y) && #[trigger] call_ensures(
            T::to_byte,
            (y,),
            b,
        );
    assert(value(most) * 1real == 255real);
    lemma_commute(value(x), value(most));
    assert(value(most) * value(x) == 255real * value(x));
}

/// A colour image is written row after row, each pixel as red, green and blue: the
/// byte of a channel is the greatest whole number not above 255 times its value,
/// clamped to `0 ..= 1`.
pub proof fn channels_are_written_in_255_steps<T: Sample>(
    value: spec_fn(T) -> real,
    rgb: Plane<[T; 3]>,
    bytes: Seq<u8>,
    r: int,
    c: int,
    ch: int,
)
    requires
        is_exact(value),
        has_exact_bytes(value),
        rgb.wf(),
        are_rgb_bytes(rgb, bytes),
        rgb.has(r, c),
        0 <= ch < 3,
    ensures
        bytes.len() == 3 * (rgb.height() * rgb.width()),
        ({
            let b = bytes[3 * (r * rgb.width() + c) + ch] as real;
            let x = clamp_real(value(rgb.at(r, c)[ch]), 0real, 1real);
            b <= 255real * x && 255real * x < b + 1real
        }),
{
    rgb.lemma_wf();
    channels_lie_in_order(rgb, bytes, r, c, ch);
    let v = rgb.at(r, c)[ch];
    let b = bytes[3 * (r * rgb.width() + c) + ch];
    assert(is_channel_byte(v, b));
    let x = choose|x: T| #[trigger] is_unit_clamped(v, x) && is_byte_of(x, b);
    lemma_unit_clamp(value, v, x);
    lemma_byte(value, x, b);
}

/// A preview is written row after row, one byte for each pixel: the greatest whole
/// number not above 255 times the root `p` of the value, clamped to `0 ..= 1`, to the
/// power of five elevenths.
pub proof fn previews_are_brightened<T: Sample>(
    value: spec_fn(T) -> real,
    bayer: Plane<T>,
    bytes: Seq<u8>,
    r: int,
    c: int,
) -> (p: real)
    requires
        is_exact(value),
        has_exact_powers(value),
        has_exact_bytes(value),
        bayer.wf(),
        are_preview_bytes(bayer, bytes),
        bayer.has(r, c),
    ensures
        bytes.len() == bayer.height() * bayer.width(),
        0real <= p <= 1real,
        real_power(p, 11) == real_power(clamp_real(value(bayer.at(r, c)), 0real, 1real), 5),
        bytes[r * bayer.width() + c] as real <= 255real * p,
        255real * p < bytes[r * bayer.width() + c] as real + 1real,
{
    bayer.lemma_wf();
    lemma_flat_index_bound(r, c, bayer.height() as int, bayer.width() as int);
    let i = r * bayer.width() + c;
    let v = bayer.contents()@[i];
    let b = bytes[i];
    assert(is_preview_byte(v, b));
    let (x, y) = choose|x: T, y: T| #[trigger]
        is_unit_clamped(v, x) && #[trigger] is_brightened(x, y) && is_byte_of(y, b);
    lemma_unit_clamp(value, v, x);
    let (one, gamma, exponent) = choose|one: T, gamma: T, exponent: T|
        is_ratio(1, 1, one) && is_ratio(22, 10, gamma) && #[trigger] is_quotient(
            one,
            gamma,
            exponent,
        ) && #[trigger] call_ensures(T::power, (x, exponent), y);
    assert(value(one) * 1real == 1real);
    assert(value(gamma) * 10real == 22real);
    assert(value(exponent) * value(gamma) == 1real);
    lemma_commute(value(exponent), value(gamma));
    assert(value(gamma) * value(exponent) == (22real / 10real) * value(exponent));
    lemma_commute(value(exponent), 11nat as real);
    assert((11nat as real) * value(exponent) == 11real * value(exponent));
    assert(is_fraction(value(exponent), 5, 11));
    let p = value(y);
    lemma_power_of_one(11);
    lemma_power_of_one(5);
    lemma_power_order(value(x), 1real, 5);
    if p > 1real {
        lemma_power_order(1real, p, 11);
    }
    lemma_byte(value, y, b);
    p
}

/// The cells of a plane lie row after row.
pub proof fn cells_lie_row_after_row<E>(plane: Plane<E>, r: int, c: int)
    requires
        plane.wf(),
        plane.has(r, c),
    ensures
        plane.contents()@.len() == plane.height() * plane.width(),
        0 <= r * plane.width() + c < plane.contents()@.len(),
        plane.at(r, c) == plane.contents()@[r * plane.width() + c],
{
    plane.lemma_wf();
    lemma_flat_index_bound(r, c, plane.height() as int, plane.width() as int);
}

/// The extensions of raw files, in lower case, are these five.
pub proof fn raw_files_have_one_of_five_extensions(suffix: Seq<char>)
    ensures
        is_raw_suffix(suffix) <==> suffix == seq!['d', 'n', 'g'] || suffix == seq!['c', 'r', '2']
            || suffix == seq!['n', 'e', 'f'] || suffix == seq!['a', 'r', 'w'] || suffix == seq![
            'r',
            'w',
            '2',
        ],
{
    reveal_strlit("dng");
    reveal_strlit("cr2");
    reveal_strlit("nef");
    reveal_strlit("arw");
    reveal_strlit("rw2");
    assert("dng"@ =~= seq!['d', 'n', 'g']);
    assert("cr2"@ =~= seq!['c', 'r', '2']);
    assert("nef"@ =~= seq!['n', 'e', 'f']);
    assert("arw"@ =~= seq!['a', 'r', 'w']);
    assert("rw2"@ =~= seq!['r', 'w', '2']);
}

/// A burst takes a reference and at least one more frame.
pub proof fn bursts_take_an_alternate()
    ensures
        MIN_FRAMES == 2,
{
}

/// Two frames have the same size exactly where they have as many rows and as many
/// columns; which of them comes first does not matter.
pub proof fn frames_differ_in_height_or_width<T>(a: BurstFrame<T>, b: BurstFrame<T>)
    ensures
        differs_in_size(a, b) == differs_in_size(b, a),
        !differs_in_size(a, b) <==> a.height == b.height && a.width == b.width,
{
}

/// A burst has no misfit exactly where all frames have as many rows and as many columns
/// as the first one; and where frames are numbered in order, all before the misfit do.
pub proof fn misfits_are_the_first_of_another_size<T>(
    frames: Seq<BurstFrame<T>>,
    misfit: Option<usize>,
)
    requires
        is_first_misfit(frames, misfit),
        frames.len() >= 1,
        forall|i: int| 0 <= i < frames.len() ==> (#[trigger] frames[i]).frame_index == i,
    ensures
        misfit is None <==> forall|i: int|
            0 <= i < frames.len() ==> (#[trigger] frames[i]).height == frames[0].height
                && frames[i].width == frames[0].width,
        misfit matches Some(k) ==> 0 < k < frames.len() && (frames[k as int].height
            != frames[0].height || frames[k as int].width != frames[0].width) && forall|i: int|
            0 <= i < k ==> (#[trigger] frames[i]).height == frames[0].height && frames[i].width
                == frames[0].width,
{
    if let Some(k) = misfit {
        let i = choose|i: int|
            {
                &&& 0 < i < frames.len()
                &&& differs_in_size(frames[0], #[trigger] frames[i])
                &&& k == frames[i].frame_index
                &&& forall|j: int|
                    0 < j < i ==> !differs_in_size(frames[0], #[trigger] frames[j])
            };
        assert(frames[i].frame_index == i);
    }
}

} // verus!
