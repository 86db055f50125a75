//! From images to the bytes of picture files.
use crate::plane::Plane;
use crate::sample::is_one;
use crate::sample::is_product;
use crate::sample::is_quotient;
use crate::sample::is_ratio;
use crate::sample::is_unit_clamped;
use crate::sample::unit_clamped;
use crate::sample::Sample;
use vstd::prelude::*;

verus! {

/// `b` came out of `x * 255`, cut down to a byte.
pub open spec fn is_byte_of<T: Sample>(x: T, b: u8) -> bool {
    exists|most: T, y: T|
        is_ratio(255, 1, most) && #[trigger] is_product(x, most, y) && #[trigger] call_ensures(
            T::to_byte,
            (y,),
            b,
        )
}

/// `b` came out of a value, clamped to `0 ..= 1`.
pub open spec fn is_channel_byte<T: Sample>(v: T, b: u8) -> bool {
    exists|x: T| #[trigger] is_unit_clamped(v, x) && is_byte_of(x, b)
}

/// `v` came out of raising `x` to `1 / 2.2`.
pub open spec fn is_brightened<T: Sample>(x: T, v: T) -> bool {
    exists|one: T, gamma: T, exponent: T|
        is_one(one) && is_ratio(22, 10, gamma) && #[trigger] is_quotient(one, gamma, exponent)
            && #[trigger] call_ensures(T::power, (x, exponent), v)
}

/// `b` came out of a value, clamped to `0 ..= 1` and brightened.
pub open spec fn is_preview_byte<T: Sample>(v: T, b: u8) -> bool {
    exists|x: T, y: T| #[trigger]
        is_unit_clamped(v, x) && #[trigger] is_brightened(x, y) && is_byte_of(y, b)
}

fn byte_of<T: Sample>(x: T) -> (b: u8)
    ensures
        is_byte_of(x, b),
{
    let most: T = T::ratio(255, 1);
    let y = x.times(most);
    y.to_byte()
}

fn channel_byte<T: Sample>(v: T) -> (b: u8)
    ensures
        is_channel_byte(v, b),
{
    let x = unit_clamped(v);
    byte_of(x)
}

fn brightened<T: Sample>(x: T) -> (v: T)
    ensures
        is_brightened(x, v),
{
    let one: T = T::ratio(1, 1);
    let gamma: T = T::ratio(22, 10);
    let exponent = one.over(gamma);
    x.power(exponent)
}

fn preview_byte<T: Sample>(v: T) -> (b: u8)
    ensures
        is_preview_byte(v, b),
{
    let x = unit_clamped(v);
    let y = brightened(x);
    byte_of(y)
}

/// `bytes` holds one byte of the preview for each pixel.
pub open spec fn are_preview_bytes<T: Sample>(bayer: Plane<T>, bytes: Seq<u8>) -> bool {
    &&& bytes.len() == bayer.contents()@.len()
    &&& forall|i: int|
        0 <= i < bytes.len() ==> is_preview_byte(bayer.contents()@[i], #[trigger] bytes[i])
}

/// `bytes` holds three bytes for each pixel.
pub open spec fn are_rgb_bytes<T: Sample>(rgb: Plane<[T; 3]>, bytes: Seq<u8>) -> bool {
    &&& bytes.len() == 3 * rgb.contents()@.len()
    &&& forall|i: int|
        0 <= i < bytes.len() ==> is_channel_byte(
            rgb.contents()@[i / 3][i % 3],
            #[trigger] bytes[i],
        )
}

/// The bytes of a grey preview of a Bayer image, row after row, one for each
/// pixel.
pub fn bayer_preview_bytes<T: Sample>(bayer: &Plane<T>) -> (bytes: Vec<u8>)
    ensures
        bytes@.len() == bayer.contents()@.len(),
        are_preview_bytes(*bayer, bytes@),
{
    let cells = bayer.as_vec();
    let mut bytes: Vec<u8> = Vec::new();
    let mut i: usize = 0;
    while i < cells.len()
        invariant
            i <= cells@.len(),
            bytes@.len() == i,
            forall|k: int| 0 <= k < i ==> is_preview_byte(cells@[k], #[trigger] bytes@[k]),
        decreases cells.len() - i,
    {
        bytes.push(preview_byte(cells[i]));
        i = i + 1;
    }
    bytes
}

/// The bytes of a colour image, row after row, three for each pixel.
pub fn rgb_bytes<T: Sample>(rgb: &Plane<[T; 3]>) -> (bytes: Vec<u8>)
    ensures
        bytes@.len() == 3 * rgb.contents()@.len(),
        are_rgb_bytes(*rgb, bytes@),
{
    let cells = rgb.as_vec();
    let mut bytes: Vec<u8> = Vec::new();
    let mut i: usize = 0;
    while i < cells.len()
        invariant
            i <= cells@.len(),
            bytes@.len() == 3 * i,
            forall|k: int|
                0 <= k < bytes@.len() ==> is_channel_byte(
                    cells@[k / 3][k % 3],
                    #[trigger] bytes@[k],
                ),
        decreases cells.len() - i,
    {
        let px = cells[i];
        bytes.push(channel_byte(px[0]));
        bytes.push(channel_byte(px[1]));
        bytes.push(channel_byte(px[2]));
        i = i + 1;
    }
    bytes
}

/// The bytes of a colour image lie where a picture file has them: channel `ch`
/// of pixel `(r, c)` is byte `3 * (r * width + c) + ch`.
pub proof fn channels_lie_in_order<T: Sample>(
    rgb: Plane<[T; 3]>,
    bytes: Seq<u8>,
    r: int,
    c: int,
    ch: int,
)
    requires
        rgb.wf(),
        rgb.has(r, c),
        0 <= ch < 3,
        are_rgb_bytes(rgb, bytes),
    ensures
        is_channel_byte(rgb.at(r, c)[ch], bytes[3 * (r * rgb.width() + c) + ch]),
{
    rgb.lemma_wf();
    crate::plane::lemma_flat_index_bound(r, c, rgb.height() as int, rgb.width() as int);
    let k = 3 * (r * rgb.width() + c) + ch;
    assert(k / 3 == r * rgb.width() + c);
    assert(k % 3 == ch);
    assert(is_channel_byte(rgb.contents()@[k / 3][k % 3], bytes[k]));
}

} // verus!
