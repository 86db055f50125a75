//! Laws of the frames that come out of raw files.
use crate::burst::is_decoder_balance;
use crate::burst::is_gain_check;
use crate::burst::is_normalized;
use crate::burst::BurstFrame;
use crate::burst::CfaPattern;
use crate::burst::NoiseModel;
use crate::burst::RawFrame;
use crate::burst::RawPixels;
use crate::exact::clamp_real;
use crate::exact::is_exact;
use crate::exact::lemma_cancel;
use crate::exact::lemma_distribute;
use crate::exact::lemma_scale_order;
use crate::exact::lemma_unit_clamp;
use crate::metadata::DngMetadata;
use crate::plane::lemma_flat_index_bound;
use crate::sample::is_count;
use crate::sample::is_difference;
use crate::sample::is_product;
use crate::sample::is_quotient;
use crate::sample::is_sum;
use crate::sample::is_unit_clamped;
use crate::sample::is_zero;
use crate::sample::Sample;
use vstd::prelude::*;

verus! {

/// A quotient that was clamped to `0 ..= 1`, in terms of what it was made of.
proof fn lemma_clamped_quotient(q: real, d: real, range: real, v: real)
    requires
        0real < range,
        q * range == d,
        v == clamp_real(q, 0real, 1real),
    ensures
        0real <= d <= range ==> v * range == d,
        d <= 0real ==> v == 0real,
        d >= range ==> v == 1real,
{
    assert(1real * range == range);
    assert(0real * range == 0real);
    if q < 0real {
        lemma_scale_order(q, 0real, range);
        if d == 0real {
            lemma_cancel(q, 0real, range);
        }
    } else if q > 1real {
        lemma_scale_order(1real, q, range);
        if d == range {
            lemma_cancel(q, 1real, range);
        }
    } else {
        if d <= 0real {
            lemma_scale_order(0real, q, range);
            lemma_cancel(q, 0real, range);
        }
        if d >= range {
            lemma_scale_order(q, 1real, range);
            lemma_cancel(q, 1real, range);
        }
    }
}

/// The sensor's counts are scaled between its black and its white level: the
/// count of pixel `(r, c)` stands at `r * width + c`, a count between the levels
/// keeps its distance from black in units of the distance from black to white,
/// all counts up to black become zero and all from white on become one.
pub proof fn counts_are_scaled_between_the_levels<T: Sample>(
    value: spec_fn(T) -> real,
    f: BurstFrame<T>,
    raw: RawFrame<T>,
    counts: Seq<u16>,
    dng: DngMetadata<T>,
    frame_index: usize,
    r: int,
    c: int,
)
    requires
        is_exact(value),
        BurstFrame::is_frame_of(f, raw, counts, dng, frame_index),
        raw.blacklevels[0] < raw.whitelevels[0],
        counts.len() == raw.height * raw.width,
        0 <= r < raw.height,
        0 <= c < raw.width,
    ensures
        ({
            let px = counts[r * raw.width + c] as int;
            let black = raw.blacklevels[0] as int;
            let white = raw.whitelevels[0] as int;
            let v = value(f.bayer.at(r, c));
            &&& black <= px <= white ==> v * ((white - black) as real) == (px - black) as real
            &&& px <= black ==> v == 0real
            &&& px >= white ==> v == 1real
            &&& 0real <= v <= 1real
        }),
{
    lemma_flat_index_bound(r, c, raw.height as int, raw.width as int);
    let i = r * raw.width + c;
    let px = counts[i] as int;
    let black = raw.blacklevels[0] as int;
    let white = raw.whitelevels[0] as int;
    let v = f.bayer.at(r, c);
    assert(v == f.bayer.contents()@[i]);
    let range = choose|range: T|
        #[trigger] is_difference(f.white_level, f.black_level, range) && forall|i: int|
            0 <= i < counts.len() ==> is_normalized(
                counts[i],
                f.black_level,
                range,
                #[trigger] f.bayer.contents()@[i],
            );
    assert(is_normalized(counts[i], f.black_level, range, v));
    let (x, d, q) = choose|x: T, d: T, q: T|
        is_count(counts[i] as usize, x) && #[trigger] is_difference(x, f.black_level, d)
            && #[trigger] is_quotient(d, range, q) && is_unit_clamped(q, v);
    assert(value(x) == px as real);
    assert(value(f.black_level) == black as real);
    assert(value(f.white_level) == white as real);
    assert(value(range) == (white - black) as real);
    assert(value(d) == (px - black) as real);
    assert(value(q) * value(range) == value(d));
    lemma_unit_clamp(value, q, v);
    lemma_clamped_quotient(value(q), value(d), value(range), value(v));
}

/// Where the levels are given the wrong way round, so are the values: counts up to
/// white become one, counts from black on become zero, and those in between keep
/// their distance from black.
pub proof fn levels_the_wrong_way_round_invert<T: Sample>(
    value: spec_fn(T) -> real,
    f: BurstFrame<T>,
    raw: RawFrame<T>,
    counts: Seq<u16>,
    dng: DngMetadata<T>,
    frame_index: usize,
    r: int,
    c: int,
)
    requires
        is_exact(value),
        BurstFrame::is_frame_of(f, raw, counts, dng, frame_index),
        raw.whitelevels[0] < raw.blacklevels[0],
        counts.len() == raw.height * raw.width,
        0 <= r < raw.height,
        0 <= c < raw.width,
    ensures
        ({
            let px = counts[r * raw.width + c] as int;
            let black = raw.blacklevels[0] as int;
            let white = raw.whitelevels[0] as int;
            let v = value(f.bayer.at(r, c));
            &&& white <= px <= black ==> v * ((black - white) as real) == (black - px) as real
            &&& px <= white ==> v == 1real
            &&& px >= black ==> v == 0real
        }),
{
    lemma_flat_index_bound(r, c, raw.height as int, raw.width as int);
    let i = r * raw.width + c;
    let v = f.bayer.at(r, c);
    let range = choose|range: T|
        #[trigger] is_difference(f.white_level, f.black_level, range) && forall|i: int|
            0 <= i < counts.len() ==> is_normalized(
                counts[i],
                f.black_level,
                range,
                #[trigger] f.bayer.contents()@[i],
            );
    assert(is_normalized(counts[i], f.black_level, range, f.bayer.contents()@[i]));
    let (x, d, q) = choose|x: T, d: T, q: T|
        is_count(counts[i] as usize, x) && #[trigger] is_difference(x, f.black_level, d)
            && #[trigger] is_quotient(d, range, q) && is_unit_clamped(q, v);
    assert(value(q) * value(range) == value(d));
    lemma_unit_clamp(value, q, v);
    let n = 0real - value(range);
    lemma_distribute(value(q), 0real, value(range));
    assert(value(q) * 0real == 0real);
    lemma_clamped_quotient(value(q), 0real - value(d), n, value(v));
}

/// A brighter count never gives a darker value, and between the levels a
/// brighter count gives a brighter value.
pub proof fn brighter_counts_give_brighter_values<T: Sample>(
    value: spec_fn(T) -> real,
    f: BurstFrame<T>,
    raw: RawFrame<T>,
    counts: Seq<u16>,
    dng: DngMetadata<T>,
    frame_index: usize,
    r1: int,
    c1: int,
    r2: int,
    c2: int,
)
    requires
        is_exact(value),
        BurstFrame::is_frame_of(f, raw, counts, dng, frame_index),
        raw.blacklevels[0] < raw.whitelevels[0],
        counts.len() == raw.height * raw.width,
        0 <= r1 < raw.height,
        0 <= c1 < raw.width,
        0 <= r2 < raw.height,
        0 <= c2 < raw.width,
        counts[r1 * raw.width + c1] < counts[r2 * raw.width + c2],
    ensures
        value(f.bayer.at(r1, c1)) <= value(f.bayer.at(r2, c2)),
        counts[r1 * raw.width + c1] >= raw.blacklevels[0] && counts[r2 * raw.width + c2]
            <= raw.whitelevels[0] ==> value(f.bayer.at(r1, c1)) < value(f.bayer.at(r2, c2)),
{
    counts_are_scaled_between_the_levels(value, f, raw, counts, dng, frame_index, r1, c1);
    counts_are_scaled_between_the_levels(value, f, raw, counts, dng, frame_index, r2, c2);
    let v1 = value(f.bayer.at(r1, c1));
    let v2 = value(f.bayer.at(r2, c2));
    let range = (raw.whitelevels[0] - raw.blacklevels[0]) as real;
    if v2 <= v1 {
        lemma_scale_order(v2, v1, range);
    }
}

/// The frame keeps what the file says of the shot, and takes the decoder's word
/// only where the file is silent: multipliers from the metadata come first, then
/// the decoder's, if all four are defined and positive, then those of daylight; the colour
/// matrix comes from the metadata first, then from the decoder's first rows.
pub proof fn metadata_comes_before_the_decoder<T: Sample>(
    value: spec_fn(T) -> real,
    f: BurstFrame<T>,
    raw: RawFrame<T>,
    counts: Seq<u16>,
    dng: DngMetadata<T>,
    frame_index: usize,
    undefined: spec_fn(T) -> bool,
)
    requires
        is_exact(value),
        BurstFrame::is_frame_of(f, raw, counts, dng, frame_index),
        forall|x: T, b: bool| #[trigger]
            call_ensures(T::is_undefined, (x,), b) ==> b == undefined(x),
    ensures
        f.height == raw.height && f.width == raw.width,
        value(f.black_level) == raw.blacklevels[0] as real,
        value(f.white_level) == raw.whitelevels[0] as real,
        f.frame_index == frame_index,
        f.exposure_time == dng.exposure_time,
        f.iso == dng.iso,
        dng.wb_coeffs is Some ==> f.wb_coeffs == dng.wb_coeffs->0,
        ({
            let found = raw.wb_coeffs;
            let all_positive = forall|i: int|
                0 <= i < 4 ==> !undefined(#[trigger] found[i]) && value(found[i]) > 0real;
            &&& dng.wb_coeffs is None && all_positive ==> f.wb_coeffs == found
            &&& dng.wb_coeffs is None && !all_positive ==> {
                &&& value(f.wb_coeffs[0]) == 2real
                &&& value(f.wb_coeffs[1]) == 1real
                &&& value(f.wb_coeffs[2]) == 1real
                &&& 2real * value(f.wb_coeffs[3]) == 3real
            }
        }),
        dng.color_matrix is Some ==> f.color_matrix == dng.color_matrix->0,
        dng.color_matrix is None ==> f.color_matrix[0] == raw.xyz_to_cam[0] && f.color_matrix[1]
            == raw.xyz_to_cam[1] && f.color_matrix[2] == raw.xyz_to_cam[2],
        10000real * value(f.noise_model.lambda_s) == 1real,
        1000000real * value(f.noise_model.lambda_r) == 1real,
{
    assert(value(f.noise_model.lambda_s) * 10000real == 1real);
    assert(value(f.noise_model.lambda_r) * 1000000real == 1real);
    if dng.wb_coeffs is None {
        let found = raw.wb_coeffs;
        assert(is_decoder_balance(found, f.wb_coeffs));
        assert forall|i: int, bad: bool|
            0 <= i < 4 && #[trigger] is_gain_check(found[i], bad) implies bad == (undefined(found[i])
            || value(found[i]) <= 0real) by {
            if !undefined(found[i]) {
                let z = choose|z: T|
                    is_zero(z) && #[trigger] call_ensures(T::at_most, (found[i], z), bad);
                assert(value(z) * 1real == 0real);
            }
        }
        if f.wb_coeffs == found && forall|i: int|
            0 <= i < 4 ==> is_gain_check(#[trigger] found[i], false) {
            assert forall|i: int| 0 <= i < 4 implies !undefined(#[trigger] found[i]) && value(
                found[i],
            ) > 0real by {
                assert(is_gain_check(found[i], false));
            }
        } else {
            let i = choose|i: int| 0 <= i < 4 && is_gain_check(#[trigger] found[i], true);
            assert(undefined(found[i]) || value(found[i]) <= 0real);
            assert(value(f.wb_coeffs[0]) * 1real == 2real);
            assert(value(f.wb_coeffs[1]) * 1real == 1real);
            assert(value(f.wb_coeffs[2]) * 1real == 1real);
            assert(value(f.wb_coeffs[3]) * 2real == 3real);
        }
    }
}

/// The variance of the noise grows with the light from the read noise on, by the
/// shot noise for each unit of it.
pub proof fn variance_is_shot_noise_plus_read_noise<T: Sample>(
    value: spec_fn(T) -> real,
    model: NoiseModel<T>,
    intensity: T,
    v: T,
)
    requires
        is_exact(value),
        model.is_variance(intensity, v),
    ensures
        value(v) == value(model.lambda_s) * value(intensity) + value(model.lambda_r),
        value(intensity) == 0real ==> value(v) == value(model.lambda_r),
{
    let shot = choose|shot: T|
        is_product(model.lambda_s, intensity, shot) && #[trigger] is_sum(shot, model.lambda_r, v);
    if value(intensity) == 0real {
        assert(value(model.lambda_s) * 0real == 0real);
    }
}

/// Each pattern has the four letters of its name, and its colours lie where the
/// name, read row by row, has their letters; the green of the red row is told
/// from that of the blue row.
pub proof fn patterns_are_read_row_by_row(pattern: CfaPattern)
    ensures
        CfaPattern::RGGB.letters() == "RGGB"@,
        CfaPattern::BGGR.letters() == "BGGR"@,
        CfaPattern::GRBG.letters() == "GRBG"@,
        CfaPattern::GBRG.letters() == "GBRG"@,
        ({
            let o = pattern.places();
            let letters = pattern.letters();
            &&& letters[2 * o.r.0 + o.r.1] == 'R'
            &&& letters[2 * o.gr.0 + o.gr.1] == 'G'
            &&& letters[2 * o.gb.0 + o.gb.1] == 'G'
            &&& letters[2 * o.b.0 + o.b.1] == 'B'
            &&& o.gr.0 == o.r.0 && o.gr.1 == 1 - o.r.1
            &&& o.gb.0 == o.b.0 && o.gb.1 == 1 - o.b.1
            &&& o.r.0 == 1 - o.b.0 && o.r.1 == 1 - o.b.1
            &&& o.r.0 <= 1 && o.r.1 <= 1
        }),
{
    reveal_strlit("RGGB");
    reveal_strlit("BGGR");
    reveal_strlit("GRBG");
    reveal_strlit("GBRG");
    assert("RGGB"@ =~= CfaPattern::RGGB.letters());
    assert("BGGR"@ =~= CfaPattern::BGGR.letters());
    assert("GRBG"@ =~= CfaPattern::GRBG.letters());
    assert("GBRG"@ =~= CfaPattern::GBRG.letters());
}

/// A frame comes out of exactly those raw images that hold one count for each
/// pixel, no more pixels than a machine can address, and one of the four known
/// patterns; otherwise the first thing that is wrong is named.
pub proof fn frames_come_of_complete_images<T: Sample>(raw: RawFrame<T>)
    ensures
        raw.pixels is Other ==> BurstFrame::frame_fault(raw) == Some("Float raw data not supported"@),
        raw.pixels matches RawPixels::Counts(counts) ==> ((raw.height == 0 || raw.width == 0)
            && BurstFrame::frame_fault(raw) is None ==> counts@.len() == 0),
        raw.pixels matches RawPixels::Counts(counts) ==> (raw.height > 0 && raw.width > 0 ==> {
            let pixels = raw.height * raw.width;
            let known = raw.cfa_name@ == "RGGB"@ || raw.cfa_name@ == "BGGR"@ || raw.cfa_name@
                == "GRBG"@ || raw.cfa_name@ == "GBRG"@;
            &&& BurstFrame::frame_fault(raw) is None <==> pixels <= isize::MAX && counts@.len()
                == pixels && known
            &&& pixels > isize::MAX ==> BurstFrame::frame_fault(raw) == Some(
                "ShapeError/Overflow: arithmetic overflow"@,
            )
            &&& counts@.len() < pixels <= isize::MAX ==> BurstFrame::frame_fault(raw) == Some(
                "ShapeError/OutOfBounds: out of bounds indexing"@,
            )
            &&& pixels <= isize::MAX && pixels < counts@.len() ==> BurstFrame::frame_fault(raw)
                == Some("ShapeError/IncompatibleShape: incompatible shapes"@)
            &&& pixels <= isize::MAX && counts@.len() == pixels && !known
                ==> BurstFrame::frame_fault(raw) == Some(
                "Unsupported CFA pattern "@ + raw.cfa_name@,
            )
        }),
{
    patterns_are_read_row_by_row(CfaPattern::RGGB);
    if exists|p: CfaPattern| raw.cfa_name@ == #[trigger] p.letters() {
        let p = choose|p: CfaPattern| raw.cfa_name@ == #[trigger] p.letters();
        assert(p == CfaPattern::RGGB || p == CfaPattern::BGGR || p == CfaPattern::GRBG || p
            == CfaPattern::GBRG);
    }
}

} // verus!
