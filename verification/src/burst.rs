//! Frames of a burst and how they come from raw images.
use crate::metadata::DngMetadata;
use crate::plane::Plane;
use crate::sample::is_count;
use crate::sample::is_difference;
use crate::sample::is_one;
use crate::sample::is_product;
use crate::sample::is_quotient;
use crate::sample::is_ratio;
use crate::sample::is_sum;
use crate::sample::is_unit_clamped;
use crate::sample::is_zero;
use crate::sample::unit_clamped;
use crate::sample::zero;
use crate::sample::Sample;
use vstd::prelude::*;
use vstd::string::StringExecFns;

verus! {

/// The arrangement of a 2x2 block of colour filters, read row by row.
#[derive(Debug, Clone, Copy, PartialEq, Eq, Structural)]
pub enum CfaPattern {
    RGGB,
    BGGR,
    GRBG,
    GBRG,
}

/// The `(row, column)` of each colour within the 2x2 block. `gr` is the green
/// pixel in the row of the red one, `gb` the one in the row of the blue one.
#[derive(Debug, Clone, Copy, PartialEq, Eq)]
pub struct ChannelOffsets {
    pub r: (usize, usize),
    pub gr: (usize, usize),
    pub gb: (usize, usize),
    pub b: (usize, usize),
}

/// Do both texts hold the same characters?
pub fn same_text(a: &str, b: &str) -> (same: bool)
    ensures
        same == (a@ == b@),
{
    a.to_owned() == b.to_owned()
}

impl CfaPattern {
    /// The four letters of the pattern.
    pub open spec fn letters(self) -> Seq<char> {
        match self {
            CfaPattern::RGGB => seq!['R', 'G', 'G', 'B'],
            CfaPattern::BGGR => seq!['B', 'G', 'G', 'R'],
            CfaPattern::GRBG => seq!['G', 'R', 'B', 'G'],
            CfaPattern::GBRG => seq!['G', 'B', 'R', 'G'],
        }
    }

    /// The places of the colours within the 2x2 block.
    pub open spec fn places(self) -> ChannelOffsets {
        match self {
            CfaPattern::RGGB => ChannelOffsets { r: (0, 0), gr: (0, 1), gb: (1, 0), b: (1, 1) },
            CfaPattern::BGGR => ChannelOffsets { r: (1, 1), gr: (1, 0), gb: (0, 1), b: (0, 0) },
            CfaPattern::GRBG => ChannelOffsets { r: (0, 1), gr: (0, 0), gb: (1, 1), b: (1, 0) },
            CfaPattern::GBRG => ChannelOffsets { r: (1, 0), gr: (1, 1), gb: (0, 0), b: (0, 1) },
        }
    }

    /// Returns the `(row, column)` within the 2x2 block for each channel.
    pub fn offsets(&self) -> (o: ChannelOffsets)
        ensures
            o == self.places(),
    {
        match self {
            CfaPattern::RGGB => ChannelOffsets { r: (0, 0), gr: (0, 1), gb: (1, 0), b: (1, 1) },
            CfaPattern::BGGR => ChannelOffsets { r: (1, 1), gr: (1, 0), gb: (0, 1), b: (0, 0) },
            CfaPattern::GRBG => ChannelOffsets { r: (0, 1), gr: (0, 0), gb: (1, 1), b: (1, 0) },
            CfaPattern::GBRG => ChannelOffsets { r: (1, 0), gr: (1, 1), gb: (0, 0), b: (0, 1) },
        }
    }

    /// The pattern with the given name, if there is one.
    pub fn from_name(name: &str) -> (p: Option<CfaPattern>)
        ensures
            p matches Some(pattern) ==> name@ == pattern.letters(),
            p is None ==> forall|pattern: CfaPattern| name@ != #[trigger] pattern.letters(),
    {
        proof {
            reveal_strlit("RGGB");
            reveal_strlit("BGGR");
            reveal_strlit("GRBG");
            reveal_strlit("GBRG");
            assert("RGGB"@ =~= CfaPattern::RGGB.letters());
            assert("BGGR"@ =~= CfaPattern::BGGR.letters());
            assert("GRBG"@ =~= CfaPattern::GRBG.letters());
            assert("GBRG"@ =~= CfaPattern::GBRG.letters());
        }
        if same_text(name, "RGGB") {
            Some(CfaPattern::RGGB)
        } else if same_text(name, "BGGR") {
            Some(CfaPattern::BGGR)
        } else if same_text(name, "GRBG") {
            Some(CfaPattern::GRBG)
        } else if same_text(name, "GBRG") {
            Some(CfaPattern::GBRG)
        } else {
            None
        }
    }
}

/// The letter of the pattern at place `p` of the 2x2 block.
pub open spec fn letter_at(pattern: CfaPattern, p: (usize, usize)) -> char {
    pattern.letters()[2 * p.0 + p.1]
}

/// The offsets of a pattern point at the letters of its name, the four places
/// are all different, and each green pixel lies in the row it is named after.
pub proof fn offsets_follow_the_name(pattern: CfaPattern)
    ensures
        ({
            let o = pattern.places();
            &&& letter_at(pattern, o.r) == 'R'
            &&& letter_at(pattern, o.gr) == 'G'
            &&& letter_at(pattern, o.gb) == 'G'
            &&& letter_at(pattern, o.b) == 'B'
            &&& o.r != o.gr && o.r != o.gb && o.r != o.b
            &&& o.gr != o.gb && o.gr != o.b && o.gb != o.b
            &&& o.gr.0 == o.r.0
            &&& o.gb.0 == o.b.0
        }),
{
}

/// A name belongs to one pattern only.
pub proof fn names_are_distinct(p: CfaPattern, q: CfaPattern)
    requires
        p.letters() == q.letters(),
    ensures
        p == q,
{
    assert(p.letters()[0] == q.letters()[0]);
    assert(p.letters()[1] == q.letters()[1]);
}

/// How the noise of a sensor grows with the light.
#[derive(Debug, Clone)]
pub struct NoiseModel<T> {
    /// Shot noise: variance per unit of signal.
    pub lambda_s: T,
    /// Read noise: variance without any signal.
    pub lambda_r: T,
}

impl<T: Sample> NoiseModel<T> {
    /// `v` came out as the variance at the given intensity.
    pub open spec fn is_variance(self, intensity: T, v: T) -> bool {
        exists|shot: T|
            is_product(self.lambda_s, intensity, shot) && #[trigger] is_sum(shot, self.lambda_r, v)
    }

    /// These are the estimates for a sensor of which nothing is known.
    pub open spec fn is_default(self) -> bool {
        is_ratio(1, 10_000, self.lambda_s) && is_ratio(1, 1_000_000, self.lambda_r)
    }

    /// Returns the variance at a given normalized intensity level.
    pub fn variance_at(&self, intensity: T) -> (v: T)
        ensures
            self.is_variance(intensity, v),
    {
        let shot = self.lambda_s.times(intensity);
        shot.plus(self.lambda_r)
    }

    /// Conservative defaults, for a raw file without noise metadata.
    pub fn default_estimate() -> (m: NoiseModel<T>)
        ensures
            m.is_default(),
    {
        NoiseModel { lambda_s: T::ratio(1, 10_000), lambda_r: T::ratio(1, 1_000_000) }
    }
}

/// The pixels of a raw image.
#[derive(Debug, Clone)]
pub enum RawPixels {
    /// Counts of the sensor, row after row.
    Counts(Vec<u16>),
    /// Any other kind of value.
    Other,
}

/// What a raw decoder hands over of an image.
#[derive(Debug, Clone)]
pub struct RawFrame<T> {
    pub pixels: RawPixels,
    pub height: usize,
    pub width: usize,
    /// The name of the colour filter array.
    pub cfa_name: String,
    /// Black levels per channel.
    pub blacklevels: [u16; 4],
    /// White levels per channel.
    pub whitelevels: [u16; 4],
    pub wb_coeffs: [T; 4],
    /// The matrix from XYZ to camera values, one row per channel.
    pub xyz_to_cam: [[T; 3]; 4],
}

/// One frame of a burst.
#[derive(Debug, Clone)]
pub struct BurstFrame<T> {
    /// One value per pixel, black level subtracted, scaled to `0 ..= 1`.
    pub bayer: Plane<T>,
    pub width: usize,
    pub height: usize,
    pub cfa_pattern: CfaPattern,
    /// The count at which the sensor saturates.
    pub white_level: T,
    /// The count without any light.
    pub black_level: T,
    /// White balance multipliers for red, both greens and blue.
    pub wb_coeffs: [T; 4],
    /// The matrix from XYZ to camera values.
    pub color_matrix: [[T; 3]; 3],
    pub noise_model: NoiseModel<T>,
    /// Position in the burst; 0 is the reference.
    pub frame_index: usize,
    /// In seconds.
    pub exposure_time: Option<T>,
    pub iso: Option<u32>,
}

/// The product of the lengths, each zero taken as a one.
pub open spec fn nonzero_size(rows: int, cols: int) -> int {
    (if rows == 0 {
        1
    } else {
        rows
    }) * (if cols == 0 {
        1
    } else {
        cols
    })
}

/// The text that says why `len` values cannot be arranged in `rows` rows of
/// `cols` values, if they cannot.
pub open spec fn shape_fault_text(rows: int, cols: int, len: int) -> Option<Seq<char>> {
    if nonzero_size(rows, cols) > isize::MAX {
        Some("ShapeError/Overflow: arithmetic overflow"@)
    } else if rows * cols > len {
        Some("ShapeError/OutOfBounds: out of bounds indexing"@)
    } else if rows * cols < len {
        Some("ShapeError/IncompatibleShape: incompatible shapes"@)
    } else {
        None
    }
}

/// Calls ndarray's `Array2::from_shape_vec` for a vector of `len` items of no
/// size, and hands over the text of its error. Taken on trust: when the call
/// fails, and what its error reads like.
#[verifier::external_body]
fn shape_fault(rows: usize, cols: usize, len: usize) -> (fault: Option<String>)
    ensures
        match shape_fault_text(rows as int, cols as int, len as int) {
            Some(text) => fault matches Some(t) && t@ == text,
            None => fault is None,
        },
{
    ndarray::Array2::from_shape_vec((rows, cols), vec![(); len]).err().map(|e| e.to_string())
}

/// `v` came out of a count, scaled so that `black` becomes zero and `range`
/// counts more become one, and clamped to that.
pub open spec fn is_normalized<T: Sample>(px: u16, black: T, range: T, v: T) -> bool {
    exists|x: T, d: T, q: T|
        is_count(px as usize, x) && #[trigger] is_difference(x, black, d) && #[trigger] is_quotient(
            d,
            range,
            q,
        ) && is_unit_clamped(q, v)
}

fn normalized<T: Sample>(px: u16, black: T, range: T) -> (v: T)
    ensures
        is_normalized(px, black, range, v),
{
    let x: T = T::count(px as usize);
    let d = x.minus(black);
    let q = d.over(range);
    unit_clamped(q)
}

/// `bad` came out of the question whether a gain is undefined or not positive.
pub open spec fn is_gain_check<T: Sample>(gain: T, bad: bool) -> bool {
    ||| bad && call_ensures(T::is_undefined, (gain,), true)
    ||| call_ensures(T::is_undefined, (gain,), false) && exists|z: T|
        is_zero(z) && #[trigger] call_ensures(T::at_most, (gain, z), bad)
}

fn is_bad_gain<T: Sample>(gain: T) -> (bad: bool)
    ensures
        is_gain_check(gain, bad),
{
    if gain.is_undefined() {
        true
    } else {
        let z: T = zero();
        gain.at_most(z)
    }
}

/// The multipliers of ordinary daylight.
pub open spec fn is_daylight<T: Sample>(wb: [T; 4]) -> bool {
    is_ratio(2, 1, wb[0]) && is_one(wb[1]) && is_one(wb[2]) && is_ratio(3, 2, wb[3])
}

/// `wb` came out of the multipliers that the decoder found: these, or those of
/// daylight where one of them is no gain.
pub open spec fn is_decoder_balance<T: Sample>(found: [T; 4], wb: [T; 4]) -> bool {
    ||| wb == found && forall|i: int| 0 <= i < 4 ==> is_gain_check(#[trigger] found[i], false)
    ||| is_daylight(wb) && exists|i: int| 0 <= i < 4 && is_gain_check(#[trigger] found[i], true)
}

/// The white balance multipliers to use when the metadata holds none.
pub fn decoder_balance<T: Sample>(found: [T; 4]) -> (wb: [T; 4])
    ensures
        is_decoder_balance(found, wb),
{
    let mut i: usize = 0;
    while i < 4
        invariant
            i <= 4,
            forall|k: int| 0 <= k < i ==> is_gain_check(#[trigger] found[k], false),
        decreases 4 - i,
    {
        if is_bad_gain(found[i]) {
            assert(is_gain_check(found[i as int], true));
            return [T::ratio(2, 1), T::ratio(1, 1), T::ratio(1, 1), T::ratio(3, 2)];
        }
        i = i + 1;
    }
    found
}

impl<T: Sample> BurstFrame<T> {
    /// `f` came out of the counts of a raw image and its metadata.
    pub open spec fn is_frame_of(
        f: BurstFrame<T>,
        raw: RawFrame<T>,
        counts: Seq<u16>,
        dng: DngMetadata<T>,
        frame_index: usize,
    ) -> bool {
        &&& f.bayer.wf()
        &&& f.bayer.height() == raw.height
        &&& f.bayer.width() == raw.width
        &&& f.height == raw.height
        &&& f.width == raw.width
        &&& raw.cfa_name@ == f.cfa_pattern.letters()
        &&& is_count(raw.blacklevels[0] as usize, f.black_level)
        &&& is_count(raw.whitelevels[0] as usize, f.white_level)
        &&& exists|range: T|
            #[trigger] is_difference(f.white_level, f.black_level, range) && forall|i: int|
                0 <= i < counts.len() ==> is_normalized(
                    counts[i],
                    f.black_level,
                    range,
                    #[trigger] f.bayer.contents()@[i],
                )
        &&& match dng.wb_coeffs {
            Some(wb) => f.wb_coeffs == wb,
            None => is_decoder_balance(raw.wb_coeffs, f.wb_coeffs),
        }
        &&& match dng.color_matrix {
            Some(m) => f.color_matrix == m,
            None => forall|i: int| 0 <= i < 3 ==> #[trigger] f.color_matrix[i] == raw.xyz_to_cam[i],
        }
        &&& f.noise_model.is_default()
        &&& f.frame_index == frame_index
        &&& f.exposure_time == dng.exposure_time
        &&& f.iso == dng.iso
    }

    /// The text that says why no frame can be made of a raw image, if none can.
    pub open spec fn frame_fault(raw: RawFrame<T>) -> Option<Seq<char>> {
        match raw.pixels {
            RawPixels::Other => Some("Float raw data not supported"@),
            RawPixels::Counts(counts) => {
                match shape_fault_text(
                    raw.height as int,
                    raw.width as int,
                    counts@.len() as int,
                ) {
                    Some(text) => Some(text),
                    None => if exists|p: CfaPattern| raw.cfa_name@ == #[trigger] p.letters() {
                        None
                    } else {
                        Some("Unsupported CFA pattern "@ + raw.cfa_name@)
                    },
                }
            },
        }
    }

    /// Constructs a frame from a raw image and its metadata. `frame_index` is
    /// 0 for the reference frame, 1 and up for the alternates.
    pub fn from_raw_image(raw: &RawFrame<T>, dng: &DngMetadata<T>, frame_index: usize) -> (r: Result<
        BurstFrame<T>,
        String,
    >)
        ensures
            match (Self::frame_fault(*raw), r) {
                (Some(text), Err(message)) => message@ == text,
                (None, Ok(f)) => raw.pixels matches RawPixels::Counts(counts) && Self::is_frame_of(
                    f,
                    *raw,
                    counts@,
                    *dng,
                    frame_index,
                ),
                _ => false,
            },
    {
        let counts = match &raw.pixels {
            RawPixels::Counts(counts) => counts,
            RawPixels::Other => {
                return Err("Float raw data not supported".to_owned());
            },
        };
        let wb_coeffs = match dng.wb_coeffs {
            Some(wb) => wb,
            None => decoder_balance(raw.wb_coeffs),
        };
        let color_matrix = match dng.color_matrix {
            Some(m) => m,
            None => [raw.xyz_to_cam[0], raw.xyz_to_cam[1], raw.xyz_to_cam[2]],
        };
        let black: T = T::count(raw.blacklevels[0] as usize);
        let white: T = T::count(raw.whitelevels[0] as usize);
        let range = white.minus(black);
        if let Some(text) = shape_fault(raw.height, raw.width, counts.len()) {
            return Err(text);
        }
        let mut cells: Vec<T> = Vec::new();
        let mut i: usize = 0;
        while i < counts.len()
            invariant
                i <= counts@.len(),
                cells@.len() == i,
                forall|k: int|
                    0 <= k < i ==> is_normalized(counts@[k], black, range, #[trigger] cells@[k]),
            decreases counts.len() - i,
        {
            cells.push(normalized(counts[i], black, range));
            i = i + 1;
        }
        let cfa_pattern = match CfaPattern::from_name(raw.cfa_name.as_str()) {
            Some(p) => p,
            None => {
                return Err("Unsupported CFA pattern ".to_owned().concat(raw.cfa_name.as_str()));
            },
        };
        let ghost cells_read = cells@;
        match Plane::from_shape_vec(raw.height, raw.width, cells) {
            Some(bayer) => {
                let frame = BurstFrame {
                    bayer,
                    width: raw.width,
                    height: raw.height,
                    cfa_pattern,
                    white_level: white,
                    black_level: black,
                    wb_coeffs,
                    color_matrix,
                    noise_model: NoiseModel::default_estimate(),
                    frame_index,
                    exposure_time: dng.exposure_time,
                    iso: dng.iso,
                };
                proof {
                    assert(is_difference(frame.white_level, frame.black_level, range));
                    assert forall|k: int| 0 <= k < counts@.len() implies is_normalized(
                        counts@[k],
                        frame.black_level,
                        range,
                        #[trigger] frame.bayer.contents()@[k],
                    ) by {
                        assert(is_normalized(counts@[k], black, range, cells_read[k]));
                    }
                    assert(Self::is_frame_of(frame, *raw, counts@, *dng, frame_index));
                }
                Ok(frame)
            },
            None => {
                // The shape was checked above.
                assert(false);
                Err("".to_owned())
            },
        }
    }
}

} // verus!
