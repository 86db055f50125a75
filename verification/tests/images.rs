//! Frames, alignment, merging and finishing on images of known values.
use hdr_burst::align::align_burst;
use hdr_burst::align::align_burst_with;
use hdr_burst::align::align_frame;
use hdr_burst::align::best_offset;
use hdr_burst::align::build_pyramid;
use hdr_burst::align::extract_tile;
use hdr_burst::align::gaussian_blur_5x5;
use hdr_burst::align::l1_distance;
use hdr_burst::align::place_tile;
use hdr_burst::align::subsample_by_2;
use hdr_burst::align::AlignmentResult;
use hdr_burst::align::Progress;
use hdr_burst::align::PYRAMID_LEVELS;
use hdr_burst::align::TILE_SIZE;
use hdr_burst::burst::decoder_balance;
use hdr_burst::burst::BurstFrame;
use hdr_burst::burst::CfaPattern;
use hdr_burst::burst::ChannelOffsets;
use hdr_burst::burst::NoiseModel;
use hdr_burst::burst::RawFrame;
use hdr_burst::burst::RawPixels;
use hdr_burst::color_correction::compute_cam_to_srgb;
use hdr_burst::color_correction::finish;
use hdr_burst::color_correction::invert_3x3;
use hdr_burst::color_correction::mat_mul_3x3;
use hdr_burst::color_correction::normalized_gains;
use hdr_burst::color_correction::srgb_gamma;
use hdr_burst::color_correction::tone_map;
use hdr_burst::demosaic::demosaic;
use hdr_burst::demosaic::interp_b_at_gb;
use hdr_burst::demosaic::interp_b_at_gr;
use hdr_burst::demosaic::interp_b_at_r;
use hdr_burst::demosaic::interp_g_at_rb;
use hdr_burst::demosaic::interp_r_at_b;
use hdr_burst::demosaic::interp_r_at_gb;
use hdr_burst::demosaic::interp_r_at_gr;
use hdr_burst::files::first_misfit;
use hdr_burst::files::has_raw_suffix;
use hdr_burst::files::is_raw_extension;
use hdr_burst::files::MIN_FRAMES;
use hdr_burst::merge::dft_2d;
use hdr_burst::merge::extract_windowed_tile;
use hdr_burst::merge::hann_window_2d;
use hdr_burst::merge::idft_2d;
use hdr_burst::merge::merge_burst;
use hdr_burst::merge::merge_spectra;
use hdr_burst::merge::merge_tile;
use hdr_burst::merge::overlap_add;
use hdr_burst::merge::tile_origins;
use hdr_burst::merge::Complex;
use hdr_burst::metadata::DngMetadata;
use hdr_burst::output::bayer_preview_bytes;
use hdr_burst::output::rgb_bytes;
use hdr_burst::plane::clamped_neighbour;
use hdr_burst::plane::Plane;
use hdr_burst::sample::Sample;
use std::cell::RefCell;
use std::sync::Arc;

#[derive(Debug, Clone, Copy, PartialEq)]
struct Light(f32);

impl Sample for Light {
    fn ratio(num: i64, den: i64) -> Light {
        Light(num as f32 / den as f32)
    }
    fn count(n: usize) -> Light {
        Light(n as f32)
    }
    fn plus(self, other: Light) -> Light {
        Light(self.0 + other.0)
    }
    fn minus(self, other: Light) -> Light {
        Light(self.0 - other.0)
    }
    fn times(self, other: Light) -> Light {
        Light(self.0 * other.0)
    }
    fn over(self, other: Light) -> Light {
        Light(self.0 / other.0)
    }
    fn magnitude(self) -> Light {
        Light(self.0.abs())
    }
    fn cosine(self) -> Light {
        Light(self.0.cos())
    }
    fn power(self, exponent: Light) -> Light {
        Light(self.0.powf(exponent.0))
    }
    fn half_turn() -> Light {
        Light(std::f32::consts::PI)
    }
    fn larger(self, other: Light) -> Light {
        Light(self.0.max(other.0))
    }
    fn clamped(self, low: Light, high: Light) -> Light {
        Light(self.0.clamp(low.0, high.0))
    }
    fn exceeds(self, other: Light) -> bool {
        self.0 > other.0
    }
    fn at_most(self, other: Light) -> bool {
        self.0 <= other.0
    }
    fn is_undefined(self) -> bool {
        self.0.is_nan()
    }
    fn unlimited() -> Light {
        Light(f32::INFINITY)
    }
    fn mean(values: &Vec<Light>) -> Option<Light> {
        if values.is_empty() {
            return None;
        }
        Some(Light(values.iter().map(|v| v.0).sum::<f32>() / values.len() as f32))
    }
    fn to_byte(self) -> u8 {
        self.0 as u8
    }
}

/// An image whose pixels are given by a function of row and column.
fn image(h: usize, w: usize, f: impl Fn(usize, usize) -> f32) -> Plane<Light> {
    let mut cells = Vec::new();
    for r in 0..h {
        for c in 0..w {
            cells.push(Light(f(r, c)));
        }
    }
    Plane::from_shape_vec(h, w, cells).unwrap()
}

/// Values of `0 .. 1` that look alike nowhere.
fn texture(r: usize, c: usize) -> f32 {
    let mut x = (r as u32).wrapping_mul(0x9E37_79B1) ^ (c as u32).wrapping_mul(0x85EB_CA77);
    x ^= x >> 15;
    x = x.wrapping_mul(0x2C1B_3C6D);
    x ^= x >> 12;
    (x % 1024) as f32 / 1024.0
}

/// A texture that survives blurring: a few smooth bumps.
fn bumps(r: f32, c: f32) -> f32 {
    0.5 + 0.2 * (r * 0.13).sin() + 0.2 * (c * 0.17 + r * 0.05).cos() + 0.1 * (r * 0.07 * c * 0.03).sin()
}

fn frame(bayer: Plane<Light>, frame_index: usize) -> BurstFrame<Light> {
    let (height, width) = bayer.dim();
    BurstFrame {
        bayer,
        width,
        height,
        cfa_pattern: CfaPattern::RGGB,
        white_level: Light(1023.0),
        black_level: Light(64.0),
        wb_coeffs: [Light(2.0), Light(1.0), Light(1.0), Light(1.5)],
        color_matrix: [[Light(1.0); 3]; 3],
        noise_model: NoiseModel::default_estimate(),
        frame_index,
        exposure_time: None,
        iso: None,
    }
}

fn transform(n: usize, inverse: bool) -> impl Fn(Vec<Complex<Light>>) -> Vec<Complex<Light>> + Sync + Send {
    let mut planner = rustfft::FftPlanner::<f32>::new();
    let fft: Arc<dyn rustfft::Fft<f32>> =
        if inverse { planner.plan_fft_inverse(n) } else { planner.plan_fft_forward(n) };
    move |line: Vec<Complex<Light>>| {
        let mut buffer: Vec<rustfft::num_complex::Complex<f32>> = line
            .iter()
            .map(|z| rustfft::num_complex::Complex { re: z.re.0, im: z.im.0 })
            .collect();
        fft.process(&mut buffer);
        buffer.iter().map(|z| Complex { re: Light(z.re), im: Light(z.im) }).collect()
    }
}

fn close(a: f32, b: f32) -> bool {
    (a - b).abs() < 1e-4
}

// Planes.

#[test]
fn cells_fill_rows_exactly() {
    assert!(Plane::from_shape_vec(2, 3, vec![1, 2, 3, 4, 5, 6]).is_some());
    assert!(Plane::from_shape_vec(2, 3, vec![1, 2, 3, 4, 5]).is_none());
    assert!(Plane::from_shape_vec(2, 3, vec![1, 2, 3, 4, 5, 6, 7]).is_none());
    assert!(Plane::from_shape_vec(usize::MAX, 2, vec![1]).is_none());
}

#[test]
fn a_plane_gives_back_what_was_set() {
    let mut p = Plane::filled(2, 3, 7);
    p.set(1, 2, 9);
    assert_eq!(p.get(1, 2), 9);
    assert_eq!(p.get(0, 2), 7);
    assert_eq!(p.get_near(0, 1, 1, 1), 9);
    assert_eq!(p.dim(), (2, 3));
    assert_eq!(p.duplicate().as_vec(), &vec![7, 7, 7, 7, 7, 9]);
}

#[test]
fn neighbours_beyond_the_edge_are_those_on_it() {
    assert_eq!(clamped_neighbour(0, 0, 5), 0);
    assert_eq!(clamped_neighbour(0, 4, 5), 2);
    assert_eq!(clamped_neighbour(4, 4, 5), 4);
    assert_eq!(clamped_neighbour(3, 2, 5), 3);
    assert_eq!(clamped_neighbour(0, 4, 1), 0);
}

// Frames.

fn raw(pixels: RawPixels, height: usize, width: usize, name: &str) -> RawFrame<Light> {
    RawFrame {
        pixels,
        height,
        width,
        cfa_name: name.to_string(),
        blacklevels: [64, 1, 2, 3],
        whitelevels: [1088, 1, 2, 3],
        wb_coeffs: [Light(1.5), Light(1.0), Light(1.0), Light(2.5)],
        xyz_to_cam: [
            [Light(1.0), Light(2.0), Light(3.0)],
            [Light(4.0), Light(5.0), Light(6.0)],
            [Light(7.0), Light(8.0), Light(9.0)],
            [Light(0.0), Light(0.0), Light(0.0)],
        ],
    }
}

fn fault(raw: &RawFrame<Light>) -> String {
    match BurstFrame::from_raw_image(raw, &DngMetadata::missing(), 0) {
        Ok(_) => panic!("a frame came out"),
        Err(text) => text,
    }
}

#[test]
fn counts_are_scaled_between_the_levels() {
    let counts = RawPixels::Counts(vec![64, 1088, 576, 0, 2000, 320]);
    let f = BurstFrame::from_raw_image(&raw(counts, 2, 3, "GRBG"), &DngMetadata::missing(), 4).unwrap();
    let expected = vec![Light(0.0), Light(1.0), Light(0.5), Light(0.0), Light(1.0), Light(0.25)];
    assert_eq!(f.bayer.as_vec(), &expected);
    assert_eq!(f.bayer.dim(), (2, 3));
    assert_eq!((f.height, f.width, f.frame_index), (2, 3, 4));
    assert_eq!((f.black_level, f.white_level), (Light(64.0), Light(1088.0)));
    assert_eq!(f.cfa_pattern, CfaPattern::GRBG);
    assert_eq!(f.wb_coeffs, [Light(1.5), Light(1.0), Light(1.0), Light(2.5)]);
    assert_eq!(f.color_matrix[2], [Light(7.0), Light(8.0), Light(9.0)]);
    assert_eq!((f.noise_model.lambda_s, f.noise_model.lambda_r), (Light(1e-4), Light(1e-6)));
    assert_eq!((f.exposure_time, f.iso), (None, None));
}

#[test]
fn metadata_comes_before_what_the_decoder_found() {
    let dng = DngMetadata {
        wb_coeffs: Some([Light(9.0), Light(1.0), Light(1.0), Light(8.0)]),
        color_matrix: Some([[Light(0.5); 3]; 3]),
        exposure_time: Some(Light(0.125)),
        iso: Some(800),
    };
    let counts = RawPixels::Counts(vec![64, 64, 64, 64]);
    let f = BurstFrame::from_raw_image(&raw(counts, 2, 2, "RGGB"), &dng, 0).unwrap();
    assert_eq!(f.wb_coeffs, [Light(9.0), Light(1.0), Light(1.0), Light(8.0)]);
    assert_eq!(f.color_matrix, [[Light(0.5); 3]; 3]);
    assert_eq!((f.exposure_time, f.iso), (Some(Light(0.125)), Some(800)));
}

#[test]
fn other_pixels_are_refused_first() {
    assert_eq!(fault(&raw(RawPixels::Other, 0, 5, "none")), "Float raw data not supported");
}

#[test]
fn pixels_that_do_not_fill_the_shape_are_refused() {
    let short = raw(RawPixels::Counts(vec![1, 2, 3]), 2, 2, "none");
    assert_eq!(fault(&short), "ShapeError/OutOfBounds: out of bounds indexing");
    let long = raw(RawPixels::Counts(vec![1, 2, 3, 4, 5]), 2, 2, "RGGB");
    assert_eq!(fault(&long), "ShapeError/IncompatibleShape: incompatible shapes");
    let huge = raw(RawPixels::Counts(vec![]), 0, usize::MAX, "RGGB");
    assert_eq!(fault(&huge), "ShapeError/Overflow: arithmetic overflow");
    let wraps = raw(RawPixels::Counts(vec![]), usize::MAX, usize::MAX, "RGGB");
    assert_eq!(fault(&wraps), "ShapeError/Overflow: arithmetic overflow");
}

#[test]
fn unknown_filter_arrays_are_refused() {
    let xtrans = raw(RawPixels::Counts(vec![1, 2, 3, 4]), 2, 2, "GBGRGG");
    assert_eq!(fault(&xtrans), "Unsupported CFA pattern GBGRGG");
    let nameless = raw(RawPixels::Counts(vec![1, 2, 3, 4]), 2, 2, "");
    assert_eq!(fault(&nameless), "Unsupported CFA pattern ");
}

#[test]
fn useless_gains_give_way_to_daylight() {
    let daylight = [Light(2.0), Light(1.0), Light(1.0), Light(1.5)];
    let good = [Light(2.5), Light(1.0), Light(1.0), Light(1.25)];
    assert_eq!(decoder_balance(good), good);
    assert_eq!(decoder_balance([Light(2.5), Light(1.0), Light(1.0), Light(f32::NAN)]), daylight);
    assert_eq!(decoder_balance([Light(0.0), Light(1.0), Light(1.0), Light(1.0)]), daylight);
    assert_eq!(decoder_balance([Light(1.0), Light(1.0), Light(-1.0), Light(1.0)]), daylight);
}

#[test]
fn patterns_have_their_offsets() {
    let places = |name: &str| CfaPattern::from_name(name).unwrap().offsets();
    assert_eq!(places("RGGB"), ChannelOffsets { r: (0, 0), gr: (0, 1), gb: (1, 0), b: (1, 1) });
    assert_eq!(places("BGGR"), ChannelOffsets { r: (1, 1), gr: (1, 0), gb: (0, 1), b: (0, 0) });
    assert_eq!(places("GRBG"), ChannelOffsets { r: (0, 1), gr: (0, 0), gb: (1, 1), b: (1, 0) });
    assert_eq!(places("GBRG"), ChannelOffsets { r: (1, 0), gr: (1, 1), gb: (0, 0), b: (0, 1) });
    assert_eq!(CfaPattern::from_name("rggb"), None);
}

#[test]
fn variance_grows_with_the_light() {
    let m = NoiseModel { lambda_s: Light(0.5), lambda_r: Light(0.25) };
    assert_eq!(m.variance_at(Light(0.5)), Light(0.5));
    assert_eq!(m.variance_at(Light(0.0)), Light(0.25));
}

// Alignment.

#[test]
fn the_blur_keeps_a_flat_image() {
    let flat = image(7, 5, |_, _| 0.75);
    assert_eq!(gaussian_blur_5x5(&flat).as_vec(), flat.as_vec());
}

#[test]
fn the_blur_spreads_a_point() {
    let point = image(9, 9, |r, c| if (r, c) == (4, 4) { 256.0 } else { 0.0 });
    let out = gaussian_blur_5x5(&point);
    assert_eq!(out.get(4, 4), Light(36.0));
    assert_eq!(out.get(4, 3), Light(24.0));
    assert_eq!(out.get(2, 4), Light(6.0));
    assert_eq!(out.get(2, 2), Light(1.0));
    assert_eq!(out.get(3, 5), Light(16.0));
    assert_eq!(out.get(1, 4), Light(0.0));
}

#[test]
fn the_blur_keeps_the_range_and_the_diagonal() {
    let img = image(9, 13, texture);
    let out = gaussian_blur_5x5(&img);
    let low = img.as_vec().iter().map(|v| v.0).fold(f32::INFINITY, f32::min);
    let high = img.as_vec().iter().map(|v| v.0).fold(0.0, f32::max);
    assert!(out.as_vec().iter().all(|v| v.0 >= low && v.0 <= high));
    let flipped = gaussian_blur_5x5(&image(13, 9, |r, c| texture(c, r)));
    for r in 0..9 {
        for c in 0..13 {
            assert!(close(out.get(r, c).0, flipped.get(c, r).0));
        }
    }
}

#[test]
fn a_flat_image_is_flat_on_all_levels() {
    let levels = build_pyramid(&image(40, 33, |_, _| 0.625), PYRAMID_LEVELS);
    assert!(levels.iter().all(|l| l.as_vec().iter().all(|v| *v == Light(0.625))));
}

#[test]
fn more_levels_leave_the_first_ones() {
    let few = build_pyramid(&image(40, 33, texture), 3);
    let more = build_pyramid(&image(40, 33, texture), 4);
    assert!((0..3).all(|k| few[k].as_vec() == more[k].as_vec()));
}

#[test]
fn the_blur_repeats_the_edge() {
    let edge = image(1, 3, |_, c| if c == 0 { 16.0 } else { 0.0 });
    let out = gaussian_blur_5x5(&edge);
    assert_eq!(out.as_vec(), &vec![Light(11.0), Light(5.0), Light(1.0)]);
}

#[test]
fn subsampling_takes_the_mean_of_each_block() {
    let out = subsample_by_2(&image(3, 5, |r, c| (5 * r + c) as f32));
    assert_eq!(out.dim(), (1, 2));
    assert_eq!(out.as_vec(), &vec![Light(3.0), Light(5.0)]);
}

#[test]
fn subsampling_combines_all_colours() {
    let bayer = image(4, 4, |r, c| match (r % 2, c % 2) {
        (0, 0) => 1.0,
        (1, 1) => 4.0,
        _ => 2.0,
    });
    assert!(subsample_by_2(&bayer).as_vec().iter().all(|v| *v == Light(2.25)));
}

#[test]
fn pyramid_sizes_halve() {
    let p = build_pyramid(&image(37, 50, texture), PYRAMID_LEVELS);
    let sizes: Vec<(usize, usize)> = p.iter().map(|l| l.dim()).collect();
    assert_eq!(sizes, vec![(37, 50), (18, 25), (9, 12), (4, 6)]);
    assert_eq!(p[0].as_vec(), image(37, 50, texture).as_vec());
    assert_eq!(build_pyramid(&image(4, 4, texture), 0).len(), 1);
}

#[test]
fn tiles_are_placed_within_the_image() {
    assert_eq!(place_tile(10, -20, 100, 16), 0);
    assert_eq!(place_tile(10, 5, 100, 16), 15);
    assert_eq!(place_tile(80, 50, 100, 16), 84);
    assert_eq!(place_tile(80, 0, 16, 16), 0);
}

#[test]
fn an_extracted_tile_is_centered() {
    let img = image(20, 20, |r, c| (100 * r + c) as f32);
    let tile = extract_tile(&img, (10, 10), (1, -2), 4);
    assert_eq!(tile.dim(), (4, 4));
    assert_eq!(tile.get(0, 0), Light(906.0));
    assert_eq!(tile.get(2, 2), Light(1108.0));
    assert_eq!(extract_tile(&img, (0, 19), (0, 0), 4).get(0, 0), Light(16.0));
}

#[test]
fn distances_add_up_absolute_differences() {
    let a = image(4, 4, |r, c| (r + c) as f32);
    let b = image(4, 4, |r, c| (r * c) as f32);
    // |0-1| + |1-2| + |1-2| + |2-4|
    assert_eq!(l1_distance(&a, (0, 0), &b, (1, 1), 2), Light(5.0));
    assert_eq!(l1_distance(&a, (1, 2), &a, (1, 2), 2), Light(0.0));
}

#[test]
fn a_search_finds_the_shift() {
    let a = image(32, 32, texture);
    let b = image(32, 32, |r, c| texture(r + 3, c.wrapping_sub(2)));
    assert_eq!(best_offset(&a, &b, (8, 8), (0, 0), 4, 8), (-3, 2));
    assert_eq!(best_offset(&a, &b, (8, 8), (-5, 3), 2, 8), (-3, 2));
}

#[test]
fn a_search_settles_on_the_least_distance() {
    let a = image(40, 40, texture);
    let b = image(40, 40, |r, c| texture(r + 9, c + 7));
    let (dr, dc) = best_offset(&a, &b, (16, 16), (0, 0), 4, 8);
    let at = |d: i32| (16 + d) as usize;
    let found = l1_distance(&a, (16, 16), &b, (at(dr), at(dc)), 8).0;
    for r in -4..=4 {
        for c in -4..=4 {
            assert!(found <= l1_distance(&a, (16, 16), &b, (at(r), at(c)), 8).0);
        }
    }
}

#[test]
fn the_first_of_equal_candidates_wins() {
    let flat = image(32, 32, |_, _| 0.5);
    assert_eq!(best_offset(&flat, &flat, (8, 8), (1, 1), 2, 8), (-1, -1));
    assert_eq!(best_offset(&flat, &flat, (8, 8), (1, 1), 0, 8), (1, 1));
}

#[test]
fn a_search_without_usable_costs_keeps_its_offset() {
    let a = image(16, 16, |_, _| f32::NAN);
    let b = image(16, 16, texture);
    assert_eq!(best_offset(&a, &b, (4, 4), (2, -1), 3, 4), (2, -1));
    let far = image(16, 16, |_, _| f32::INFINITY);
    assert_eq!(best_offset(&far, &b, (4, 4), (2, -1), 3, 4), (2, -1));
}

#[test]
fn a_negative_range_keeps_the_offset() {
    let a = image(16, 16, texture);
    assert_eq!(best_offset(&a, &a, (4, 4), (2, -1), -1, 4), (2, -1));
}

#[test]
fn a_frame_aligns_with_itself() {
    let p = build_pyramid(&image(64, 80, texture), PYRAMID_LEVELS);
    let a = align_frame(&p, &p);
    assert_eq!((a.n_tile_rows, a.n_tile_cols, a.tile_size), (4, 5, TILE_SIZE));
    assert_eq!(a.offset_at(1, 1), (0, 0));
    assert_eq!(a.offset_at(3, 4), (0, 0));
    // At the upper left edges all offsets that lead beyond them come to the
    // same, and the first of them wins at every level.
    assert_eq!(a.offset_at(0, 0), (-60, -60));
    assert_eq!(a.offset_at(0, 2), (-60, 0));
}

#[test]
fn a_shifted_frame_is_found() {
    let a = image(128, 128, |r, c| bumps(r as f32, c as f32));
    let b = image(128, 128, |r, c| bumps(r as f32 + 8.0, c as f32 - 16.0));
    let ref_pyramid = build_pyramid(&a, PYRAMID_LEVELS);
    let alt_pyramid = build_pyramid(&b, PYRAMID_LEVELS);
    let result = align_frame(&ref_pyramid, &alt_pyramid);
    assert_eq!(result.offset_at(4, 3), (-8, 16));
    assert!(result.offsets.iter().all(|o| o.0.abs() <= 60 && o.1.abs() <= 60));
}

#[test]
fn offsets_lie_row_after_row() {
    let a = AlignmentResult {
        offsets: vec![(0, 0), (0, 1), (0, 2), (1, 0), (1, 1), (1, 2)],
        n_tile_rows: 2,
        n_tile_cols: 3,
        tile_size: 16,
    };
    assert_eq!(a.offset_at(1, 2), (1, 2));
    assert_eq!(a.offset_at(0, 1), (0, 1));
    assert_eq!(a.center_offset(), (1, 1));
}

#[test]
fn every_alternate_is_aligned() {
    let frames = vec![
        frame(image(48, 48, texture), 0),
        frame(image(48, 48, texture), 1),
        frame(image(48, 64, texture), 2),
    ];
    let results = align_burst(&frames);
    assert_eq!(results.len(), 2);
    assert_eq!(results[0].center_offset(), (0, 0));
    assert_eq!((results[1].n_tile_rows, results[1].n_tile_cols), (3, 3));
    assert!(align_burst(&frames[..1]).is_empty());
}

#[test]
fn progress_is_reported() {
    let frames = vec![frame(image(32, 32, texture), 0), frame(image(32, 32, texture), 1)];
    let seen = RefCell::new(Vec::new());
    align_burst_with(&frames, |p| seen.borrow_mut().push(p));
    assert_eq!(
        seen.into_inner(),
        vec![
            Progress::Started,
            Progress::PyramidBuilt { frame: 1, total: 1 },
            Progress::Aligned { center: (0, 0) },
        ]
    );
}

// Merging.

#[test]
fn the_window_tapers_to_the_edges() {
    let w: Plane<Light> = hann_window_2d(5);
    assert_eq!(w.get(0, 3), Light(0.0));
    assert_eq!(w.get(2, 2), Light(1.0));
    assert!(close(w.get(1, 2).0, 0.5));
    assert!(close(w.get(1, 1).0, 0.25));
    assert!(close(w.get(4, 2).0, 0.0));
}

#[test]
fn the_window_is_the_same_from_all_sides() {
    for n in [2, 7, 16] {
        let w: Plane<Light> = hann_window_2d(n);
        for r in 0..n {
            for c in 0..n {
                let v = w.get(r, c).0;
                assert!(v >= 0.0 && v <= 1.0);
                assert!(close(v, w.get(n - 1 - r, c).0));
                assert!(close(v, w.get(r, n - 1 - c).0));
                assert_eq!(v, w.get(c, r).0);
                if r == 0 || c == 0 || r == n - 1 || c == n - 1 {
                    assert!(close(v, 0.0));
                }
            }
        }
    }
    let odd: Plane<Light> = hann_window_2d(7);
    assert!(close(odd.get(3, 3).0, 1.0));
}

#[test]
fn windowed_tiles_are_products() {
    let img = image(6, 6, |r, c| (10 * r + c) as f32);
    let window = image(2, 2, |r, c| (1 + r + 2 * c) as f32);
    let tile = extract_windowed_tile(&img, &window, 3, 2);
    assert_eq!(tile.as_vec(), &vec![Light(32.0), Light(99.0), Light(84.0), Light(172.0)]);
}

#[test]
fn the_transform_of_a_point_is_flat() {
    let point = image(4, 4, |r, c| if (r, c) == (0, 0) { 1.0 } else { 0.0 });
    let z = dft_2d(&point, &transform(4, false));
    assert!(z.as_vec().iter().all(|v| close(v.re.0, 1.0) && close(v.im.0, 0.0)));
}

#[test]
fn rows_and_columns_keep_their_places() {
    // One wave along the columns: only the frequencies of the first row answer.
    let wave = image(4, 4, |_, c| if c % 2 == 0 { 1.0 } else { -1.0 });
    let z = dft_2d(&wave, &transform(4, false));
    assert!(close(z.get(0, 2).re.0, 16.0));
    assert!(close(z.get(2, 0).re.0, 0.0));
}

#[test]
fn the_inverse_transform_undoes_the_transform() {
    let tile = image(16, 16, texture);
    let z = dft_2d(&tile, &transform(16, false));
    let back = idft_2d(&z, &transform(16, true));
    assert!(tile.as_vec().iter().zip(back.as_vec()).all(|(a, b)| close(a.0, b.0)));
}

#[test]
fn wiener_weights_are_exact() {
    let one = Plane::filled(1, 1, Complex { re: Light(1.0), im: Light(0.0) });
    let sum = Plane::filled(1, 1, Complex { re: Light(5.0), im: Light(-2.5) });
    // weight 1 / (1 + 1 * 3), then sum * weight / (1 + 1 * weight)
    let out = merge_spectra(&one, &sum, 1, Light(3.0)).get(0, 0);
    assert_eq!((out.re, out.im), (Light(1.0), Light(-0.5)));
    // Without noise the outcome is the mean of all frames.
    let tall = Plane::filled(1, 1, Complex { re: Light(3.0), im: Light(4.0) });
    let out = merge_spectra(&tall, &sum, 1, Light(0.0)).get(0, 0);
    assert_eq!((out.re, out.im), (Light(2.5), Light(-1.25)));
}

#[test]
fn tile_origins_step_by_half() {
    assert_eq!(
        tile_origins(9, 8, 4),
        vec![(0, 0), (0, 2), (0, 4), (2, 0), (2, 2), (2, 4), (4, 0), (4, 2), (4, 4)]
    );
    assert_eq!(tile_origins(5, 5, 5), vec![(0, 0)]);
    assert_eq!(tile_origins(3, 2, 2), vec![(0, 0), (1, 0)]);
}

#[test]
fn tiles_cover_all_but_a_last_half_step() {
    let origins = tile_origins(21, 18, 4);
    let covered = |r: usize, c: usize| {
        origins.iter().any(|o| o.0 <= r && r < o.0 + 4 && o.1 <= c && c < o.1 + 4)
    };
    for r in 0..21 {
        for c in 0..18 {
            assert_eq!(covered(r, c), r < 20);
        }
    }
}

#[test]
fn inner_rows_lie_in_two_rows_of_tiles() {
    let origins = tile_origins(22, 4, 4);
    for r in 0..22 {
        let n = origins.iter().filter(|o| o.0 <= r && r < o.0 + 4).count();
        assert_eq!(n, if r < 2 || r >= 20 { 1 } else { 2 });
    }
}

#[test]
fn overlapping_tiles_are_averaged() {
    let window = image(2, 2, |_, _| 2.0);
    let tiles = vec![image(2, 2, |_, _| 3.0), image(2, 2, |_, _| 5.0)];
    let out = overlap_add(2, 4, &vec![(0, 0), (0, 1)], &tiles, &window);
    let row = vec![Light(1.5), Light(2.0), Light(2.5), Light(0.0)];
    assert_eq!(out.as_vec()[..4], row[..]);
    assert_eq!(out.as_vec()[4..], row[..]);
}

#[test]
fn next_to_no_weight_leaves_the_total() {
    let window = image(2, 2, |_, _| 1e-5);
    let out = overlap_add(2, 2, &vec![(0, 0)], &vec![image(2, 2, |_, _| 8.0)], &window);
    assert_eq!(out.get(0, 0), Light(8.0 * 1e-5));
}

#[test]
fn merging_a_still_burst_gives_it_back() {
    let still = || image(64, 64, |r, c| 0.25 + 0.5 * texture(r / 4, c / 4));
    let frames = vec![frame(still(), 0), frame(still(), 1), frame(still(), 2)];
    let alignments = align_burst(&frames);
    let merged =
        merge_burst(&frames, &alignments, &transform(16, false), &transform(16, true));
    assert_eq!(merged.dim(), (64, 64));
    // Away from the tiles of the first row and column, which alignment moves
    // beyond the edge.
    for r in 24..62 {
        for c in 24..62 {
            assert!((merged.get(r, c).0 - frames[0].bayer.get(r, c).0).abs() < 0.01);
        }
    }
    // The window is zero along the edge, and so is what the tiles put there.
    assert!(close(merged.get(0, 0).0, 0.0));
}

#[test]
fn equal_frames_without_noise_give_the_reference() {
    let quiet = |i: usize| {
        let mut f = frame(image(34, 40, texture), i);
        f.noise_model = NoiseModel { lambda_s: Light(0.0), lambda_r: Light(0.0) };
        f
    };
    let still = || AlignmentResult {
        offsets: vec![(0, 0); 4],
        n_tile_rows: 2,
        n_tile_cols: 2,
        tile_size: 16,
    };
    let frames = vec![quiet(0), quiet(1), quiet(2), quiet(3)];
    let alignments = vec![still(), still(), still()];
    let merged =
        merge_burst(&frames, &alignments, &transform(16, false), &transform(16, true));
    for r in 1..=16 + 14 {
        for c in 1..=24 + 14 {
            assert!((merged.get(r, c).0 - texture(r, c)).abs() < 1e-3);
        }
    }
}

#[test]
fn alternates_come_in_any_order() {
    let shifted = |d: usize| image(48, 48, move |r, c| bumps((r + d) as f32, (c + 2 * d) as f32));
    let a = vec![frame(shifted(0), 0), frame(shifted(1), 1), frame(shifted(3), 2)];
    let b = vec![frame(shifted(0), 0), frame(shifted(3), 1), frame(shifted(1), 2)];
    let merge = |frames: &[BurstFrame<Light>]| {
        let alignments = align_burst(frames);
        merge_burst(frames, &alignments, &transform(16, false), &transform(16, true))
    };
    let (x, y) = (merge(&a), merge(&b));
    assert!(x.as_vec().iter().zip(y.as_vec()).all(|(p, q)| close(p.0, q.0)));
}

#[test]
fn an_alignment_may_have_offsets_to_spare() {
    let frames = vec![frame(image(20, 20, texture), 0), frame(image(20, 20, texture), 1)];
    let spare = |n: usize| AlignmentResult {
        offsets: vec![(0, 0); n],
        n_tile_rows: 2,
        n_tile_cols: 2,
        tile_size: 16,
    };
    let merge = |a: AlignmentResult| {
        merge_burst(&frames, &[a], &transform(16, false), &transform(16, true))
    };
    assert_eq!(merge(spare(1)).as_vec(), merge(spare(7)).as_vec());
}

#[test]
fn a_dark_tile_stays_dark() {
    // No signal and noise of the model alone: the weight is zero.
    let frames = vec![frame(image(16, 16, |_, _| 0.0), 0), frame(image(16, 16, texture), 1)];
    let alignments = align_burst(&frames);
    let window = hann_window_2d(16);
    let tile = merge_tile(
        &frames,
        &alignments,
        &window,
        0,
        0,
        &transform(16, false),
        &transform(16, true),
    );
    assert!(tile.as_vec().iter().all(|v| v.0 == 0.0));
}

// Demosaicing.

#[test]
fn a_flat_image_stays_flat() {
    let pattern = [CfaPattern::RGGB, CfaPattern::BGGR, CfaPattern::GRBG, CfaPattern::GBRG];
    for p in pattern {
        let rgb = demosaic(&image(9, 8, |_, _| 0.5), p);
        assert_eq!(rgb.dim(), (9, 8));
        assert!(rgb.as_vec().iter().all(|px| *px == [Light(0.5); 3]));
    }
}

#[test]
fn measured_colours_are_kept() {
    let rgb = demosaic(&image(8, 8, texture), CfaPattern::RGGB);
    assert_eq!(rgb.get(4, 2)[0], Light(texture(4, 2)));
    assert_eq!(rgb.get(4, 3)[1], Light(texture(4, 3)));
    assert_eq!(rgb.get(3, 4)[1], Light(texture(3, 4)));
    assert_eq!(rgb.get(3, 3)[2], Light(texture(3, 3)));
    assert_eq!(rgb.get(0, 0)[0], Light(texture(0, 0)));
    assert_eq!(rgb.get(7, 7)[2], Light(texture(7, 7)));
}

#[test]
fn kernels_have_their_weights() {
    let at = |dr: i32, dc: i32| {
        image(9, 9, |r, c| if (r as i32, c as i32) == (4 + dr, 4 + dc) { 16.0 } else { 0.0 })
    };
    assert_eq!(interp_g_at_rb(&at(0, 0), 4, 4), Light(8.0));
    assert_eq!(interp_g_at_rb(&at(-1, 0), 4, 4), Light(4.0));
    assert_eq!(interp_g_at_rb(&at(0, 2), 4, 4), Light(-2.0));
    assert_eq!(interp_g_at_rb(&at(1, 1), 4, 4), Light(0.0));
    assert_eq!(interp_b_at_r(&at(0, 0), 4, 4), Light(12.0));
    assert_eq!(interp_b_at_r(&at(2, 0), 4, 4), Light(-3.0));
    assert_eq!(interp_b_at_r(&at(1, -1), 4, 4), Light(4.0));
    assert_eq!(interp_r_at_b(&at(1, 1), 4, 4), Light(4.0));
    assert_eq!(interp_r_at_gr(&at(0, 0), 4, 4), Light(10.0));
    assert_eq!(interp_r_at_gr(&at(0, 1), 4, 4), Light(8.0));
    assert_eq!(interp_r_at_gr(&at(2, 0), 4, 4), Light(1.0));
    assert_eq!(interp_r_at_gr(&at(0, 2), 4, 4), Light(-2.0));
    assert_eq!(interp_b_at_gb(&at(0, 1), 4, 4), Light(8.0));
    assert_eq!(interp_b_at_gb(&at(2, 0), 4, 4), Light(1.0));
    assert_eq!(interp_b_at_gr(&at(1, 0), 4, 4), Light(8.0));
    assert_eq!(interp_b_at_gr(&at(0, 2), 4, 4), Light(1.0));
    assert_eq!(interp_b_at_gr(&at(-2, 0), 4, 4), Light(-2.0));
    assert_eq!(interp_r_at_gb(&at(-1, 0), 4, 4), Light(8.0));
    assert_eq!(interp_r_at_gb(&at(0, 1), 4, 4), Light(0.0));
}

#[test]
fn each_place_of_the_block_has_its_kernels() {
    let point = image(9, 9, |r, c| if (r, c) == (4, 4) { 1.0 } else { 0.0 });
    let rgb = demosaic(&point, CfaPattern::RGGB);
    assert_eq!(rgb.get(4, 4), [Light(1.0), Light(0.5), Light(0.75)]);
    // A lone red pixel shows in red alone, and where a kernel is negative, not
    // at all.
    assert_eq!(rgb.get(4, 3), [Light(0.5), Light(0.0), Light(0.0)]);
    assert_eq!(rgb.get(3, 4), [Light(0.5), Light(0.0), Light(0.0)]);
    assert_eq!(rgb.get(3, 3), [Light(0.25), Light(0.0), Light(0.0)]);
    assert_eq!(rgb.get(2, 4), [Light(0.0), Light(0.0), Light(0.0)]);
    let rgb = demosaic(&point, CfaPattern::BGGR);
    assert_eq!(rgb.get(4, 4), [Light(0.75), Light(0.5), Light(1.0)]);
    assert_eq!(rgb.get(4, 3), [Light(0.0), Light(0.0), Light(0.5)]);
}

#[test]
fn estimates_stay_within_the_range_of_light() {
    let corner = image(5, 5, |r, c| if (r, c) == (0, 2) { 1.0 } else { 0.0 });
    assert_eq!(demosaic(&corner, CfaPattern::RGGB).get(2, 2)[1], Light(0.0));
    let hole = image(5, 5, |r, c| if (r, c) == (0, 2) { 0.0 } else { 1.0 });
    assert_eq!(demosaic(&hole, CfaPattern::RGGB).get(2, 2)[1], Light(1.0));
    for pattern in [CfaPattern::RGGB, CfaPattern::BGGR, CfaPattern::GRBG, CfaPattern::GBRG] {
        let rgb = demosaic(&image(11, 12, texture), pattern);
        assert!(rgb.as_vec().iter().all(|px| px.iter().all(|v| v.0 >= 0.0 && v.0 <= 1.0)));
    }
}

#[test]
fn a_flat_colour_comes_out_everywhere() {
    for pattern in [CfaPattern::RGGB, CfaPattern::BGGR, CfaPattern::GRBG, CfaPattern::GBRG] {
        let o = pattern.offsets();
        let bayer = image(8, 9, |r, c| {
            if (r % 2, c % 2) == o.r {
                0.25
            } else if (r % 2, c % 2) == o.b {
                1.0
            } else {
                0.5
            }
        });
        let rgb = demosaic(&bayer, pattern);
        assert!(rgb.as_vec().iter().all(|px| *px == [Light(0.25), Light(0.5), Light(1.0)]));
    }
}

#[test]
fn small_images_are_all_border() {
    let rgb = demosaic(&image(2, 2, |r, c| (2 * r + c) as f32), CfaPattern::RGGB);
    assert_eq!(rgb.get(0, 0), [Light(0.0), Light(1.5), Light(3.0)]);
    assert_eq!(demosaic(&image(2, 1, |r, _| r as f32), CfaPattern::RGGB).get(0, 0)[2], Light(0.0));
}

// Colour.

#[test]
fn tone_mapping_compresses_highlights() {
    assert_eq!(tone_map(Light(0.0)), Light(0.0));
    assert_eq!(tone_map(Light(0.08)), Light(0.5));
    assert!(tone_map(Light(1000.0)).0 < 1.0);
}

#[test]
fn tone_and_gamma_grow_within_their_range() {
    let mut before = (Light(0.0), Light(0.0));
    for i in 0..2000 {
        let x = Light(i as f32 * 0.005);
        let (t, g) = (tone_map(x), srgb_gamma(Light(i as f32 / 2000.0)));
        assert!(t.0 >= before.0 .0 && t.0 < 1.0);
        assert!(g.0 >= before.1 .0 && g.0 <= 1.0);
        before = (t, g);
    }
}

#[test]
fn gamma_has_a_line_and_a_curve() {
    assert_eq!(srgb_gamma(Light(0.0)), Light(0.0));
    assert_eq!(srgb_gamma(Light(-3.0)), Light(0.0));
    assert_eq!(srgb_gamma(Light(0.002)), Light(12.92 * 0.002));
    assert_eq!(srgb_gamma(Light(0.0031308)), Light(12.92 * 0.0031308));
    assert_eq!(srgb_gamma(Light(0.5)), Light(1.055 * 0.5f32.powf(1.0 / 2.4) - 0.055));
    assert!(close(srgb_gamma(Light(1.0)).0, 1.0));
    assert_eq!(srgb_gamma(Light(7.0)), srgb_gamma(Light(1.0)));
}

fn matrix(m: [[f32; 3]; 3]) -> [[Light; 3]; 3] {
    m.map(|row| row.map(Light))
}

#[test]
fn matrices_are_inverted() {
    let m = matrix([[2.0, 0.0, 0.0], [0.0, 4.0, 0.0], [0.0, 0.0, 0.5]]);
    assert_eq!(invert_3x3(&m), Some(matrix([[0.5, 0.0, 0.0], [0.0, 0.25, 0.0], [0.0, 0.0, 2.0]])));
    let m = matrix([[1.0, 2.0, 3.0], [0.0, 1.0, 4.0], [5.0, 6.0, 0.0]]);
    let inv = matrix([[-24.0, 18.0, 5.0], [20.0, -15.0, -4.0], [-5.0, 4.0, 1.0]]);
    assert_eq!(invert_3x3(&m), Some(inv));
    let unit = matrix([[1.0, 0.0, 0.0], [0.0, 1.0, 0.0], [0.0, 0.0, 1.0]]);
    assert_eq!(mat_mul_3x3(&m, &inv), unit);
    assert_eq!(mat_mul_3x3(&inv, &m), unit);
}

#[test]
fn singular_matrices_have_no_inverse() {
    let m = matrix([[1.0, 2.0, 3.0], [2.0, 4.0, 6.0], [0.0, 1.0, 1.0]]);
    assert_eq!(invert_3x3(&m), None);
    assert_eq!(compute_cam_to_srgb(&m), None);
    assert_eq!(invert_3x3(&matrix([[f32::NAN; 3]; 3])), None);
    let tiny = matrix([[1e-4, 0.0, 0.0], [0.0, 1e-4, 0.0], [0.0, 0.0, 1e-4]]);
    assert_eq!(invert_3x3(&tiny), None);
    let rgb = Plane::filled(1, 1, [Light(0.5); 3]);
    assert!(finish(&rgb, &[Light(1.0); 4], &m).is_none());
}

#[test]
fn products_of_matrices_go_row_by_column() {
    let a = matrix([[1.0, 2.0, 3.0], [4.0, 5.0, 6.0], [7.0, 8.0, 9.0]]);
    let b = matrix([[1.0, 0.0, 2.0], [0.0, 1.0, 0.0], [3.0, 0.0, 1.0]]);
    assert_eq!(
        mat_mul_3x3(&a, &b),
        matrix([[10.0, 2.0, 5.0], [22.0, 5.0, 14.0], [34.0, 8.0, 23.0]])
    );
}

#[test]
fn camera_values_of_xyz_become_srgb() {
    let unit = matrix([[1.0, 0.0, 0.0], [0.0, 1.0, 0.0], [0.0, 0.0, 1.0]]);
    let expected =
        matrix([[3.2406, -1.5372, -0.4986], [-0.9689, 1.8758, 0.0415], [0.0557, -0.2040, 1.0570]]);
    assert_eq!(compute_cam_to_srgb(&unit), Some(expected));
}

#[test]
fn the_way_to_the_camera_and_on_is_srgb() {
    let cam = matrix([[0.75, -0.25, 0.125], [-0.5, 1.25, 0.25], [0.0, 0.25, 0.5]]);
    let on = compute_cam_to_srgb(&cam).unwrap();
    let srgb =
        matrix([[3.2406, -1.5372, -0.4986], [-0.9689, 1.8758, 0.0415], [0.0557, -0.2040, 1.0570]]);
    let product = mat_mul_3x3(&on, &cam);
    for i in 0..3 {
        for j in 0..3 {
            assert!(close(product[i][j].0, srgb[i][j].0));
        }
    }
}

#[test]
fn only_ratios_of_the_multipliers_count() {
    let unit = matrix([[1.0, 0.0, 0.0], [0.0, 1.0, 0.0], [0.0, 0.0, 1.0]]);
    let rgb = Plane::filled(2, 2, [Light(0.5), Light(0.25), Light(0.375)]);
    let done = |wb: [f32; 4]| finish(&rgb, &wb.map(Light), &unit).unwrap();
    assert_eq!(done([3.0, 1.0, 2.0, 3.0]).as_vec(), done([2.0, 1.0, 1.0, 2.0]).as_vec());
    assert_eq!(done([3.0, 1.0, 2.0, 5.0]).as_vec(), done([12.0, 4.0, 8.0, 20.0]).as_vec());
}

#[test]
fn gains_keep_green() {
    let gains = normalized_gains(&[Light(4.0), Light(1.0), Light(3.0), Light(1.0)]);
    assert_eq!(gains, [Light(2.0), Light(1.0), Light(0.5)]);
}

#[test]
fn finishing_goes_through_every_step() {
    let unit = matrix([[1.0, 0.0, 0.0], [0.0, 1.0, 0.0], [0.0, 0.0, 1.0]]);
    let rgb = Plane::filled(2, 3, [Light(0.5), Light(0.25), Light(0.125)]);
    let out = finish(&rgb, &[Light(2.0), Light(1.0), Light(1.0), Light(4.0)], &unit).unwrap();
    assert_eq!(out.dim(), (2, 3));
    let (r, g, b) = (1.0f32, 0.25f32, 0.5f32);
    let m = [[3.2406f32, -1.5372, -0.4986], [-0.9689, 1.8758, 0.0415], [0.0557, -0.2040, 1.0570]];
    for k in 0..3 {
        let mixed = m[k][0] * r + m[k][1] * g + m[k][2] * b;
        let mapped = mixed.max(0.0) / (mixed.max(0.0) + 0.08);
        assert_eq!(out.get(1, 2)[k], srgb_gamma(Light(mapped)));
        assert!(out.get(1, 2)[k].0 >= 0.0 && out.get(1, 2)[k].0 <= 1.0);
    }
    // Green came out negative and was cut off.
    assert_eq!(out.get(0, 0)[1], Light(0.0));
}

#[test]
fn a_burst_becomes_a_picture() {
    let frames: Vec<BurstFrame<Light>> =
        (0..3).map(|i| frame(image(34, 48, |r, c| bumps(r as f32, c as f32)), i)).collect();
    assert_eq!(first_misfit(&frames), None);
    let alignments = align_burst(&frames);
    let merged =
        merge_burst(&frames, &alignments, &transform(16, false), &transform(16, true));
    let rgb = demosaic(&merged, frames[0].cfa_pattern);
    let unit = matrix([[1.0, 0.0, 0.0], [0.0, 1.0, 0.0], [0.0, 0.0, 1.0]]);
    let finished = finish(&rgb, &frames[0].wb_coeffs, &unit).unwrap();
    assert_eq!(finished.dim(), (34, 48));
    assert!(finished.as_vec().iter().all(|px| px.iter().all(|v| v.0 >= 0.0 && v.0 <= 1.0)));
    assert_eq!(rgb_bytes(&finished).len(), 34 * 48 * 3);
    assert_eq!(bayer_preview_bytes(&merged).len(), 34 * 48);
}

// Output.

#[test]
fn colours_become_bytes_in_order() {
    let cells = vec![
        [Light(0.0), Light(1.0), Light(0.5)],
        [Light(-1.0), Light(2.0), Light(0.999)],
    ];
    let rgb = Plane::from_shape_vec(1, 2, cells).unwrap();
    assert_eq!(rgb_bytes(&rgb), vec![0, 255, 127, 0, 255, 254]);
}

#[test]
fn previews_are_brightened() {
    let bytes = bayer_preview_bytes(&image(1, 4, |_, c| [0.0, 1.0, 0.25, 9.0][c]));
    let quarter = (0.25f32.powf(1.0 / 2.2) * 255.0) as u8;
    assert_eq!(bytes, vec![0, 255, quarter, 255]);
    assert_eq!(quarter, 135);
}

// Files.

#[test]
fn raw_files_go_by_their_extension() {
    for ext in ["dng", "DNG", "cr2", "Cr2", "nef", "NEF", "arw", "rw2", "RW2"] {
        assert!(is_raw_extension(ext));
    }
    for ext in ["png", "jpg", "", "dn", "dngs", "cr3"] {
        assert!(!is_raw_extension(ext));
    }
    assert!(has_raw_suffix("rw2"));
    assert!(!has_raw_suffix("RW2"));
}

#[test]
fn a_burst_has_a_reference_and_an_alternate() {
    assert_eq!(MIN_FRAMES, 2);
}

#[test]
fn frames_of_another_size_are_found() {
    let same = || frame(image(2, 3, texture), 0);
    assert_eq!(first_misfit(&[same(), same()]), None);
    assert_eq!(first_misfit(&[same()]), None);
    let tall = frame(image(4, 3, texture), 5);
    let wide = frame(image(2, 4, texture), 6);
    assert_eq!(first_misfit(&[same(), same(), tall.clone(), wide.clone()]), Some(5));
    assert_eq!(first_misfit(&[same(), wide, tall]), Some(6));
}
