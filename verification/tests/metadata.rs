//! Metadata, out of hand-built Exif blocks and out of plain fields.
use hdr_burst::metadata::assemble_metadata;
use hdr_burst::metadata::find_tag;
use hdr_burst::metadata::metadata_or_missing;
use hdr_burst::metadata::read_as_shot_neutral;
use hdr_burst::metadata::read_color_matrix;
use hdr_burst::metadata::read_dng_metadata;
use hdr_burst::metadata::read_exposure_time;
use hdr_burst::metadata::read_iso;
use hdr_burst::metadata::DngMetadata;
use hdr_burst::metadata::ExifField;
use hdr_burst::metadata::FieldValue;
use hdr_burst::metadata::MetadataError;
use hdr_burst::metadata::AS_SHOT_NEUTRAL;
use hdr_burst::metadata::COLOR_MATRIX_1;
use hdr_burst::sample::Sample;

#[derive(Debug, Clone, Copy, PartialEq)]
struct Light(f32);

impl Sample for Light {
    fn ratio(num: i64, den: i64) -> Light {
        Light(num as f32 / den as f32)
    }
    fn count(n: usize) -> Light {
        Light(n as f32)
    }
    fn plus(self, other: Light) -> Light {
        Light(self.0 + other.0)
    }
    fn minus(self, other: Light) -> Light {
        Light(self.0 - other.0)
    }
    fn times(self, other: Light) -> Light {
        Light(self.0 * other.0)
    }
    fn over(self, other: Light) -> Light {
        Light(self.0 / other.0)
    }
    fn magnitude(self) -> Light {
        Light(self.0.abs())
    }
    fn cosine(self) -> Light {
        Light(self.0.cos())
    }
    fn power(self, exponent: Light) -> Light {
        Light(self.0.powf(exponent.0))
    }
    fn half_turn() -> Light {
        Light(std::f32::consts::PI)
    }
    fn larger(self, other: Light) -> Light {
        Light(self.0.max(other.0))
    }
    fn clamped(self, low: Light, high: Light) -> Light {
        Light(self.0.clamp(low.0, high.0))
    }
    fn exceeds(self, other: Light) -> bool {
        self.0 > other.0
    }
    fn at_most(self, other: Light) -> bool {
        self.0 <= other.0
    }
    fn is_undefined(self) -> bool {
        self.0.is_nan()
    }
    fn unlimited() -> Light {
        Light(f32::INFINITY)
    }
    fn mean(values: &Vec<Light>) -> Option<Light> {
        if values.is_empty() {
            return None;
        }
        Some(Light(values.iter().map(|v| v.0).sum::<f32>() / values.len() as f32))
    }
    fn to_byte(self) -> u8 {
        self.0 as u8
    }
}

/// One entry of a directory: tag, type, number of values, and the values.
struct Entry {
    tag: u16,
    kind: u16,
    count: u32,
    data: Vec<u8>,
}

fn shorts(tag: u16, values: &[u16]) -> Entry {
    let data = values.iter().flat_map(|v| v.to_le_bytes()).collect();
    Entry { tag, kind: 3, count: values.len() as u32, data }
}

fn longs(tag: u16, values: &[u32]) -> Entry {
    let data = values.iter().flat_map(|v| v.to_le_bytes()).collect();
    Entry { tag, kind: 4, count: values.len() as u32, data }
}

fn rationals(tag: u16, values: &[(u32, u32)]) -> Entry {
    let mut data = Vec::new();
    for v in values {
        data.extend_from_slice(&v.0.to_le_bytes());
        data.extend_from_slice(&v.1.to_le_bytes());
    }
    Entry { tag, kind: 5, count: values.len() as u32, data }
}

fn signed_rationals(tag: u16, values: &[(i32, i32)]) -> Entry {
    let mut data = Vec::new();
    for v in values {
        data.extend_from_slice(&v.0.to_le_bytes());
        data.extend_from_slice(&v.1.to_le_bytes());
    }
    Entry { tag, kind: 10, count: values.len() as u32, data }
}

/// The bytes of a directory that starts at `at`, and of the values behind it.
fn directory(at: usize, entries: &[Entry]) -> Vec<u8> {
    let mut head: Vec<u8> = Vec::new();
    let mut tail: Vec<u8> = Vec::new();
    let after = at + 2 + 12 * entries.len() + 4;
    head.extend_from_slice(&(entries.len() as u16).to_le_bytes());
    for e in entries {
        head.extend_from_slice(&e.tag.to_le_bytes());
        head.extend_from_slice(&e.kind.to_le_bytes());
        head.extend_from_slice(&e.count.to_le_bytes());
        if e.data.len() <= 4 {
            let mut inline = e.data.clone();
            inline.resize(4, 0);
            head.extend_from_slice(&inline);
        } else {
            head.extend_from_slice(&((after + tail.len()) as u32).to_le_bytes());
            tail.extend_from_slice(&e.data);
        }
    }
    head.extend_from_slice(&0u32.to_le_bytes());
    head.extend_from_slice(&tail);
    head
}

/// A little-endian file with a main directory and an Exif directory.
fn tiff(mut main: Vec<Entry>, inner: Vec<Entry>) -> Vec<u8> {
    main.push(longs(0x8769, &[0]));
    main.sort_by_key(|e| e.tag);
    let inner_at = 8 + directory(8, &main).len();
    for e in main.iter_mut() {
        if e.tag == 0x8769 {
            e.data = (inner_at as u32).to_le_bytes().to_vec();
        }
    }
    let mut bytes = vec![0x49, 0x49, 42, 0, 8, 0, 0, 0];
    bytes.extend_from_slice(&directory(8, &main));
    bytes.extend_from_slice(&directory(inner_at, &inner));
    bytes
}

fn read(bytes: &Vec<u8>) -> DngMetadata<Light> {
    match read_dng_metadata(bytes) {
        Ok(m) => m,
        Err(MetadataError::Unreadable(text)) => panic!("{}", text),
    }
}

const NINE: [(i32, i32); 9] =
    [(1, 2), (-1, 4), (3, 4), (1, 1), (5, 4), (-3, 2), (1, 8), (0, 1), (2, 1)];

#[test]
fn reads_every_field_of_a_block() {
    let bytes = tiff(
        vec![
            rationals(AS_SHOT_NEUTRAL, &[(1, 2), (1, 1), (1, 4)]),
            signed_rationals(COLOR_MATRIX_1, &NINE),
        ],
        vec![rationals(0x829A, &[(1, 8)]), shorts(0x8827, &[200])],
    );
    let m = read(&bytes);
    assert_eq!(m.wb_coeffs, Some([Light(2.0), Light(1.0), Light(1.0), Light(4.0)]));
    assert_eq!(
        m.color_matrix,
        Some([
            [Light(0.5), Light(-0.25), Light(0.75)],
            [Light(1.0), Light(1.25), Light(-1.5)],
            [Light(0.125), Light(0.0), Light(2.0)],
        ])
    );
    assert_eq!(m.exposure_time, Some(Light(0.125)));
    assert_eq!(m.iso, Some(200));
}

#[test]
fn a_block_without_the_tags_says_nothing() {
    let m = read(&tiff(vec![shorts(0x0100, &[16])], vec![shorts(0xA001, &[1])]));
    assert_eq!(m.wb_coeffs, None);
    assert_eq!(m.color_matrix, None);
    assert_eq!(m.exposure_time, None);
    assert_eq!(m.iso, None);
}

#[test]
fn speed_stands_in_for_sensitivity() {
    let m = read(&tiff(vec![], vec![longs(0x8833, &[320])]));
    assert_eq!(m.iso, Some(320));
    let m = read(&tiff(vec![], vec![shorts(0x8827, &[100]), longs(0x8833, &[320])]));
    assert_eq!(m.iso, Some(100));
}

#[test]
fn exposure_outside_the_exif_directory_does_not_count() {
    let m = read(&tiff(vec![rationals(0x829A, &[(1, 8)])], vec![shorts(0xA001, &[1])]));
    assert_eq!(m.exposure_time, None);
}

#[test]
fn bytes_without_exif_are_unreadable() {
    let bytes: Vec<u8> = vec![1, 2, 3, 4, 5, 6, 7, 8];
    let r: Result<DngMetadata<Light>, MetadataError> = read_dng_metadata(&bytes);
    match r {
        Err(MetadataError::Unreadable(text)) => assert!(!text.is_empty()),
        Ok(_) => panic!("no block was there"),
    }
}

#[test]
fn unreadable_metadata_are_missing() {
    let bytes: Vec<u8> = vec![1, 2, 3, 4, 5, 6, 7, 8];
    let (m, fault): (DngMetadata<Light>, Option<String>) =
        metadata_or_missing(read_dng_metadata(&bytes));
    assert!(m.wb_coeffs.is_none() && m.color_matrix.is_none());
    assert!(m.exposure_time.is_none() && m.iso.is_none());
    assert!(fault.is_some());
    let bytes = tiff(vec![], vec![shorts(0x8827, &[100])]);
    let (m, fault): (DngMetadata<Light>, Option<String>) =
        metadata_or_missing(read_dng_metadata(&bytes));
    assert_eq!((m.iso, fault), (Some(100), None));
}

fn field(number: u16, value: FieldValue) -> ExifField {
    ExifField { number, in_exif: false, image: 0, value }
}

#[test]
fn the_first_field_with_a_number_counts() {
    let fields = vec![
        field(1, FieldValue::Other),
        field(7, FieldValue::Short(vec![5])),
        field(7, FieldValue::Short(vec![6])),
    ];
    assert!(matches!(find_tag(&fields, 7), Some(FieldValue::Short(v)) if v[0] == 5));
    assert!(find_tag(&fields, 8).is_none());
}

#[test]
fn assembles_plain_fields() {
    let fields = vec![
        field(AS_SHOT_NEUTRAL, FieldValue::Rational(vec![(1, 1), (1, 2), (1, 8)])),
        field(COLOR_MATRIX_1, FieldValue::SRational(NINE.to_vec())),
    ];
    let exposure = FieldValue::Rational(vec![(3, 4), (9, 9)]);
    let speed = FieldValue::Long(vec![50]);
    let m: DngMetadata<Light> = assemble_metadata(&fields, Some(&exposure), None, Some(&speed));
    assert_eq!(m.wb_coeffs, Some([Light(0.5), Light(1.0), Light(1.0), Light(4.0)]));
    assert_eq!(m.color_matrix.map(|c| c[1]), Some([Light(1.0), Light(1.25), Light(-1.5)]));
    assert_eq!(m.exposure_time, Some(Light(0.75)));
    assert_eq!(m.iso, Some(50));
}

#[test]
fn neutral_colour_needs_three_rationals_and_some_green() {
    let none: Option<[Light; 4]> = None;
    assert_eq!(read_as_shot_neutral(None), none);
    assert_eq!(read_as_shot_neutral(Some(&FieldValue::Rational(vec![(1, 1), (1, 1)]))), none);
    assert_eq!(read_as_shot_neutral(Some(&FieldValue::Short(vec![1, 1, 1]))), none);
    let no_green = FieldValue::Rational(vec![(1, 1), (0, 5), (1, 1)]);
    assert_eq!(read_as_shot_neutral(Some(&no_green)), none);
    // Zero over zero is undefined, and so are the multipliers.
    let undefined = FieldValue::Rational(vec![(1, 1), (0, 0), (1, 1)]);
    let wb: Option<[Light; 4]> = read_as_shot_neutral(Some(&undefined));
    assert!(wb.unwrap()[0].0.is_nan());
    assert_eq!(wb.unwrap()[1], Light(1.0));
}

#[test]
fn colour_matrix_needs_nine_signed_rationals() {
    let none: Option<[[Light; 3]; 3]> = None;
    assert_eq!(read_color_matrix(None), none);
    assert_eq!(read_color_matrix(Some(&FieldValue::SRational(NINE[..8].to_vec()))), none);
    assert_eq!(read_color_matrix(Some(&FieldValue::Rational(vec![(1, 1); 9]))), none);
}

#[test]
fn exposure_time_needs_a_rational() {
    let none: Option<Light> = None;
    assert_eq!(read_exposure_time(None), none);
    assert_eq!(read_exposure_time(Some(&FieldValue::Rational(vec![]))), none);
    assert_eq!(read_exposure_time(Some(&FieldValue::SRational(vec![(1, 2)]))), none);
    assert_eq!(read_exposure_time(Some(&FieldValue::Rational(vec![(1, 4)]))), Some(Light(0.25)));
}

#[test]
fn sensitivity_decides_even_where_it_is_of_no_use() {
    let speed = FieldValue::Long(vec![400]);
    assert_eq!(read_iso(Some(&FieldValue::Short(vec![])), Some(&speed)), None);
    assert_eq!(read_iso(Some(&FieldValue::Other), Some(&speed)), None);
    assert_eq!(read_iso(Some(&FieldValue::Short(vec![64, 1])), Some(&speed)), Some(64));
    assert_eq!(read_iso(None, Some(&speed)), Some(400));
    assert_eq!(read_iso(None, Some(&FieldValue::Long(vec![]))), None);
    assert_eq!(read_iso(None, None), None);
}

#[test]
fn missing_metadata_is_empty() {
    let m: DngMetadata<Light> = DngMetadata::missing();
    assert!(m.wb_coeffs.is_none() && m.color_matrix.is_none());
    assert!(m.exposure_time.is_none() && m.iso.is_none());
}
