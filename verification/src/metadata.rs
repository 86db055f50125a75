//! What a raw file says about the shot.
use crate::sample::is_one;
use crate::sample::is_quotient;
use crate::sample::is_ratio;
use crate::sample::Sample;
use vstd::prelude::*;

verus! {

/// The values of an Exif field, as far as this library reads them.
#[derive(Debug)]
pub enum FieldValue {
    Short(Vec<u16>),
    Long(Vec<u32>),
    /// Numerators and denominators.
    Rational(Vec<(u32, u32)>),
    /// Numerators and denominators.
    SRational(Vec<(i32, i32)>),
    /// A value of any other type.
    Other,
}

/// A field of an Exif block.
#[derive(Debug)]
pub struct ExifField {
    /// The number of its tag.
    pub number: u16,
    /// Does it lie in the Exif directory, and not next to it?
    pub in_exif: bool,
    /// The image that it belongs to: 0 for the primary one.
    pub image: u16,
    pub value: FieldValue,
}

/// The mathematical view of a [`FieldValue`].
pub enum ValueModel {
    Short(Seq<u16>),
    Long(Seq<u32>),
    Rational(Seq<(u32, u32)>),
    SRational(Seq<(i32, i32)>),
    Other,
}

/// The mathematical view of an [`ExifField`].
pub struct FieldModel {
    pub number: u16,
    pub in_exif: bool,
    pub image: u16,
    pub value: ValueModel,
}

impl View for FieldValue {
    type V = ValueModel;

    open spec fn view(&self) -> ValueModel {
        match *self {
            FieldValue::Short(v) => ValueModel::Short(v@),
            FieldValue::Long(v) => ValueModel::Long(v@),
            FieldValue::Rational(v) => ValueModel::Rational(v@),
            FieldValue::SRational(v) => ValueModel::SRational(v@),
            FieldValue::Other => ValueModel::Other,
        }
    }
}

impl View for ExifField {
    type V = FieldModel;

    open spec fn view(&self) -> FieldModel {
        FieldModel {
            number: self.number,
            in_exif: self.in_exif,
            image: self.image,
            value: self.value@,
        }
    }
}

/// The views of all fields.
pub open spec fn field_models(fields: Seq<ExifField>) -> Seq<FieldModel> {
    fields.map_values(|f: ExifField| f@)
}

/// Declares `exif::Exif`, the parsed Exif block of a file.
#[verifier::external_type_specification]
#[verifier::external_body]
pub struct ExExif(exif::Exif);

/// The fields that a parsed Exif block holds, in the order of the file.
pub uninterp spec fn exif_contents(block: exif::Exif) -> Seq<FieldModel>;

/// What `exif::Reader::read_from_container` makes of the bytes of a file: the
/// fields, or the text of its error.
pub uninterp spec fn exif_reading(bytes: Seq<u8>) -> Result<Seq<FieldModel>, Seq<char>>;

/// Calls `exif::Reader::read_from_container` on the bytes of a file. Taken on
/// trust: what comes out depends on the bytes alone.
#[verifier::external_body]
fn read_exif(bytes: &Vec<u8>) -> (r: Result<exif::Exif, String>)
    ensures
        match r {
            Ok(block) => exif_reading(bytes@) == Ok::<Seq<FieldModel>, Seq<char>>(
                exif_contents(block),
            ),
            Err(message) => exif_reading(bytes@) == Err::<Seq<FieldModel>, Seq<char>>(message@),
        },
{
    exif::Reader::new().read_from_container(&mut std::io::Cursor::new(bytes)).map_err(
        |e| e.to_string(),
    )
}

/// Calls `exif::Exif::fields` and hands out the fields as plain values. Taken
/// on trust: they are all fields of the block, in its order.
#[verifier::external_body]
fn all_fields(block: &exif::Exif) -> (fields: Vec<ExifField>)
    ensures
        field_models(fields@) == exif_contents(*block),
{
    block.fields().map(|f| ExifField {
        number: f.tag.number(),
        in_exif: f.tag.context() == exif::Context::Exif,
        image: f.ifd_num.index(),
        value: match &f.value {
            exif::Value::Short(v) => FieldValue::Short(v.clone()),
            exif::Value::Long(v) => FieldValue::Long(v.clone()),
            exif::Value::Rational(v) => FieldValue::Rational(v.iter().map(|q| (q.num, q.denom)).collect()),
            exif::Value::SRational(v) => FieldValue::SRational(v.iter().map(|q| (q.num, q.denom)).collect()),
            _ => FieldValue::Other,
        },
    }).collect()
}

/// Is this a field of the Exif directory of the primary image with that number?
pub open spec fn is_primary(f: FieldModel, number: u16) -> bool {
    f.in_exif && f.image == 0 && f.number == number
}

/// `v` is the value of the last field of the primary image's Exif directory
/// with that number, if there is one.
pub open spec fn is_primary_value(
    contents: Seq<FieldModel>,
    number: u16,
    v: Option<ValueModel>,
) -> bool {
    match v {
        Some(value) => exists|i: int|
            0 <= i < contents.len() && is_primary(#[trigger] contents[i], number)
                && contents[i].value == value && forall|j: int|
                i < j < contents.len() ==> !is_primary(#[trigger] contents[j], number),
        None => forall|j: int|
            0 <= j < contents.len() ==> !is_primary(#[trigger] contents[j], number),
    }
}

/// The view of a value that may be absent.
pub open spec fn optional_view(v: Option<FieldValue>) -> Option<ValueModel> {
    match v {
        Some(value) => Some(value@),
        None => None,
    }
}

/// Calls `exif::Exif::get_field` for a tag of the Exif directory and the
/// primary image. Taken on trust: where several fields share the tag, the
/// last one comes out.
#[verifier::external_body]
fn primary_value(block: &exif::Exif, number: u16) -> (v: Option<FieldValue>)
    ensures
        is_primary_value(exif_contents(*block), number, optional_view(v)),
{
    let tag = exif::Tag(exif::Context::Exif, number);
    block.get_field(tag, exif::In::PRIMARY).map(|f| match &f.value {
        exif::Value::Short(v) => FieldValue::Short(v.clone()),
        exif::Value::Long(v) => FieldValue::Long(v.clone()),
        exif::Value::Rational(v) => FieldValue::Rational(v.iter().map(|q| (q.num, q.denom)).collect()),
        exif::Value::SRational(v) => FieldValue::SRational(v.iter().map(|q| (q.num, q.denom)).collect()),
        _ => FieldValue::Other,
    })
}

/// The tag of the colour that a neutral surface has in camera values.
pub const AS_SHOT_NEUTRAL: u16 = 0xC628;

/// The tag of the matrix from XYZ to camera values.
pub const COLOR_MATRIX_1: u16 = 0xC621;

/// The tag of the exposure time.
pub const EXPOSURE_TIME: u16 = 0x829A;

/// The tag of the sensitivity.
pub const PHOTOGRAPHIC_SENSITIVITY: u16 = 0x8827;

/// The tag of the sensitivity as a speed.
pub const ISO_SPEED: u16 = 0x8833;

/// What a raw file says about the shot.
#[derive(Debug)]
pub struct DngMetadata<T> {
    /// White balance multipliers for red, both greens and blue, such that
    /// those for green are one.
    pub wb_coeffs: Option<[T; 4]>,
    /// The matrix from XYZ to camera values.
    pub color_matrix: Option<[[T; 3]; 3]>,
    /// Exposure time in seconds.
    pub exposure_time: Option<T>,
    /// ISO sensitivity.
    pub iso: Option<u32>,
}

/// Why a file gave no metadata.
#[derive(Debug)]
pub enum MetadataError {
    /// The file holds no Exif block that can be read; the text says why.
    Unreadable(String),
}

/// `v` is the value of the first field with that number, if there is one.
pub open spec fn is_first_value(
    contents: Seq<FieldModel>,
    number: u16,
    v: Option<ValueModel>,
) -> bool {
    match v {
        Some(value) => exists|i: int|
            0 <= i < contents.len() && (#[trigger] contents[i]).number == number
                && contents[i].value == value && forall|j: int|
                0 <= j < i ==> (#[trigger] contents[j]).number != number,
        None => forall|j: int|
            0 <= j < contents.len() ==> (#[trigger] contents[j]).number != number,
    }
}

/// Can multipliers be had from this value? It takes three rationals, and the
/// one for green may not be zero.
pub open spec fn has_multipliers(v: ValueModel) -> bool {
    v matches ValueModel::Rational(q) && q.len() >= 3 && !(q[1].0 == 0 && q[1].1 != 0)
}

/// `m` came out of the neutral colour `q`: green over each of its channels.
pub open spec fn are_multipliers<T: Sample>(q: Seq<(u32, u32)>, m: [T; 4]) -> bool {
    &&& is_one(m[1])
    &&& m[2] == m[1]
    &&& exists|red: T, green: T, blue: T|
        is_ratio(q[0].0 as i64, q[0].1 as i64, red) && is_ratio(
            q[1].0 as i64,
            q[1].1 as i64,
            green,
        ) && is_ratio(q[2].0 as i64, q[2].1 as i64, blue) && #[trigger] is_quotient(green, red, m[0])
            && #[trigger] is_quotient(green, blue, m[3])
}

/// `wb` came out of the value `v` of a neutral colour, if there is one.
pub open spec fn is_white_balance<T: Sample>(v: Option<ValueModel>, wb: Option<[T; 4]>) -> bool {
    match (v, wb) {
        (Some(value), Some(m)) => has_multipliers(value) && (value matches ValueModel::Rational(q)
            && are_multipliers(q, m)),
        (Some(value), None) => !has_multipliers(value),
        (None, Some(_)) => false,
        (None, None) => true,
    }
}

/// Can a colour matrix be had from this value?
pub open spec fn has_matrix(v: ValueModel) -> bool {
    v matches ValueModel::SRational(q) && q.len() >= 9
}

/// `matrix` holds the first nine rationals of `v`, row by row.
pub open spec fn is_color_matrix<T: Sample>(
    v: Option<ValueModel>,
    matrix: Option<[[T; 3]; 3]>,
) -> bool {
    match (v, matrix) {
        (Some(value), Some(m)) => has_matrix(value) && (value matches ValueModel::SRational(q)
            && forall|i: int, j: int|
            0 <= i < 3 && 0 <= j < 3 ==> is_ratio(
                q[3 * i + j].0 as i64,
                q[3 * i + j].1 as i64,
                #[trigger] m[i][j],
            )),
        (Some(value), None) => !has_matrix(value),
        (None, Some(_)) => false,
        (None, None) => true,
    }
}

/// `t` is the first rational of `v`, if it holds any.
pub open spec fn is_exposure_time<T: Sample>(v: Option<ValueModel>, t: Option<T>) -> bool {
    match (v, t) {
        (Some(ValueModel::Rational(q)), Some(x)) => q.len() > 0 && is_ratio(
            q[0].0 as i64,
            q[0].1 as i64,
            x,
        ),
        (Some(ValueModel::Rational(q)), None) => q.len() == 0,
        (_, Some(_)) => false,
        (_, None) => true,
    }
}

/// The first number that a field of short or long integers holds.
pub open spec fn iso_of(v: Option<ValueModel>) -> Option<u32> {
    match v {
        Some(ValueModel::Short(n)) => if n.len() > 0 {
            Some(n[0] as u32)
        } else {
            None
        },
        Some(ValueModel::Long(n)) => if n.len() > 0 {
            Some(n[0])
        } else {
            None
        },
        _ => None,
    }
}

/// `m` came out of the fields of a file and of the values that its primary
/// image has for the exposure time, the sensitivity and the speed.
pub open spec fn is_assembled<T: Sample>(
    contents: Seq<FieldModel>,
    exposure: Option<ValueModel>,
    sensitivity: Option<ValueModel>,
    speed: Option<ValueModel>,
    m: DngMetadata<T>,
) -> bool {
    &&& exists|v: Option<ValueModel>|
        #[trigger] is_first_value(contents, AS_SHOT_NEUTRAL, v) && is_white_balance(v, m.wb_coeffs)
    &&& exists|v: Option<ValueModel>|
        #[trigger] is_first_value(contents, COLOR_MATRIX_1, v) && is_color_matrix(
            v,
            m.color_matrix,
        )
    &&& is_exposure_time(exposure, m.exposure_time)
    &&& m.iso == iso_of(
        if sensitivity is Some {
            sensitivity
        } else {
            speed
        },
    )
}

/// `m` came out of the fields of a file.
pub open spec fn is_metadata<T: Sample>(contents: Seq<FieldModel>, m: DngMetadata<T>) -> bool {
    exists|
        exposure: Option<ValueModel>,
        sensitivity: Option<ValueModel>,
        speed: Option<ValueModel>,
    |
        {
            &&& #[trigger] is_primary_value(contents, EXPOSURE_TIME, exposure)
            &&& #[trigger] is_primary_value(contents, PHOTOGRAPHIC_SENSITIVITY, sensitivity)
            &&& #[trigger] is_primary_value(contents, ISO_SPEED, speed)
            &&& is_assembled(contents, exposure, sensitivity, speed, m)
        }
}

/// The view of a borrowed value that may be absent.
pub open spec fn optional_ref_view(v: Option<&FieldValue>) -> Option<ValueModel> {
    match v {
        Some(value) => Some(value@),
        None => None,
    }
}

/// The value of the first field with that number.
pub fn find_tag(fields: &Vec<ExifField>, number: u16) -> (v: Option<&FieldValue>)
    ensures
        is_first_value(field_models(fields@), number, optional_ref_view(v)),
{
    let ghost contents = field_models(fields@);
    let mut i: usize = 0;
    while i < fields.len()
        invariant
            i <= fields@.len(),
            contents == field_models(fields@),
            forall|j: int| 0 <= j < i ==> (#[trigger] contents[j]).number != number,
        decreases fields.len() - i,
    {
        if fields[i].number == number {
            assert(contents[i as int] == fields@[i as int]@);
            return Some(&fields[i].value);
        }
        assert(contents[i as int] == fields@[i as int]@);
        i = i + 1;
    }
    None
}

/// White balance multipliers from the colour that a neutral surface has.
pub fn read_as_shot_neutral<T: Sample>(v: Option<&FieldValue>) -> (wb: Option<[T; 4]>)
    ensures
        is_white_balance(optional_ref_view(v), wb),
{
    match v {
        Some(FieldValue::Rational(q)) => {
            if q.len() < 3 {
                return None;
            }
            // A zero over a zero is not zero.
            if q[1].0 == 0 && q[1].1 != 0 {
                return None;
            }
            let red: T = T::ratio(q[0].0 as i64, q[0].1 as i64);
            let green: T = T::ratio(q[1].0 as i64, q[1].1 as i64);
            let blue: T = T::ratio(q[2].0 as i64, q[2].1 as i64);
            let one: T = T::ratio(1, 1);
            let r_mult = green.over(red);
            let b_mult = green.over(blue);
            let wb = [r_mult, one, one, b_mult];
            assert(are_multipliers(q@, wb));
            Some(wb)
        },
        _ => None,
    }
}

/// The colour matrix from its nine rationals.
pub fn read_color_matrix<T: Sample>(v: Option<&FieldValue>) -> (m: Option<[[T; 3]; 3]>)
    ensures
        is_color_matrix(optional_ref_view(v), m),
{
    match v {
        Some(FieldValue::SRational(q)) => {
            if q.len() < 9 {
                return None;
            }
            Some(
                [
                    [
                        T::ratio(q[0].0 as i64, q[0].1 as i64),
                        T::ratio(q[1].0 as i64, q[1].1 as i64),
                        T::ratio(q[2].0 as i64, q[2].1 as i64),
                    ],
                    [
                        T::ratio(q[3].0 as i64, q[3].1 as i64),
                        T::ratio(q[4].0 as i64, q[4].1 as i64),
                        T::ratio(q[5].0 as i64, q[5].1 as i64),
                    ],
                    [
                        T::ratio(q[6].0 as i64, q[6].1 as i64),
                        T::ratio(q[7].0 as i64, q[7].1 as i64),
                        T::ratio(q[8].0 as i64, q[8].1 as i64),
                    ],
                ],
            )
        },
        _ => None,
    }
}

/// The exposure time in seconds.
pub fn read_exposure_time<T: Sample>(v: Option<&FieldValue>) -> (t: Option<T>)
    ensures
        is_exposure_time(optional_ref_view(v), t),
{
    match v {
        Some(FieldValue::Rational(q)) => {
            if q.len() == 0 {
                None
            } else {
                Some(T::ratio(q[0].0 as i64, q[0].1 as i64))
            }
        },
        _ => None,
    }
}

/// The ISO sensitivity, from the two fields that may hold it.
pub fn read_iso(sensitivity: Option<&FieldValue>, speed: Option<&FieldValue>) -> (iso: Option<u32>)
    ensures
        iso == iso_of(
            if sensitivity is Some {
                optional_ref_view(sensitivity)
            } else {
                optional_ref_view(speed)
            },
        ),
{
    let field = match sensitivity {
        Some(v) => Some(v),
        None => speed,
    };
    match field {
        Some(FieldValue::Short(n)) => {
            if n.len() > 0 {
                Some(n[0] as u32)
            } else {
                None
            }
        },
        Some(FieldValue::Long(n)) => {
            if n.len() > 0 {
                Some(n[0])
            } else {
                None
            }
        },
        _ => None,
    }
}

impl<T> DngMetadata<T> {
    /// The metadata of a file that says nothing.
    pub fn missing() -> (m: DngMetadata<T>)
        ensures
            m.wb_coeffs is None,
            m.color_matrix is None,
            m.exposure_time is None,
            m.iso is None,
    {
        DngMetadata { wb_coeffs: None, color_matrix: None, exposure_time: None, iso: None }
    }
}

/// Puts the metadata together from the fields of a file and from the values
/// that its primary image has for the exposure time, the sensitivity and the
/// speed.
pub fn assemble_metadata<T: Sample>(
    fields: &Vec<ExifField>,
    exposure: Option<&FieldValue>,
    sensitivity: Option<&FieldValue>,
    speed: Option<&FieldValue>,
) -> (m: DngMetadata<T>)
    ensures
        is_assembled(
            field_models(fields@),
            optional_ref_view(exposure),
            optional_ref_view(sensitivity),
            optional_ref_view(speed),
            m,
        ),
{
    let neutral = find_tag(fields, AS_SHOT_NEUTRAL);
    let matrix = find_tag(fields, COLOR_MATRIX_1);
    DngMetadata {
        wb_coeffs: read_as_shot_neutral(neutral),
        color_matrix: read_color_matrix(matrix),
        exposure_time: read_exposure_time(exposure),
        iso: read_iso(sensitivity, speed),
    }
}

/// Reads the metadata out of the bytes of a raw file.
pub fn read_dng_metadata<T: Sample>(bytes: &Vec<u8>) -> (r: Result<DngMetadata<T>, MetadataError>)
    ensures
        match exif_reading(bytes@) {
            Ok(contents) => r matches Ok(m) && is_metadata(contents, m),
            Err(message) => r matches Err(MetadataError::Unreadable(text)) && text@ == message,
        },
{
    let block = match read_exif(bytes) {
        Ok(block) => block,
        Err(message) => {
            return Err(MetadataError::Unreadable(message));
        },
    };
    let fields = all_fields(&block);
    let exposure = primary_value(&block, EXPOSURE_TIME);
    let sensitivity = primary_value(&block, PHOTOGRAPHIC_SENSITIVITY);
    let speed = primary_value(&block, ISO_SPEED);
    let m = assemble_metadata(&fields, exposure.as_ref(), sensitivity.as_ref(), speed.as_ref());
    assert(is_primary_value(exif_contents(block), EXPOSURE_TIME, optional_view(exposure)));
    Ok(m)
}

/// The metadata to go on with, whatever came out of reading them: those of a file
/// that says nothing where there are none, and then the text that says why.
pub fn metadata_or_missing<T: Sample>(r: Result<DngMetadata<T>, MetadataError>) -> (m: (
    DngMetadata<T>,
    Option<String>,
))
    ensures
        match r {
            Ok(found) => m.0 == found && m.1 is None,
            Err(MetadataError::Unreadable(text)) => {
                &&& m.0.wb_coeffs is None
                &&& m.0.color_matrix is None
                &&& m.0.exposure_time is None
                &&& m.0.iso is None
                &&& m.1 == Some(text)
            },
        },
{
    match r {
        Ok(found) => (found, None),
        Err(MetadataError::Unreadable(text)) => (DngMetadata::missing(), Some(text)),
    }
}

} // verus!
