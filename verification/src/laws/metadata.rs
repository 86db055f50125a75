//! Laws of the metadata of a raw file.
use crate::exact::is_exact;
use crate::exact::lemma_commute;
use crate::exact::lemma_regroup;
use crate::metadata::are_multipliers;
use crate::metadata::is_assembled;
use crate::metadata::is_color_matrix;
use crate::metadata::is_first_value;
use crate::metadata::is_metadata;
use crate::metadata::is_primary_value;
use crate::metadata::is_white_balance;
use crate::metadata::DngMetadata;
use crate::metadata::FieldModel;
use crate::metadata::ValueModel;
use crate::sample::is_quotient;
use crate::sample::is_ratio;
use crate::sample::Sample;
use vstd::prelude::*;

verus! {

/// The field at `k` is the first with its number.
pub open spec fn is_first_of_its_number(contents: Seq<FieldModel>, k: int) -> bool {
    0 <= k < contents.len() && forall|j: int|
        0 <= j < k ==> (#[trigger] contents[j]).number != contents[k].number
}

/// No field has that number.
pub open spec fn has_no_field(contents: Seq<FieldModel>, number: u16) -> bool {
    forall|j: int| 0 <= j < contents.len() ==> (#[trigger] contents[j]).number != number
}

/// The field at `k` is the last one of the primary image's Exif directory that
/// has its number.
pub open spec fn is_last_of_primary(contents: Seq<FieldModel>, k: int) -> bool {
    &&& 0 <= k < contents.len()
    &&& contents[k].in_exif
    &&& contents[k].image == 0
    &&& forall|j: int|
        k < j < contents.len() ==> !((#[trigger] contents[j]).in_exif && contents[j].image == 0
            && contents[j].number == contents[k].number)
}

/// The primary image's Exif directory has no field with that number.
pub open spec fn has_no_primary_field(contents: Seq<FieldModel>, number: u16) -> bool {
    forall|j: int|
        0 <= j < contents.len() ==> !((#[trigger] contents[j]).in_exif && contents[j].image == 0
            && contents[j].number == number)
}

/// A multiplier, in terms of the rationals of the neutral colour.
proof fn lemma_multiplier(m: real, x: real, green: real, xn: real, xd: real, gn: real, gd: real)
    requires
        m * x == green,
        x * xd == xn,
        green * gd == gn,
    ensures
        (m * xn) * gd == gn * xd,
{
    lemma_regroup(m, x, xd);
    assert(m * xn == green * xd);
    lemma_commute(green, xd);
    lemma_regroup(xd, green, gd);
    lemma_commute(xd, gn);
}

/// A surface that the file calls neutral comes out grey: the multiplier of red
/// and that of blue turn the neutral colour's value into its green, and the
/// greens stay as they are. The neutral colour is the first field with the tag
/// `0xC628`.
pub proof fn neutral_colours_come_out_grey<T: Sample>(
    value: spec_fn(T) -> real,
    contents: Seq<FieldModel>,
    m: DngMetadata<T>,
    k: int,
    q: Seq<(u32, u32)>,
)
    requires
        is_exact(value),
        is_metadata(contents, m),
        is_first_of_its_number(contents, k),
        contents[k].number == 0xC628,
        contents[k].value == ValueModel::Rational(q),
        q.len() >= 3,
        forall|i: int| 0 <= i < 3 ==> (#[trigger] q[i]).0 != 0 && q[i].1 != 0,
    ensures
        m.wb_coeffs matches Some(wb) && {
            &&& (value(wb[0]) * (q[0].0 as real)) * (q[1].1 as real) == (q[1].0 as real) * (
            q[0].1 as real)
            &&& value(wb[1]) == 1real
            &&& value(wb[2]) == 1real
            &&& (value(wb[3]) * (q[2].0 as real)) * (q[1].1 as real) == (q[1].0 as real) * (
            q[2].1 as real)
        },
{
    lemma_is_assembled(contents, m);
    let v = choose|v: Option<ValueModel>|
        #[trigger] is_first_value(contents, 0xC628, v) && is_white_balance(v, m.wb_coeffs);
    lemma_first_value(contents, k, v);
    assert(q[0].0 != 0 && q[1].0 != 0 && q[2].0 != 0);
    let wb = m.wb_coeffs->0;
    assert(are_multipliers(q, wb));
    let (red, green, blue) = choose|red: T, green: T, blue: T|
        is_ratio(q[0].0 as i64, q[0].1 as i64, red) && is_ratio(
            q[1].0 as i64,
            q[1].1 as i64,
            green,
        ) && is_ratio(q[2].0 as i64, q[2].1 as i64, blue) && #[trigger] is_quotient(
            green,
            red,
            wb[0],
        ) && #[trigger] is_quotient(green, blue, wb[3]);
    lemma_ratio_value(value, q[0].0, q[0].1, red);
    lemma_ratio_value(value, q[1].0, q[1].1, green);
    lemma_ratio_value(value, q[2].0, q[2].1, blue);
    assert(value(wb[1]) * 1real == 1real);
    lemma_multiplier(
        value(wb[0]),
        value(red),
        value(green),
        q[0].0 as real,
        q[0].1 as real,
        q[1].0 as real,
        q[1].1 as real,
    );
    lemma_multiplier(
        value(wb[3]),
        value(blue),
        value(green),
        q[2].0 as real,
        q[2].1 as real,
        q[1].0 as real,
        q[1].1 as real,
    );
}

/// A fraction with a numerator other than zero is not zero.
proof fn lemma_ratio_value<T: Sample>(value: spec_fn(T) -> real, num: u32, den: u32, r: T)
    requires
        is_exact(value),
        num != 0,
        den != 0,
        is_ratio(num as i64, den as i64, r),
    ensures
        value(r) * (den as real) == num as real,
        value(r) != 0real,
{
    let n = num as i64;
    let d = den as i64;
    assert(is_ratio(n, d, r));
    assert(value(r) * (d as real) == n as real);
    if value(r) == 0real {
        assert(0real * (d as real) == 0real);
    }
}

proof fn lemma_is_assembled<T: Sample>(contents: Seq<FieldModel>, m: DngMetadata<T>) -> (v: (
    Option<ValueModel>,
    Option<ValueModel>,
    Option<ValueModel>,
))
    requires
        is_metadata(contents, m),
    ensures
        is_primary_value(contents, 0x829A, v.0),
        is_primary_value(contents, 0x8827, v.1),
        is_primary_value(contents, 0x8833, v.2),
        is_assembled(contents, v.0, v.1, v.2, m),
{
    choose|
        exposure: Option<ValueModel>,
        sensitivity: Option<ValueModel>,
        speed: Option<ValueModel>,
    |
        is_primary_value(contents, 0x829A, exposure) && is_primary_value(
            contents,
            0x8827,
            sensitivity,
        ) && is_primary_value(contents, 0x8833, speed) && #[trigger] is_assembled(
            contents,
            exposure,
            sensitivity,
            speed,
            m,
        )
}

proof fn lemma_first_value(contents: Seq<FieldModel>, k: int, v: Option<ValueModel>)
    requires
        is_first_of_its_number(contents, k),
        is_first_value(contents, contents[k].number, v),
    ensures
        v == Some(contents[k].value),
{
    let number = contents[k].number;
    match v {
        None => {
            assert(contents[k].number != number);
        },
        Some(value) => {
            let i = choose|i: int|
                0 <= i < contents.len() && (#[trigger] contents[i]).number == number
                    && contents[i].value == value && forall|j: int|
                    0 <= j < i ==> (#[trigger] contents[j]).number != number;
            if i < k {
                assert(contents[i].number != number);
            } else if k < i {
                assert(contents[k].number != number);
            }
        },
    }
}

proof fn lemma_primary_value(contents: Seq<FieldModel>, k: int, v: Option<ValueModel>)
    requires
        is_last_of_primary(contents, k),
        is_primary_value(contents, contents[k].number, v),
    ensures
        v == Some(contents[k].value),
{
    let number = contents[k].number;
    match v {
        None => {
            assert(crate::metadata::is_primary(contents[k], number));
        },
        Some(value) => {
            let i = choose|i: int|
                0 <= i < contents.len() && crate::metadata::is_primary(#[trigger] contents[i], number)
                    && contents[i].value == value && forall|j: int|
                    i < j < contents.len() ==> !crate::metadata::is_primary(
                        #[trigger] contents[j],
                        number,
                    );
            if i < k {
                assert(!crate::metadata::is_primary(contents[k], number));
            } else if k < i {
                assert(!(contents[i].in_exif && contents[i].image == 0 && contents[i].number
                    == number));
            }
        },
    }
}

/// There are multipliers exactly where the first field with the tag `0xC628`
/// holds three rationals of which that for green is not zero.
pub proof fn multipliers_take_a_neutral_colour<T: Sample>(
    contents: Seq<FieldModel>,
    m: DngMetadata<T>,
)
    requires
        is_metadata(contents, m),
    ensures
        has_no_field(contents, 0xC628) ==> m.wb_coeffs is None,
        forall|k: int|
            #![trigger contents[k]]
            is_first_of_its_number(contents, k) && contents[k].number == 0xC628 ==> (
            m.wb_coeffs is Some <==> (contents[k].value matches ValueModel::Rational(q) && q.len()
                >= 3 && (q[1].0 != 0 || q[1].1 == 0))),
{
    lemma_is_assembled(contents, m);
    let v = choose|v: Option<ValueModel>|
        #[trigger] is_first_value(contents, 0xC628, v) && is_white_balance(v, m.wb_coeffs);
    assert forall|k: int|
        #![trigger contents[k]]
        is_first_of_its_number(contents, k) && contents[k].number == 0xC628 implies (
    m.wb_coeffs is Some <==> (contents[k].value matches ValueModel::Rational(q) && q.len() >= 3 && (
    q[1].0 != 0 || q[1].1 == 0))) by {
        lemma_first_value(contents, k, v);
    }
}

/// The colour matrix holds the first nine rationals of the first field with the
/// tag `0xC621`, row by row, and there is one exactly where that field holds as
/// many.
pub proof fn matrices_are_read_row_by_row<T: Sample>(
    value: spec_fn(T) -> real,
    contents: Seq<FieldModel>,
    m: DngMetadata<T>,
    k: int,
)
    requires
        is_exact(value),
        is_metadata(contents, m),
        is_first_of_its_number(contents, k),
        contents[k].number == 0xC621,
    ensures
        m.color_matrix is Some <==> (contents[k].value matches ValueModel::SRational(q) && q.len()
            >= 9),
        contents[k].value matches ValueModel::SRational(q) ==> (m.color_matrix matches Some(matrix)
            ==> forall|i: int, j: int|
            0 <= i < 3 && 0 <= j < 3 && q[3 * i + j].1 != 0 ==> value(#[trigger] matrix[i][j]) * (
            q[3 * i + j].1 as real) == q[3 * i + j].0 as real),
{
    lemma_is_assembled(contents, m);
    let v = choose|v: Option<ValueModel>|
        #[trigger] is_first_value(contents, 0xC621, v) && is_color_matrix(v, m.color_matrix);
    lemma_first_value(contents, k, v);
    if let ValueModel::SRational(q) = contents[k].value {
        if let Some(matrix) = m.color_matrix {
            assert forall|i: int, j: int|
                0 <= i < 3 && 0 <= j < 3 && q[3 * i + j].1 != 0 implies value(
                #[trigger] matrix[i][j],
            ) * (q[3 * i + j].1 as real) == q[3 * i + j].0 as real by {
                let n = q[3 * i + j].0 as i64;
                let d = q[3 * i + j].1 as i64;
                assert(is_ratio(n, d, matrix[i][j]));
                assert(value(matrix[i][j]) * (d as real) == n as real);
            }
        }
    }
}

/// Without a field with the tag `0xC621` there is no colour matrix, and without
/// one with the tag `0x829A` in the primary image no exposure time.
pub proof fn nothing_comes_of_nothing<T: Sample>(contents: Seq<FieldModel>, m: DngMetadata<T>)
    requires
        is_metadata(contents, m),
    ensures
        has_no_field(contents, 0xC621) ==> m.color_matrix is None,
        has_no_primary_field(contents, 0x829A) ==> m.exposure_time is None,
        has_no_primary_field(contents, 0x8827) && has_no_primary_field(contents, 0x8833)
            ==> m.iso is None,
{
    let v = lemma_is_assembled(contents, m);
    assert(v.0 is Some && has_no_primary_field(contents, 0x829A) ==> false);
    assert(v.1 is Some && has_no_primary_field(contents, 0x8827) ==> false);
    assert(v.2 is Some && has_no_primary_field(contents, 0x8833) ==> false);
}

/// The exposure time is the first rational of the primary image's last field
/// with the tag `0x829A`.
pub proof fn exposure_times_are_rationals<T: Sample>(
    value: spec_fn(T) -> real,
    contents: Seq<FieldModel>,
    m: DngMetadata<T>,
    k: int,
)
    requires
        is_exact(value),
        is_metadata(contents, m),
        is_last_of_primary(contents, k),
        contents[k].number == 0x829A,
    ensures
        m.exposure_time is Some <==> (contents[k].value matches ValueModel::Rational(q) && q.len()
            > 0),
        contents[k].value matches ValueModel::Rational(q) ==> (m.exposure_time matches Some(t)
            ==> q[0].1 != 0 ==> value(t) * (q[0].1 as real) == q[0].0 as real),
{
    let v = lemma_is_assembled(contents, m);
    lemma_primary_value(contents, k, v.0);
    if let ValueModel::Rational(q) = contents[k].value {
        if let Some(t) = m.exposure_time {
            if q[0].1 != 0 {
                let n = q[0].0 as i64;
                let d = q[0].1 as i64;
                assert(is_ratio(n, d, t));
                assert(value(t) * (d as real) == n as real);
            }
        }
    }
}

/// The sensitivity is the first whole number of the primary image's last field
/// with the tag `0x8827`, and only where there is none, of that with the tag
/// `0x8833`.
pub proof fn sensitivity_comes_before_speed<T: Sample>(
    contents: Seq<FieldModel>,
    m: DngMetadata<T>,
    k: int,
)
    requires
        is_metadata(contents, m),
        is_last_of_primary(contents, k),
        contents[k].number == 0x8827 || contents[k].number == 0x8833 && has_no_primary_field(
            contents,
            0x8827,
        ),
    ensures
        match contents[k].value {
            ValueModel::Short(n) => if n.len() > 0 {
                m.iso matches Some(iso) && iso == n[0]
            } else {
                m.iso is None
            },
            ValueModel::Long(n) => if n.len() > 0 {
                m.iso == Some(n[0])
            } else {
                m.iso is None
            },
            _ => m.iso is None,
        },
{
    let v = lemma_is_assembled(contents, m);
    if contents[k].number == 0x8827 {
        lemma_primary_value(contents, k, v.1);
    } else {
        lemma_primary_value(contents, k, v.2);
        assert(v.1 is Some ==> false);
    }
}

} // verus!
