//! The EXIF fields of a picture that the tool looks at, as plain values.
use crate::text::text_view;
use exif::{Context, In, Reader, Tag, Value};
use std::io::Cursor;
use vstd::prelude::*;

verus! {

/// The group that a tag belongs to.
#[derive(Debug, Clone, Copy, PartialEq, Eq, Structural)]
pub enum TagGroup {
    Tiff,
    Exif,
}

/// The value of a field.
#[derive(Debug, Clone, PartialEq, Eq)]
pub enum FieldValue {
    /// Texts, as bytes.
    Ascii(Vec<Vec<u8>>),
    /// Bytes of no stated meaning, and where they start in the TIFF data.
    Undefined(Vec<u8>, u32),
    /// Anything else, with its first number where it is made of unsigned integers.
    Other(Option<u32>),
}

/// The value of a field that holds numbers.
#[derive(Debug, Clone, PartialEq, Eq)]
pub enum FieldNumber {
    /// Numerators and denominators.
    Rational(Vec<(u32, u32)>),
    /// Numerators and denominators.
    SRational(Vec<(i32, i32)>),
    /// Anything else, with its first number where it is made of unsigned integers.
    Other(Option<u32>),
}

/// A field's value as sequences.
pub enum FieldView {
    Ascii(Seq<Seq<u8>>),
    Undefined(Seq<u8>, u32),
    Other(Option<u32>),
}

/// A number field's value as sequences.
pub enum NumberView {
    Rational(Seq<(u32, u32)>),
    SRational(Seq<(i32, i32)>),
    Other(Option<u32>),
}

impl View for FieldValue {
    type V = FieldView;

    open spec fn view(&self) -> FieldView {
        match self {
            FieldValue::Ascii(v) => FieldView::Ascii(v@.map_values(|b: Vec<u8>| b@)),
            FieldValue::Undefined(v, at) => FieldView::Undefined(v@, *at),
            FieldValue::Other(n) => FieldView::Other(*n),
        }
    }
}

impl View for FieldNumber {
    type V = NumberView;

    open spec fn view(&self) -> NumberView {
        match self {
            FieldNumber::Rational(v) => NumberView::Rational(v@),
            FieldNumber::SRational(v) => NumberView::SRational(v@),
            FieldNumber::Other(n) => NumberView::Other(*n),
        }
    }
}

/// The field of the primary image with the given tag in the EXIF data of the file `bytes`.
pub uninterp spec fn exif_field(bytes: Seq<u8>, group: TagGroup, number: u16) -> Option<FieldView>;

/// The number field of the primary image with the given tag of the Exif group.
pub uninterp spec fn exif_number(bytes: Seq<u8>, number: u16) -> Option<NumberView>;

/// How the field of the primary image with the given tag of the TIFF group is displayed.
pub uninterp spec fn exif_shown(bytes: Seq<u8>, number: u16) -> Option<Seq<char>>;

/// The TIFF data of the file `bytes`, and whether it is little-endian.
pub uninterp spec fn exif_tiff(bytes: Seq<u8>) -> Option<(Seq<u8>, bool)>;

/// `exif::Reader::read_from_container`, `Exif::buf` and `Exif::little_endian`: the TIFF data that
/// the file holds and its byte order, or nothing where no EXIF data could be read. Parsing looks at
/// the file's bytes alone.
#[verifier::external_body]
fn read_tiff(bytes: &[u8]) -> (r: Option<(Vec<u8>, bool)>)
    ensures
        match r {
            Some((buf, le)) => exif_tiff(bytes@) == Some((buf@, le)),
            None => exif_tiff(bytes@) is None,
        },
{
    let exif = Reader::new().read_from_container(&mut Cursor::new(bytes)).ok()?;
    Some((exif.buf().to_vec(), exif.little_endian()))
}

/// `Exif::get_field` and `Value::get_uint`: the value of the primary image's field with the given
/// tag, or nothing where there is no such field or no EXIF data. It depends on the file's bytes and
/// the tag alone.
#[verifier::external_body]
pub(crate) fn read_field(bytes: &[u8], group: TagGroup, number: u16) -> (r: Option<FieldValue>)
    ensures
        match r {
            Some(v) => exif_field(bytes@, group, number) == Some(v@),
            None => exif_field(bytes@, group, number) is None,
        },
{
    let exif = Reader::new().read_from_container(&mut Cursor::new(bytes)).ok()?;
    let context = match group {
        TagGroup::Tiff => Context::Tiff,
        TagGroup::Exif => Context::Exif,
    };
    Some(match &exif.get_field(Tag(context, number), In::PRIMARY)?.value {
        Value::Ascii(v) => FieldValue::Ascii(v.clone()),
        Value::Undefined(v, at) => FieldValue::Undefined(v.clone(), *at),
        v => FieldValue::Other(v.get_uint(0)),
    })
}

/// `Exif::get_field` and `Value::get_uint` for a field of numbers of the Exif group: the value of the
/// primary image's field with the given tag, or nothing where there is no such field or no EXIF
/// data. It depends on the file's bytes and the tag alone.
#[verifier::external_body]
fn read_number(bytes: &[u8], number: u16) -> (r: Option<FieldNumber>)
    ensures
        match r {
            Some(v) => exif_number(bytes@, number) == Some(v@),
            None => exif_number(bytes@, number) is None,
        },
{
    let exif = Reader::new().read_from_container(&mut Cursor::new(bytes)).ok()?;
    Some(match &exif.get_field(Tag(Context::Exif, number), In::PRIMARY)?.value {
        Value::Rational(v) => FieldNumber::Rational(v.iter().map(|r| (r.num, r.denom)).collect()),
        Value::SRational(v) => FieldNumber::SRational(v.iter().map(|r| (r.num, r.denom)).collect()),
        v => FieldNumber::Other(v.get_uint(0)),
    })
}

/// `Field::display_value`: how the value of the primary image's field with the given tag of the
/// TIFF group is displayed, or nothing where there is no such field or no EXIF data. It depends on
/// the file's bytes and the tag alone.
#[verifier::external_body]
fn read_shown(bytes: &[u8], number: u16) -> (r: Option<String>)
    ensures
        match r {
            Some(s) => exif_shown(bytes@, number) == Some(s@),
            None => exif_shown(bytes@, number) is None,
        },
{
    let exif = Reader::new().read_from_container(&mut Cursor::new(bytes)).ok()?;
    let field = exif.get_field(Tag(Context::Tiff, number), In::PRIMARY)?;
    Some(field.display_value().to_string())
}

/// The tags that are looked at.
pub const MAKE: u16 = 0x10f;
pub const MODEL: u16 = 0x110;
pub const ORIENTATION: u16 = 0x112;
pub const EXPOSURE_TIME: u16 = 0x829a;
pub const F_NUMBER: u16 = 0x829d;
pub const SENSITIVITY: u16 = 0x8827;
pub const DATE_TIME_ORIGINAL: u16 = 0x9003;
pub const EXPOSURE_BIAS: u16 = 0x9204;
pub const FOCAL_LENGTH: u16 = 0x920a;
pub const MAKER_NOTE: u16 = 0x927c;
pub const FOCAL_LENGTH_35MM: u16 = 0xa405;
pub const LENS_MODEL: u16 = 0xa434;

/// What is read of a picture's EXIF data.
#[derive(Debug, Clone, PartialEq, Eq)]
pub struct ExifData {
    /// The TIFF data, which MakerNotes refer to.
    pub buf: Vec<u8>,
    pub little_endian: bool,
    pub make: Option<FieldValue>,
    /// The make as it is displayed, in quotes.
    pub make_shown: Option<String>,
    pub model: Option<FieldValue>,
    pub orientation: Option<FieldValue>,
    pub lens_model: Option<FieldValue>,
    pub taken: Option<FieldValue>,
    pub maker_note: Option<FieldValue>,
    pub focal_length: Option<FieldNumber>,
    pub focal_length_35mm: Option<FieldNumber>,
    pub f_number: Option<FieldNumber>,
    pub exposure_time: Option<FieldNumber>,
    pub sensitivity: Option<FieldNumber>,
    pub exposure_bias: Option<FieldNumber>,
}

/// EXIF data as sequences.
pub struct ExifView {
    pub buf: Seq<u8>,
    pub little_endian: bool,
    pub make: Option<FieldView>,
    pub make_shown: Option<Seq<char>>,
    pub model: Option<FieldView>,
    pub orientation: Option<FieldView>,
    pub lens_model: Option<FieldView>,
    pub taken: Option<FieldView>,
    pub maker_note: Option<FieldView>,
    pub focal_length: Option<NumberView>,
    pub focal_length_35mm: Option<NumberView>,
    pub f_number: Option<NumberView>,
    pub exposure_time: Option<NumberView>,
    pub sensitivity: Option<NumberView>,
    pub exposure_bias: Option<NumberView>,
}

pub open spec fn field_view(v: Option<FieldValue>) -> Option<FieldView> {
    match v {
        Some(f) => Some(f@),
        None => None,
    }
}

pub open spec fn number_view(v: Option<FieldNumber>) -> Option<NumberView> {
    match v {
        Some(f) => Some(f@),
        None => None,
    }
}

impl View for ExifData {
    type V = ExifView;

    open spec fn view(&self) -> ExifView {
        ExifView {
            buf: self.buf@,
            little_endian: self.little_endian,
            make: field_view(self.make),
            make_shown: text_view(self.make_shown),
            model: field_view(self.model),
            orientation: field_view(self.orientation),
            lens_model: field_view(self.lens_model),
            taken: field_view(self.taken),
            maker_note: field_view(self.maker_note),
            focal_length: number_view(self.focal_length),
            focal_length_35mm: number_view(self.focal_length_35mm),
            f_number: number_view(self.f_number),
            exposure_time: number_view(self.exposure_time),
            sensitivity: number_view(self.sensitivity),
            exposure_bias: number_view(self.exposure_bias),
        }
    }
}

/// The EXIF data in the file `bytes`.
pub open spec fn exif_of(bytes: Seq<u8>) -> Option<ExifView> {
    match exif_tiff(bytes) {
        None => None,
        Some((buf, little_endian)) => Some(
            ExifView {
                buf,
                little_endian,
                make: exif_field(bytes, TagGroup::Tiff, MAKE),
                make_shown: exif_shown(bytes, MAKE),
                model: exif_field(bytes, TagGroup::Tiff, MODEL),
                orientation: exif_field(bytes, TagGroup::Tiff, ORIENTATION),
                lens_model: exif_field(bytes, TagGroup::Exif, LENS_MODEL),
                taken: exif_field(bytes, TagGroup::Exif, DATE_TIME_ORIGINAL),
                maker_note: exif_field(bytes, TagGroup::Exif, MAKER_NOTE),
                focal_length: exif_number(bytes, FOCAL_LENGTH),
                focal_length_35mm: exif_number(bytes, FOCAL_LENGTH_35MM),
                f_number: exif_number(bytes, F_NUMBER),
                exposure_time: exif_number(bytes, EXPOSURE_TIME),
                sensitivity: exif_number(bytes, SENSITIVITY),
                exposure_bias: exif_number(bytes, EXPOSURE_BIAS),
            },
        ),
    }
}

/// The EXIF orientation: 1 to 8, and 1 where none is recorded.
pub open spec fn orientation_of(exif: Option<ExifView>) -> u32 {
    match exif {
        Some(e) => match e.orientation {
            Some(FieldView::Other(Some(o))) => if 1 <= o <= 8 {
                o
            } else {
                1
            },
            _ => 1,
        },
        None => 1,
    }
}

pub open spec fn exif_view(exif: Option<ExifData>) -> Option<ExifView> {
    match exif {
        Some(e) => Some(e@),
        None => None,
    }
}

impl ExifData {
    /// Reads the EXIF data of a picture file. None where there is none, or it is damaged.
    pub fn read(bytes: &[u8]) -> (r: Option<ExifData>)
        ensures
            exif_view(r) == exif_of(bytes@),
    {
        match read_tiff(bytes) {
            None => None,
            Some((buf, little_endian)) => Some(
                ExifData {
                    buf,
                    little_endian,
                    make: read_field(bytes, TagGroup::Tiff, MAKE),
                    make_shown: read_shown(bytes, MAKE),
                    model: read_field(bytes, TagGroup::Tiff, MODEL),
                    orientation: read_field(bytes, TagGroup::Tiff, ORIENTATION),
                    lens_model: read_field(bytes, TagGroup::Exif, LENS_MODEL),
                    taken: read_field(bytes, TagGroup::Exif, DATE_TIME_ORIGINAL),
                    maker_note: read_field(bytes, TagGroup::Exif, MAKER_NOTE),
                    focal_length: read_number(bytes, FOCAL_LENGTH),
                    focal_length_35mm: read_number(bytes, FOCAL_LENGTH_35MM),
                    f_number: read_number(bytes, F_NUMBER),
                    exposure_time: read_number(bytes, EXPOSURE_TIME),
                    sensitivity: read_number(bytes, SENSITIVITY),
                    exposure_bias: read_number(bytes, EXPOSURE_BIAS),
                },
            ),
        }
    }
}

/// The EXIF orientation: 1 to 8, and 1 where none is recorded.
pub fn orientation(exif: &Option<ExifData>) -> (r: u32)
    ensures
        r == orientation_of(exif_view(*exif)),
        1 <= r <= 8,
{
    match exif {
        Some(e) => match &e.orientation {
            Some(FieldValue::Other(Some(o))) => {
                let o: u32 = *o;
                if 1 <= o && o <= 8 {
                    o
                } else {
                    1
                }
            },
            _ => 1,
        },
        None => 1,
    }
}

/// No recorded orientation is dropped: a picture whose Orientation field holds a number from 1
/// through 8 has that orientation. Any other number, anything that is no unsigned number, and a
/// missing field or missing EXIF data count as 1.
pub proof fn law_recorded_orientation_counts(exif: ExifView, o: u32)
    ensures
        exif.orientation == Some(FieldView::Other(Some(o))) ==> {
            &&& (o == 1 || o == 2 || o == 3 || o == 4 || o == 5 || o == 6 || o == 7 || o == 8)
                ==> orientation_of(Some(exif)) == o
            &&& (o == 0 || o > 8) ==> orientation_of(Some(exif)) == 1
        },
        !(exif.orientation matches Some(FieldView::Other(Some(_)))) ==> orientation_of(Some(exif))
            == 1,
        orientation_of(None) == 1,
{
}

/// Every field is read from its own tag, by the numbers that EXIF gives to make, model, orientation,
/// lens, date, MakerNote and the settings.
pub proof fn law_fields_have_their_own_tags(bytes: Seq<u8>)
    ensures
        exif_of(bytes) is Some <==> exif_tiff(bytes) is Some,
        exif_of(bytes) matches Some(e) ==> {
            &&& exif_tiff(bytes) == Some((e.buf, e.little_endian))
            &&& e.make_shown == exif_shown(bytes, 0x10f)
            &&& e.make == exif_field(bytes, TagGroup::Tiff, 0x10f)
            &&& e.model == exif_field(bytes, TagGroup::Tiff, 0x110)
            &&& e.orientation == exif_field(bytes, TagGroup::Tiff, 0x112)
            &&& e.lens_model == exif_field(bytes, TagGroup::Exif, 0xa434)
            &&& e.taken == exif_field(bytes, TagGroup::Exif, 0x9003)
            &&& e.maker_note == exif_field(bytes, TagGroup::Exif, 0x927c)
            &&& e.focal_length == exif_number(bytes, 0x920a)
            &&& e.focal_length_35mm == exif_number(bytes, 0xa405)
            &&& e.f_number == exif_number(bytes, 0x829d)
            &&& e.exposure_time == exif_number(bytes, 0x829a)
            &&& e.sensitivity == exif_number(bytes, 0x8827)
            &&& e.exposure_bias == exif_number(bytes, 0x9204)
        },
{
}

/// EXIF data shows each of its fields as what it holds.
pub proof fn law_fields_are_shown_as_held(e: ExifData)
    ensures
        e@.buf == e.buf@,
        e@.little_endian == e.little_endian,
        e@.make == field_view(e.make),
        e@.make_shown == text_view(e.make_shown),
        e@.model == field_view(e.model),
        e@.orientation == field_view(e.orientation),
        e@.lens_model == field_view(e.lens_model),
        e@.taken == field_view(e.taken),
        e@.maker_note == field_view(e.maker_note),
        e@.focal_length == number_view(e.focal_length),
        e@.focal_length_35mm == number_view(e.focal_length_35mm),
        e@.f_number == number_view(e.f_number),
        e@.exposure_time == number_view(e.exposure_time),
        e@.sensitivity == number_view(e.sensitivity),
        e@.exposure_bias == number_view(e.exposure_bias),
{
}

} // verus!
