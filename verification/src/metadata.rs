//! Carries the original photo's EXIF (date, camera, lens, exposure, GPS) over to exports.
//!
//! Fields that describe the original file rather than the photo are dropped or rewritten:
//! orientation (exports are already upright), pixel size, colour space (exports are sRGB), the
//! embedded thumbnail and maker notes.

use crate::double::{
    divide, nearest_55, push_ratio, push_whole, ratio, ratio_text, reciprocal, tenths_text,
    whole_reciprocal, whole_text,
};
use crate::encode::{jpeg_carries, png_carries};
use crate::numeral::{decimal, parse_unsigned, push_decimal, unsigned};
use crate::text::{
    begins, chars_of, part, string_of, strip_start, stripped_start, text_eq, trim, trimmed, views,
};
use crate::unicode::{from_utf8_lossy, lossy_text, lowercase, lowercase_of};
use exif::experimental::Writer;
use exif::{Context, Field, In, Rational, Reader, SRational, Tag, Value};
use std::io::Cursor;
use vstd::prelude::*;
use vstd::string::*;
use vstd::utf8::encode_utf8;

verus! {

// ---------------------------------------------------------------------------------------------
// EXIF fields
// ---------------------------------------------------------------------------------------------

#[verifier::external_type_specification]
pub struct ExRational(exif::Rational);

#[verifier::external_type_specification]
pub struct ExSRational(exif::SRational);

#[verifier::external_type_specification]
pub struct ExValue(exif::Value);

#[verifier::external_type_specification]
pub struct ExContext(exif::Context);

#[verifier::external_type_specification]
pub struct ExTag(exif::Tag);

#[verifier::external_type_specification]
pub struct ExIn(exif::In);

#[verifier::external_type_specification]
pub struct ExField(exif::Field);

/// The directories of EXIF data.
pub const TIFF: u8 = 0;

pub const EXIF: u8 = 1;

pub const GPS: u8 = 2;

pub const INTEROP: u8 = 3;

/// A tag: its directory and its number.
pub type TagView = (u8, u16);

/// What a value holds, for the kinds of values that are read or made here.
pub enum ValueView {
    Byte(Seq<u8>),
    Ascii(Seq<Seq<u8>>),
    Short(Seq<u16>),
    Long(Seq<u32>),
    Rational(Seq<(u32, u32)>),
    SRational(Seq<(i32, i32)>),
    Undefined(Seq<u8>),
    Other(Value),
}

/// What a field holds.
pub struct FieldView {
    pub tag: TagView,
    pub ifd: u16,
    pub value: ValueView,
}

/// The directory that a context stands for.
pub open spec fn context_code(c: Context) -> u8 {
    match c {
        Context::Tiff => TIFF,
        Context::Exif => EXIF,
        Context::Gps => GPS,
        _ => INTEROP,
    }
}

/// What a value holds.
pub open spec fn value_view(v: Value) -> ValueView {
    match v {
        Value::Byte(b) => ValueView::Byte(b@),
        Value::Ascii(a) => ValueView::Ascii(a@.map_values(|s: Vec<u8>| s@)),
        Value::Short(n) => ValueView::Short(n@),
        Value::Long(n) => ValueView::Long(n@),
        Value::Rational(r) => ValueView::Rational(r@.map_values(|x: Rational| (x.num, x.denom))),
        Value::SRational(r) => ValueView::SRational(r@.map_values(|x: SRational| (x.num, x.denom))),
        Value::Undefined(b, _) => ValueView::Undefined(b@),
        other => ValueView::Other(other),
    }
}

/// What a field holds.
pub open spec fn field_view(f: Field) -> FieldView {
    FieldView {
        tag: (context_code(f.tag.0), f.tag.1),
        ifd: f.ifd_num.0,
        value: value_view(f.value),
    }
}

/// What a list of fields holds.
pub open spec fn fields_view(f: Seq<Field>) -> Seq<FieldView> {
    f.map_values(|x: Field| field_view(x))
}

pub const IMAGE_DESCRIPTION: TagView = (0, 0x10e);

pub const MAKE: TagView = (0, 0x10f);

pub const MODEL: TagView = (0, 0x110);

pub const ORIENTATION: TagView = (0, 0x112);

pub const X_RESOLUTION: TagView = (0, 0x11a);

pub const Y_RESOLUTION: TagView = (0, 0x11b);

pub const RESOLUTION_UNIT: TagView = (0, 0x128);

pub const SOFTWARE: TagView = (0, 0x131);

pub const DATE_TIME: TagView = (0, 0x132);

pub const ARTIST: TagView = (0, 0x13b);

pub const THUMBNAIL_OFFSET: TagView = (0, 0x201);

pub const THUMBNAIL_LENGTH: TagView = (0, 0x202);

pub const COPYRIGHT: TagView = (0, 0x8298);

pub const EXPOSURE_TIME: TagView = (1, 0x829a);

pub const F_NUMBER: TagView = (1, 0x829d);

pub const EXPOSURE_PROGRAM: TagView = (1, 0x8822);

pub const SENSITIVITY: TagView = (1, 0x8827);

pub const EXIF_VERSION: TagView = (1, 0x9000);

pub const DATE_TIME_ORIGINAL: TagView = (1, 0x9003);

pub const DATE_TIME_DIGITIZED: TagView = (1, 0x9004);

pub const OFFSET_TIME: TagView = (1, 0x9010);

pub const OFFSET_TIME_ORIGINAL: TagView = (1, 0x9011);

pub const OFFSET_TIME_DIGITIZED: TagView = (1, 0x9012);

pub const SHUTTER_SPEED: TagView = (1, 0x9201);

pub const APERTURE: TagView = (1, 0x9202);

pub const BRIGHTNESS: TagView = (1, 0x9203);

pub const EXPOSURE_BIAS: TagView = (1, 0x9204);

pub const MAX_APERTURE: TagView = (1, 0x9205);

pub const SUBJECT_DISTANCE: TagView = (1, 0x9206);

pub const METERING_MODE: TagView = (1, 0x9207);

pub const LIGHT_SOURCE: TagView = (1, 0x9208);

pub const FLASH: TagView = (1, 0x9209);

pub const FOCAL_LENGTH: TagView = (1, 0x920a);

pub const MAKER_NOTE: TagView = (1, 0x927c);

pub const SUB_SEC_TIME_ORIGINAL: TagView = (1, 0x9291);

pub const COLOR_SPACE: TagView = (1, 0xa001);

pub const PIXEL_X_DIMENSION: TagView = (1, 0xa002);

pub const PIXEL_Y_DIMENSION: TagView = (1, 0xa003);

pub const EXPOSURE_MODE: TagView = (1, 0xa402);

pub const WHITE_BALANCE: TagView = (1, 0xa403);

pub const FOCAL_LENGTH_35: TagView = (1, 0xa405);

pub const SCENE_CAPTURE_TYPE: TagView = (1, 0xa406);

pub const BODY_SERIAL_NUMBER: TagView = (1, 0xa431);

pub const LENS_SPECIFICATION: TagView = (1, 0xa432);

pub const LENS_MAKE: TagView = (1, 0xa433);

pub const LENS_MODEL: TagView = (1, 0xa434);

pub const LENS_SERIAL_NUMBER: TagView = (1, 0xa435);

pub const GPS_VERSION: TagView = (2, 0);

pub const GPS_LATITUDE_REF: TagView = (2, 1);

pub const GPS_LATITUDE: TagView = (2, 2);

pub const GPS_LONGITUDE_REF: TagView = (2, 3);

pub const GPS_LONGITUDE: TagView = (2, 4);

pub const GPS_ALTITUDE_REF: TagView = (2, 5);

pub const GPS_ALTITUDE: TagView = (2, 6);

pub const GPS_TIME_STAMP: TagView = (2, 7);

pub const GPS_DATE_STAMP: TagView = (2, 0x1d);

fn context_number(c: &Context) -> (r: u8)
    ensures
        r == context_code(*c),
{
    match c {
        Context::Tiff => TIFF,
        Context::Exif => EXIF,
        Context::Gps => GPS,
        _ => INTEROP,
    }
}

fn context_from(n: u8) -> (r: Context)
    requires
        n <= 3,
    ensures
        context_code(r) == n,
{
    match n {
        0 => Context::Tiff,
        1 => Context::Exif,
        2 => Context::Gps,
        _ => Context::Interop,
    }
}

pub(crate) fn tag_of(f: &Field) -> (r: TagView)
    ensures
        r == field_view(*f).tag,
{
    (context_number(&f.tag.0), f.tag.1)
}

fn same_tag(a: TagView, b: TagView) -> (r: bool)
    ensures
        r == (a == b),
{
    a.0 == b.0 && a.1 == b.1
}

/// A field of the main directory.
pub open spec fn primary(tag: TagView, value: ValueView) -> FieldView {
    FieldView { tag, ifd: 0, value }
}

/// A field of the main directory.
fn field(tag: TagView, value: Value) -> (r: Field)
    requires
        tag.0 <= 3,
    ensures
        field_view(r) == primary(tag, value_view(value)),
{
    Field { tag: Tag(context_from(tag.0), tag.1), ifd_num: In(0), value }
}

/// The EXIF data in an image file.
pub uninterp spec fn container_data(bytes: Seq<u8>) -> Option<Seq<u8>>;

/// The fields that EXIF data holds; none where it cannot be read.
pub uninterp spec fn exif_fields(data: Seq<u8>) -> Option<Seq<FieldView>>;

/// The fields that the EXIF data in an image file holds.
pub open spec fn container_fields(bytes: Seq<u8>) -> Option<Seq<FieldView>> {
    match container_data(bytes) {
        Some(data) => exif_fields(data),
        None => None,
    }
}

/// A JPEG or PNG file with this EXIF data behind its header.
pub open spec fn holds_exif(file: Seq<u8>, data: Seq<u8>) -> bool {
    jpeg_carries(file, data) || png_carries(file, data)
}

/// `exif::Reader::read_from_container` on the bytes of an image file: the fields that it found, by
/// `Exif::fields`, and the data that they stand in, by `Exif::buf`. Which data a file holds is a function
/// of its bytes, and which fields the data holds one of the data. Of a JPEG or PNG file that holds EXIF
/// data behind its header it is known: that data is read.
#[verifier::external_body]
pub(crate) fn read_container(bytes: &[u8]) -> (r: Option<(Vec<Field>, Vec<u8>)>)
    ensures
        match r {
            Some((f, data)) => container_data(bytes@) == Some(data@) && exif_fields(data@) == Some(
                fields_view(f@),
            ),
            None => container_fields(bytes@) is None,
        },
        forall|e: Seq<u8>| #[trigger]
            holds_exif(bytes@, e) ==> match r {
                Some((_, data)) => data@ == e,
                None => exif_fields(e) is None,
            },
{
    let found = Reader::new().read_from_container(&mut Cursor::new(bytes)).ok()?;
    Some((found.fields().cloned().collect(), found.buf().to_vec()))
}

/// The bytes of EXIF data with these fields.
pub uninterp spec fn written_fields(fields: Seq<FieldView>) -> Option<Seq<u8>>;

/// The bytes that a value takes when it is written; `None` for the kinds that are not read or made
/// here.
pub open spec fn payload(v: ValueView) -> Option<nat> {
    match v {
        ValueView::Byte(b) => Some(b.len()),
        ValueView::Ascii(a) => Some(text_payload(a)),
        ValueView::Short(n) => Some(2 * n.len()),
        ValueView::Long(n) => Some(4 * n.len()),
        ValueView::Rational(r) => Some(8 * r.len()),
        ValueView::SRational(r) => Some(8 * r.len()),
        ValueView::Undefined(b) => Some(b.len()),
        ValueView::Other(_) => None,
    }
}

/// The bytes that texts take, each with a zero behind it.
pub open spec fn text_payload(a: Seq<Seq<u8>>) -> nat
    decreases a.len(),
{
    if a.len() == 0 {
        0
    } else {
        text_payload(a.drop_last()) + a.last().len() + 1
    }
}

/// Fields of the main image that stay far below the limits of the format: values of the kinds above
/// of at most 4 KiB each, no more than 4096 of them, the name of the software among them.
pub open spec fn ordinary(f: Seq<FieldView>) -> bool {
    &&& f.len() <= 4096
    &&& forall|i: int|
        0 <= i < f.len() ==> (#[trigger] f[i]).ifd == 0 && payload(f[i].value) is Some && payload(
            f[i].value,
        )->0 <= 4096
    &&& exists|i: int| 0 <= i < f.len() && (#[trigger] f[i]).tag == SOFTWARE
}

/// A tag that the writer of EXIF data makes itself: pointers between directories, and where images lie.
pub open spec fn is_structural(t: TagView) -> bool {
    t == (TIFF, 0x8769u16) || t == (TIFF, 0x8825u16) || t == (EXIF, 0xa005u16) || t == (TIFF, 0x111u16)
        || t == (TIFF, 0x117u16) || t == (TIFF, 0x144u16) || t == (TIFF, 0x145u16) || t
        == THUMBNAIL_OFFSET || t == THUMBNAIL_LENGTH
}

/// A text without a zero in it.
pub open spec fn is_unbroken(text: Seq<u8>) -> bool {
    !text.contains(0)
}

/// A field that is read as it was written: its texts end where their first zero stands.
pub open spec fn is_faithful(x: FieldView) -> bool {
    &&& !is_structural(x.tag)
    &&& match x.value {
        ValueView::Ascii(a) => forall|k: int| 0 <= k < a.len() ==> is_unbroken(#[trigger] a[k]),
        _ => true,
    }
}

/// Ordinary fields that are all read as they were written.
pub open spec fn is_readable(f: Seq<FieldView>) -> bool {
    ordinary(f) && forall|i: int| 0 <= i < f.len() ==> is_faithful(#[trigger] f[i])
}

/// Reading the data gives the fields, each as often as they have it, in some order.
pub open spec fn reads_as(data: Seq<u8>, f: Seq<FieldView>) -> bool {
    exif_fields(data) matches Some(g) && g.to_multiset() == f.to_multiset()
}

/// `exif::experimental::Writer`, given the fields one after the other, in big-endian order. The
/// bytes, and for which fields there are none, is a function of what the fields hold. Ordinary
/// fields can always be written, and reading the bytes gives readable fields back: the writer sorts them
/// into directories, from which the reader of the same crate takes them.
#[verifier::external_body]
fn write_fields(fields: &[Field]) -> (r: Option<Vec<u8>>)
    ensures
        match r {
            Some(b) => written_fields(fields_view(fields@)) == Some(b@),
            None => written_fields(fields_view(fields@)) is None,
        },
        ordinary(fields_view(fields@)) ==> r is Some,
        match r {
            Some(b) => is_readable(fields_view(fields@)) ==> reads_as(b@, fields_view(fields@)),
            None => true,
        },
{
    let mut writer = Writer::new();
    for f in fields {
        writer.push_field(f);
    }
    let mut out = Cursor::new(Vec::new());
    writer.write(&mut out, false).ok()?;
    Some(out.into_inner())
}

// ---------------------------------------------------------------------------------------------
// Fields for an export
// ---------------------------------------------------------------------------------------------

/// Tags we recompute, or that only make sense for the original file.
pub open spec fn is_dropped(t: TagView) -> bool {
    t == ORIENTATION || t == SOFTWARE || t == MAKER_NOTE || t == COLOR_SPACE || t
        == PIXEL_X_DIMENSION || t == PIXEL_Y_DIMENSION
}

/// Photo-describing tags from the main (TIFF) directory; the rest describe the file's structure.
pub open spec fn is_kept_tiff(t: TagView) -> bool {
    t == MAKE || t == MODEL || t == DATE_TIME || t == ARTIST || t == COPYRIGHT || t
        == IMAGE_DESCRIPTION || t == X_RESOLUTION || t == Y_RESOLUTION || t == RESOLUTION_UNIT
}

/// A field of a photo that its exports keep.
pub open spec fn is_carried(f: FieldView) -> bool {
    &&& f.ifd == 0
    &&& !is_dropped(f.tag)
    &&& f.tag.0 != TIFF || is_kept_tiff(f.tag)
}

/// The fields of a photo that its exports keep, in order.
pub open spec fn carried(f: Seq<FieldView>) -> Seq<FieldView> {
    f.filter(|x: FieldView| is_carried(x))
}

/// The fields without those of the GPS directory, unless they are to be kept.
pub open spec fn located(f: Seq<FieldView>, keep_gps: bool) -> Seq<FieldView> {
    f.filter(|x: FieldView| keep_gps || x.tag.0 != GPS)
}

/// The fields that every export gets: the software, the colour space (sRGB) and the size.
pub open spec fn export_marks(size: (u32, u32)) -> Seq<FieldView> {
    seq![
        primary(SOFTWARE, ValueView::Ascii(seq![encode_utf8("bp_photos"@)])),
        primary(COLOR_SPACE, ValueView::Short(seq![1u16])),
        primary(PIXEL_X_DIMENSION, ValueView::Long(seq![size.0])),
        primary(PIXEL_Y_DIMENSION, ValueView::Long(seq![size.1])),
    ]
}

/// One of the fields has this tag.
pub open spec fn has_tag(f: Seq<FieldView>, t: TagView) -> bool {
    exists|i: int| 0 <= i < f.len() && (#[trigger] f[i]).tag == t
}

/// The fields of an export of `size` pixels from a photo with the fields `f`. An EXIF directory
/// needs a version to be valid.
pub open spec fn export_fields_of(f: Seq<FieldView>, size: (u32, u32), keep_gps: bool) -> Seq<
    FieldView,
> {
    let marked = located(f, keep_gps) + export_marks(size);
    if has_tag(marked, EXIF_VERSION) {
        marked
    } else {
        marked.push(primary(EXIF_VERSION, ValueView::Undefined(encode_utf8("0232"@))))
    }
}

fn dropped(t: TagView) -> (r: bool)
    ensures
        r == is_dropped(t),
{
    same_tag(t, ORIENTATION) || same_tag(t, SOFTWARE) || same_tag(t, MAKER_NOTE) || same_tag(
        t,
        COLOR_SPACE,
    ) || same_tag(t, PIXEL_X_DIMENSION) || same_tag(t, PIXEL_Y_DIMENSION)
}

fn kept_tiff(t: TagView) -> (r: bool)
    ensures
        r == is_kept_tiff(t),
{
    same_tag(t, MAKE) || same_tag(t, MODEL) || same_tag(t, DATE_TIME) || same_tag(t, ARTIST)
        || same_tag(t, COPYRIGHT) || same_tag(t, IMAGE_DESCRIPTION) || same_tag(t, X_RESOLUTION)
        || same_tag(t, Y_RESOLUTION) || same_tag(t, RESOLUTION_UNIT)
}

/// The fields of a photo that its exports keep.
pub fn carry(fields: Vec<Field>) -> (r: Vec<Field>)
    ensures
        fields_view(r@) == carried(fields_view(fields@)),
{
    let ghost all = fields_view(fields@);
    let ghost keep = |x: FieldView| is_carried(x);
    let mut out: Vec<Field> = Vec::new();
    reveal(Seq::filter);
    assert(all.take(0) == Seq::<FieldView>::empty());
    for f in it: fields.into_iter()
        invariant
            it.seq() == fields@,
            all == fields_view(fields@),
            keep == (|x: FieldView| is_carried(x)),
            fields_view(out@) == all.take(it.index()).filter(keep),
    {
        let ghost i = it.index();
        let ghost had = fields_view(out@);
        assert(all.take(i + 1).drop_last() == all.take(i));
        assert(all.take(i + 1).last() == field_view(f));
        reveal(Seq::filter);
        let tag = tag_of(&f);
        if f.ifd_num.0 == 0 && !dropped(tag) && (tag.0 != TIFF || kept_tiff(tag)) {
            out.push(f);
            assert(fields_view(out@) == had.push(all[i]));
        }
    }
    assert(all.take(all.len() as int) == all);
    out
}

fn without_gps(fields: Vec<Field>, keep_gps: bool) -> (r: Vec<Field>)
    ensures
        fields_view(r@) == located(fields_view(fields@), keep_gps),
{
    let ghost all = fields_view(fields@);
    let ghost keep = |x: FieldView| keep_gps || x.tag.0 != GPS;
    let mut out: Vec<Field> = Vec::new();
    reveal(Seq::filter);
    assert(all.take(0) == Seq::<FieldView>::empty());
    for f in it: fields.into_iter()
        invariant
            it.seq() == fields@,
            all == fields_view(fields@),
            keep == (|x: FieldView| keep_gps || x.tag.0 != GPS),
            fields_view(out@) == all.take(it.index()).filter(keep),
    {
        let ghost i = it.index();
        let ghost had = fields_view(out@);
        assert(all.take(i + 1).drop_last() == all.take(i));
        assert(all.take(i + 1).last() == field_view(f));
        reveal(Seq::filter);
        if keep_gps || tag_of(&f).0 != GPS {
            out.push(f);
            assert(fields_view(out@) == had.push(all[i]));
        }
    }
    assert(all.take(all.len() as int) == all);
    out
}

fn find_tag(fields: &[Field], t: TagView) -> (r: bool)
    ensures
        r == has_tag(fields_view(fields@), t),
{
    let ghost all = fields_view(fields@);
    let mut i: usize = 0;
    while i < fields.len()
        invariant
            i <= fields@.len(),
            all == fields_view(fields@),
            forall|k: int| 0 <= k < i ==> (#[trigger] all[k]).tag != t,
        decreases fields.len() - i,
    {
        assert(all[i as int] == field_view(fields@[i as int]));
        if same_tag(tag_of(&fields[i]), t) {
            return true;
        }
        i = i + 1;
    }
    false
}

fn ascii(s: &str) -> (r: Value)
    ensures
        value_view(r) == ValueView::Ascii(seq![encode_utf8(s@)]),
{
    let mut v: Vec<Vec<u8>> = Vec::new();
    v.push(s.as_bytes_vec());
    assert(v@.map_values(|b: Vec<u8>| b@) =~= seq![encode_utf8(s@)]);
    Value::Ascii(v)
}

fn short(n: u16) -> (r: Value)
    ensures
        value_view(r) == ValueView::Short(seq![n]),
{
    let mut v: Vec<u16> = Vec::new();
    v.push(n);
    assert(v@ =~= seq![n]);
    Value::Short(v)
}

fn long(n: u32) -> (r: Value)
    ensures
        value_view(r) == ValueView::Long(seq![n]),
{
    let mut v: Vec<u32> = Vec::new();
    v.push(n);
    assert(v@ =~= seq![n]);
    Value::Long(v)
}

fn push_field(out: &mut Vec<Field>, tag: TagView, value: Value)
    requires
        tag.0 <= 3,
    ensures
        fields_view(final(out)@) == fields_view(old(out)@).push(primary(tag, value_view(value))),
{
    let ghost before = fields_view(out@);
    out.push(field(tag, value));
    assert(fields_view(out@) =~= before.push(primary(tag, value_view(value))));
}

/// The fields of an export of `size` pixels from a photo with the fields `fields`.
pub fn export_fields(fields: Vec<Field>, size: (u32, u32), keep_gps: bool) -> (r: Vec<Field>)
    ensures
        fields_view(r@) == export_fields_of(fields_view(fields@), size, keep_gps),
{
    let mut out = without_gps(fields, keep_gps);
    let ghost first = fields_view(out@);
    push_field(&mut out, SOFTWARE, ascii("bp_photos"));
    push_field(&mut out, COLOR_SPACE, short(1));
    push_field(&mut out, PIXEL_X_DIMENSION, long(size.0));
    push_field(&mut out, PIXEL_Y_DIMENSION, long(size.1));
    assert(fields_view(out@) =~= first + export_marks(size));
    if !find_tag(&out, EXIF_VERSION) {
        push_field(&mut out, EXIF_VERSION, Value::Undefined("0232".as_bytes_vec(), 0));
    }
    out
}

/// The fields that exports keep of a JPEG, HEIC, PNG, WebP or TIFF file.
pub fn from_container(bytes: &[u8]) -> (r: Option<Vec<Field>>)
    ensures
        match r {
            Some(f) => container_fields(bytes@) matches Some(all) && fields_view(f@) == carried(all),
            None => container_fields(bytes@) is None,
        },
        forall|e: Seq<u8>| #[trigger]
            holds_exif(bytes@, e) ==> match r {
                Some(f) => exif_fields(e) matches Some(all) && fields_view(f@) == carried(all),
                None => exif_fields(e) is None,
            },
{
    match read_container(bytes) {
        Some((f, _)) => Some(carry(f)),
        None => None,
    }
}

/// EXIF (TIFF-structured bytes) for an image of `size` pixels exported from a photo with the fields
/// `fields`; none where the photo has no readable metadata.
pub fn for_export(fields: Option<Vec<Field>>, size: (u32, u32), keep_gps: bool) -> (r: Option<Vec<u8>>)
    ensures
        match fields {
            Some(f) => {
                let wanted = export_fields_of(fields_view(f@), size, keep_gps);
                &&& match r {
                    Some(b) => written_fields(wanted) == Some(b@) && (is_readable(wanted) ==> reads_as(
                        b@,
                        wanted,
                    )),
                    None => written_fields(wanted) is None,
                }
                &&& ordinary(wanted) ==> r is Some
            },
            None => r is None,
        },
{
    match fields {
        Some(f) => {
            let out = export_fields(f, size, keep_gps);
            write_fields(&out)
        },
        None => None,
    }
}

// ---------------------------------------------------------------------------------------------
// Camera RAW
// ---------------------------------------------------------------------------------------------

/// The position that a RAW file records.
pub struct RawGps {
    pub version: Option<[u8; 4]>,
    pub latitude_ref: Option<String>,
    pub latitude: Option<[(u32, u32); 3]>,
    pub longitude_ref: Option<String>,
    pub longitude: Option<[(u32, u32); 3]>,
    pub altitude_ref: Option<u8>,
    pub altitude: Option<(u32, u32)>,
    pub timestamp: Option<[(u32, u32); 3]>,
    pub date_stamp: Option<String>,
}

/// What a RAW file says of its photo. A ratio is a numerator and a denominator.
pub struct RawInfo {
    pub make: String,
    pub model: String,
    pub date_time_original: Option<String>,
    pub create_date: Option<String>,
    pub modify_date: Option<String>,
    pub offset_time: Option<String>,
    pub offset_time_original: Option<String>,
    pub offset_time_digitized: Option<String>,
    pub sub_sec_time_original: Option<String>,
    pub artist: Option<String>,
    pub copyright: Option<String>,
    pub lens_make: Option<String>,
    pub lens_model: Option<String>,
    pub serial_number: Option<String>,
    pub lens_serial_number: Option<String>,
    pub exposure_time: Option<(u32, u32)>,
    pub fnumber: Option<(u32, u32)>,
    pub aperture_value: Option<(u32, u32)>,
    pub max_aperture_value: Option<(u32, u32)>,
    pub focal_length: Option<(u32, u32)>,
    pub subject_distance: Option<(u32, u32)>,
    pub exposure_bias: Option<(i32, i32)>,
    pub shutter_speed_value: Option<(i32, i32)>,
    pub brightness_value: Option<(i32, i32)>,
    pub iso_speed_ratings: Option<u16>,
    pub exposure_program: Option<u16>,
    pub metering_mode: Option<u16>,
    pub light_source: Option<u16>,
    pub flash: Option<u16>,
    pub exposure_mode: Option<u16>,
    pub white_balance: Option<u16>,
    pub scene_capture_type: Option<u16>,
    pub lens_spec: Option<[(u32, u32); 4]>,
    pub gps: Option<RawGps>,
}

/// A text as a field.
pub open spec fn text_field(t: TagView, s: String) -> FieldView {
    primary(t, ValueView::Ascii(seq![encode_utf8(s@)]))
}

/// Ratios as a field.
pub open spec fn ratio_field(t: TagView, r: Seq<(u32, u32)>) -> FieldView {
    primary(t, ValueView::Rational(r))
}

/// A text as a field, where it is there.
pub open spec fn if_text(t: TagView, o: Option<String>) -> Seq<FieldView> {
    match o {
        Some(s) => seq![text_field(t, s)],
        None => seq![],
    }
}

/// A ratio as a field, where it is there.
pub open spec fn if_ratio(t: TagView, o: Option<(u32, u32)>) -> Seq<FieldView> {
    match o {
        Some(r) => seq![ratio_field(t, seq![r])],
        None => seq![],
    }
}

/// A signed ratio as a field, where it is there.
pub open spec fn if_signed(t: TagView, o: Option<(i32, i32)>) -> Seq<FieldView> {
    match o {
        Some(r) => seq![primary(t, ValueView::SRational(seq![r]))],
        None => seq![],
    }
}

/// A number as a field, where it is there.
pub open spec fn if_short(t: TagView, o: Option<u16>) -> Seq<FieldView> {
    match o {
        Some(n) => seq![primary(t, ValueView::Short(seq![n]))],
        None => seq![],
    }
}

/// The version of the GPS directory: that of the file, or 2.3.
pub open spec fn gps_version(v: Option<[u8; 4]>) -> Seq<u8> {
    match v {
        Some(b) => b@,
        None => seq![2u8, 3u8, 0u8, 0u8],
    }
}

/// The fields of a position. There are some only where both coordinates and their hemispheres are
/// known; the altitude only with its reference.
pub open spec fn gps_fields(g: RawGps) -> Seq<FieldView> {
    match (g.latitude, g.latitude_ref, g.longitude, g.longitude_ref) {
        (Some(lat), Some(lat_ref), Some(lon), Some(lon_ref)) => {
            seq![
                primary(GPS_VERSION, ValueView::Byte(gps_version(g.version))),
                text_field(GPS_LATITUDE_REF, lat_ref),
                ratio_field(GPS_LATITUDE, lat@),
                text_field(GPS_LONGITUDE_REF, lon_ref),
                ratio_field(GPS_LONGITUDE, lon@),
            ] + match (g.altitude, g.altitude_ref) {
                (Some(alt), Some(alt_ref)) => seq![
                    primary(GPS_ALTITUDE_REF, ValueView::Byte(seq![alt_ref])),
                    ratio_field(GPS_ALTITUDE, seq![alt]),
                ],
                _ => seq![],
            } + if_text(GPS_DATE_STAMP, g.date_stamp) + match g.timestamp {
                Some(t) => seq![ratio_field(GPS_TIME_STAMP, t@)],
                None => seq![],
            }
        },
        _ => seq![],
    }
}

/// The texts of a RAW file as fields.
pub open spec fn raw_texts(i: RawInfo) -> Seq<FieldView> {
    seq![text_field(MAKE, i.make), text_field(MODEL, i.model)] + if_text(DATE_TIME_ORIGINAL, i.date_time_original) + if_text(DATE_TIME_DIGITIZED, i.create_date) + if_text(DATE_TIME, i.modify_date) + if_text(OFFSET_TIME, i.offset_time) + if_text(OFFSET_TIME_ORIGINAL, i.offset_time_original) + if_text(OFFSET_TIME_DIGITIZED, i.offset_time_digitized) + if_text(SUB_SEC_TIME_ORIGINAL, i.sub_sec_time_original) + if_text(ARTIST, i.artist) + if_text(COPYRIGHT, i.copyright) + if_text(LENS_MAKE, i.lens_make) + if_text(LENS_MODEL, i.lens_model) + if_text(BODY_SERIAL_NUMBER, i.serial_number) + if_text(LENS_SERIAL_NUMBER, i.lens_serial_number)
}

/// The numbers of a RAW file as fields.
pub open spec fn raw_numbers(i: RawInfo) -> Seq<FieldView> {
    if_ratio(EXPOSURE_TIME, i.exposure_time) + if_ratio(F_NUMBER, i.fnumber) + if_ratio(APERTURE, i.aperture_value) + if_ratio(MAX_APERTURE, i.max_aperture_value) + if_ratio(FOCAL_LENGTH, i.focal_length) + if_ratio(SUBJECT_DISTANCE, i.subject_distance) + if_signed(EXPOSURE_BIAS, i.exposure_bias) + if_signed(SHUTTER_SPEED, i.shutter_speed_value) + if_signed(BRIGHTNESS, i.brightness_value) + if_short(SENSITIVITY, i.iso_speed_ratings) + if_short(EXPOSURE_PROGRAM, i.exposure_program) + if_short(METERING_MODE, i.metering_mode) + if_short(LIGHT_SOURCE, i.light_source) + if_short(FLASH, i.flash) + if_short(EXPOSURE_MODE, i.exposure_mode) + if_short(WHITE_BALANCE, i.white_balance) + if_short(SCENE_CAPTURE_TYPE, i.scene_capture_type)
}

/// The fields of a RAW file.
pub open spec fn raw_fields(i: RawInfo) -> Seq<FieldView> {
    raw_texts(i) + raw_numbers(i) + match i.lens_spec {
        Some(spec) => seq![ratio_field(LENS_SPECIFICATION, spec@)],
        None => seq![],
    } + match i.gps {
        Some(g) => gps_fields(g),
        None => seq![],
    }
}

fn rationals(r: &[(u32, u32)]) -> (v: Value)
    ensures
        value_view(v) == ValueView::Rational(r@),
{
    let mut out: Vec<Rational> = Vec::new();
    let mut i: usize = 0;
    while i < r.len()
        invariant
            i <= r@.len(),
            out@.len() == i,
            forall|k: int| 0 <= k < i ==> (#[trigger] out@[k]).num == r@[k].0 && out@[k].denom == r@[k].1,
        decreases r.len() - i,
    {
        out.push(Rational { num: r[i].0, denom: r[i].1 });
        i = i + 1;
    }
    assert(out@.map_values(|x: Rational| (x.num, x.denom)) =~= r@);
    Value::Rational(out)
}

fn bytes_value(b: &[u8]) -> (v: Value)
    ensures
        value_view(v) == ValueView::Byte(b@),
{
    let mut out: Vec<u8> = Vec::new();
    out.extend_from_slice(b);
    assert(out@ =~= b@);
    Value::Byte(out)
}

fn push_text(out: &mut Vec<Field>, t: TagView, o: &Option<String>)
    requires
        t.0 <= 3,
    ensures
        fields_view(final(out)@) == fields_view(old(out)@) + if_text(t, *o),
{
    let ghost before = fields_view(out@);
    if let Some(s) = o {
        push_field(out, t, ascii(s.as_str()));
    }
    assert(fields_view(out@) =~= before + if_text(t, *o));
}

fn push_rational(out: &mut Vec<Field>, t: TagView, o: &Option<(u32, u32)>)
    requires
        t.0 <= 3,
    ensures
        fields_view(final(out)@) == fields_view(old(out)@) + if_ratio(t, *o),
{
    let ghost before = fields_view(out@);
    if let Some(r) = o {
        let one = [*r];
        assert(one@ =~= seq![*r]);
        push_field(out, t, rationals(&one));
    }
    assert(fields_view(out@) =~= before + if_ratio(t, *o));
}

fn push_signed(out: &mut Vec<Field>, t: TagView, o: &Option<(i32, i32)>)
    requires
        t.0 <= 3,
    ensures
        fields_view(final(out)@) == fields_view(old(out)@) + if_signed(t, *o),
{
    let ghost before = fields_view(out@);
    if let Some(r) = o {
        let mut v: Vec<SRational> = Vec::new();
        v.push(SRational { num: r.0, denom: r.1 });
        assert(v@.map_values(|x: SRational| (x.num, x.denom)) =~= seq![*r]);
        push_field(out, t, Value::SRational(v));
    }
    assert(fields_view(out@) =~= before + if_signed(t, *o));
}

fn push_short(out: &mut Vec<Field>, t: TagView, o: &Option<u16>)
    requires
        t.0 <= 3,
    ensures
        fields_view(final(out)@) == fields_view(old(out)@) + if_short(t, *o),
{
    let ghost before = fields_view(out@);
    if let Some(n) = o {
        push_field(out, t, short(*n));
    }
    assert(fields_view(out@) =~= before + if_short(t, *o));
}

fn push_gps(out: &mut Vec<Field>, g: &RawGps)
    ensures
        fields_view(final(out)@) == fields_view(old(out)@) + gps_fields(*g),
{
    let ghost before = fields_view(out@);
    if let (Some(lat), Some(lat_ref), Some(lon), Some(lon_ref)) = (
        &g.latitude,
        &g.latitude_ref,
        &g.longitude,
        &g.longitude_ref,
    ) {
        let version = match g.version {
            Some(b) => b,
            None => [2, 3, 0, 0],
        };
        assert(version@ =~= gps_version(g.version));
        push_field(out, GPS_VERSION, bytes_value(&version));
        push_field(out, GPS_LATITUDE_REF, ascii(lat_ref.as_str()));
        push_field(out, GPS_LATITUDE, rationals(lat));
        push_field(out, GPS_LONGITUDE_REF, ascii(lon_ref.as_str()));
        push_field(out, GPS_LONGITUDE, rationals(lon));
        if let (Some(alt), Some(alt_ref)) = (g.altitude, g.altitude_ref) {
            let reference = [alt_ref];
            assert(reference@ =~= seq![alt_ref]);
            push_field(out, GPS_ALTITUDE_REF, bytes_value(&reference));
            let one = [alt];
            assert(one@ =~= seq![alt]);
            push_field(out, GPS_ALTITUDE, rationals(&one));
        }
        push_text(out, GPS_DATE_STAMP, &g.date_stamp);
        if let Some(t) = &g.timestamp {
            push_field(out, GPS_TIME_STAMP, rationals(t));
        }
    }
    assert(fields_view(out@) =~= before + gps_fields(*g));
}

fn push_texts(i: &RawInfo) -> (out: Vec<Field>)
    ensures
        fields_view(out@) == raw_texts(*i),
{
    let mut out: Vec<Field> = Vec::new();
    push_field(&mut out, MAKE, ascii(i.make.as_str()));
    push_field(&mut out, MODEL, ascii(i.model.as_str()));
    assert(fields_view(out@) =~= seq![text_field(MAKE, i.make), text_field(MODEL, i.model)]);
    push_text(&mut out, DATE_TIME_ORIGINAL, &i.date_time_original);
    push_text(&mut out, DATE_TIME_DIGITIZED, &i.create_date);
    push_text(&mut out, DATE_TIME, &i.modify_date);
    push_text(&mut out, OFFSET_TIME, &i.offset_time);
    push_text(&mut out, OFFSET_TIME_ORIGINAL, &i.offset_time_original);
    push_text(&mut out, OFFSET_TIME_DIGITIZED, &i.offset_time_digitized);
    push_text(&mut out, SUB_SEC_TIME_ORIGINAL, &i.sub_sec_time_original);
    push_text(&mut out, ARTIST, &i.artist);
    push_text(&mut out, COPYRIGHT, &i.copyright);
    push_text(&mut out, LENS_MAKE, &i.lens_make);
    push_text(&mut out, LENS_MODEL, &i.lens_model);
    push_text(&mut out, BODY_SERIAL_NUMBER, &i.serial_number);
    push_text(&mut out, LENS_SERIAL_NUMBER, &i.lens_serial_number);
    out
}

fn push_numbers(i: &RawInfo) -> (out: Vec<Field>)
    ensures
        fields_view(out@) == raw_numbers(*i),
{
    let mut out: Vec<Field> = Vec::new();
    assert(fields_view(out@) =~= seq![]);
    push_rational(&mut out, EXPOSURE_TIME, &i.exposure_time);
    push_rational(&mut out, F_NUMBER, &i.fnumber);
    push_rational(&mut out, APERTURE, &i.aperture_value);
    push_rational(&mut out, MAX_APERTURE, &i.max_aperture_value);
    push_rational(&mut out, FOCAL_LENGTH, &i.focal_length);
    push_rational(&mut out, SUBJECT_DISTANCE, &i.subject_distance);
    push_signed(&mut out, EXPOSURE_BIAS, &i.exposure_bias);
    push_signed(&mut out, SHUTTER_SPEED, &i.shutter_speed_value);
    push_signed(&mut out, BRIGHTNESS, &i.brightness_value);
    push_short(&mut out, SENSITIVITY, &i.iso_speed_ratings);
    push_short(&mut out, EXPOSURE_PROGRAM, &i.exposure_program);
    push_short(&mut out, METERING_MODE, &i.metering_mode);
    push_short(&mut out, LIGHT_SOURCE, &i.light_source);
    push_short(&mut out, FLASH, &i.flash);
    push_short(&mut out, EXPOSURE_MODE, &i.exposure_mode);
    push_short(&mut out, WHITE_BALANCE, &i.white_balance);
    push_short(&mut out, SCENE_CAPTURE_TYPE, &i.scene_capture_type);
    assert(fields_view(out@) =~= raw_numbers(*i));
    out
}

/// The fields of a camera RAW file.
pub fn from_raw(i: &RawInfo) -> (r: Vec<Field>)
    ensures
        fields_view(r@) == raw_fields(*i),
{
    let mut out = push_texts(i);
    let mut more = push_numbers(i);
    let ghost a = out@;
    let ghost b = more@;
    out.append(&mut more);
    assert(fields_view(out@) =~= fields_view(a) + fields_view(b));
    let ghost so_far = fields_view(out@);
    if let Some(spec) = &i.lens_spec {
        push_field(&mut out, LENS_SPECIFICATION, rationals(spec));
    }
    let ghost with_lens = fields_view(out@);
    if let Some(g) = &i.gps {
        push_gps(&mut out, g);
    }
    assert(fields_view(out@) =~= raw_fields(*i));
    out
}

// ---------------------------------------------------------------------------------------------
// Reading fields
// ---------------------------------------------------------------------------------------------

/// The value of the first field with this tag.
pub open spec fn value_of_tag(f: Seq<FieldView>, t: TagView) -> Option<ValueView>
    decreases f.len(),
{
    if f.len() == 0 {
        None
    } else if f[0].tag == t {
        Some(f[0].value)
    } else {
        value_of_tag(f.skip(1), t)
    }
}

/// The text of a field without the white space round it, where there is any.
pub open spec fn text_of(f: Seq<FieldView>, t: TagView) -> Option<Seq<char>> {
    match value_of_tag(f, t) {
        Some(ValueView::Ascii(a)) => if a.len() > 0 && trim(lossy_text(a[0])).len() > 0 {
            Some(trim(lossy_text(a[0])))
        } else {
            None
        },
        _ => None,
    }
}

/// A number as a ratio: its sign, a numerator and a denominator that is not zero.
pub struct Quantity {
    pub negative: bool,
    pub n: u32,
    pub d: u32,
}

/// The size of a signed number.
pub open spec fn magnitude(i: i32) -> u32 {
    (if i < 0 {
        -i
    } else {
        i as int
    }) as u32
}

/// The first number of a value; none where it is not finite.
pub open spec fn quantity_of(v: ValueView) -> Option<Quantity> {
    match v {
        ValueView::Rational(r) => if r.len() > 0 && r[0].1 != 0 {
            Some(Quantity { negative: false, n: r[0].0, d: r[0].1 })
        } else {
            None
        },
        ValueView::SRational(r) => if r.len() > 0 && r[0].1 != 0 {
            Some(
                Quantity {
                    negative: (r[0].0 < 0) != (r[0].1 < 0),
                    n: magnitude(r[0].0),
                    d: magnitude(r[0].1),
                },
            )
        } else {
            None
        },
        ValueView::Byte(b) => if b.len() > 0 {
            Some(Quantity { negative: false, n: b[0] as u32, d: 1 })
        } else {
            None
        },
        ValueView::Short(n) => if n.len() > 0 {
            Some(Quantity { negative: false, n: n[0] as u32, d: 1 })
        } else {
            None
        },
        ValueView::Long(n) => if n.len() > 0 {
            Some(Quantity { negative: false, n: n[0], d: 1 })
        } else {
            None
        },
        _ => None,
    }
}

/// The number that a field holds.
pub open spec fn number_of(f: Seq<FieldView>, t: TagView) -> Option<Quantity> {
    match value_of_tag(f, t) {
        Some(v) => quantity_of(v),
        None => None,
    }
}

/// A number greater than zero.
pub open spec fn positive(q: Quantity) -> bool {
    !q.negative && q.n > 0
}

fn value_at<'a>(fields: &'a [Field], t: TagView) -> (r: Option<&'a Value>)
    ensures
        match r {
            Some(v) => value_of_tag(fields_view(fields@), t) == Some(value_view(*v)),
            None => value_of_tag(fields_view(fields@), t) is None,
        },
{
    let ghost all = fields_view(fields@);
    let mut i: usize = 0;
    assert(all.skip(0) == all);
    while i < fields.len()
        invariant
            i <= fields@.len(),
            all == fields_view(fields@),
            value_of_tag(all, t) == value_of_tag(all.skip(i as int), t),
        decreases fields.len() - i,
    {
        assert(all.skip(i as int)[0] == field_view(fields@[i as int]));
        assert(all.skip(i as int).skip(1) == all.skip(i + 1));
        if same_tag(tag_of(&fields[i]), t) {
            return Some(&fields[i].value);
        }
        i = i + 1;
    }
    None
}

fn text(fields: &[Field], t: TagView) -> (r: Option<String>)
    ensures
        crate::preset::opt_view(r) == text_of(fields_view(fields@), t),
{
    match value_at(fields, t) {
        Some(Value::Ascii(a)) => {
            if a.len() == 0 {
                return None;
            }
            let whole = chars_of(from_utf8_lossy(&a[0]).as_str());
            let inner = trimmed(&whole);
            if inner.len() > 0 {
                Some(string_of(inner))
            } else {
                None
            }
        },
        _ => None,
    }
}

fn size_of_signed(i: i32) -> (r: u32)
    ensures
        r == magnitude(i),
{
    if i < 0 {
        (-(i as i64)) as u32
    } else {
        i as u32
    }
}

fn number(fields: &[Field], t: TagView) -> (r: Option<Quantity>)
    ensures
        r == number_of(fields_view(fields@), t),
        r matches Some(q) ==> q.d > 0,
{
    match value_at(fields, t) {
        Some(Value::Rational(v)) => {
            if v.len() > 0 && v[0].denom != 0 {
                Some(Quantity { negative: false, n: v[0].num, d: v[0].denom })
            } else {
                None
            }
        },
        Some(Value::SRational(v)) => {
            if v.len() > 0 && v[0].denom != 0 {
                Some(
                    Quantity {
                        negative: (v[0].num < 0) != (v[0].denom < 0),
                        n: size_of_signed(v[0].num),
                        d: size_of_signed(v[0].denom),
                    },
                )
            } else {
                None
            }
        },
        Some(Value::Byte(v)) => {
            if v.len() > 0 {
                Some(Quantity { negative: false, n: v[0] as u32, d: 1 })
            } else {
                None
            }
        },
        Some(Value::Short(v)) => {
            if v.len() > 0 {
                Some(Quantity { negative: false, n: v[0] as u32, d: 1 })
            } else {
                None
            }
        },
        Some(Value::Long(v)) => {
            if v.len() > 0 {
                Some(Quantity { negative: false, n: v[0], d: 1 })
            } else {
                None
            }
        },
        _ => None,
    }
}

// ---------------------------------------------------------------------------------------------
// The summary
// ---------------------------------------------------------------------------------------------

/// One line of the summary: its label and its text.
pub type Row = (Seq<char>, Seq<char>);

/// The rows of a section as views.
pub open spec fn rows_view(v: Seq<(&'static str, String)>) -> Seq<Row> {
    v.map_values(|p: (&'static str, String)| (p.0@, p.1@))
}

/// A list of one row, or of none.
pub open spec fn row(label: Seq<char>, value: Option<Seq<char>>) -> Seq<Row> {
    match value {
        Some(v) => seq![(label, v)],
        None => seq![],
    }
}

/// The camera's name: the model alone where it begins with the make.
pub open spec fn camera_name(make: Option<Seq<char>>, model: Option<Seq<char>>) -> Option<Seq<char>> {
    match (make, model) {
        (Some(a), Some(b)) => if begins(lowercase_of(b), lowercase_of(a)) {
            Some(b)
        } else {
            Some(a + " "@ + b)
        },
        (None, Some(b)) => Some(b),
        (Some(a), None) => Some(a),
        (None, None) => None,
    }
}

/// An exposure time: a fraction of a second, or seconds.
pub open spec fn shutter_text(q: Option<Quantity>) -> Option<Seq<char>> {
    match q {
        Some(t) => if !positive(t) {
            None
        } else if t.n < t.d {
            Some("1/"@ + decimal(nearest_55(reciprocal(ratio(t.n as nat, t.d as nat)))) + " s"@)
        } else {
            Some(ratio_text(t.n as nat, t.d as nat) + " s"@)
        },
        None => None,
    }
}

/// An f-number.
pub open spec fn aperture_text(q: Option<Quantity>) -> Option<Seq<char>> {
    match q {
        Some(f) => if positive(f) {
            Some("f/"@ + ratio_text(f.n as nat, f.d as nat))
        } else {
            None
        },
        None => None,
    }
}

/// A minus sign, or nothing.
pub open spec fn sign(negative: bool) -> Seq<char> {
    if negative {
        "-"@
    } else {
        ""@
    }
}

/// A number rounded to a whole one, with its sign.
pub open spec fn signed_whole(q: Quantity) -> Seq<char> {
    sign(q.negative) + whole_text(q.n as nat, q.d as nat)
}

/// The sensitivity.
pub open spec fn iso_text(q: Option<Quantity>) -> Option<Seq<char>> {
    match q {
        Some(i) => Some(signed_whole(i)),
        None => None,
    }
}

/// The equivalent focal length in brackets, where it is known.
pub open spec fn equivalent_text(q: Option<Quantity>) -> Seq<char> {
    match q {
        Some(e) => if positive(e) {
            " ("@ + whole_text(e.n as nat, e.d as nat) + " mm equiv.)"@
        } else {
            ""@
        },
        None => ""@,
    }
}

/// The focal length.
pub open spec fn focal_text(q: Option<Quantity>, equivalent: Option<Quantity>) -> Option<Seq<char>> {
    match q {
        Some(m) => if positive(m) {
            Some(ratio_text(m.n as nat, m.d as nat) + " mm"@ + equivalent_text(equivalent))
        } else {
            None
        },
        None => None,
    }
}

/// The exposure compensation, where it is more than a hundredth.
pub open spec fn bias_text(q: Option<Quantity>) -> Option<Seq<char>> {
    match q {
        Some(e) => if 100 * e.n > e.d {
            Some(
                (if e.negative {
                    "-"@
                } else {
                    "+"@
                }) + ratio_text(e.n as nat, e.d as nat) + " EV"@,
            )
        } else {
            None
        },
        None => None,
    }
}

/// Whether the flash fired: the lowest bit of the whole part says so.
pub open spec fn flash_text(q: Option<Quantity>) -> Option<Seq<char>> {
    match q {
        Some(f) => Some(
            if !f.negative && (f.n / f.d) % 2 == 1 {
                "Fired"@
            } else {
                "Off"@
            },
        ),
        None => None,
    }
}

/// The altitude in metres; below the sea it gets a minus sign.
pub open spec fn altitude_text(q: Option<Quantity>, below: bool) -> Option<Seq<char>> {
    match q {
        Some(a) => Some(sign(below) + signed_whole(a) + " m"@),
        None => None,
    }
}

/// The altitude is below the sea.
pub open spec fn below_sea(f: Seq<FieldView>) -> bool {
    match value_of_tag(f, GPS_ALTITUDE_REF) {
        Some(ValueView::Byte(b)) => b.len() > 0 && b[0] == 1,
        _ => false,
    }
}

/// The names of the months.
pub const MONTHS: [&'static str; 12] = [
    "Jan",
    "Feb",
    "Mar",
    "Apr",
    "May",
    "Jun",
    "Jul",
    "Aug",
    "Sep",
    "Oct",
    "Nov",
    "Dec",
];

/// The first place at or after `i` that holds a colon or a space; the length of `s` where none
/// does.
pub open spec fn date_break(s: Seq<char>, i: int) -> int
    decreases s.len() - i,
{
    if i < 0 || i >= s.len() {
        s.len() as int
    } else if s[i] == ':' || s[i] == ' ' {
        i
    } else {
        date_break(s, i + 1)
    }
}

/// The parts of a date between colons and spaces.
pub open spec fn date_parts(s: Seq<char>) -> Seq<Seq<char>>
    decreases s.len(),
{
    let e = date_break(s, 0);
    if 0 <= e < s.len() {
        seq![s.take(e)] + date_parts(s.skip(e + 1))
    } else {
        seq![s]
    }
}

/// "2025:08:14 19:02:11" as "14 Aug 2025, 19:02"; a text that is no such date as it is.
pub open spec fn date_text(s: Seq<char>) -> Seq<char> {
    let p = date_parts(s);
    match unsigned(p[1], 12) {
        Some(m) => if p.len() >= 5 && m >= 1 {
            strip_start(p[2], '0') + " "@ + MONTHS@[m - 1]@ + " "@ + p[0] + ", "@ + p[3] + ":"@ + p[4]
        } else {
            s
        },
        None => s,
    }
}

/// When the photo was taken.
pub open spec fn taken_text(f: Seq<FieldView>) -> Option<Seq<char>> {
    match text_of(f, DATE_TIME_ORIGINAL) {
        Some(d) => Some(date_text(d)),
        None => match text_of(f, DATE_TIME) {
            Some(d) => Some(date_text(d)),
            None => None,
        },
    }
}

pub open spec fn camera_rows(f: Seq<FieldView>) -> Seq<Row> {
    row("Camera"@, camera_name(text_of(f, MAKE), text_of(f, MODEL))) + row(
        "Lens"@,
        text_of(f, LENS_MODEL),
    )
}

pub open spec fn exposure_rows(f: Seq<FieldView>) -> Seq<Row> {
    row("Shutter"@, shutter_text(number_of(f, EXPOSURE_TIME))) + row(
        "Aperture"@,
        aperture_text(number_of(f, F_NUMBER)),
    ) + row("ISO"@, iso_text(number_of(f, SENSITIVITY))) + row(
        "Focal length"@,
        focal_text(number_of(f, FOCAL_LENGTH), number_of(f, FOCAL_LENGTH_35)),
    ) + row("Exposure comp."@, bias_text(number_of(f, EXPOSURE_BIAS))) + row(
        "Flash"@,
        flash_text(number_of(f, FLASH)),
    )
}

/// Where the photo was taken; `position` is the text for its coordinates, where it has any.
pub open spec fn place_rows(f: Seq<FieldView>, position: Option<Seq<char>>) -> Seq<Row> {
    match position {
        Some(p) => row("Position"@, Some(p)) + row(
            "Altitude"@,
            altitude_text(number_of(f, GPS_ALTITUDE), below_sea(f)),
        ),
        None => seq![],
    }
}

pub open spec fn other_rows(f: Seq<FieldView>) -> Seq<Row> {
    row("Software"@, text_of(f, SOFTWARE)) + row("Artist"@, text_of(f, ARTIST)) + row(
        "Copyright"@,
        text_of(f, COPYRIGHT),
    )
}

/// A section, unless it has no rows.
pub open spec fn section(title: Seq<char>, rows: Seq<Row>) -> Seq<(Seq<char>, Seq<Row>)> {
    if rows.len() == 0 {
        seq![]
    } else {
        seq![(title, rows)]
    }
}

/// The summary of a photo's fields: its sections, without those that have nothing to say.
pub open spec fn summary_of(f: Seq<FieldView>, position: Option<Seq<char>>) -> Seq<
    (Seq<char>, Seq<Row>),
> {
    section("CAMERA"@, camera_rows(f)) + section("EXPOSURE"@, exposure_rows(f)) + section(
        "DATE"@,
        row("Taken"@, taken_text(f)),
    ) + section("LOCATION"@, place_rows(f, position)) + section("OTHER"@, other_rows(f))
}

/// A section of the summary: its title and its rows.
pub struct Section {
    pub title: &'static str,
    pub rows: Vec<(&'static str, String)>,
}

/// The sections as views.
pub open spec fn sections_view(v: Seq<Section>) -> Seq<(Seq<char>, Seq<Row>)> {
    v.map_values(|s: Section| (s.title@, rows_view(s.rows@)))
}

fn find_date_break(s: &[char]) -> (r: usize)
    ensures
        r == date_break(s@, 0),
        r <= s@.len(),
{
    let mut k: usize = 0;
    while k < s.len() && !(s[k] == ':' || s[k] == ' ')
        invariant
            k <= s@.len(),
            date_break(s@, 0) == date_break(s@, k as int),
        decreases s.len() - k,
    {
        k = k + 1;
    }
    k
}

fn split_date(s: &[char]) -> (r: Vec<String>)
    ensures
        views(r@) == date_parts(s@),
{
    let mut out: Vec<String> = Vec::new();
    let mut rest = s;
    let ghost whole = date_parts(s@);
    assert(views(out@) + whole == whole);
    loop
        invariant_except_break
            views(out@) + date_parts(rest@) == whole,
        ensures
            views(out@) == whole,
        decreases rest@.len(),
    {
        let e: usize = find_date_break(rest);
        let ghost had = views(out@);
        let piece = part(rest, 0, e);
        out.push(string_of(piece));
        assert(views(out@) == had.push(piece@));
        if e >= rest.len() {
            assert(piece@ == rest@);
            assert(views(out@) == had + seq![rest@]);
            break;
        }
        let next = part(rest, e + 1, rest.len());
        assert(next@ == rest@.skip(e + 1));
        assert(piece@ == rest@.take(e as int));
        assert(views(out@) + date_parts(next@) == had + (seq![piece@] + date_parts(next@)));
        rest = next;
    }
    out
}

/// "2025:08:14 19:02:11" as "14 Aug 2025, 19:02".
pub fn pretty_date(s: &str) -> (r: String)
    ensures
        r@ == date_text(s@),
{
    let chars = chars_of(s);
    let p = split_date(&chars);
    let ghost parts = date_parts(s@);
    assert(parts.len() == p@.len());
    if p.len() < 5 {
        return string_of(&chars);
    }
    assert(parts[0] == p@[0]@ && parts[1] == p@[1]@ && parts[2] == p@[2]@ && parts[3] == p@[3]@
        && parts[4] == p@[4]@);
    let month = chars_of(p[1].as_str());
    match parse_unsigned(&month, 12) {
        Some(m) => {
            if m == 0 {
                return string_of(&chars);
            }
            let day = chars_of(p[2].as_str());
            let mut out = string_of(stripped_start(&day, '0'));
            out.append(" ");
            out.append(MONTHS[m as usize - 1]);
            out.append(" ");
            out.append(p[0].as_str());
            out.append(", ");
            out.append(p[3].as_str());
            out.append(":");
            out.append(p[4].as_str());
            out
        },
        None => string_of(&chars),
    }
}

fn push_row(out: &mut Vec<(&'static str, String)>, label: &'static str, value: Option<String>)
    ensures
        rows_view(final(out)@) == rows_view(old(out)@) + row(
            label@,
            crate::preset::opt_view(value),
        ),
{
    let ghost before = rows_view(out@);
    let ghost more = row(label@, crate::preset::opt_view(value));
    if let Some(v) = value {
        out.push((label, v));
    }
    assert(rows_view(out@) =~= before + more);
}

fn push_section(out: &mut Vec<Section>, title: &'static str, rows: Vec<(&'static str, String)>)
    ensures
        sections_view(final(out)@) == sections_view(old(out)@) + section(title@, rows_view(rows@)),
{
    let ghost before = sections_view(out@);
    let ghost more = section(title@, rows_view(rows@));
    if rows.len() > 0 {
        out.push(Section { title, rows });
    }
    assert(sections_view(out@) =~= before + more);
}

fn name_of_camera(make: Option<String>, model: Option<String>) -> (r: Option<String>)
    ensures
        crate::preset::opt_view(r) == camera_name(
            crate::preset::opt_view(make),
            crate::preset::opt_view(model),
        ),
{
    match (make, model) {
        (Some(a), Some(b)) => {
            let low = chars_of(lowercase(b.as_str()).as_str());
            let start = lowercase(a.as_str());
            if crate::text::begins_with(&low, start.as_str()) {
                Some(b)
            } else {
                let mut name = a;
                name.append(" ");
                name.append(b.as_str());
                Some(name)
            }
        },
        (None, Some(b)) => Some(b),
        (Some(a), None) => Some(a),
        (None, None) => None,
    }
}

fn is_positive(q: &Quantity) -> (r: bool)
    ensures
        r == positive(*q),
{
    !q.negative && q.n > 0
}

fn shutter(q: Option<Quantity>) -> (r: Option<String>)
    requires
        q matches Some(x) ==> x.d > 0,
    ensures
        crate::preset::opt_view(r) == shutter_text(q),
{
    match q {
        Some(t) => {
            if !is_positive(&t) {
                None
            } else if t.n < t.d {
                let mut out = "1/".to_owned();
                push_decimal(&mut out, whole_reciprocal(divide(t.n, t.d)));
                out.append(" s");
                Some(out)
            } else {
                let mut out = String::new();
                push_ratio(&mut out, t.n, t.d);
                assert(out@ == ratio_text(t.n as nat, t.d as nat));
                out.append(" s");
                Some(out)
            }
        },
        None => None,
    }
}

fn aperture(q: Option<Quantity>) -> (r: Option<String>)
    requires
        q matches Some(x) ==> x.d > 0,
    ensures
        crate::preset::opt_view(r) == aperture_text(q),
{
    match q {
        Some(f) => {
            if is_positive(&f) {
                let mut out = "f/".to_owned();
                push_ratio(&mut out, f.n, f.d);
                Some(out)
            } else {
                None
            }
        },
        None => None,
    }
}

fn push_sign(out: &mut String, negative: bool)
    ensures
        final(out)@ == old(out)@ + sign(negative),
{
    if negative {
        out.append("-");
    } else {
        out.append("");
    }
}

fn iso(q: Option<Quantity>) -> (r: Option<String>)
    requires
        q matches Some(x) ==> x.d > 0,
    ensures
        crate::preset::opt_view(r) == iso_text(q),
{
    match q {
        Some(i) => {
            let mut out = String::new();
            push_sign(&mut out, i.negative);
            push_whole(&mut out, i.n, i.d);
            assert(out@ =~= signed_whole(i));
            Some(out)
        },
        None => None,
    }
}

fn focal_length(q: Option<Quantity>, equivalent: Option<Quantity>) -> (r: Option<String>)
    requires
        q matches Some(x) ==> x.d > 0,
        equivalent matches Some(x) ==> x.d > 0,
    ensures
        crate::preset::opt_view(r) == focal_text(q, equivalent),
{
    match q {
        Some(m) => {
            if !is_positive(&m) {
                return None;
            }
            let mut out = String::new();
            push_ratio(&mut out, m.n, m.d);
            assert(out@ == ratio_text(m.n as nat, m.d as nat));
            out.append(" mm");
            let ghost so_far = out@;
            match equivalent {
                Some(e) => {
                    if is_positive(&e) {
                        out.append(" (");
                        push_whole(&mut out, e.n, e.d);
                        out.append(" mm equiv.)");
                    } else {
                        out.append("");
                    }
                },
                None => {
                    out.append("");
                },
            }
            assert(out@ =~= so_far + equivalent_text(equivalent));
            Some(out)
        },
        None => None,
    }
}

fn bias(q: Option<Quantity>) -> (r: Option<String>)
    requires
        q matches Some(x) ==> x.d > 0,
    ensures
        crate::preset::opt_view(r) == bias_text(q),
{
    match q {
        Some(e) => {
            if 100 * e.n as u64 > e.d as u64 {
                let mut out = if e.negative {
                    "-".to_owned()
                } else {
                    "+".to_owned()
                };
                push_ratio(&mut out, e.n, e.d);
                out.append(" EV");
                Some(out)
            } else {
                None
            }
        },
        None => None,
    }
}

fn flash(q: Option<Quantity>) -> (r: Option<String>)
    requires
        q matches Some(x) ==> x.d > 0,
    ensures
        crate::preset::opt_view(r) == flash_text(q),
{
    match q {
        Some(f) => {
            if !f.negative && (f.n / f.d) % 2 == 1 {
                Some("Fired".to_owned())
            } else {
                Some("Off".to_owned())
            }
        },
        None => None,
    }
}

fn altitude(q: Option<Quantity>, below: bool) -> (r: Option<String>)
    requires
        q matches Some(x) ==> x.d > 0,
    ensures
        crate::preset::opt_view(r) == altitude_text(q, below),
{
    match q {
        Some(a) => {
            let mut out = String::new();
            push_sign(&mut out, below);
            let ghost first = out@;
            push_sign(&mut out, a.negative);
            push_whole(&mut out, a.n, a.d);
            assert(out@ =~= sign(below) + signed_whole(a));
            out.append(" m");
            Some(out)
        },
        None => None,
    }
}

fn is_below_sea(fields: &[Field]) -> (r: bool)
    ensures
        r == below_sea(fields_view(fields@)),
{
    match value_at(fields, GPS_ALTITUDE_REF) {
        Some(Value::Byte(b)) => b.len() > 0 && b[0] == 1,
        _ => false,
    }
}

fn taken(fields: &[Field]) -> (r: Option<String>)
    ensures
        crate::preset::opt_view(r) == taken_text(fields_view(fields@)),
{
    match text(fields, DATE_TIME_ORIGINAL) {
        Some(d) => Some(pretty_date(d.as_str())),
        None => match text(fields, DATE_TIME) {
            Some(d) => Some(pretty_date(d.as_str())),
            None => None,
        },
    }
}

fn exposure(fields: &[Field]) -> (r: Vec<(&'static str, String)>)
    ensures
        rows_view(r@) == exposure_rows(fields_view(fields@)),
{
    let mut rows: Vec<(&'static str, String)> = Vec::new();
    assert(rows_view(rows@) =~= seq![]);
    push_row(&mut rows, "Shutter", shutter(number(fields, EXPOSURE_TIME)));
    push_row(&mut rows, "Aperture", aperture(number(fields, F_NUMBER)));
    push_row(&mut rows, "ISO", iso(number(fields, SENSITIVITY)));
    push_row(
        &mut rows,
        "Focal length",
        focal_length(number(fields, FOCAL_LENGTH), number(fields, FOCAL_LENGTH_35)),
    );
    push_row(&mut rows, "Exposure comp.", bias(number(fields, EXPOSURE_BIAS)));
    push_row(&mut rows, "Flash", flash(number(fields, FLASH)));
    assert(rows_view(rows@) =~= exposure_rows(fields_view(fields@)));
    rows
}

/// A photo's EXIF as readable sections for the Info tab. `position` is the text for the photo's
/// coordinates (see [`coordinate`]), where it has any.
pub fn summarise(fields: &[Field], position: Option<String>) -> (r: Vec<Section>)
    ensures
        sections_view(r@) == summary_of(
            fields_view(fields@),
            crate::preset::opt_view(position),
        ),
{
    let ghost f = fields_view(fields@);
    let mut out: Vec<Section> = Vec::new();
    assert(sections_view(out@) =~= seq![]);

    let mut camera: Vec<(&'static str, String)> = Vec::new();
    assert(rows_view(camera@) =~= seq![]);
    push_row(&mut camera, "Camera", name_of_camera(text(fields, MAKE), text(fields, MODEL)));
    push_row(&mut camera, "Lens", text(fields, LENS_MODEL));
    assert(rows_view(camera@) =~= camera_rows(f));
    push_section(&mut out, "CAMERA", camera);

    push_section(&mut out, "EXPOSURE", exposure(fields));

    let mut date: Vec<(&'static str, String)> = Vec::new();
    assert(rows_view(date@) =~= seq![]);
    push_row(&mut date, "Taken", taken(fields));
    assert(rows_view(date@) =~= row("Taken"@, taken_text(f)));
    push_section(&mut out, "DATE", date);

    let mut place: Vec<(&'static str, String)> = Vec::new();
    assert(rows_view(place@) =~= seq![]);
    let ghost at = crate::preset::opt_view(position);
    if position.is_some() {
        push_row(&mut place, "Position", position);
        push_row(
            &mut place,
            "Altitude",
            altitude(number(fields, GPS_ALTITUDE), is_below_sea(fields)),
        );
    }
    assert(rows_view(place@) =~= place_rows(f, at));
    push_section(&mut out, "LOCATION", place);

    let mut other: Vec<(&'static str, String)> = Vec::new();
    assert(rows_view(other@) =~= seq![]);
    push_row(&mut other, "Software", text(fields, SOFTWARE));
    push_row(&mut other, "Artist", text(fields, ARTIST));
    push_row(&mut other, "Copyright", text(fields, COPYRIGHT));
    assert(rows_view(other@) =~= other_rows(f));
    push_section(&mut out, "OTHER", other);

    assert(sections_view(out@) =~= summary_of(f, at));
    out
}

/// The fields of the main image.
pub open spec fn main_fields(f: Seq<FieldView>) -> Seq<FieldView> {
    f.filter(|x: FieldView| x.ifd == 0)
}

/// The fields of the main image.
pub fn of_main_image(fields: Vec<Field>) -> (r: Vec<Field>)
    ensures
        fields_view(r@) == main_fields(fields_view(fields@)),
{
    let ghost all = fields_view(fields@);
    let ghost keep = |x: FieldView| x.ifd == 0;
    let mut out: Vec<Field> = Vec::new();
    reveal(Seq::filter);
    assert(all.take(0) == Seq::<FieldView>::empty());
    for f in it: fields.into_iter()
        invariant
            it.seq() == fields@,
            all == fields_view(fields@),
            keep == (|x: FieldView| x.ifd == 0),
            fields_view(out@) == all.take(it.index()).filter(keep),
    {
        let ghost i = it.index();
        let ghost had = fields_view(out@);
        assert(all.take(i + 1).drop_last() == all.take(i));
        assert(all.take(i + 1).last() == field_view(f));
        reveal(Seq::filter);
        if f.ifd_num.0 == 0 {
            out.push(f);
            assert(fields_view(out@) == had.push(all[i]));
        }
    }
    assert(all.take(all.len() as int) == all);
    out
}

/// The fields to summarise of an image file that is no camera RAW; none where it has no readable
/// metadata.
pub fn summary_fields(bytes: &[u8]) -> (r: Vec<Field>)
    ensures
        fields_view(r@) == match container_fields(bytes@) {
            Some(all) => main_fields(all),
            None => seq![],
        },
{
    match read_container(bytes) {
        Some((f, _)) => of_main_image(f),
        None => {
            let none: Vec<Field> = Vec::new();
            assert(fields_view(none@) =~= seq![]);
            none
        },
    }
}

/// One of the two coordinates of a position.
#[derive(Clone, Copy, PartialEq, Eq, Debug, Structural)]
pub enum Axis {
    Latitude,
    Longitude,
}

/// The tags of a coordinate and of its hemisphere.
pub open spec fn axis_tags(a: Axis) -> (TagView, TagView) {
    match a {
        Axis::Latitude => (GPS_LATITUDE, GPS_LATITUDE_REF),
        Axis::Longitude => (GPS_LONGITUDE, GPS_LONGITUDE_REF),
    }
}

/// Degrees, minutes and seconds of a coordinate, as far as they are there, and whether it lies
/// south or west.
pub open spec fn coordinate_of(f: Seq<FieldView>, a: Axis) -> Option<(Seq<(u32, u32)>, bool)> {
    let (value, hemisphere) = axis_tags(a);
    match value_of_tag(f, value) {
        Some(ValueView::Rational(dms)) => Some(
            (
                if dms.len() <= 3 {
                    dms
                } else {
                    dms.take(3)
                },
                text_of(f, hemisphere) == Some("S"@) || text_of(f, hemisphere) == Some("W"@),
            ),
        ),
        _ => None,
    }
}

/// Degrees, minutes and seconds of a coordinate as ratios, and whether it lies south or west.
pub fn coordinate(fields: &[Field], a: Axis) -> (r: Option<(Vec<(u32, u32)>, bool)>)
    ensures
        match r {
            Some((dms, negative)) => coordinate_of(fields_view(fields@), a) == Some((dms@, negative)),
            None => coordinate_of(fields_view(fields@), a) is None,
        },
{
    let (value, hemisphere) = match a {
        Axis::Latitude => (GPS_LATITUDE, GPS_LATITUDE_REF),
        Axis::Longitude => (GPS_LONGITUDE, GPS_LONGITUDE_REF),
    };
    match value_at(fields, value) {
        Some(Value::Rational(v)) => {
            let ghost all = v@.map_values(|x: Rational| (x.num, x.denom));
            let mut dms: Vec<(u32, u32)> = Vec::new();
            let mut i: usize = 0;
            while i < v.len() && i < 3
                invariant
                    i <= v@.len(),
                    i <= 3,
                    all == v@.map_values(|x: Rational| (x.num, x.denom)),
                    dms@ == all.take(i as int),
                decreases v.len() - i,
            {
                dms.push((v[i].num, v[i].denom));
                assert(dms@ =~= all.take(i + 1));
                i = i + 1;
            }
            assert(all.len() <= 3 ==> all.take(i as int) == all);
            let negative = match text(fields, hemisphere) {
                Some(h) => text_eq(h.as_str(), "S") || text_eq(h.as_str(), "W"),
                None => false,
            };
            Some((dms, negative))
        },
        _ => None,
    }
}

// ---------------------------------------------------------------------------------------------
// What exports promise
// ---------------------------------------------------------------------------------------------

/// An export keeps every field that describes the photo; those of the position only where they are
/// to be kept.
pub proof fn law_export_keeps(f: Seq<FieldView>, size: (u32, u32), keep_gps: bool, x: FieldView)
    requires
        f.contains(x),
        is_carried(x),
        keep_gps || x.tag.0 != GPS,
    ensures
        export_fields_of(carried(f), size, keep_gps).contains(x),
{
    broadcast use vstd::seq_lib::group_filter_ensures;

    let i = choose|i: int| 0 <= i < f.len() && f[i] == x;
    assert(carried(f).contains(f[i]));
    let c = carried(f);
    let j = choose|j: int| 0 <= j < c.len() && c[j] == x;
    assert(located(c, keep_gps).contains(c[j]));
    let l = located(c, keep_gps);
    let k = choose|k: int| 0 <= k < l.len() && l[k] == x;
    assert(export_fields_of(c, size, keep_gps)[k] == x);
}

/// Every field of an export is one that it was given, or one of those that it is marked with.
pub proof fn lemma_export_origin(f: Seq<FieldView>, size: (u32, u32), keep_gps: bool, i: int)
    requires
        0 <= i < export_fields_of(carried(f), size, keep_gps).len(),
    ensures
        ({
            let x = export_fields_of(carried(f), size, keep_gps)[i];
            ||| is_carried(x) && (keep_gps || x.tag.0 != GPS)
            ||| export_marks(size).contains(x)
            ||| x == primary(EXIF_VERSION, ValueView::Undefined(encode_utf8("0232"@)))
        }),
{
    broadcast use vstd::seq_lib::group_filter_ensures;

    let c = carried(f);
    let l = located(c, keep_gps);
    let marks = export_marks(size);
    if i < l.len() {
        let pred = |x: FieldView| keep_gps || x.tag.0 != GPS;
        c.lemma_filter_pred(pred, i);
        assert(c.filter(pred).contains(l[i]));
        assert(c.contains(l[i])) by {
            lemma_filter_sub(c, pred, i);
        }
        let j = choose|j: int| 0 <= j < c.len() && c[j] == l[i];
        f.lemma_filter_pred(|x: FieldView| is_carried(x), j);
    } else if i < l.len() + marks.len() {
        assert((l + marks)[i] == marks[i - l.len()]);
        assert(marks.contains(marks[i - l.len()]));
    }
}

proof fn lemma_filter_sub(s: Seq<FieldView>, pred: spec_fn(FieldView) -> bool, i: int)
    requires
        0 <= i < s.filter(pred).len(),
    ensures
        s.contains(s.filter(pred)[i]),
    decreases s.len(),
{
    reveal(Seq::filter);
    if s.len() > 0 {
        let shorter = s.drop_last();
        if i < shorter.filter(pred).len() {
            lemma_filter_sub(shorter, pred, i);
            let j = choose|j: int| 0 <= j < shorter.len() && shorter[j] == shorter.filter(pred)[i];
            assert(s[j] == s.filter(pred)[i]);
        } else {
            assert(s[s.len() - 1] == s.filter(pred)[i]);
        }
    }
}

/// An export is upright and of its own: it has no orientation and no maker notes, it names this
/// software, sRGB and its own size and nothing else for them, and where the position is not to be
/// kept, it has no field of it.
pub proof fn law_export_rewrites(f: Seq<FieldView>, size: (u32, u32), keep_gps: bool, i: int)
    requires
        0 <= i < export_fields_of(carried(f), size, keep_gps).len(),
    ensures
        ({
            let x = export_fields_of(carried(f), size, keep_gps)[i];
            &&& x.tag != ORIENTATION
            &&& x.tag != MAKER_NOTE
            &&& x.tag == SOFTWARE ==> x.value == ValueView::Ascii(seq![encode_utf8("bp_photos"@)])
            &&& x.tag == COLOR_SPACE ==> x.value == ValueView::Short(seq![1u16])
            &&& x.tag == PIXEL_X_DIMENSION ==> x.value == ValueView::Long(seq![size.0])
            &&& x.tag == PIXEL_Y_DIMENSION ==> x.value == ValueView::Long(seq![size.1])
            &&& !keep_gps ==> x.tag.0 != GPS
            &&& x.ifd == 0
        }),
{
    lemma_export_origin(f, size, keep_gps, i);
    let x = export_fields_of(carried(f), size, keep_gps)[i];
    let marks = export_marks(size);
    if marks.contains(x) {
        let k = choose|k: int| 0 <= k < marks.len() && marks[k] == x;
        assert(k == 0 || k == 1 || k == 2 || k == 3);
    }
}

/// Every export is marked: it names the software, the colour space, its size and a version.
pub proof fn law_export_is_marked(f: Seq<FieldView>, size: (u32, u32), keep_gps: bool)
    ensures
        has_tag(export_fields_of(f, size, keep_gps), SOFTWARE),
        has_tag(export_fields_of(f, size, keep_gps), COLOR_SPACE),
        has_tag(export_fields_of(f, size, keep_gps), PIXEL_X_DIMENSION),
        has_tag(export_fields_of(f, size, keep_gps), PIXEL_Y_DIMENSION),
        has_tag(export_fields_of(f, size, keep_gps), EXIF_VERSION),
{
    let l = located(f, keep_gps);
    let marks = export_marks(size);
    let r = export_fields_of(f, size, keep_gps);
    let n = l.len() as int;
    assert(r[n] == marks[0]);
    assert(r[n + 1] == marks[1]);
    assert(r[n + 2] == marks[2]);
    assert(r[n + 3] == marks[3]);
    if has_tag(l + marks, EXIF_VERSION) {
        assert(r == l + marks);
    } else {
        assert(r[n + 4].tag == EXIF_VERSION);
    }
}

/// Whoever reads an export finds every field that describes the photo as it was; those of the position only
/// where they were to be kept. `read` is what is read of the export of a photo with the fields `f`.
pub proof fn law_reopened_export_keeps(
    f: Seq<FieldView>,
    size: (u32, u32),
    keep_gps: bool,
    read: Seq<FieldView>,
    x: FieldView,
)
    requires
        read.to_multiset() == export_fields_of(carried(f), size, keep_gps).to_multiset(),
        f.contains(x),
        is_carried(x),
        keep_gps || x.tag.0 != GPS,
    ensures
        read.contains(x),
        carried(read).contains(x),
{
    broadcast use vstd::seq_lib::group_to_multiset_ensures;
    broadcast use vstd::seq_lib::group_filter_ensures;

    law_export_keeps(f, size, keep_gps, x);
    let wanted = export_fields_of(carried(f), size, keep_gps);
    assert(wanted.to_multiset().count(x) > 0);
    assert(read.to_multiset().count(x) > 0);
    let i = choose|i: int| 0 <= i < read.len() && read[i] == x;
    assert(carried(read).contains(read[i]));
}

/// Whoever reads an export finds it upright and of its own: no orientation and no maker notes, this
/// software, sRGB and its own size, and no position where it was not to be kept.
pub proof fn law_reopened_export_is_its_own(
    f: Seq<FieldView>,
    size: (u32, u32),
    keep_gps: bool,
    read: Seq<FieldView>,
    i: int,
)
    requires
        read.to_multiset() == export_fields_of(carried(f), size, keep_gps).to_multiset(),
        0 <= i < read.len(),
    ensures
        ({
            let x = read[i];
            &&& x.tag != ORIENTATION
            &&& x.tag != MAKER_NOTE
            &&& x.tag == SOFTWARE ==> x.value == ValueView::Ascii(seq![encode_utf8("bp_photos"@)])
            &&& x.tag == COLOR_SPACE ==> x.value == ValueView::Short(seq![1u16])
            &&& x.tag == PIXEL_X_DIMENSION ==> x.value == ValueView::Long(seq![size.0])
            &&& x.tag == PIXEL_Y_DIMENSION ==> x.value == ValueView::Long(seq![size.1])
            &&& !keep_gps ==> x.tag.0 != GPS
            &&& x.ifd == 0
        }),
{
    broadcast use vstd::seq_lib::group_to_multiset_ensures;

    let wanted = export_fields_of(carried(f), size, keep_gps);
    let x = read[i];
    assert(read.contains(x));
    assert(read.to_multiset().count(x) > 0);
    assert(wanted.contains(x));
    let k = choose|k: int| 0 <= k < wanted.len() && wanted[k] == x;
    law_export_rewrites(f, size, keep_gps, k);
}

/// A text without the characters that set off the parts of a date.
pub open spec fn is_date_part(s: Seq<char>) -> bool {
    !s.contains(':') && !s.contains(' ')
}

proof fn lemma_date_part(s: Seq<char>, mark: char, rest: Seq<char>)
    requires
        is_date_part(s),
        mark == ':' || mark == ' ',
    ensures
        date_parts(s + seq![mark] + rest) == seq![s] + date_parts(rest),
        date_parts(s) == seq![s],
{
    let t = s + seq![mark] + rest;
    let n = s.len() as int;
    assert forall|j: int| 0 <= j < n implies #[trigger] t[j] != ':' && t[j] != ' ' by {
        assert(t[j] == s[j]);
        assert(s.contains(s[j]));
    }
    assert(t[n] == mark);
    lemma_date_break(t, 0, n);
    assert(t.take(n) =~= s);
    assert(t.skip(n + 1) =~= rest);
    assert forall|j: int| 0 <= j < n implies #[trigger] s[j] != ':' && s[j] != ' ' by {
        assert(s.contains(s[j]));
    }
    lemma_date_break(s, 0, n);
}

proof fn lemma_date_break(s: Seq<char>, i: int, k: int)
    requires
        0 <= i <= k <= s.len(),
        forall|j: int| i <= j < k ==> #[trigger] s[j] != ':' && s[j] != ' ',
        k < s.len() ==> s[k] == ':' || s[k] == ' ',
    ensures
        date_break(s, i) == k,
    decreases k - i,
{
    if i < k {
        lemma_date_break(s, i + 1, k);
    }
}

/// A date as EXIF writes it is shown with the day, the name of the month, the year, the hour and the minute, each taken
/// from its own place; a zero before the day is left out, and the seconds are.
pub proof fn law_date_is_shown(
    year: Seq<char>,
    month: Seq<char>,
    day: Seq<char>,
    hour: Seq<char>,
    minute: Seq<char>,
    second: Seq<char>,
    m: nat,
)
    requires
        is_date_part(year) && is_date_part(month) && is_date_part(day),
        is_date_part(hour) && is_date_part(minute) && is_date_part(second),
        unsigned(month, 12) == Some(m),
        1 <= m,
    ensures
        date_text(
            year + seq![':'] + (month + seq![':'] + (day + seq![' '] + (hour + seq![':'] + (minute + seq![':'] + second)))),
        ) == strip_start(day, '0') + " "@ + MONTHS@[m - 1]@ + " "@ + year + ", "@ + hour + ":"@ + minute,
{
    let e = minute + seq![':'] + second;
    let d = hour + seq![':'] + e;
    let c = day + seq![' '] + d;
    let b = month + seq![':'] + c;
    let a = year + seq![':'] + b;
    lemma_date_part(year, ':', b);
    lemma_date_part(month, ':', c);
    lemma_date_part(day, ' ', d);
    lemma_date_part(hour, ':', e);
    lemma_date_part(minute, ':', second);
    lemma_date_part(second, ':', second);
    let p = date_parts(a);
    assert(p =~= seq![year, month, day, hour, minute, second]);
}

/// What a RAW file says of its photo stands in the fields that exports carry, each under its own tag.
pub proof fn law_raw_fields_have_their_tags(i: RawInfo)
    ensures
        raw_fields(i).contains(text_field(MAKE, i.make)),
        raw_fields(i).contains(text_field(MODEL, i.model)),
        i.date_time_original matches Some(s) ==> raw_fields(i).contains(text_field(DATE_TIME_ORIGINAL, s)),
        i.lens_model matches Some(s) ==> raw_fields(i).contains(text_field(LENS_MODEL, s)),
        i.artist matches Some(s) ==> raw_fields(i).contains(text_field(ARTIST, s)),
        i.copyright matches Some(s) ==> raw_fields(i).contains(text_field(COPYRIGHT, s)),
        i.exposure_time matches Some(r) ==> raw_fields(i).contains(ratio_field(EXPOSURE_TIME, seq![r])),
        i.fnumber matches Some(r) ==> raw_fields(i).contains(ratio_field(F_NUMBER, seq![r])),
        i.focal_length matches Some(r) ==> raw_fields(i).contains(ratio_field(FOCAL_LENGTH, seq![r])),
        i.exposure_bias matches Some(r) ==> raw_fields(i).contains(
            primary(EXPOSURE_BIAS, ValueView::SRational(seq![r])),
        ),
        i.iso_speed_ratings matches Some(n) ==> raw_fields(i).contains(primary(SENSITIVITY, ValueView::Short(seq![n]))),
        i.flash matches Some(n) ==> raw_fields(i).contains(primary(FLASH, ValueView::Short(seq![n]))),
        i.gps matches Some(g) ==> forall|k: int|
            0 <= k < gps_fields(g).len() ==> raw_fields(i).contains(#[trigger] gps_fields(g)[k]),
{
    lemma_raw_texts(i);
    lemma_raw_numbers(i);
    let (t, n) = (raw_texts(i), raw_numbers(i));
    let l = match i.lens_spec {
        Some(spec) => seq![ratio_field(LENS_SPECIFICATION, spec@)],
        None => seq![],
    };
    let g = match i.gps {
        Some(g) => gps_fields(g),
        None => seq![],
    };
    assert(raw_fields(i) == t + n + l + g);
    assert forall|x: FieldView| t.contains(x) || n.contains(x) || g.contains(x) implies #[trigger] raw_fields(
        i,
    ).contains(x) by {
        lemma_in_sum(t + n + l, g, x);
        lemma_in_sum(t + n, l, x);
        lemma_in_sum(t, n, x);
    }
    if let Some(gps) = i.gps {
        assert forall|k: int| 0 <= k < gps_fields(gps).len() implies raw_fields(i).contains(
            #[trigger] gps_fields(gps)[k],
        ) by {
            assert(g.contains(g[k]));
        }
    }
}

/// What is in one of two lists is in both together.
proof fn lemma_in_sum(a: Seq<FieldView>, b: Seq<FieldView>, x: FieldView)
    ensures
        a.contains(x) || b.contains(x) ==> (a + b).contains(x),
{
    if a.contains(x) {
        let k = a.index_of(x);
        assert((a + b)[k] == x);
    } else if b.contains(x) {
        let k = b.index_of(x);
        assert((a + b)[a.len() + k] == x);
    }
}

/// The texts of a RAW file have their tags.
proof fn lemma_raw_texts(i: RawInfo)
    ensures
        raw_texts(i).contains(text_field(MAKE, i.make)),
        raw_texts(i).contains(text_field(MODEL, i.model)),
        i.date_time_original matches Some(s) ==> raw_texts(i).contains(text_field(DATE_TIME_ORIGINAL, s)),
        i.lens_model matches Some(s) ==> raw_texts(i).contains(text_field(LENS_MODEL, s)),
        i.artist matches Some(s) ==> raw_texts(i).contains(text_field(ARTIST, s)),
        i.copyright matches Some(s) ==> raw_texts(i).contains(text_field(COPYRIGHT, s)),
{
    broadcast use vstd::seq_lib::group_seq_properties;

    assert(seq![text_field(MAKE, i.make), text_field(MODEL, i.model)][0] == text_field(MAKE, i.make));
    assert(seq![text_field(MAKE, i.make), text_field(MODEL, i.model)][1] == text_field(MODEL, i.model));
    if let Some(s) = i.date_time_original {
        assert(if_text(DATE_TIME_ORIGINAL, i.date_time_original)[0] == text_field(DATE_TIME_ORIGINAL, s));
    }
    if let Some(s) = i.lens_model {
        assert(if_text(LENS_MODEL, i.lens_model)[0] == text_field(LENS_MODEL, s));
    }
    if let Some(s) = i.artist {
        assert(if_text(ARTIST, i.artist)[0] == text_field(ARTIST, s));
    }
    if let Some(s) = i.copyright {
        assert(if_text(COPYRIGHT, i.copyright)[0] == text_field(COPYRIGHT, s));
    }
}

/// The numbers of a RAW file have their tags.
proof fn lemma_raw_numbers(i: RawInfo)
    ensures
        i.exposure_time matches Some(r) ==> raw_numbers(i).contains(ratio_field(EXPOSURE_TIME, seq![r])),
        i.fnumber matches Some(r) ==> raw_numbers(i).contains(ratio_field(F_NUMBER, seq![r])),
        i.focal_length matches Some(r) ==> raw_numbers(i).contains(ratio_field(FOCAL_LENGTH, seq![r])),
        i.exposure_bias matches Some(r) ==> raw_numbers(i).contains(
            primary(EXPOSURE_BIAS, ValueView::SRational(seq![r])),
        ),
        i.iso_speed_ratings matches Some(n) ==> raw_numbers(i).contains(primary(SENSITIVITY, ValueView::Short(seq![n]))),
        i.flash matches Some(n) ==> raw_numbers(i).contains(primary(FLASH, ValueView::Short(seq![n]))),
{
    broadcast use vstd::seq_lib::group_seq_properties;

    if let Some(r) = i.exposure_time {
        assert(if_ratio(EXPOSURE_TIME, i.exposure_time)[0] == ratio_field(EXPOSURE_TIME, seq![r]));
    }
    if let Some(r) = i.fnumber {
        assert(if_ratio(F_NUMBER, i.fnumber)[0] == ratio_field(F_NUMBER, seq![r]));
    }
    if let Some(r) = i.focal_length {
        assert(if_ratio(FOCAL_LENGTH, i.focal_length)[0] == ratio_field(FOCAL_LENGTH, seq![r]));
    }
    if let Some(r) = i.exposure_bias {
        assert(if_signed(EXPOSURE_BIAS, i.exposure_bias)[0] == primary(EXPOSURE_BIAS, ValueView::SRational(seq![r])));
    }
    if let Some(n) = i.iso_speed_ratings {
        assert(if_short(SENSITIVITY, i.iso_speed_ratings)[0] == primary(SENSITIVITY, ValueView::Short(seq![n])));
    }
    if let Some(n) = i.flash {
        assert(if_short(FLASH, i.flash)[0] == primary(FLASH, ValueView::Short(seq![n])));
    }
}

/// What is in one of two lists of rows is in both together.
proof fn lemma_row_in_sum(a: Seq<Row>, b: Seq<Row>, x: Row)
    ensures
        a.contains(x) || b.contains(x) ==> (a + b).contains(x),
{
    if a.contains(x) {
        let k = a.index_of(x);
        assert((a + b)[k] == x);
    } else if b.contains(x) {
        let k = b.index_of(x);
        assert((a + b)[a.len() + k] == x);
    }
}

proof fn lemma_exposure_rows(f: Seq<FieldView>, x: Row)
    requires
        ({
            ||| row("Shutter"@, shutter_text(number_of(f, EXPOSURE_TIME))).contains(x)
            ||| row("Aperture"@, aperture_text(number_of(f, F_NUMBER))).contains(x)
            ||| row("ISO"@, iso_text(number_of(f, SENSITIVITY))).contains(x)
            ||| row("Focal length"@, focal_text(number_of(f, FOCAL_LENGTH), number_of(f, FOCAL_LENGTH_35))).contains(x)
        }),
    ensures
        exposure_rows(f).contains(x),
{
    let a = row("Shutter"@, shutter_text(number_of(f, EXPOSURE_TIME)));
    let b = row("Aperture"@, aperture_text(number_of(f, F_NUMBER)));
    let c = row("ISO"@, iso_text(number_of(f, SENSITIVITY)));
    let d = row("Focal length"@, focal_text(number_of(f, FOCAL_LENGTH), number_of(f, FOCAL_LENGTH_35)));
    let e = row("Exposure comp."@, bias_text(number_of(f, EXPOSURE_BIAS)));
    let g = row("Flash"@, flash_text(number_of(f, FLASH)));
    lemma_row_in_sum(a, b, x);
    lemma_row_in_sum(a + b, c, x);
    lemma_row_in_sum(a + b + c, d, x);
    lemma_row_in_sum(a + b + c + d, e, x);
    lemma_row_in_sum(a + b + c + d + e, g, x);
}

/// The f-number of a photo is shown to the nearest tenth behind `f/`, and its sensitivity as it is.
pub proof fn law_exposure_is_shown(f: Seq<FieldView>, n: u32, d: u32, iso: u16) -> (t: nat)
    requires
        n > 0,
        d > 0,
        value_of_tag(f, F_NUMBER) == Some(ValueView::Rational(seq![(n, d)])),
        value_of_tag(f, SENSITIVITY) == Some(ValueView::Short(seq![iso])),
    ensures
        -(d as int) <= 2 * (t * d - 10 * n) <= d,
        exposure_rows(f).contains(("Aperture"@, "f/"@ + tenths_text(t))),
        exposure_rows(f).contains(("ISO"@, decimal(iso as nat))),
{
    let t = crate::double::law_ratio_is_written_to_the_tenth(n, d);
    let w = crate::double::law_ratio_is_written_to_the_whole(iso as u32, 1);
    assert(w == iso);
    let aperture = ("Aperture"@, "f/"@ + tenths_text(t));
    let sensitivity = ("ISO"@, decimal(iso as nat));
    assert(row("Aperture"@, aperture_text(number_of(f, F_NUMBER)))[0] == aperture);
    reveal_strlit("");
    assert(""@ + decimal(iso as nat) =~= decimal(iso as nat));
    assert(row("ISO"@, iso_text(number_of(f, SENSITIVITY)))[0] == sensitivity);
    lemma_exposure_rows(f, aperture);
    lemma_exposure_rows(f, sensitivity);
    t
}

/// A coordinate lies south or west exactly where its hemisphere says so; its degrees, minutes and seconds are those of
/// its own axis.
pub proof fn law_coordinate_has_its_hemisphere(f: Seq<FieldView>, a: Axis, dms: Seq<(u32, u32)>)
    requires
        dms.len() == 3,
        a == Axis::Latitude ==> value_of_tag(f, GPS_LATITUDE) == Some(ValueView::Rational(dms)),
        a == Axis::Longitude ==> value_of_tag(f, GPS_LONGITUDE) == Some(ValueView::Rational(dms)),
    ensures
        match coordinate_of(f, a) {
            Some((shown, negative)) => {
                &&& shown == dms
                &&& a == Axis::Latitude && text_of(f, GPS_LATITUDE_REF) == Some("S"@) ==> negative
                &&& a == Axis::Latitude && text_of(f, GPS_LATITUDE_REF) == Some("N"@) ==> !negative
                &&& a == Axis::Longitude && text_of(f, GPS_LONGITUDE_REF) == Some("W"@) ==> negative
                &&& a == Axis::Longitude && text_of(f, GPS_LONGITUDE_REF) == Some("E"@) ==> !negative
            },
            None => false,
        },
{
    reveal_strlit("S");
    reveal_strlit("N");
    reveal_strlit("W");
    reveal_strlit("E");
    assert("N"@[0] != "S"@[0] && "N"@[0] != "W"@[0] && "E"@[0] != "S"@[0] && "E"@[0] != "W"@[0]);
}

/// The exposure time is shown as one over the nearest whole number below a second, and in seconds to the nearest tenth from
/// a second on.
pub proof fn law_shutter_is_shown(f: Seq<FieldView>, n: u32, d: u32) -> (k: nat)
    requires
        n > 0,
        d > 0,
        value_of_tag(f, EXPOSURE_TIME) == Some(ValueView::Rational(seq![(n, d)])),
    ensures
        n < d ==> -(n as int) <= 2 * (k * n - d) <= n && exposure_rows(f).contains(
            ("Shutter"@, "1/"@ + decimal(k) + " s"@),
        ),
        n >= d ==> -(d as int) <= 2 * (k * d - 10 * n) <= d && exposure_rows(f).contains(
            ("Shutter"@, tenths_text(k) + " s"@),
        ),
{
    let rows = row("Shutter"@, shutter_text(number_of(f, EXPOSURE_TIME)));
    if n < d {
        let k = crate::double::law_fraction_is_written_below_one(n, d);
        let x = ("Shutter"@, "1/"@ + decimal(k) + " s"@);
        assert(rows[0] == x);
        lemma_exposure_rows(f, x);
        k
    } else {
        let k = crate::double::law_ratio_is_written_to_the_tenth(n, d);
        let x = ("Shutter"@, tenths_text(k) + " s"@);
        assert(rows[0] == x);
        lemma_exposure_rows(f, x);
        k
    }
}

/// The focal length is shown to the nearest tenth of a millimetre, with the equivalent one behind it where it is known.
pub proof fn law_focal_length_is_shown(f: Seq<FieldView>, n: u32, d: u32, equivalent: u16) -> (t: nat)
    requires
        n > 0,
        d > 0,
        equivalent > 0,
        value_of_tag(f, FOCAL_LENGTH) == Some(ValueView::Rational(seq![(n, d)])),
        value_of_tag(f, FOCAL_LENGTH_35) == Some(ValueView::Short(seq![equivalent])),
    ensures
        -(d as int) <= 2 * (t * d - 10 * n) <= d,
        exposure_rows(f).contains(
            ("Focal length"@, tenths_text(t) + " mm"@ + (" ("@ + decimal(equivalent as nat) + " mm equiv.)"@)),
        ),
{
    let t = crate::double::law_ratio_is_written_to_the_tenth(n, d);
    let w = crate::double::law_ratio_is_written_to_the_whole(equivalent as u32, 1);
    assert(w == equivalent);
    let x = ("Focal length"@, tenths_text(t) + " mm"@ + (" ("@ + decimal(equivalent as nat) + " mm equiv.)"@));
    assert(row("Focal length"@, focal_text(number_of(f, FOCAL_LENGTH), number_of(f, FOCAL_LENGTH_35)))[0] == x);
    lemma_exposure_rows(f, x);
    t
}

} // verus!
