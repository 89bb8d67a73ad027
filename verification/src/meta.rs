//! Shooting metadata read from a JPEG's EXIF, formatted for display.
use crate::makernote::{color_profile, color_profile_of};
use crate::tags::{
    number_view, ExifData, ExifView, FieldNumber, FieldValue, FieldView, NumberView,
};
use crate::text::{
    chars_of, decimal, decimal_of, from_utf8_lossy, has_prefix, lowercase, replace,
    replaced, starts_with, text_of, text_view, to_lowercase, trim, trim_of, utf8_lossy,
};
use vstd::prelude::*;
use vstd::string::*;

verus! {

pub struct Meta {
    /// (label, value) rows, in display order. Missing fields are left out.
    pub rows: Vec<(&'static str, String)>,
}

/// How the exposure settings are displayed. What is not known has no row, whatever its text.
pub struct Exposure {
    pub focal_length: String,
    pub aperture: String,
    pub shutter: String,
    pub iso: String,
    pub bias: String,
}

/// Rows as texts.
pub open spec fn row_texts(rows: Seq<(&'static str, String)>) -> Seq<(Seq<char>, Seq<char>)> {
    rows.map_values(|r: (&'static str, String)| (r.0@, r.1@))
}

impl View for Meta {
    type V = Seq<(Seq<char>, Seq<char>)>;

    open spec fn view(&self) -> Seq<(Seq<char>, Seq<char>)> {
        row_texts(self.rows@)
    }
}

/// The first text of a field, without blanks around it; none if that is empty.
pub open spec fn ascii_of(field: Option<FieldView>) -> Option<Seq<char>> {
    match field {
        Some(FieldView::Ascii(parts)) => if parts.len() > 0 && trim_of(
            utf8_lossy(parts[0]),
        ).len() > 0 {
            Some(trim_of(utf8_lossy(parts[0])))
        } else {
            None
        },
        _ => None,
    }
}

/// The camera's name. Many cameras repeat the make in the model ("Canon EOS R5").
pub open spec fn camera_of(make: Option<Seq<char>>, model: Option<Seq<char>>) -> Option<Seq<char>> {
    match (make, model) {
        (Some(make), Some(model)) => if starts_with(lowercase(model), lowercase(make)) {
            Some(model)
        } else {
            Some(make + " "@ + model)
        },
        (Some(make), None) => Some(make),
        (None, model) => model,
    }
}

/// The place of the first blank.
pub open spec fn first_space(v: Seq<char>) -> Option<int>
    decreases v.len(),
{
    if v.len() == 0 {
        None
    } else if v[0] == ' ' {
        Some(0)
    } else {
        match first_space(v.drop_first()) {
            Some(i) => Some(i + 1),
            None => None,
        }
    }
}

/// A date for display: the colons before the first blank become dashes.
pub open spec fn date_of(v: Seq<char>) -> Seq<char> {
    match first_space(v) {
        Some(i) => replaced(v.take(i), ':', '-') + v.skip(i),
        None => v,
    }
}

/// A row, where there is something to show in it.
pub open spec fn row(label: Seq<char>, value: Option<Seq<char>>) -> Seq<(Seq<char>, Seq<char>)> {
    match value {
        Some(v) => seq![(label, v)],
        None => Seq::empty(),
    }
}

/// The date a picture was taken, for display.
pub open spec fn taken_of(exif: ExifView) -> Option<Seq<char>> {
    match ascii_of(exif.taken) {
        Some(v) => Some(date_of(v)),
        None => None,
    }
}

/// Whether a field holds a number: its first fraction has a denominator, or it is of integers.
pub open spec fn has_value(field: Option<NumberView>) -> bool {
    match field {
        Some(NumberView::Rational(v)) => v.len() > 0 && v[0].1 != 0,
        Some(NumberView::SRational(v)) => v.len() > 0 && v[0].1 != 0,
        Some(NumberView::Other(n)) => n is Some,
        None => false,
    }
}

/// Whether a field holds a number above zero.
pub open spec fn is_positive(field: Option<NumberView>) -> bool {
    has_value(field) && match field {
        Some(NumberView::Rational(v)) => v[0].0 > 0,
        Some(NumberView::SRational(v)) => v[0].0 > 0 && v[0].1 > 0 || v[0].0 < 0 && v[0].1 < 0,
        Some(NumberView::Other(n)) => n != Some(0u32),
        None => false,
    }
}

/// The text of a setting that is known.
pub open spec fn setting(known: bool, text: Seq<char>) -> Option<Seq<char>> {
    if known {
        Some(text)
    } else {
        None
    }
}

/// The rows that EXIF data gives.
pub open spec fn exif_rows(exif: ExifView, shown: Exposure) -> Seq<(Seq<char>, Seq<char>)> {
    row("Camera"@, camera_of(ascii_of(exif.make), ascii_of(exif.model))) + row(
        "Lens"@,
        ascii_of(exif.lens_model),
    ) + row("Color profile"@, color_profile_of(exif)) + row(
        "Focal length"@,
        setting(has_value(exif.focal_length), shown.focal_length@),
    ) + row("Aperture"@, setting(has_value(exif.f_number), shown.aperture@)) + row(
        "Shutter"@,
        setting(is_positive(exif.exposure_time), shown.shutter@),
    ) + row("ISO"@, setting(has_value(exif.sensitivity), shown.iso@)) + row(
        "Exposure comp."@,
        setting(has_value(exif.exposure_bias), shown.bias@),
    ) + row("Taken"@, taken_of(exif))
}

/// The size row.
pub open spec fn size_text(width: nat, height: nat) -> Seq<char> {
    decimal_of(width) + " × "@ + decimal_of(height)
}

/// All rows.
pub open spec fn rows_of(exif: Option<ExifView>, shown: Exposure, width: nat, height: nat) -> Seq<
    (Seq<char>, Seq<char>),
> {
    (match exif {
        Some(e) => exif_rows(e, shown),
        None => Seq::empty(),
    }).push(("Size"@, size_text(width, height)))
}

fn ascii(field: &Option<FieldValue>) -> (r: Option<String>)
    ensures
        text_view(r) == ascii_of(crate::tags::field_view(*field)),
{
    match field {
        Some(FieldValue::Ascii(parts)) => {
            if parts.len() == 0 {
                return None;
            }
            let s = trim(from_utf8_lossy(parts[0].as_slice()).as_str());
            if s.as_str().is_empty() {
                None
            } else {
                Some(s)
            }
        },
        _ => None,
    }
}

/// Whether a field holds a number, so that it can be displayed.
pub fn known(field: &Option<FieldNumber>) -> (r: bool)
    ensures
        r == has_value(number_view(*field)),
{
    match field {
        Some(FieldNumber::Rational(v)) => v.len() > 0 && v[0].1 != 0,
        Some(FieldNumber::SRational(v)) => v.len() > 0 && v[0].1 != 0,
        Some(FieldNumber::Other(n)) => n.is_some(),
        None => false,
    }
}

/// Whether a field holds a number above zero, as an exposure time has to be.
pub fn known_positive(field: &Option<FieldNumber>) -> (r: bool)
    ensures
        r == is_positive(number_view(*field)),
{
    known(field) && match field {
        Some(FieldNumber::Rational(v)) => v[0].0 > 0,
        Some(FieldNumber::SRational(v)) => v[0].0 > 0 && v[0].1 > 0 || v[0].0 < 0 && v[0].1 < 0,
        Some(FieldNumber::Other(Some(n))) => *n != 0,
        _ => false,
    }
}

/// The text of a setting that is known.
fn shown_if(known: bool, text: &String) -> (r: Option<String>)
    ensures
        text_view(r) == setting(known, text@),
{
    if known {
        Some(text.clone())
    } else {
        None
    }
}

/// EXIF writes dates as `2026:09:14 17:02:05`; show them as `2026-09-14 17:02:05`.
pub fn date(v: &str) -> (r: String)
    ensures
        r@ == date_of(v@),
{
    let c = chars_of(v);
    let mut i: usize = 0;
    assert(v@.skip(0) =~= v@);
    while i < c.len() && c[i] != ' '
        invariant
            i <= c.len(),
            c@ == v@,
            first_space(v@) == (match first_space(v@.skip(i as int)) {
                Some(k) => Some(i + k),
                None => None,
            }),
        decreases c.len() - i,
    {
        assert(v@.skip(i as int)[0] == v@[i as int]);
        assert(v@.skip(i as int).drop_first() =~= v@.skip(i + 1));
        i += 1;
    }
    if i == c.len() {
        return v.to_owned();
    }
    assert(v@.skip(i as int)[0] == v@[i as int]);
    let mut out = replace(vstd::slice::slice_subrange(c.as_slice(), 0, i), ':', '-');
    assert(c@.subrange(0, i as int) =~= v@.take(i as int));
    let rest = text_of(c.as_slice(), i, c.len());
    assert(c@.subrange(i as int, c@.len() as int) =~= v@.skip(i as int));
    out.append(rest.as_str());
    out
}

fn camera(make: Option<String>, model: Option<String>) -> (r: Option<String>)
    ensures
        text_view(r) == camera_of(text_view(make), text_view(model)),
{
    match (make, model) {
        (Some(make), Some(model)) => {
            if has_prefix(
                to_lowercase(model.as_str()).as_str(),
                to_lowercase(make.as_str()).as_str(),
            ) {
                Some(model)
            } else {
                let mut name = make;
                name.append(" ");
                name.append(model.as_str());
                Some(name)
            }
        },
        (Some(make), None) => Some(make),
        (None, model) => model,
    }
}

/// Adds a row, where there is something to show in it.
fn add_row(rows: &mut Vec<(&'static str, String)>, label: &'static str, value: Option<String>)
    ensures
        row_texts(final(rows)@) == row_texts(old(rows)@) + row(label@, text_view(value)),
{
    match value {
        Some(v) => {
            let ghost before = row_texts(rows@);
            let entry = (label, v);
            rows.push(entry);
            assert(row_texts(rows@) =~= before + seq![(label@, v@)]);
        },
        None => {
            assert(row_texts(rows@) =~= row_texts(rows@) + Seq::empty());
        },
    }
}

impl Default for Meta {
    fn default() -> (r: Meta)
        ensures
            r@ == Seq::<(Seq<char>, Seq<char>)>::empty(),
    {
        let r = Meta { rows: Vec::new() };
        assert(r@ =~= Seq::empty());
        r
    }
}

impl Meta {
    /// The rows for a picture of the given size. `shown` holds the texts of the exposure settings of
    /// `exif`; which of them there are is read from the fields.
    pub fn from_exif(exif: Option<&ExifData>, shown: &Exposure, width: u32, height: u32) -> (r: Meta)
        ensures
            r@ == rows_of(
                match exif {
                    Some(e) => Some(e@),
                    None => None,
                },
                *shown,
                width as nat,
                height as nat,
            ),
    {
        let mut rows: Vec<(&'static str, String)> = Vec::new();
        assert(row_texts(rows@) =~= Seq::empty());
        match exif {
            Some(e) => {
                add_row(&mut rows, "Camera", camera(ascii(&e.make), ascii(&e.model)));
                add_row(&mut rows, "Lens", ascii(&e.lens_model));
                add_row(&mut rows, "Color profile", color_profile(e));
                let focal_length = shown_if(known(&e.focal_length), &shown.focal_length);
                add_row(&mut rows, "Focal length", focal_length);
                add_row(&mut rows, "Aperture", shown_if(known(&e.f_number), &shown.aperture));
                let shutter = shown_if(known_positive(&e.exposure_time), &shown.shutter);
                add_row(&mut rows, "Shutter", shutter);
                add_row(&mut rows, "ISO", shown_if(known(&e.sensitivity), &shown.iso));
                let bias = shown_if(known(&e.exposure_bias), &shown.bias);
                add_row(&mut rows, "Exposure comp.", bias);
                let taken = match ascii(&e.taken) {
                    Some(v) => Some(date(v.as_str())),
                    None => None,
                };
                add_row(&mut rows, "Taken", taken);
                assert(row_texts(rows@) =~= exif_rows(e@, *shown));
            },
            None => {},
        }
        let ghost before = row_texts(rows@);
        let mut size = decimal(width as u64);
        size.append(" × ");
        size.append(decimal(height as u64).as_str());
        let entry = ("Size", size);
        rows.push(entry);
        assert(row_texts(rows@) =~= before.push(("Size"@, size@)));
        Meta { rows }
    }
}

/// The size is always shown, last, and without EXIF data it is all that is shown.
pub proof fn law_size_always_shown(
    exif: Option<ExifView>,
    shown: Exposure,
    width: nat,
    height: nat,
)
    ensures
        rows_of(exif, shown, width, height).last() == ("Size"@, size_text(width, height)),
        exif is None ==> rows_of(exif, shown, width, height).len() == 1,
{
}

/// The rows come in the order of `label_place`, none twice: every label stands there at most once.
pub proof fn law_rows_in_order(exif: Option<ExifView>, shown: Exposure, width: nat, height: nat)
    ensures
        ({
            let rows = rows_of(exif, shown, width, height);
            &&& forall|i: int|
                0 <= i < rows.len() ==> 0 <= label_place((#[trigger] rows[i]).0) < 10
            &&& forall|i: int, j: int|
                0 <= i < j < rows.len() ==> label_place((#[trigger] rows[i]).0) < label_place(
                    (#[trigger] rows[j]).0,
                )
        }),
{
    reveal(ordered_rows);
    lemma_labels();
    match exif {
        Some(e) => {
            lemma_exif_rows(e, shown);
        },
        None => {},
    }
}

/// A missing field has no row, and a field that can be displayed has one: a shutter speed is shown
/// for an exposure time above zero, the other settings where they hold a number.
pub proof fn law_row_for_every_known_field(
    exif: ExifView,
    shown: Exposure,
    width: nat,
    height: nat,
)
    ensures
        ({
            let rows = rows_of(Some(exif), shown, width, height);
            &&& has_row(rows, "Camera"@) == (ascii_of(exif.make) is Some || ascii_of(exif.model)
                is Some)
            &&& has_row(rows, "Lens"@) == ascii_of(exif.lens_model) is Some
            &&& has_row(rows, "Color profile"@) == color_profile_of(exif) is Some
            &&& has_row(rows, "Focal length"@) == has_value(exif.focal_length)
            &&& has_row(rows, "Aperture"@) == has_value(exif.f_number)
            &&& has_row(rows, "Shutter"@) == is_positive(exif.exposure_time)
            &&& has_row(rows, "ISO"@) == has_value(exif.sensitivity)
            &&& has_row(rows, "Exposure comp."@) == has_value(exif.exposure_bias)
            &&& has_row(rows, "Taken"@) == ascii_of(exif.taken) is Some
            &&& has_row(rows, "Size"@)
        }),
{
    lemma_labels();
    lemma_exif_rows(exif, shown);
    lemma_has_row_push(exif_rows(exif, shown), "Size"@, size_text(width, height));
}

/// Whether there is a row with this label.
#[verifier::opaque]
pub open spec fn has_row(rows: Seq<(Seq<char>, Seq<char>)>, label: Seq<char>) -> bool {
    exists|i: int| 0 <= i < rows.len() && (#[trigger] rows[i]).0 == label
}

/// The place of a label in the order of display.
#[verifier::opaque]
pub open spec fn label_place(label: Seq<char>) -> int {
    if label == "Camera"@ {
        0
    } else if label == "Lens"@ {
        1
    } else if label == "Color profile"@ {
        2
    } else if label == "Focal length"@ {
        3
    } else if label == "Aperture"@ {
        4
    } else if label == "Shutter"@ {
        5
    } else if label == "ISO"@ {
        6
    } else if label == "Exposure comp."@ {
        7
    } else if label == "Taken"@ {
        8
    } else if label == "Size"@ {
        9
    } else {
        10
    }
}

/// The labels are different texts.
proof fn lemma_labels()
    ensures
        label_place("Camera"@) == 0,
        label_place("Lens"@) == 1,
        label_place("Color profile"@) == 2,
        label_place("Focal length"@) == 3,
        label_place("Aperture"@) == 4,
        label_place("Shutter"@) == 5,
        label_place("ISO"@) == 6,
        label_place("Exposure comp."@) == 7,
        label_place("Taken"@) == 8,
        label_place("Size"@) == 9,
{
    reveal(label_place);
    reveal_strlit("Camera");
    reveal_strlit("Lens");
    reveal_strlit("Color profile");
    reveal_strlit("Focal length");
    reveal_strlit("Aperture");
    reveal_strlit("Shutter");
    reveal_strlit("ISO");
    reveal_strlit("Exposure comp.");
    reveal_strlit("Taken");
    reveal_strlit("Size");
    assert("Camera"@[0] == 'C' && "Lens"@[0] == 'L' && "Color profile"@.len() == 13);
    assert("Focal length"@[0] == 'F' && "Aperture"@[0] == 'A' && "Shutter"@[1] == 'h');
    assert("ISO"@[0] == 'I' && "Exposure comp."@[0] == 'E' && "Taken"@[0] == 'T');
    assert("Size"@[0] == 'S' && "Size"@[1] == 'i' && "Shutter"@[0] == 'S');
    assert("Camera"@.len() == 6 && "Color profile"@[0] == 'C');
}

/// The rows come in order, and their places are below `end`.
#[verifier::opaque]
spec fn ordered_rows(rows: Seq<(Seq<char>, Seq<char>)>, end: int) -> bool {
    &&& forall|i: int| 0 <= i < rows.len() ==> 0 <= label_place((#[trigger] rows[i]).0) < end
    &&& forall|i: int, j: int|
        0 <= i < j < rows.len() ==> label_place((#[trigger] rows[i]).0) < label_place(
            (#[trigger] rows[j]).0,
        )
}

/// Adding a row whose label comes next keeps the order, and the other rows.
proof fn lemma_row_added(
    rows: Seq<(Seq<char>, Seq<char>)>,
    label: Seq<char>,
    value: Option<Seq<char>>,
)
    requires
        ordered_rows(rows, label_place(label)),
        0 <= label_place(label),
    ensures
        ordered_rows(rows + row(label, value), label_place(label) + 1),
        has_row(rows + row(label, value), label) == value is Some,
        forall|other: Seq<char>|
            label_place(other) != label_place(label) ==> #[trigger] has_row(
                rows + row(label, value),
                other,
            ) == has_row(rows, other),
{
    reveal(has_row);
    reveal(ordered_rows);
    let more = rows + row(label, value);
    match value {
        Some(v) => {
            assert(more =~= rows.push((label, v)));
            assert(more[rows.len() as int].0 == label);
            assert forall|other: Seq<char>| label_place(other) != label_place(label) implies
                #[trigger] has_row(more, other) == has_row(rows, other) by {
                lemma_has_row_other(rows, (label, v), other);
            }
        },
        None => {
            assert(more =~= rows);
        },
    }
}

proof fn lemma_has_row_other(
    rows: Seq<(Seq<char>, Seq<char>)>,
    last: (Seq<char>, Seq<char>),
    other: Seq<char>,
)
    requires
        last.0 != other,
    ensures
        has_row(rows.push(last), other) == has_row(rows, other),
{
    reveal(has_row);
    if has_row(rows, other) {
        let i = choose|i: int| 0 <= i < rows.len() && (#[trigger] rows[i]).0 == other;
        assert(rows.push(last)[i].0 == other);
    }
    if has_row(rows.push(last), other) {
        let i = choose|i: int|
            0 <= i < rows.push(last).len() && (#[trigger] rows.push(last)[i]).0 == other;
        assert(rows[i].0 == other);
    }
}

proof fn lemma_has_row_push(
    rows: Seq<(Seq<char>, Seq<char>)>,
    label: Seq<char>,
    value: Seq<char>,
)
    ensures
        has_row(rows.push((label, value)), label),
        forall|other: Seq<char>|
            other != label ==> #[trigger] has_row(rows.push((label, value)), other) == has_row(
                rows,
                other,
            ),
{
    reveal(has_row);
    assert(rows.push((label, value))[rows.len() as int].0 == label);
    assert forall|other: Seq<char>| other != label implies #[trigger] has_row(
        rows.push((label, value)),
        other,
    ) == has_row(rows, other) by {
        lemma_has_row_other(rows, (label, value), other);
    }
}

proof fn lemma_exif_rows(exif: ExifView, shown: Exposure)
    ensures
        ordered_rows(exif_rows(exif, shown), 9),
        ({
            let rows = exif_rows(exif, shown);
            &&& has_row(rows, "Camera"@) == camera_of(
                ascii_of(exif.make),
                ascii_of(exif.model),
            ) is Some
            &&& has_row(rows, "Lens"@) == ascii_of(exif.lens_model) is Some
            &&& has_row(rows, "Color profile"@) == color_profile_of(exif) is Some
            &&& has_row(rows, "Focal length"@) == has_value(exif.focal_length)
            &&& has_row(rows, "Aperture"@) == has_value(exif.f_number)
            &&& has_row(rows, "Shutter"@) == is_positive(exif.exposure_time)
            &&& has_row(rows, "ISO"@) == has_value(exif.sensitivity)
            &&& has_row(rows, "Exposure comp."@) == has_value(exif.exposure_bias)
            &&& has_row(rows, "Taken"@) == ascii_of(exif.taken) is Some
        }),
{
    lemma_labels();
    let none = Seq::<(Seq<char>, Seq<char>)>::empty();
    assert(ordered_rows(none, 0)) by {
        reveal(ordered_rows);
    }
    let camera = camera_of(ascii_of(exif.make), ascii_of(exif.model));
    let a = row("Camera"@, camera);
    lemma_row_added(none, "Camera"@, camera);
    assert(none + a =~= a);
    let b = a + row("Lens"@, ascii_of(exif.lens_model));
    lemma_row_added(a, "Lens"@, ascii_of(exif.lens_model));
    let c = b + row("Color profile"@, color_profile_of(exif));
    lemma_row_added(b, "Color profile"@, color_profile_of(exif));
    let focal_length = setting(has_value(exif.focal_length), shown.focal_length@);
    let d = c + row("Focal length"@, focal_length);
    lemma_row_added(c, "Focal length"@, focal_length);
    let aperture = setting(has_value(exif.f_number), shown.aperture@);
    let e = d + row("Aperture"@, aperture);
    lemma_row_added(d, "Aperture"@, aperture);
    let shutter = setting(is_positive(exif.exposure_time), shown.shutter@);
    let f = e + row("Shutter"@, shutter);
    lemma_row_added(e, "Shutter"@, shutter);
    let iso = setting(has_value(exif.sensitivity), shown.iso@);
    let g = f + row("ISO"@, iso);
    lemma_row_added(f, "ISO"@, iso);
    let bias = setting(has_value(exif.exposure_bias), shown.bias@);
    let h = g + row("Exposure comp."@, bias);
    lemma_row_added(g, "Exposure comp."@, bias);
    lemma_row_added(h, "Taken"@, taken_of(exif));
}

/// A date keeps its length, everything from its first blank on, and before that everything but the
/// colons. What is displayed is a date that is displayed as it is.
pub proof fn law_date_changes_only_the_day(v: Seq<char>)
    ensures
        date_of(v).len() == v.len(),
        forall|i: int|
            0 <= i < v.len() && v[i] != ':' ==> #[trigger] date_of(v)[i] == v[i],
        first_space(v) matches Some(b) ==> forall|i: int|
            b <= i < v.len() ==> #[trigger] date_of(v)[i] == v[i],
        date_of(date_of(v)) == date_of(v),
{
    lemma_first_space(v);
    match first_space(v) {
        Some(b) => {
            let d = date_of(v);
            assert(d[b] == ' ');
            assert forall|i: int| 0 <= i < b implies d[i] != ' ' && d[i] != ':' by {
                assert(v.take(b)[i] == v[i]);
            }
            lemma_first_space_at(d, b);
            assert(replaced(d.take(b), ':', '-') =~= d.take(b));
            assert(date_of(d) =~= d);
        },
        None => {},
    }
}

proof fn lemma_first_space_at(v: Seq<char>, b: int)
    requires
        0 <= b < v.len(),
        v[b] == ' ',
        forall|i: int| 0 <= i < b ==> v[i] != ' ',
    ensures
        first_space(v) == Some(b),
    decreases v.len(),
{
    if b > 0 {
        lemma_first_space_at(v.drop_first(), b - 1);
    }
}

proof fn lemma_first_space(v: Seq<char>)
    ensures
        first_space(v) matches Some(i) ==> 0 <= i < v.len() && v[i] == ' ' && forall|j: int|
            0 <= j < i ==> v[j] != ' ',
    decreases v.len(),
{
    if v.len() > 0 {
        let rest = v.drop_first();
        lemma_first_space(rest);
        if let Some(i) = first_space(v) {
            assert forall|j: int| 0 <= j < i implies v[j] != ' ' by {
                if j > 0 {
                    assert(rest[j - 1] == v[j]);
                }
            }
        }
    }
}

/// Whether a row holds the text of its own field.
#[verifier::opaque]
spec fn own(exif: ExifView, shown: Exposure, r: (Seq<char>, Seq<char>)) -> bool {
    &&& r.0 == "Camera"@ ==> camera_of(ascii_of(exif.make), ascii_of(exif.model)) == Some(r.1)
    &&& r.0 == "Lens"@ ==> ascii_of(exif.lens_model) == Some(r.1)
    &&& r.0 == "Color profile"@ ==> color_profile_of(exif) == Some(r.1)
    &&& r.0 == "Focal length"@ ==> has_value(exif.focal_length) && r.1 == shown.focal_length@
    &&& r.0 == "Aperture"@ ==> has_value(exif.f_number) && r.1 == shown.aperture@
    &&& r.0 == "Shutter"@ ==> is_positive(exif.exposure_time) && r.1 == shown.shutter@
    &&& r.0 == "ISO"@ ==> has_value(exif.sensitivity) && r.1 == shown.iso@
    &&& r.0 == "Exposure comp."@ ==> has_value(exif.exposure_bias) && r.1 == shown.bias@
    &&& r.0 == "Taken"@ ==> (ascii_of(exif.taken) matches Some(v) && r.1 == date_of(v))
    &&& r.0 != "Size"@
}

/// Whether every row holds the text of its own field.
#[verifier::opaque]
spec fn all_own(exif: ExifView, shown: Exposure, rows: Seq<(Seq<char>, Seq<char>)>) -> bool {
    forall|i: int| 0 <= i < rows.len() ==> own(exif, shown, #[trigger] rows[i])
}

proof fn lemma_own_added(
    exif: ExifView,
    shown: Exposure,
    rows: Seq<(Seq<char>, Seq<char>)>,
    label: Seq<char>,
    value: Option<Seq<char>>,
)
    requires
        all_own(exif, shown, rows),
        value matches Some(v) ==> own(exif, shown, (label, v)),
    ensures
        all_own(exif, shown, rows + row(label, value)),
{
    reveal(all_own);
}

/// Every row holds the text of its own field, which is known: the labels name the fields.
pub proof fn law_rows_hold_their_own_field(
    exif: ExifView,
    shown: Exposure,
    width: nat,
    height: nat,
    i: int,
)
    requires
        0 <= i < rows_of(Some(exif), shown, width, height).len(),
    ensures
        ({
            let r = rows_of(Some(exif), shown, width, height)[i];
            &&& r.0 == "Camera"@ ==> camera_of(ascii_of(exif.make), ascii_of(exif.model)) == Some(r.1)
            &&& r.0 == "Lens"@ ==> ascii_of(exif.lens_model) == Some(r.1)
            &&& r.0 == "Color profile"@ ==> color_profile_of(exif) == Some(r.1)
            &&& r.0 == "Focal length"@ ==> has_value(exif.focal_length) && r.1 == shown.focal_length@
            &&& r.0 == "Aperture"@ ==> has_value(exif.f_number) && r.1 == shown.aperture@
            &&& r.0 == "Shutter"@ ==> is_positive(exif.exposure_time) && r.1 == shown.shutter@
            &&& r.0 == "ISO"@ ==> has_value(exif.sensitivity) && r.1 == shown.iso@
            &&& r.0 == "Exposure comp."@ ==> has_value(exif.exposure_bias) && r.1 == shown.bias@
            &&& r.0 == "Taken"@ ==> (ascii_of(exif.taken) matches Some(v) && r.1 == date_of(v))
            &&& r.0 == "Size"@ ==> r.1 == decimal_of(width) + " × "@ + decimal_of(height)
        }),
{
    lemma_labels();
    let rows = Seq::<(Seq<char>, Seq<char>)>::empty();
    assert(all_own(exif, shown, rows)) by {
        reveal(all_own);
    }
    reveal(own);
    lemma_own_added(exif, shown, rows, "Camera"@, camera_of(ascii_of(exif.make), ascii_of(exif.model)));
    let rows = rows + row("Camera"@, camera_of(ascii_of(exif.make), ascii_of(exif.model)));
    lemma_own_added(exif, shown, rows, "Lens"@, ascii_of(exif.lens_model));
    let rows = rows + row("Lens"@, ascii_of(exif.lens_model));
    lemma_own_added(exif, shown, rows, "Color profile"@, color_profile_of(exif));
    let rows = rows + row("Color profile"@, color_profile_of(exif));
    lemma_own_added(exif, shown, rows, "Focal length"@, setting(has_value(exif.focal_length), shown.focal_length@));
    let rows = rows + row("Focal length"@, setting(has_value(exif.focal_length), shown.focal_length@));
    lemma_own_added(exif, shown, rows, "Aperture"@, setting(has_value(exif.f_number), shown.aperture@));
    let rows = rows + row("Aperture"@, setting(has_value(exif.f_number), shown.aperture@));
    lemma_own_added(exif, shown, rows, "Shutter"@, setting(is_positive(exif.exposure_time), shown.shutter@));
    let rows = rows + row("Shutter"@, setting(is_positive(exif.exposure_time), shown.shutter@));
    lemma_own_added(exif, shown, rows, "ISO"@, setting(has_value(exif.sensitivity), shown.iso@));
    let rows = rows + row("ISO"@, setting(has_value(exif.sensitivity), shown.iso@));
    lemma_own_added(exif, shown, rows, "Exposure comp."@, setting(has_value(exif.exposure_bias), shown.bias@));
    let rows = rows + row("Exposure comp."@, setting(has_value(exif.exposure_bias), shown.bias@));
    lemma_own_added(exif, shown, rows, "Taken"@, taken_of(exif));
    let rows = rows + row("Taken"@, taken_of(exif));
    assert(rows =~= exif_rows(exif, shown));
    reveal(all_own);
    if i < rows.len() {
        assert(own(exif, shown, rows[i]));
    }
}

/// A fraction is known where its denominator is not zero, another number where there is one.
pub proof fn law_known_numbers(v: Seq<(u32, u32)>, w: Seq<(i32, i32)>, n: Option<u32>)
    ensures
        has_value(Some(NumberView::Rational(v))) <==> v.len() > 0 && v[0].1 != 0,
        has_value(Some(NumberView::SRational(w))) <==> w.len() > 0 && w[0].1 != 0,
        has_value(Some(NumberView::Other(n))) <==> n is Some,
        !has_value(None),
{
}

/// A fraction is above zero where both its parts are of one sign, another number where it is not
/// zero.
pub proof fn law_positive_numbers(v: Seq<(u32, u32)>, w: Seq<(i32, i32)>, n: Option<u32>)
    ensures
        is_positive(Some(NumberView::Rational(v))) <==> v.len() > 0 && v[0].0 * v[0].1 > 0,
        is_positive(Some(NumberView::SRational(w))) <==> w.len() > 0 && w[0].0 * w[0].1 > 0,
        is_positive(Some(NumberView::Other(n))) <==> (n matches Some(k) && k > 0),
        !is_positive(None),
{
    if v.len() > 0 {
        let (a, b) = (v[0].0 as int, v[0].1 as int);
        assert(a * b > 0 <==> a > 0 && b > 0) by (nonlinear_arith)
            requires
                a >= 0,
                b >= 0,
        ;
    }
    if w.len() > 0 {
        let (a, b) = (w[0].0 as int, w[0].1 as int);
        assert(a * b > 0 <==> a > 0 && b > 0 || a < 0 && b < 0) by (nonlinear_arith);
    }
}

/// The make is left out where the model starts with it, whatever the case; else both are shown, and
/// one alone where the other is missing.
pub proof fn law_camera_names(make: Seq<char>, model: Seq<char>)
    ensures
        starts_with(lowercase(model), lowercase(make)) ==> camera_of(Some(make), Some(model)) == Some(
            model,
        ),
        !starts_with(lowercase(model), lowercase(make)) ==> camera_of(Some(make), Some(model)) == Some(
            make + " "@ + model,
        ),
        camera_of(Some(make), None) == Some(make),
        camera_of(None, Some(model)) == Some(model),
        camera_of(None, None) is None,
{
}

/// A text field is shown by its first text, without blanks around it, where anything is left of it.
pub proof fn law_texts_of_fields(parts: Seq<Seq<u8>>, field: Option<FieldView>)
    ensures
        parts.len() > 0 && trim_of(utf8_lossy(parts[0])).len() > 0 ==> ascii_of(
            Some(FieldView::Ascii(parts)),
        ) == Some(trim_of(utf8_lossy(parts[0]))),
        parts.len() == 0 || trim_of(utf8_lossy(parts[0])).len() == 0 ==> ascii_of(
            Some(FieldView::Ascii(parts)),
        ) is None,
        !(field matches Some(FieldView::Ascii(_))) ==> ascii_of(field) is None,
{
}

/// The colons of the day become dashes: those before the first blank. What has no blank stays.
pub proof fn law_day_is_shown_with_dashes(v: Seq<char>, b: int, i: int)
    requires
        0 <= i < b <= v.len(),
        forall|j: int| 0 <= j < b ==> v[j] != ' ',
        b < v.len() ==> v[b] == ' ',
    ensures
        b < v.len() && v[i] == ':' ==> date_of(v)[i] == '-',
        b == v.len() ==> date_of(v) == v,
{
    lemma_first_space(v);
    if b < v.len() {
        lemma_first_space_at(v, b);
        assert(v.take(b)[i] == v[i]);
    } else {
        if let Some(k) = first_space(v) {
            assert(v[k] == ' ');
        }
    }
}

} // verus!
