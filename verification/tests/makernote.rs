use cull::makernote::{canon, color_profile, fujifilm, nikon, panasonic, sony, title_case, Ifd};
use cull::tags::{ExifData, FieldValue};

/// Builds a little-endian IFD with the given (tag, type, count, value bytes) entries.
fn ifd_bytes(entries: &[(u16, u16, u32, Vec<u8>)]) -> Vec<u8> {
    let mut out = (entries.len() as u16).to_le_bytes().to_vec();
    let data_start = 2 + entries.len() * 12 + 4;
    let mut data: Vec<u8> = Vec::new();
    for (tag, typ, count, value) in entries {
        out.extend(tag.to_le_bytes());
        out.extend(typ.to_le_bytes());
        out.extend(count.to_le_bytes());
        if value.len() <= 4 {
            let mut v = value.clone();
            v.resize(4, 0);
            out.extend(v);
        } else {
            out.extend(((data_start + data.len()) as u32).to_le_bytes());
            data.extend(value);
        }
    }
    out.extend([0; 4]);
    out.extend(data);
    out
}

fn u16s(v: &[u16]) -> Vec<u8> {
    v.iter().flat_map(|x| x.to_le_bytes()).collect()
}

#[test]
fn panasonic_film_mode_then_photo_style() {
    let buf = ifd_bytes(&[(0x42, 3, 1, u16s(&[10]))]);
    assert_eq!(panasonic(&Ifd { buf: &buf, le: true, base: 0, start: 0 }).as_deref(), Some("Nostalgic"));
    let buf = ifd_bytes(&[(0x42, 3, 1, u16s(&[0])), (0x89, 3, 1, u16s(&[8]))]);
    assert_eq!(panasonic(&Ifd { buf: &buf, le: true, base: 0, start: 0 }).as_deref(), Some("Cinelike D"));
}

#[test]
fn canon_user_def_shows_base() {
    let mut processing = vec![0u16; 12];
    processing[10] = 0x23;
    let buf = ifd_bytes(&[(0xa0, 3, 12, u16s(&processing)), (0x4008, 3, 3, u16s(&[0x81, 0x84, 0x43]))]);
    assert_eq!(canon(&Ifd { buf: &buf, le: true, base: 0, start: 0 }).as_deref(), Some("User Def. 3 (PC 3)"));
}

#[test]
fn fujifilm_film_and_mono() {
    let buf = ifd_bytes(&[(0x1401, 3, 1, u16s(&[0x600]))]);
    assert_eq!(fujifilm(&Ifd { buf: &buf, le: true, base: 0, start: 0 }).as_deref(), Some("Classic Chrome"));
    let buf = ifd_bytes(&[(0x1003, 3, 1, u16s(&[0x501])), (0x1401, 3, 1, u16s(&[0]))]);
    assert_eq!(fujifilm(&Ifd { buf: &buf, le: true, base: 0, start: 0 }).as_deref(), Some("Acros + R Filter"));
}

fn picture_control(version: &[u8], name: &[u8], base: &[u8]) -> Vec<u8> {
    let mut data = version.to_vec();
    let mut name = name.to_vec();
    name.resize(20, 0);
    let mut base = base.to_vec();
    base.resize(20, 0);
    data.extend(name);
    data.extend(base);
    data
}

#[test]
fn nikon_picture_control() {
    let data = picture_control(b"0310\0\0\0\0", b"MY FILM", b"STANDARD");
    let buf = ifd_bytes(&[(0x23, 7, data.len() as u32, data)]);
    assert_eq!(nikon(&Ifd { buf: &buf, le: true, base: 0, start: 0 }).as_deref(), Some("My Film (Standard)"));
}

#[test]
fn nikon_names_once() {
    let data = picture_control(b"0100", b"VIVID", b"vivid");
    let buf = ifd_bytes(&[(0x23, 7, data.len() as u32, data)]);
    assert_eq!(nikon(&Ifd { buf: &buf, le: true, base: 0, start: 0 }).as_deref(), Some("Vivid"));
    let data = picture_control(b"0100", b" \0NOISE", b"FLAT");
    let buf = ifd_bytes(&[(0x23, 7, data.len() as u32, data)]);
    assert_eq!(nikon(&Ifd { buf: &buf, le: true, base: 0, start: 0 }), None);
    let buf = ifd_bytes(&[(0x23, 7, 10, b"0310......".to_vec())]);
    assert_eq!(nikon(&Ifd { buf: &buf, le: true, base: 0, start: 0 }), None);
}

#[test]
fn canon_plain_and_unknown() {
    let mut processing = vec![0u16; 12];
    processing[10] = 0x83;
    let buf = ifd_bytes(&[(0xa0, 3, 12, u16s(&processing)), (0x4008, 3, 3, u16s(&[0x81, 0x84, 0x43]))]);
    let at = |buf: &[u8]| canon(&Ifd { buf, le: true, base: 0, start: 0 });
    assert_eq!(at(&buf).as_deref(), Some("Landscape"));
    processing[10] = 0x21;
    assert_eq!(at(&ifd_bytes(&[(0xa0, 3, 12, u16s(&processing))])).as_deref(), Some("User Def. 1"));
    processing[10] = 0x99;
    assert_eq!(at(&ifd_bytes(&[(0xa0, 3, 12, u16s(&processing))])), None);
    assert_eq!(at(&ifd_bytes(&[(0xa0, 3, 2, u16s(&[1, 2]))])), None);
}

#[test]
fn damaged_directories_give_nothing() {
    let buf = ifd_bytes(&[(0x42, 3, 1, u16s(&[10]))]);
    for n in 0..10 {
        assert_eq!(panasonic(&Ifd { buf: &buf[..n], le: true, base: 0, start: 0 }), None);
    }
    for start in [1usize, 14, 100, usize::MAX - 1, usize::MAX] {
        assert_eq!(panasonic(&Ifd { buf: &buf, le: true, base: 0, start }), None);
    }
    // A type that does not exist, and a value that lies outside.
    let ifd = |buf: &[u8]| sony(&Ifd { buf, le: true, base: usize::MAX, start: 0 });
    assert_eq!(ifd(&ifd_bytes(&[(0xb020, 99, 1, vec![65])])), None);
    assert_eq!(ifd(&ifd_bytes(&[(0xb020, 2, 9, b"Standard\0".to_vec())])), None);
    let mut far = ifd_bytes(&[(0xb020, 2, 9, b"Standard\0".to_vec())]);
    far[10] = 0xff;
    assert_eq!(sony(&Ifd { buf: &far, le: true, base: 0, start: 0 }), None);
}

#[test]
fn texts_end_at_the_first_zero() {
    let buf = ifd_bytes(&[(0xb020, 2, 16, b"  Vivid 2 \0junk!".to_vec())]);
    assert_eq!(sony(&Ifd { buf: &buf, le: true, base: 0, start: 0 }).as_deref(), Some("Vivid 2"));
    let buf = ifd_bytes(&[(0xb020, 2, 5, vec![b'a', 0xff, b'b', b'c', b'd'])]);
    assert_eq!(sony(&Ifd { buf: &buf, le: true, base: 0, start: 0 }).as_deref(), Some("a\u{fffd}bcd"));
    let buf = ifd_bytes(&[(0xb020, 2, 4, b"Std\0".to_vec())]);
    assert_eq!(sony(&Ifd { buf: &buf, le: true, base: 7, start: 0 }).as_deref(), Some("Std"));
}

#[test]
fn words_start_in_upper_case() {
    assert_eq!(title_case("MY FILM LOOK"), "My Film Look");
    assert_eq!(title_case(" a  bC "), " A  Bc ");
    assert_eq!(title_case("ßA ÉÀ"), "SSa Éà");
    assert_eq!(title_case(""), "");
}

fn with_note(buf: Vec<u8>, note: &[u8], offset: u32, make: Option<&str>) -> ExifData {
    ExifData {
        buf,
        little_endian: true,
        make: None,
        make_shown: make.map(str::to_owned),
        model: None,
        orientation: None,
        lens_model: None,
        taken: None,
        maker_note: Some(FieldValue::Undefined(note.to_vec(), offset)),
        focal_length: None,
        focal_length_35mm: None,
        f_number: None,
        exposure_time: None,
        sensitivity: None,
        exposure_bias: None,
    }
}

#[test]
fn profile_by_the_notes_signature() {
    let style = ifd_bytes(&[(0x89, 3, 1, u16s(&[3]))]);
    let mut buf = vec![0u8; 20];
    buf.extend(&style);
    let e = with_note(buf.clone(), b"Panasonic\0\0\0", 8, None);
    assert_eq!(color_profile(&e).as_deref(), Some("Natural"));

    let film = ifd_bytes(&[(0x1401, 3, 1, u16s(&[0x700]))]);
    let mut buf = vec![0u8; 30];
    buf.extend(&film);
    let e = with_note(buf, b"FUJIFILM\x0c\0\0\0", 18, None);
    assert_eq!(color_profile(&e).as_deref(), Some("Eterna"));

    let name = ifd_bytes(&[(0xb020, 2, 4, b"Std\0".to_vec())]);
    let mut buf = vec![0u8; 12];
    buf.extend(&name);
    let e = with_note(buf.clone(), b"SONY DSC \0\0\0", 0, None);
    assert_eq!(color_profile(&e).as_deref(), Some("Std"));
    let e = with_note(buf, b"SONY CAM \0\0\0", 0, None);
    assert_eq!(color_profile(&e).as_deref(), Some("Std"));
}

#[test]
fn nikon_note_holds_its_own_header() {
    // Offset 5: signature, then a header whose fifth byte points at the directory.
    let data = picture_control(b"0100", b"NEUTRAL", b"");
    let mut dir = ifd_bytes(&[(0x23, 7, data.len() as u32, data)]);
    // Offsets are relative to the header, and the directory stands 8 behind it.
    let at = u32::from_le_bytes([dir[10], dir[11], dir[12], dir[13]]) + 8;
    dir[10..14].copy_from_slice(&at.to_le_bytes());
    let mut buf = vec![0u8; 5];
    let mut note = b"Nikon\0\x02\x10\0\0".to_vec();
    note.extend(b"II*\0\x08\0\0\0");
    buf.extend(&note);
    buf.extend(&dir);
    let e = with_note(buf, &note, 5, None);
    assert_eq!(color_profile(&e).as_deref(), Some("Neutral"));
}

#[test]
fn profile_by_the_make() {
    let mut processing = vec![0u16; 12];
    processing[10] = 0x86;
    let buf = ifd_bytes(&[(0xa0, 3, 12, u16s(&processing))]);
    let e = with_note(buf.clone(), &buf, 0, Some("\"CANON\""));
    assert_eq!(color_profile(&e).as_deref(), Some("Monochrome"));
    let e = with_note(buf.clone(), &buf, 0, Some("\"Someone\""));
    assert_eq!(color_profile(&e), None);
    let e = with_note(buf.clone(), &buf, 0, None);
    assert_eq!(color_profile(&e), None);
    let name = ifd_bytes(&[(0xb020, 2, 4, b"Std\0".to_vec())]);
    let e = with_note(name.clone(), &name, 0, Some("\"Sony\", \"x\""));
    assert_eq!(color_profile(&e).as_deref(), Some("Std"));
    let mut e = e;
    e.maker_note = Some(FieldValue::Ascii(vec![b"Panasonic\0".to_vec()]));
    assert_eq!(color_profile(&e), None);
    e.maker_note = None;
    assert_eq!(color_profile(&e), None);
}

#[test]
fn big_endian_directories() {
    let mut buf = vec![0u8, 1];
    buf.extend([0x00, 0x89, 0, 3, 0, 0, 0, 1, 0, 18, 0, 0]);
    assert_eq!(panasonic(&Ifd { buf: &buf, le: false, base: 0, start: 0 }).as_deref(), Some("Cinelike D2"));
}
