use cull::loader::{
    decode, finish_job, fit_within, orient, oriented_dims, run_job, stale, target_size, worker_count, JobKind,
    Payload, Rgba, THUMB_PX,
};
use cull::meta::{date, known, known_positive, Exposure, Meta};
use cull::relocate::taken_day;
use cull::tags::{orientation, ExifData, FieldNumber, FieldValue};
use fast_image_resize::Resizer;

/// 2x1 image: pixel values 1, 2 (in the first byte).
fn img() -> Rgba {
    Rgba { width: 2, height: 1, data: vec![1, 0, 0, 0, 2, 0, 0, 0] }
}

fn firsts(i: &Rgba) -> Vec<u8> {
    i.data.chunks(4).map(|c| c[0]).collect()
}

#[test]
fn orientations() {
    assert_eq!(firsts(&orient(img(), 1)), [1, 2]);
    assert_eq!(firsts(&orient(img(), 2)), [2, 1]);
    assert_eq!(firsts(&orient(img(), 3)), [2, 1]);
    // Rotate 90° clockwise: left pixel ends up on top.
    let r = orient(img(), 6);
    assert_eq!((r.width, r.height), (1, 2));
    assert_eq!(firsts(&r), [1, 2]);
    // Rotate 90° counter-clockwise: right pixel ends up on top.
    assert_eq!(firsts(&orient(img(), 8)), [2, 1]);
}

#[test]
fn fit_never_upscales() {
    assert_eq!(fit_within(6000, 4000, 3000, 3000), (3000, 2000));
    assert_eq!(fit_within(4000, 6000, 3000, 2000), (1333, 2000));
    assert_eq!(fit_within(100, 50, 3000, 2000), (100, 50));
}

/// 3x2 image with the pixels 1 to 6.
fn six() -> Rgba {
    Rgba { width: 3, height: 2, data: (1..=6).flat_map(|v| [v, 10 + v, 20 + v, 255]).collect() }
}

#[test]
fn every_orientation_of_six_pixels() {
    let want: [(u32, (u32, u32), [u8; 6]); 9] = [
        (1, (3, 2), [1, 2, 3, 4, 5, 6]),
        (2, (3, 2), [3, 2, 1, 6, 5, 4]),
        (3, (3, 2), [6, 5, 4, 3, 2, 1]),
        (4, (3, 2), [4, 5, 6, 1, 2, 3]),
        (5, (2, 3), [1, 4, 2, 5, 3, 6]),
        (6, (2, 3), [4, 1, 5, 2, 6, 3]),
        (7, (2, 3), [6, 3, 5, 2, 4, 1]),
        (8, (2, 3), [3, 6, 2, 5, 1, 4]),
        (9, (3, 2), [1, 2, 3, 4, 5, 6]),
    ];
    for (o, size, px) in want {
        let r = orient(six(), o);
        assert_eq!((r.width, r.height), size, "{o}");
        assert_eq!(oriented_dims(3, 2, o), size, "{o}");
        assert_eq!(firsts(&r), px, "{o}");
        assert!(r.data.chunks(4).all(|c| c[1] == c[0] + 10 && c[2] == c[0] + 20 && c[3] == 255));
    }
}

#[test]
fn orientations_are_undone() {
    for (o, back) in [(1, 1), (2, 2), (3, 3), (4, 4), (5, 5), (6, 8), (7, 7), (8, 6)] {
        let r = orient(orient(six(), o), back);
        assert_eq!((r.width, r.height, r.data), (3, 2, six().data), "{o}");
    }
}

/// The same sizes, computed with floating-point numbers.
fn fit_in_floats(w: u32, h: u32, max_w: u32, max_h: u32) -> (u32, u32) {
    let scale = (max_w as f64 / w as f64).min(max_h as f64 / h as f64).min(1.0);
    (((w as f64 * scale).round() as u32).max(1), ((h as f64 * scale).round() as u32).max(1))
}

#[test]
fn fit_agrees_with_floating_point() {
    let odd = [0u32, 1, 2, 3, 5, 7, 255, 360, 641, 1080, 1366, 1920, 4001, 6000, 65535, 1 << 20, u32::MAX - 1, u32::MAX];
    for w in odd {
        for h in odd {
            for a in odd {
                for b in odd {
                    assert_eq!(fit_within(w, h, a, b), fit_in_floats(w, h, a, b), "{w} {h} {a} {b}");
                }
            }
        }
    }
    // Sides whose exact length ends in a half, where the rounding of the scale shows.
    let mut x: u64 = 12345;
    for _ in 0..200000 {
        x = x.wrapping_mul(6364136223846793005).wrapping_add(1442695040888963407);
        let (w, h) = ((x >> 33) as u32 % 8000 + 1, (x >> 20) as u32 % 8000 + 1);
        let m = (x >> 45) as u32 % 4000 + 1;
        assert_eq!(fit_within(w, h, m, m), fit_in_floats(w, h, m, m), "{w} {h} {m}");
    }
}

#[test]
fn fit_reaches_a_bound() {
    assert_eq!(fit_within(3, 2, 2, 9), (2, 1));
    assert_eq!(fit_within(10000, 1, 100, 100), (100, 1));
    assert_eq!(fit_within(7, 5, 0, 9), (1, 1));
    assert_eq!(fit_within(0, 0, 0, 0), (1, 1));
}

#[test]
fn far_jobs_are_stale() {
    assert!(!stale(JobKind::Fit, 4, 0, false));
    assert!(stale(JobKind::Fit, 5, 0, false));
    assert!(!stale(JobKind::Fit, 0, 4, false));
    assert!(stale(JobKind::Fit, 0, usize::MAX, false));
    assert!(!stale(JobKind::Full, 3, 3, true));
    assert!(stale(JobKind::Full, 3, 3, false));
    assert!(stale(JobKind::Full, 2, 3, true));
    assert!(!stale(JobKind::Thumb, 0, 1000, false));
}

#[test]
fn workers_and_targets() {
    let n: Vec<usize> = (0..12).map(|n| worker_count(Some(n))).collect();
    assert_eq!(n, [1, 1, 1, 2, 3, 4, 5, 6, 7, 8, 8, 8]);
    assert_eq!(worker_count(None), 2);
    assert_eq!(target_size((0, 5), None), (1, 5));
    assert_eq!(target_size((1920, 0), None), (1920, 1));
    assert_eq!(target_size((1400, 900), Some((3840, 800))), (3840, 900));
}

enum Val {
    Ascii(&'static [u8]),
    Short(u16),
    Rational(u32, u32),
    SRational(i32, i32),
    Undefined(Vec<u8>),
}

/// Writes a little-endian directory at `at`, with the values behind it.
fn dir(at: usize, entries: &[(u16, Val)], pointer: Option<(u16, u32)>) -> Vec<u8> {
    let n = entries.len() + pointer.iter().count();
    let mut out = (n as u16).to_le_bytes().to_vec();
    let data_at = at + 2 + n * 12 + 4;
    let mut data: Vec<u8> = Vec::new();
    for (tag, v) in entries {
        let (typ, count, bytes): (u16, u32, Vec<u8>) = match v {
            Val::Ascii(s) => (2, s.len() as u32, s.to_vec()),
            Val::Short(x) => (3, 1, x.to_le_bytes().to_vec()),
            Val::Rational(a, b) => (5, 1, [a.to_le_bytes(), b.to_le_bytes()].concat()),
            Val::SRational(a, b) => (10, 1, [a.to_le_bytes(), b.to_le_bytes()].concat()),
            Val::Undefined(b) => (7, b.len() as u32, b.clone()),
        };
        out.extend(tag.to_le_bytes());
        out.extend(typ.to_le_bytes());
        out.extend(count.to_le_bytes());
        if bytes.len() <= 4 {
            let mut b = bytes;
            b.resize(4, 0);
            out.extend(b);
        } else {
            out.extend(((data_at + data.len()) as u32).to_le_bytes());
            data.extend(bytes);
        }
    }
    if let Some((tag, to)) = pointer {
        out.extend(tag.to_le_bytes());
        out.extend(4u16.to_le_bytes());
        out.extend(1u32.to_le_bytes());
        out.extend(to.to_le_bytes());
    }
    out.extend([0; 4]);
    out.extend(data);
    out
}

/// TIFF data with a main directory and an Exif directory.
fn tiff(main: &[(u16, Val)], exif: &[(u16, Val)]) -> Vec<u8> {
    let mut out = b"II*\0\x08\0\0\0".to_vec();
    let first = dir(8, main, Some((0x8769, 0)));
    let exif_at = 8 + first.len();
    out.extend(dir(8, main, Some((0x8769, exif_at as u32))));
    out.extend(dir(exif_at, exif, None));
    out
}

/// A grey JPEG of 8x8 blocks in a row: 200 first, and 100 behind it if `two`.
fn jpeg(two: bool, exif: Option<Vec<u8>>) -> Vec<u8> {
    let mut out = vec![0xff, 0xd8];
    if let Some(t) = exif {
        out.extend([0xff, 0xe1]);
        out.extend(((t.len() + 8) as u16).to_be_bytes());
        out.extend(b"Exif\0\0");
        out.extend(t);
    }
    out.extend([0xff, 0xdb, 0, 67, 0]);
    out.extend([1u8; 64]);
    out.extend([0xff, 0xc0, 0, 11, 8, 0, 8, 0, if two { 16 } else { 8 }, 1, 1, 0x11, 0]);
    // One code of one bit each: ten further bits for a value, and the end of a block.
    for (class, symbol) in [(0x00u8, 10u8), (0x10, 0)] {
        out.extend([0xff, 0xc4, 0, 20, class, 1]);
        out.extend([0u8; 15]);
        out.push(symbol);
    }
    out.extend([0xff, 0xda, 0, 8, 1, 1, 0, 0, 63, 0]);
    // 0 1001000000 0 is 576 eighths above the middle; 0 0011011111 0 is 800 below that.
    if two {
        out.extend([0x48, 0x01, 0xbe]);
    } else {
        out.extend([0x48, 0x0f]);
    }
    out.extend([0xff, 0xd9]);
    out
}

fn camera() -> Vec<u8> {
    tiff(
        &[(0x10f, Val::Ascii(b"Acme \0")), (0x110, Val::Ascii(b"ACME One\0")), (0x112, Val::Short(6))],
        &[
            (0x829a, Val::Rational(1, 250)),
            (0x8827, Val::Short(400)),
            (0x9003, Val::Ascii(b"2026:09:14 17:02:05\0")),
            (0x9204, Val::SRational(-2, 3)),
            (0x927c, Val::Undefined(b"Someone's notes".to_vec())),
            (0xa434, Val::Ascii(b"  \0")),
        ],
    )
}

#[test]
fn exif_fields_are_read() {
    let e = ExifData::read(&jpeg(true, Some(camera()))).unwrap();
    assert!(e.little_endian);
    assert_eq!(e.buf, camera());
    assert_eq!(e.make, Some(FieldValue::Ascii(vec![b"Acme ".to_vec()])));
    assert_eq!(e.make_shown.as_deref(), Some("\"Acme \""));
    assert_eq!(e.model, Some(FieldValue::Ascii(vec![b"ACME One".to_vec()])));
    assert_eq!(e.orientation, Some(FieldValue::Other(Some(6))));
    assert_eq!(e.exposure_time, Some(FieldNumber::Rational(vec![(1, 250)])));
    assert_eq!(e.exposure_bias, Some(FieldNumber::SRational(vec![(-2, 3)])));
    assert_eq!(e.sensitivity, Some(FieldNumber::Other(Some(400))));
    assert_eq!(e.focal_length, None);
    match e.maker_note {
        Some(FieldValue::Undefined(note, at)) => {
            assert_eq!(note, b"Someone's notes");
            assert_eq!(&e.buf[at as usize..at as usize + 7], b"Someone");
        }
        _ => panic!("no note"),
    }
    assert!(ExifData::read(&jpeg(true, None)).is_none());
    assert!(ExifData::read(b"not a picture").is_none());
}

#[test]
fn odd_orientations_count_as_upright() {
    for (recorded, want) in [(0, 1), (1, 1), (8, 8), (9, 1), (65535, 1)] {
        let t = tiff(&[(0x112, Val::Short(recorded))], &[]);
        assert_eq!(orientation(&ExifData::read(&jpeg(false, Some(t)))), want);
    }
    let t = tiff(&[(0x112, Val::Ascii(b"6\0"))], &[]);
    assert_eq!(orientation(&ExifData::read(&jpeg(false, Some(t)))), 1);
    assert_eq!(orientation(&None), 1);
}

#[test]
fn day_a_picture_was_taken() {
    assert_eq!(taken_day(&jpeg(false, Some(camera()))).as_deref(), Some("2026-09-14"));
    assert_eq!(taken_day(&jpeg(false, None)), None);
    let t = tiff(&[], &[(0x9003, Val::Short(2026))]);
    assert_eq!(taken_day(&jpeg(false, Some(t))), None);
}

fn nothing() -> Exposure {
    let none = String::new;
    Exposure { focal_length: none(), aperture: none(), shutter: none(), iso: none(), bias: none() }
}

#[test]
fn without_exif_shows_size() {
    let m = Meta::from_exif(None, &nothing(), 6000, 4000);
    assert_eq!(m.rows, [("Size", "6000 × 4000".to_owned())]);
}

#[test]
fn dates_for_display() {
    assert_eq!(date("2026:09:14 17:02:05"), "2026-09-14 17:02:05");
    assert_eq!(date("2026:09:14"), "2026:09:14");
    assert_eq!(date(" 1:2"), " 1:2");
    assert_eq!(date(""), "");
    // Colons behind the first blank stay, and what is displayed is displayed as it is.
    assert_eq!(date("2026:09:14 at 5:02 p: m"), "2026-09-14 at 5:02 p: m");
    assert_eq!(date(&date("2026:09:14 17:02:05")), "2026-09-14 17:02:05");
}

fn settings() -> Exposure {
    Exposure {
        focal_length: "35 mm".to_owned(),
        aperture: "f/2.8".to_owned(),
        shutter: "1/250 s".to_owned(),
        iso: "400".to_owned(),
        bias: "-0.7 EV".to_owned(),
    }
}

fn rows(exif: &[(u16, Val)]) -> Vec<(&'static str, String)> {
    let e = ExifData::read(&jpeg(true, Some(tiff(&[], exif)))).unwrap();
    Meta::from_exif(Some(&e), &settings(), 8, 16).rows
}

#[test]
fn rows_in_order() {
    let e = ExifData::read(&jpeg(true, Some(camera()))).unwrap();
    let m = Meta::from_exif(Some(&e), &settings(), 8, 16);
    let rows: Vec<(&str, &str)> = m.rows.iter().map(|(l, v)| (*l, v.as_str())).collect();
    assert_eq!(
        rows,
        [
            ("Camera", "ACME One"),
            ("Shutter", "1/250 s"),
            ("ISO", "400"),
            ("Exposure comp.", "-0.7 EV"),
            ("Taken", "2026-09-14 17:02:05"),
            ("Size", "8 × 16"),
        ]
    );
}

#[test]
fn missing_settings_have_no_row() {
    let labels = |exif: &[(u16, Val)]| rows(exif).into_iter().map(|r| r.0).collect::<Vec<_>>();
    assert_eq!(labels(&[]), ["Size"]);
    let all = [
        (0x829a, Val::Rational(1, 60)),
        (0x829d, Val::Rational(28, 10)),
        (0x8827, Val::Short(100)),
        (0x9204, Val::SRational(0, 3)),
        (0x920a, Val::Rational(35, 1)),
    ];
    assert_eq!(labels(&all), ["Focal length", "Aperture", "Shutter", "ISO", "Exposure comp.", "Size"]);
    let undefined = [
        (0x829a, Val::Rational(1, 0)),
        (0x829d, Val::Rational(0, 0)),
        (0x8827, Val::Ascii(b"100\0")),
        (0x9204, Val::SRational(-1, 0)),
    ];
    assert_eq!(labels(&undefined), ["Size"]);
    // A shutter speed is shown for a time above zero.
    for (time, shown) in [
        (Val::Rational(0, 60), false),
        (Val::SRational(-1, 60), false),
        (Val::SRational(-1, -60), true),
        (Val::Short(0), false),
        (Val::Short(2), true),
    ] {
        assert_eq!(rows(&[(0x829a, time)]).iter().any(|r| r.0 == "Shutter"), shown);
    }
    assert!(!known(&None) && !known(&Some(FieldNumber::Rational(vec![]))));
    assert!(known(&Some(FieldNumber::Other(Some(0)))) && !known_positive(&Some(FieldNumber::Other(Some(0)))));
}

#[test]
fn camera_names() {
    let name = |make: &'static [u8], model: &'static [u8]| {
        let t = tiff(&[(0x10f, Val::Ascii(make)), (0x110, Val::Ascii(model))], &[]);
        let e = ExifData::read(&jpeg(false, Some(t)));
        Meta::from_exif(e.as_ref(), &nothing(), 1, 1).rows.first().map(|r| (r.0, r.1.clone()))
    };
    let camera = |s: &str| Some(("Camera", s.to_owned()));
    assert_eq!(name(b"Canon\0", b"Canon EOS R5\0"), camera("Canon EOS R5"));
    assert_eq!(name(b"FUJIFILM\0", b"X-T5\0"), camera("FUJIFILM X-T5"));
    assert_eq!(name(b" \0", b"X-T5\0"), camera("X-T5"));
    assert_eq!(name(b"Leica\0", b"\0"), camera("Leica"));
    assert_eq!(name(b"\0", b"\0"), Some(("Size", "1 × 1".to_owned())));
    assert_eq!(name(b"\xc3\x89CLAIR\0", b"\xc3\xa9clair 9\0"), camera("éclair 9"));
}

fn near(a: u8, b: u8) -> bool {
    a.abs_diff(b) <= 2
}

#[test]
fn decodes_pixels_orientation_and_exif() {
    let (img, o, exif) = decode(&jpeg(true, Some(camera()))).ok().unwrap();
    assert_eq!((img.width, img.height, o), (16, 8, 6));
    assert_eq!(img.data.len(), 16 * 8 * 4);
    assert!(img.data.chunks(4).enumerate().all(|(i, p)| near(p[0], if i % 16 < 8 { 200 } else { 100 }) && p[3] == 255));
    assert!(exif.is_some());
    assert!(decode(b"").is_err());
    assert!(decode(&jpeg(true, None)[..40]).is_err());
}

#[test]
fn jobs_make_what_they_are_for() {
    let file = jpeg(true, Some(camera()));
    let mut resizer = Resizer::new();
    let mut run = |kind: JobKind, target: (u32, u32)| {
        run_job("/d/a.JPG", 3, kind, 3, true, target, |_| Ok(file.clone()), |_| nothing(), &mut resizer)
    };
    match run(JobKind::Full, (1, 1)) {
        Ok(Payload::Full(i)) => {
            // Turned clockwise: what was on the left is on top.
            assert_eq!((i.width, i.height), (8, 16));
            assert!(i.data.chunks(4).enumerate().all(|(k, p)| near(p[0], if k < 64 { 200 } else { 100 })));
        }
        _ => panic!("no full image"),
    }
    match run(JobKind::Fit, (8, 8)) {
        Ok(Payload::Fit { fit, thumb, full_width, full_height, meta }) => {
            assert_eq!((fit.width, fit.height), (4, 8));
            assert_eq!((thumb.width, thumb.height), (4, 8));
            assert_eq!(thumb.data, fit.data);
            assert_eq!((full_width, full_height), (8, 16));
            assert!(near(fit.data[0], 200) && near(fit.data[fit.data.len() - 4], 100));
            assert_eq!(meta.rows.last().unwrap().1, "8 × 16");
            assert_eq!(meta.rows[0], ("Camera", "ACME One".to_owned()));
        }
        _ => panic!("no screen-fit image"),
    }
    match run(JobKind::Thumb, (8, 8)) {
        Ok(Payload::Thumb(i)) => assert_eq!((i.width, i.height), (8, 16)),
        _ => panic!("no thumbnail"),
    }
}

#[test]
fn thumbnails_are_small() {
    let raw = Rgba { width: 800, height: 400, data: vec![90; 800 * 400 * 4] };
    let mut resizer = Resizer::new();
    match finish_job(JobKind::Fit, raw, 1, None, &nothing(), (600, 600), &mut resizer) {
        Payload::Fit { fit, thumb, full_width, full_height, .. } => {
            assert_eq!((fit.width, fit.height, fit.data.len()), (600, 300, 600 * 300 * 4));
            assert_eq!((thumb.width, thumb.height, thumb.data.len()), (THUMB_PX, 180, 360 * 180 * 4));
            assert_eq!((full_width, full_height), (800, 400));
            assert!(thumb.data.iter().all(|&b| near(b, 90)));
        }
        _ => panic!("no screen-fit image"),
    }
}

#[test]
fn jobs_complain_with_the_files_name() {
    let mut resizer = Resizer::new();
    let r = run_job(
        "/d/a.JPG", 0, JobKind::Thumb, 9, false, (1, 1), |p| Err(format!("no {p}")), |_| nothing(), &mut resizer,
    );
    assert_eq!(r.err().as_deref(), Some("/d/a.JPG: no /d/a.JPG"));
    let r = run_job(
        "/d/a.JPG", 0, JobKind::Thumb, 9, false, (1, 1), |_| Ok(b"junk".to_vec()), |_| nothing(), &mut resizer,
    );
    let why = decode(b"junk").err().unwrap();
    assert_eq!(r.err(), Some(format!("/d/a.JPG: {why}")));
}

#[test]
fn stale_jobs_do_not_read() {
    let mut resizer = Resizer::new();
    let r = run_job(
        "/d/a.JPG", 9, JobKind::Fit, 0, false, (1, 1), |_| panic!("read"), |_| nothing(), &mut resizer,
    );
    assert!(matches!(r, Ok(Payload::Skipped)));
}
