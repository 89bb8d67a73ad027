use cull::frame::frame_decodes;
use cull::loader::decode;

/// A frame header.
fn frame(marker: u8, w: u16, h: u16, factors: &[u8]) -> Vec<u8> {
    let n = factors.len() as u8;
    let mut out = vec![0xff, marker, 0, 8 + 3 * n, 8];
    out.extend(h.to_be_bytes());
    out.extend(w.to_be_bytes());
    out.push(n);
    for (i, f) in factors.iter().enumerate() {
        out.extend([i as u8 + 1, *f, 0]);
    }
    out
}

/// The header of a scan of these components.
fn scan(ids: &[u8], last: u8) -> Vec<u8> {
    let n = ids.len() as u8;
    let mut out = vec![0xff, 0xda, 0, 6 + 2 * n, n];
    for id in ids {
        out.extend([*id, 0]);
    }
    out.extend([0, last, 0]);
    out
}

/// Adobe's note on how colours are transformed.
fn adobe(transform: u8) -> Vec<u8> {
    let mut out = vec![0xff, 0xee, 0, 14];
    out.extend(b"Adobe");
    out.extend([0, 100, 0, 0, 0, 0, transform]);
    out
}

/// A picture in the middle of grey: every coefficient is zero.
fn grey(marker: u8, w: u16, h: u16, factors: &[u8], scans: &[&[u8]]) -> Vec<u8> {
    let mut out = vec![0xff, 0xd8, 0xff, 0xdb, 0, 67, 0];
    out.extend([1u8; 64]);
    out.extend(frame(marker, w, h, factors));
    // One code of one bit each: no difference, and the end of a block.
    for class in [0x00u8, 0x10] {
        out.extend([0xff, 0xc4, 0, 20, class, 1]);
        out.extend([0u8; 15]);
        out.push(0);
    }
    for ids in scans {
        // Progressive scans hold the first coefficients alone.
        let (last, len) = if marker == 0xc2 { (0, 1) } else { (63, 24) };
        out.extend(scan(ids, last));
        out.extend(vec![0u8; len]);
    }
    out.extend([0xff, 0xd9]);
    out
}

#[test]
fn usual_frames_are_decoded() {
    for factors in [[0x11, 0x11, 0x11], [0x21, 0x11, 0x11], [0x22, 0x11, 0x11], [0x12, 0x11, 0x11], [0x41, 0x11, 0x11]] {
        for marker in [0xc0, 0xc1, 0xc2] {
            let file = grey(marker, 16, 16, &factors, &[&[1, 2, 3]]);
            assert!(frame_decodes(&file));
            let (img, o, _) = match decode(&file) {
                Ok(r) => r,
                Err(e) => panic!("{marker:x} {factors:x?}: {e}"),
            };
            assert_eq!((img.width, img.height, o), (16, 16, 1), "{marker} {factors:?}");
            assert!(img.data.chunks(4).all(|p| p == [128, 128, 128, 255]), "{marker} {factors:?}");
        }
        // Component after component.
        assert!(frame_decodes(&grey(0xc0, 16, 16, &factors, &[&[1], &[2], &[3]])));
    }
    for factor in [0x11, 0x22, 0x14] {
        let (img, _, _) = decode(&grey(0xc0, 8, 8, &[factor], &[&[1]])).ok().unwrap();
        assert!(img.data.chunks(4).all(|p| p == [128, 128, 128, 255]));
    }
}

/// A file of these headers and a scan of `n` components.
fn file(headers: &[Vec<u8>], n: u8) -> Vec<u8> {
    let ids: Vec<u8> = (1..=n).collect();
    let mut out = vec![0xff, 0xd8];
    out.extend(headers.concat());
    out.extend(scan(&ids, 0));
    out
}

/// A header with this code and content.
fn header(code: u8, content: &[u8]) -> Vec<u8> {
    let mut out = vec![0xff, code];
    out.extend((content.len() as u16 + 2).to_be_bytes());
    out.extend(content);
    out
}

const ODD: [u8; 3] = [0x11, 0x22, 0x22];

#[test]
fn frames_that_do_not_fit_are_refused() {
    let refused = Some("unsupported frame".to_owned());
    for w in [8, 16, 640] {
        let file = grey(0xc2, w, 8, &ODD, &[&[1, 2, 3]]);
        assert!(!frame_decodes(&file));
        assert_eq!(decode(&file).err(), refused);
    }
    // In one baseline scan there is room.
    assert!(frame_decodes(&grey(0xc0, 8, 8, &ODD, &[&[1, 2, 3]])));
    assert!(decode(&grey(0xc0, 8, 8, &ODD, &[&[1, 2, 3]])).is_ok());
    let several = grey(0xc0, 8, 8, &ODD, &[&[1], &[2], &[3]]);
    assert_eq!(decode(&several).err(), refused);
    // Rows that are longer than the space for them, and rows that fit in it after all.
    let wide = grey(0xc0, 16, 8, &[0x11, 0x21, 0x21], &[&[1], &[2], &[3]]);
    assert_eq!(decode(&wide).err(), refused);
    let tall = grey(0xc0, 16, 16, &[0x12, 0x22, 0x22], &[&[1], &[2], &[3]]);
    assert!(frame_decodes(&tall) && decode(&tall).is_ok());
    assert!(frame_decodes(&grey(0xc2, 8, 8, &[0x11, 0x21, 0x21], &[&[1, 2, 3]])));
    assert!(decode(&grey(0xc2, 8, 8, &[0x11, 0x21, 0x21], &[&[1, 2, 3]])).is_ok());
}

#[test]
fn only_the_frame_that_is_decoded_counts() {
    let usual = grey(0xc0, 16, 16, &[0x22, 0x11, 0x11], &[&[1, 2, 3]]);
    let plain = decode(&usual).ok().unwrap().0;
    let preview = grey(0xc2, 8, 8, &ODD, &[&[1, 2, 3]]);
    for code in [0xe1, 0xe2, 0xe5, 0xed, 0xfe] {
        let held = [usual[..2].to_vec(), header(code, &preview), usual[2..].to_vec()].concat();
        let img = decode(&held).ok().unwrap().0;
        assert_eq!((img.width, img.height, &img.data), (16, 16, &plain.data), "{code:x}");
    }
    let trailed = [usual.clone(), preview.clone()].concat();
    assert!(decode(&trailed).ok().unwrap().0.data == plain.data);
    // The other way round, a usual frame within an odd picture does not help.
    let held = [preview[..2].to_vec(), header(0xe5, &usual), preview[2..].to_vec()].concat();
    assert_eq!(decode(&held).err().as_deref(), Some("unsupported frame"));
}

#[test]
fn headers_are_followed_as_the_decoder_does() {
    let odd = frame(0xc2, 8, 8, &ODD);
    assert!(!frame_decodes(&file(&[odd.clone()], 3)));
    // Fill bytes and stray bytes between headers.
    assert!(!frame_decodes(&file(&[vec![0xff, 0xff], odd.clone()], 3)));
    assert!(!frame_decodes(&file(&[vec![1, 2, 0], odd.clone()], 3)));
    assert!(!frame_decodes(&file(&[header(0xe0, b"JFIF\0\x01\x01\0\0\x01\0\x01\0\0"), odd.clone()], 3)));
    // A header of four bytes with the code 0xe0 takes the next byte along.
    assert!(frame_decodes(&file(&[header(0xe0, b"four"), odd.clone()], 3)));
    assert!(!frame_decodes(&file(&[header(0xe1, b"four"), odd.clone()], 3)));
    assert!(!frame_decodes(&file(&[header(0xe0, b"fives"), odd.clone()], 3)));
    // What has no scan, or does not start as a JPEG file, is for the decoder to refuse.
    assert!(frame_decodes(&[vec![0xff, 0xd8], odd.clone()].concat()));
    assert!(frame_decodes(&file(&[odd.clone()], 3)[1..]));
}

#[test]
fn long_sides_pass() {
    for factor in [0x11, 0x12, 0x22] {
        for marker in [0xc0, 0xc2] {
            assert!(frame_decodes(&file(&[frame(marker, 65535, 65535, &[factor])], 1)));
        }
    }
}

#[test]
fn two_components_are_not_ycck() {
    let ok = |marker: u8, factors: &[u8], t: u8| {
        let n = factors.len() as u8;
        let f = frame(marker, 8, 8, factors);
        (frame_decodes(&file(&[adobe(t), f.clone()], n)), frame_decodes(&file(&[f, adobe(t)], n)))
    };
    assert_eq!(ok(0xc2, &[0x11, 0x11], 2), (false, false));
    // A frame of one component is grey, unless something else is said behind it.
    assert_eq!(ok(0xc2, &[0x11], 2), (true, false));
    assert_eq!(ok(0xc2, &[0x11, 0x11], 1), (true, true));
    assert_eq!(ok(0xc0, &[0x11, 0x11], 2), (true, true));
    assert_eq!(ok(0xc2, &[0x11, 0x11, 0x11], 2), (true, true));
    // The last word counts.
    let f = frame(0xc2, 8, 8, &[0x11, 0x11]);
    assert!(frame_decodes(&file(&[adobe(2), adobe(1), f], 2)));
}

#[test]
fn what_is_no_frame_is_passed_over() {
    assert!(frame_decodes(b""));
    assert!(frame_decodes(&[0xff, 0xd8, 0xff, 0xc2]));
    let with = |f: Vec<u8>| frame_decodes(&file(&[f], 2));
    assert!(!with(frame(0xc2, 8, 8, &[0x11, 0x22])));
    // Factors, precision and length that the decoder does not take.
    assert!(with(frame(0xc2, 8, 8, &[0x11, 0x33])));
    let mut deep = frame(0xc2, 8, 8, &[0x11, 0x22]);
    deep[4] = 12;
    assert!(with(deep));
    let mut long = frame(0xc2, 8, 8, &[0x11, 0x22]);
    long[3] += 1;
    assert!(with(long));
    assert!(with(frame(0xc3, 8, 8, &[0x11, 0x22])));
}
