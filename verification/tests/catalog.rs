use cull::catalog::{classify, Catalog, Kind, RAW_EXTS};

fn cat(names: &[&str]) -> Catalog {
    Catalog::from_names("/d", names.iter().map(|s| s.to_string()).collect())
}

#[test]
fn pairs_by_basename_case_insensitive_ext() {
    let c = cat(&["DSC0001.ARW", "DSC0001.JPG", "IMG_1.cr3", "IMG_1.jpg", "b.NEF", "b.jpeg"]);
    let stems: Vec<_> = c.shots.iter().map(|s| s.stem.as_str()).collect();
    assert_eq!(stems, ["DSC0001", "IMG_1", "b"]);
    assert!(c.shots.iter().all(|s| s.raws.len() == 1));
    assert_eq!(c.shots[0].raws[0], "/d/DSC0001.ARW");
}

#[test]
fn jpeg_only_and_raw_only() {
    let c = cat(&["a.JPG", "b.ARW"]);
    assert_eq!(c.shots.len(), 1);
    assert!(!c.shots[0].has_raw());
    assert_eq!(c.orphan_raws, ["/d/b.ARW".to_owned()]);
}

#[test]
fn sidecars_and_ignored_files() {
    let c = cat(&["a.JPG", "a.ARW", "a.ARW.xmp", "a.xmp", "._a.JPG", "notes.txt", "a.MOV"]);
    assert_eq!(c.shots.len(), 1);
    let files = c.shots[0].files();
    assert_eq!(files.len(), 4);
    assert!(files.contains(&"/d/a.ARW.xmp".to_owned()));
    assert!(files.contains(&"/d/a.xmp".to_owned()));
}

#[test]
fn sorted_by_stem() {
    let c = cat(&["DSC0003.JPG", "DSC0001.JPG", "DSC0002.JPG"]);
    let stems: Vec<_> = c.shots.iter().map(|s| s.stem.as_str()).collect();
    assert_eq!(stems, ["DSC0001", "DSC0002", "DSC0003"]);
}

#[test]
fn first_jpeg_is_shown_and_duplicates_go_along() {
    let c = cat(&["a.jpeg", "a.xmp", "a.JPG", "a.jpg", "a.RW2", "a.ARW"]);
    assert_eq!(c.shots.len(), 1);
    let s = &c.shots[0];
    assert_eq!(s.jpeg, "/d/a.JPG");
    assert_eq!(s.raws, ["/d/a.ARW", "/d/a.RW2"]);
    assert_eq!(s.sidecars, ["/d/a.jpeg", "/d/a.jpg", "/d/a.xmp"]);
    assert_eq!(
        s.files(),
        ["/d/a.JPG", "/d/a.ARW", "/d/a.RW2", "/d/a.jpeg", "/d/a.jpg", "/d/a.xmp"]
    );
}

#[test]
fn listing_order_does_not_matter() {
    let names = ["b.JPG", "a.ARW", "a.jpg", "c.CR2", "b.xmp", "a.JPEG", "c.NEF"];
    let mut back = names;
    back.reverse();
    let (x, y) = (cat(&names), cat(&back));
    assert_eq!(x.shots, y.shots);
    assert_eq!(x.orphan_raws, y.orphan_raws);
    assert_eq!(x.orphan_raws, ["/d/c.CR2", "/d/c.NEF"]);
}

#[test]
fn orphan_raws_are_in_no_shot() {
    let c = cat(&["a.JPG", "b.ARW", "b.ARW.xmp", "b.xmp", "c.dng"]);
    assert_eq!(c.orphan_raws, ["/d/b.ARW", "/d/c.dng"]);
    assert!(c.shots.iter().all(|s| s.files().iter().all(|f| !c.orphan_raws.contains(f))));
}

#[test]
fn odd_names() {
    // A sidecar's inner extension counts only where it is an image's.
    let c = cat(&["a.b.JPG", "a.b.xmp", "x.JPG", "x.txt.xmp", ".JPG", "JPG", "y.", "Ünï.jpg", "Ünï.ORF"]);
    let stems: Vec<_> = c.shots.iter().map(|s| s.stem.as_str()).collect();
    assert_eq!(stems, ["a.b", "x", "Ünï"]);
    assert_eq!(c.shots[0].sidecars, ["/d/a.b.xmp"]);
    assert!(c.shots[1].sidecars.is_empty());
    assert_eq!(c.shots[2].raws, ["/d/Ünï.ORF"]);
    assert!(cat(&[]).shots.is_empty());
}

#[test]
fn stems_compare_by_bytes() {
    let c = cat(&["b.jpg", "B.jpg", "a.jpg", "é.jpg", "ab.jpg"]);
    let stems: Vec<_> = c.shots.iter().map(|s| s.stem.as_str()).collect();
    assert_eq!(stems, ["B", "a", "ab", "b", "é"]);
}

#[test]
fn directory_with_a_trailing_slash() {
    let c = Catalog::from_names("/d/", vec!["a.JPG".to_owned()]);
    assert_eq!(c.shots[0].jpeg, "/d/a.JPG");
    let c = Catalog::from_names("", vec!["a.JPG".to_owned()]);
    assert_eq!(c.shots[0].jpeg, "a.JPG");
}

#[test]
fn extensions_of_every_kind() {
    for e in ["jpg", "jpeg", "JPG", "jPeG"] {
        assert_eq!(classify(e), Some(Kind::Jpeg));
    }
    for e in RAW_EXTS {
        assert_eq!(classify(e), Some(Kind::Raw));
        assert_eq!(classify(&e.to_ascii_uppercase()), Some(Kind::Raw));
    }
    for e in ["arw", "cr2", "cr3", "nef", "raf", "orf", "rw2", "dng", "pef"] {
        assert!(RAW_EXTS.contains(&e));
    }
    assert_eq!((classify("xmp"), classify("XMP")), (Some(Kind::Sidecar), Some(Kind::Sidecar)));
    for e in ["", "png", "jp", "jpgx", "ÄRW", "\u{212a}dc"] {
        assert_eq!(classify(e), None);
    }
}

#[test]
fn every_file_stands_once_in_a_catalog() {
    let names = ["a.JPG", "a.jpeg", "a.ARW", "a.ARW.xmp", "a.xmp", "b.NEF", "b.xmp", "c.jpg", "d.CR3", ".c.jpg", "notes.txt"];
    let c = cat(&names);
    let mut files: Vec<String> = c.shots.iter().flat_map(|s| s.files()).collect();
    files.extend(c.orphan_raws.clone());
    for name in names {
        // A sidecar of a stem without a JPEG, a hidden file and other files stand nowhere.
        let belongs = !["b.xmp", ".c.jpg", "notes.txt"].contains(&name);
        let path = format!("/d/{name}");
        assert_eq!(files.iter().filter(|f| **f == path).count(), belongs as usize, "{name}");
    }
    assert_eq!(files.len(), 8);
}
