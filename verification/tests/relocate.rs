use cull::paths::{file_name, join, parent, strip_prefix, with_file_name};
use cull::relocate::{
    abbreviate, exif_day, expand, last_taken, part_name, picture_day, refused, remaining_files, suggested_root, unique,
    Entry, FileMove, MoveStep, StepError, Transfer,
};
use std::path::Path;

#[test]
fn days() {
    assert_eq!(exif_day("2026:09:14 17:02:05").as_deref(), Some("2026-09-14"));
    assert_eq!(exif_day("0000:00:00 00:00:00"), None);
    assert_eq!(exif_day("    :  :     :  :  "), None);
    assert_eq!(exif_day("2026"), None);
}

#[test]
fn days_of_other_shapes() {
    assert_eq!(exif_day("2026-09-14").as_deref(), Some("2026-09-14"));
    assert_eq!(exif_day("2026/09/14 00:00:00"), None);
    assert_eq!(exif_day("2026:09:1é"), None);
    assert_eq!(exif_day("0001:01:01 00:00:00").as_deref(), Some("0001-01-01"));
}

#[test]
fn unique_appends_counter() {
    let p = "/tmp/x/2026-09-14";
    assert_eq!(unique(p, |_| false).as_deref(), Some(p));
    assert_eq!(unique(p, |q| q == p).as_deref(), Some("/tmp/x/2026-09-14_1"));
    let there = ["/tmp/x/2026-09-14", "/tmp/x/2026-09-14_1"];
    assert_eq!(unique(p, |q| there.contains(&q)).as_deref(), Some("/tmp/x/2026-09-14_2"));
}

#[test]
fn unique_counts_behind_the_last_name() {
    assert_eq!(unique("/a/b/", |q| q == "/a/b/").as_deref(), Some("/a/b_1"));
    assert_eq!(unique("b", |q| q == "b").as_deref(), Some("b_1"));
    assert_eq!(unique("/", |q| q == "/").as_deref(), Some("/_1"));
    assert_eq!(unique("a/..", |q| q == "a/..").as_deref(), Some("a/../_1"));
    let p = "x";
    let r = unique(p, |q| q != "x_123");
    assert_eq!(r.as_deref(), Some("x_123"));
}

#[test]
fn tilde() {
    let h = Some("/home/me");
    assert_eq!(expand("~", h), "/home/me");
    assert_eq!(expand("~/Pictures/x", h), "/home/me/Pictures/x");
    assert_eq!(expand("/a/~b", h), "/a/~b");
    assert_eq!(abbreviate("/home/me/Pictures", h), "~/Pictures");
}

#[test]
fn tilde_without_a_home() {
    assert_eq!(expand("~/x", None), "~/x");
    assert_eq!(expand("~", None), "~");
    assert_eq!(abbreviate("/home/me", None), "/home/me");
    assert_eq!(expand("~you/x", Some("/h")), "~you/x");
    assert_eq!(expand("~//etc", Some("/h")), "/etc");
    // An empty home is none.
    assert_eq!(expand("~/x", Some("")), "~/x");
    assert_eq!(abbreviate("/x", Some("")), "/x");
}

#[test]
fn shortened_paths_expand_again() {
    let h = "/home/me";
    for p in ["/home/me", "/home/me/", "/home/me/a/b", "/home//me/./a", "/home/mean", "/etc", "rel/x", "/"] {
        let short = abbreviate(p, Some(h));
        let long = expand(&short, Some(h));
        assert_eq!(
            Path::new(&long).components().collect::<Vec<_>>(),
            Path::new(p).components().collect::<Vec<_>>(),
            "{p} as {short}"
        );
    }
    assert_eq!(abbreviate("/home/me/", Some(h)), "~");
    assert_eq!(abbreviate("/home//me/./a//b/.", Some(h)), "~/a//b");
    assert_eq!(abbreviate("/home/mean", Some(h)), "/home/mean");
}

#[test]
fn paths_agree_with_the_standard_library() {
    let all = [
        "", "/", "a", "a/", "/a", "//a", "/a/b", "a/b/", "a//b", "a/./b", "./a", ".", "./", "..", "a/..",
        "a/.", "/a/../b", "/.", "/./", "././a", "a/b/.", "./.", ".a", "a/.b", "/a/b/c.d/", "~", "~/x",
    ];
    for p in all {
        let path = Path::new(p);
        assert_eq!(file_name(p).as_deref(), path.file_name().and_then(|n| n.to_str()), "{p:?}");
        assert_eq!(parent(p).as_deref(), path.parent().map(|n| n.to_str().unwrap()), "{p:?}");
        for q in all {
            assert_eq!(join(p, q), path.join(q).to_str().unwrap(), "{p:?} {q:?}");
            assert_eq!(with_file_name(p, q), path.with_file_name(q).to_str().unwrap(), "{p:?} {q:?}");
            if q.is_empty() {
                continue;
            }
            assert_eq!(
                strip_prefix(p, q).as_deref(),
                path.strip_prefix(q).ok().map(|r| r.to_str().unwrap()),
                "{p:?} {q:?}"
            );
        }
    }
}

#[test]
fn visible_files_in_order() {
    let entry = |name: &str, is_file: bool| Entry { name: name.as_bytes().to_vec(), is_file };
    let entries = vec![
        entry("clip.MOV", true),
        entry("a.JPG", true),
        entry(".cull-state.json", true),
        entry("sub", false),
        entry("._a.JPG", true),
        entry("a.ARW", true),
        Entry { name: vec![0xff, 0x41], is_file: true },
    ];
    assert_eq!(remaining_files(&entries), [5, 1, 0, 6]);
    assert!(remaining_files(&Vec::new()).is_empty());
}

#[test]
fn last_day_wins() {
    let d = |v: &[Option<&str>]| v.iter().map(|s| s.map(str::to_owned)).collect::<Vec<_>>();
    let jpegs = d(&[Some("2026-09-14"), None, Some("2026-09-19"), Some("2025-12-31")]);
    let files = d(&[None, Some("2024-01-02"), Some("2024-01-01")]);
    assert_eq!(last_taken(&jpegs, &files, "2030-01-01"), "2026-09-19");
    assert_eq!(last_taken(&d(&[None]), &files, "2030-01-01"), "2024-01-02");
    assert_eq!(last_taken(&d(&[]), &d(&[None]), "2030-01-01"), "2030-01-01");
    assert_eq!(picture_day(None, Some("b".to_owned())).as_deref(), Some("b"));
    assert_eq!(picture_day(Some("a".to_owned()), Some("b".to_owned())).as_deref(), Some("a"));
}

fn failed(crosses_devices: bool, message: &str) -> Result<u64, StepError> {
    Err(StepError { crosses_devices, message: message.to_owned() })
}

/// Runs a move to its end, answering each step in turn.
fn run(answers: Vec<Result<u64, StepError>>) -> (Vec<MoveStep>, Option<String>) {
    let mut m = FileMove::new();
    let mut steps = Vec::new();
    for a in answers {
        steps.push(m.step);
        m.advance(a, "/out/a.JPG");
    }
    assert_eq!(m.step, MoveStep::Finished);
    (steps, m.error)
}

#[test]
fn rename_is_enough_on_one_filesystem() {
    let (steps, error) = run(vec![Ok(0), Ok(0)]);
    assert_eq!(steps, [MoveStep::Check, MoveStep::Direct]);
    assert_eq!(error, None);
    let (_, error) = run(vec![Ok(0), failed(false, "denied")]);
    assert_eq!(error.as_deref(), Some("denied"));
}

#[test]
fn move_never_overwrites() {
    let (steps, error) = run(vec![Ok(1)]);
    assert_eq!(steps, [MoveStep::Check]);
    assert_eq!(error.as_deref(), Some("/out/a.JPG already exists"));
}

#[test]
fn copies_across_filesystems() {
    let (steps, error) = run(vec![
        Ok(0), failed(true, "cross-device"), Ok(9), Ok(9), Ok(0), failed(false, "no clock"), Ok(0), Ok(0), Ok(0),
    ]);
    assert_eq!(
        steps,
        [
            MoveStep::Check, MoveStep::Direct, MoveStep::Measure, MoveStep::Copy, MoveStep::Open, MoveStep::Stamp,
            MoveStep::Sync, MoveStep::Publish, MoveStep::RemoveSource
        ]
    );
    assert_eq!(error, None);
}

#[test]
fn incomplete_copy_is_discarded() {
    let (steps, error) = run(vec![Ok(0), failed(true, "x"), Ok(9), Ok(8), Ok(0)]);
    assert_eq!(steps.last(), Some(&MoveStep::Discard));
    assert!(!steps.contains(&MoveStep::RemoveSource) && !steps.contains(&MoveStep::Publish));
    assert_eq!(error.as_deref(), Some("copied 8 of 9 bytes"));
    for at in 2..8 {
        if at == 5 {
            continue;
        }
        let mut answers = vec![Ok(0), failed(true, "x"), Ok(9), Ok(9), Ok(0), Ok(0), Ok(0), Ok(0)];
        answers.truncate(at);
        answers.push(failed(false, "broken"));
        answers.push(Ok(0));
        let (steps, error) = run(answers);
        assert_eq!(steps.last(), Some(&MoveStep::Discard));
        assert!(!steps.contains(&MoveStep::RemoveSource));
        assert_eq!(error.as_deref(), Some("broken"));
    }
}

#[test]
fn part_names_are_hidden() {
    assert_eq!(part_name("b.CR2"), ".b.CR2.cull-part");
}

#[test]
fn transfer_counts_every_file() {
    let mut t = Transfer::new(vec!["/a".to_owned(), "/b".to_owned(), "/c".to_owned()]);
    assert_eq!(t.next(false), Some(0));
    assert_eq!(t.record(Ok(())), 1);
    assert_eq!(t.next(false), Some(1));
    assert_eq!(t.record(Err("full".to_owned())), 2);
    assert_eq!(t.next(false), Some(2));
    assert_eq!(t.record(Ok(())), 3);
    assert_eq!(t.next(true), None);
    assert!(!t.report.cancelled, "nothing was left to stop");
    assert_eq!(t.report.files, 2);
    assert_eq!(t.report.failures, [("/b".to_owned(), "full".to_owned())]);
}

#[test]
fn transfer_stops_between_files() {
    let mut t = Transfer::new(vec!["/a".to_owned(), "/b".to_owned()]);
    assert_eq!(t.next(false), Some(0));
    assert_eq!(t.record(Ok(())), 1);
    assert_eq!(t.next(true), None);
    assert!(t.report.cancelled);
    assert_eq!((t.report.files, t.report.failures.len()), (1, 0));
}

#[test]
fn folder_that_cannot_be_made() {
    let r = refused("/out".to_owned(), "denied".to_owned());
    assert_eq!((r.files, r.cancelled), (0, false));
    assert_eq!(r.failures, [("/out".to_owned(), "denied".to_owned())]);
}

#[test]
fn dated_folder_goes_beside_the_culled_one() {
    assert_eq!(suggested_root("/pics", true, "/cards/one"), "/pics");
    assert_eq!(suggested_root("/pics", false, "/cards/one"), "/cards");
    assert_eq!(suggested_root("", false, "/"), "/");
}
