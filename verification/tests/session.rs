use cull::app::{Action, App, Arrived, Mode, Toward};
use cull::catalog::{Catalog, Shot};
use cull::delete::{trash_shots, Report, Sweep};
use cull::keys::{Key, Modifiers, Pointer, Response};
use cull::lineedit::Mode as EditMode;
use cull::loader::JobKind;
use cull::relocate;
use cull::scene::{greeting, taken_note, Picture, HELP};
use cull::state::{self, State};
use std::cell::RefCell;

fn names(n: usize) -> Vec<String> {
    (0..n).flat_map(|i| [format!("s{i:02}.JPG"), format!("s{i:02}.ARW")]).collect()
}

fn app(n: usize) -> App {
    App::new("/d".to_owned(), Catalog::from_names("/d", names(n)), &State::default())
}

const PLAIN: Modifiers = Modifiers { shift: false, control: false, logo: false };

fn typed(a: &mut App, c: &str) {
    a.on_key(true, &Key::Character(c.to_owned()), Some(c), PLAIN, 4);
}

fn named(a: &mut App, k: &str) {
    a.on_key(true, &Key::Named(k.to_owned()), None, PLAIN, 4);
}

fn requests(actions: &[Action]) -> Vec<(usize, JobKind, bool)> {
    actions
        .iter()
        .filter_map(|a| match a {
            Action::Request { idx, kind, urgent } => Some((*idx, *kind, *urgent)),
            _ => None,
        })
        .collect()
}

#[test]
fn images_around_the_cursor_are_asked_for() {
    let mut a = app(20);
    a.resumed();
    let acts = a.take_actions();
    assert_eq!(acts[0], Action::SetCurrent { idx: 0, peeking: false });
    assert_eq!(
        requests(&acts),
        [(0, JobKind::Fit, true), (1, JobKind::Fit, false), (2, JobKind::Fit, false), (3, JobKind::Fit, false)]
    );
    a.go_to(10);
    assert_eq!(
        requests(&a.take_actions()),
        [
            (10, JobKind::Fit, true),
            (11, JobKind::Fit, false),
            (9, JobKind::Fit, false),
            (12, JobKind::Fit, false),
            (13, JobKind::Fit, false)
        ]
    );
    // Going back, more is kept behind the cursor; what was asked for is not asked for again.
    a.step(true, 1);
    assert_eq!(requests(&a.take_actions()), [(8, JobKind::Fit, false), (7, JobKind::Fit, false), (6, JobKind::Fit, false)]);
    a.schedule();
    assert!(requests(&a.take_actions()).is_empty());
}

#[test]
fn far_images_are_let_go() {
    let mut a = app(20);
    a.resumed();
    for i in 0..4 {
        a.receive(i, JobKind::Fit, Arrived::Fit);
    }
    assert_eq!(a.take_actions().iter().filter(|x| matches!(x, Action::UploadFit { .. })).count(), 4);
    assert!(a.cached[0] && a.cached[3] && a.known[3]);
    a.go_to(3);
    assert!(!a.cached[0] && !a.cached[1] && a.cached[2] && a.cached[3]);
    // What arrives too late is not uploaded, but its metadata is known.
    a.take_actions();
    a.receive(12, JobKind::Fit, Arrived::Fit);
    assert!(!a.cached[12] && a.known[12]);
    assert!(a.take_actions().is_empty());
}

#[test]
fn nothing_is_uploaded_without_a_window() {
    let mut a = app(3);
    a.receive(0, JobKind::Fit, Arrived::Fit);
    assert!(!a.cached[0] && !a.known[0]);
    a.receive(1, JobKind::Fit, Arrived::Failed("bad".to_owned()));
    assert_eq!(a.errors[1].as_deref(), Some("bad"));
    a.receive(2, JobKind::Thumb, Arrived::Skipped);
    assert!(a.take_actions().is_empty());
    // A shot that cannot be decoded is not asked for.
    a.resumed();
    assert_eq!(requests(&a.take_actions()), [(0, JobKind::Fit, true), (2, JobKind::Fit, false)]);
}

#[test]
fn peeking_asks_for_the_full_image() {
    let mut a = app(5);
    a.resumed();
    a.take_actions();
    typed(&mut a, "f");
    let acts = a.take_actions();
    assert_eq!(a.mode, Mode::Peek);
    assert_eq!(acts[..2], [Action::CenterPeek, Action::SetCurrent { idx: 0, peeking: true }]);
    assert_eq!(requests(&acts), [(0, JobKind::Full, true)]);
    a.receive(0, JobKind::Full, Arrived::Full);
    assert_eq!((a.full, a.take_actions()), (Some(0), vec![Action::UploadFull { idx: 0 }]));
    typed(&mut a, "n");
    assert_eq!((a.mode, a.cursor, a.full), (Mode::Peek, 1, None));
    // A full image of another shot is of no use.
    a.receive(0, JobKind::Full, Arrived::Full);
    assert_eq!(a.full, None);
    a.take_actions();
    typed(&mut a, "L");
    a.on_key(true, &Key::Named("ArrowUp".to_owned()), None, Modifiers { shift: true, ..PLAIN }, 4);
    assert_eq!(
        a.take_actions(),
        [
            Action::Pan { toward: Toward::Right, fast: false },
            Action::Redraw,
            Action::Pan { toward: Toward::Up, fast: true },
            Action::Redraw
        ]
    );
    named(&mut a, "Escape");
    assert_eq!(a.mode, Mode::Browse);
}

#[test]
fn browse_keys_move_the_cursor() {
    let mut a = app(30);
    let mut seen = Vec::new();
    for k in ["l", "j", "ArrowRight", "ArrowDown", "h", "k", "ArrowLeft", "ArrowUp", "ArrowUp", "PageDown", "G", "PageUp", "End", "g"] {
        if k.len() == 1 {
            typed(&mut a, k);
        } else {
            named(&mut a, k);
        }
        seen.push(a.cursor);
    }
    assert_eq!(seen, [1, 2, 3, 4, 3, 2, 1, 0, 0, 10, 29, 19, 29, 0]);
    a.take_actions();
    typed(&mut a, "z");
    a.on_key(false, &Key::Character("l".to_owned()), None, PLAIN, 4);
    a.on_key(true, &Key::Other, None, PLAIN, 4);
    assert!(a.take_actions().is_empty());
    assert_eq!(a.cursor, 0);
}

#[test]
fn marks_are_kept_and_counted() {
    let mut a = app(4);
    a.resumed();
    a.receive(0, JobKind::Fit, Arrived::Fit);
    a.take_actions();
    named(&mut a, "Space");
    assert_eq!(a.take_actions(), [Action::UploadKeptThumb { idx: 0 }, Action::Save, Action::Redraw]);
    assert!(a.marked[0] && a.thumbs[0]);
    assert_eq!(a.marked_count(), 1);
    named(&mut a, "Space");
    assert!(!a.marked[0] && !a.thumbs[0]);
    assert_eq!((a.marked_count(), a.take_actions()), (0, vec![Action::Save, Action::Redraw]));
}

#[test]
fn saved_state_comes_back() {
    let mut a = app(6);
    a.go_to(2);
    a.toggle_mark();
    a.go_to(4);
    a.toggle_mark();
    let s = a.state();
    assert_eq!(s, State { version: 1, marked: vec!["s02".to_owned(), "s04".to_owned()], cursor: Some("s04".to_owned()) });
    let b = App::new("/d".to_owned(), Catalog::from_names("/d", names(6)), &s);
    assert_eq!((b.marked, b.cursor), (a.marked, a.cursor));
    // Stems that are gone are forgotten.
    let s = State { version: 1, marked: vec!["s01".to_owned(), "zz".to_owned()], cursor: Some("zz".to_owned()) };
    let b = App::new("/d".to_owned(), Catalog::from_names("/d", names(3)), &s);
    assert_eq!((b.marked, b.cursor), (vec![false, true, false], 0));
}

#[test]
fn state_files() {
    assert_eq!(state::path("/d"), "/d/.cull-state.json");
    assert_eq!(state::tmp_path("/d"), "/d/.cull-state.json.tmp");
    let s = State { version: 7, marked: vec!["a".to_owned()], cursor: None };
    assert_eq!(s.stamped(), State { version: 1, ..s.clone() });
    assert!(s.is_marked("a") && !s.is_marked("b"));
    assert_eq!(State::default(), State { version: 0, marked: vec![], cursor: None });
}

fn reviewing(n: usize, marks: &[usize], cursor: usize) -> App {
    let mut a = app(n);
    a.resumed();
    for &i in marks {
        a.go_to(i);
        a.toggle_mark();
    }
    a.go_to(cursor);
    a.take_actions();
    typed(&mut a, "q");
    a
}

#[test]
fn review_lists_marks_and_starts_near() {
    let mut a = reviewing(10, &[1, 4, 7], 5);
    assert_eq!((a.mode, a.review.items.clone(), a.review.sel), (Mode::Review, vec![1, 4, 7], 2));
    let acts = a.take_actions();
    assert_eq!(acts[0], Action::ShowSelected { fresh: true });
    assert_eq!(
        requests(&acts).into_iter().filter(|r| r.1 == JobKind::Thumb).collect::<Vec<_>>(),
        [(1, JobKind::Thumb, true), (4, JobKind::Thumb, true), (7, JobKind::Thumb, true)]
    );
    let a = reviewing(10, &[1, 4], 9);
    assert_eq!(a.review.sel, 0);
}

#[test]
fn review_keys_move_the_selection() {
    let marks: Vec<usize> = (0..12).collect();
    let mut a = reviewing(12, &marks, 0);
    let mut seen = Vec::new();
    for k in ["l", "j", "ArrowDown", "h", "k", "PageDown", "G", "PageUp", "PageUp", "End", "Home", "ArrowUp"] {
        if k.len() == 1 {
            typed(&mut a, k);
        } else {
            named(&mut a, k);
        }
        seen.push(a.review.sel);
    }
    assert_eq!(seen, [1, 5, 9, 8, 4, 11, 11, 0, 0, 11, 0, 0]);
    a.on_key(true, &Key::Named("PageDown".to_owned()), None, PLAIN, usize::MAX);
    assert_eq!(a.review.sel, 11);
}

#[test]
fn kept_shots_lose_their_marks() {
    let mut a = reviewing(6, &[1, 3, 5], 0);
    named(&mut a, "Space");
    a.click_item(2);
    assert_eq!(a.doomed(), [3]);
    typed(&mut a, "n");
    assert_eq!(a.mode, Mode::Browse);
    assert_eq!(a.marked, [false, false, false, true, false, false]);
}

#[test]
fn confirming_nothing_goes_back() {
    let mut a = reviewing(3, &[1], 0);
    named(&mut a, "Space");
    assert_eq!(a.review_title(), ("Nothing to do (everything kept)".to_owned(), false));
    a.take_actions();
    typed(&mut a, "y");
    assert_eq!(a.mode, Mode::Browse);
    assert!(!a.take_actions().contains(&Action::Trash));
}

#[test]
fn confirming_trashes_and_offers_to_move() {
    let mut a = reviewing(3, &[0, 2], 0);
    assert_eq!(a.review_title(), ("Move 2 shot(s) (4 files) to Trash?".to_owned(), true));
    a.take_actions();
    named(&mut a, "Enter");
    assert_eq!(a.take_actions(), [Action::Trash, Action::Redraw]);
    let shots: Vec<&Shot> = a.doomed().iter().map(|&i| &a.catalog.shots[i]).collect();
    let r = trash_shots(&shots, |_| Ok(()));
    assert_eq!((r.shots, r.files, r.failures.len()), (2, 4, 0));
    a.trashed(&r, &vec![false, false]);
    assert_eq!(a.exit_message.as_deref(), Some("cull: moved 2 shot(s), 4 file(s) to Trash."));
    assert_eq!(a.take_actions(), [Action::RemoveState, Action::OfferMove]);
}

#[test]
fn failures_keep_their_marks() {
    let mut a = reviewing(4, &[0, 1, 3], 0);
    a.toggle_keep(1);
    let shots: Vec<&Shot> = a.doomed().iter().map(|&i| &a.catalog.shots[i]).collect();
    let r = trash_shots(&shots, |f| if f == "/d/s03.ARW" || f == "/d/s03.JPG" { Err("busy".to_owned()) } else { Ok(()) });
    assert_eq!((r.shots, r.files), (1, 2));
    assert_eq!(
        r.failures,
        [("/d/s03.JPG".to_owned(), "busy".to_owned()), ("/d/s03.ARW".to_owned(), "busy".to_owned())]
    );
    a.take_actions();
    a.trashed(&r, &vec![false, true, true]);
    assert_eq!(a.marked, [false, false, false, true]);
    assert_eq!(
        a.exit_message.as_deref(),
        Some("cull: moved 1 shot(s), 2 file(s) to Trash.\ncull: 2 file(s) could not be moved:\n  /d/s03.JPG: busy\n  /d/s03.ARW: busy")
    );
    assert_eq!(a.take_actions(), [Action::Save, Action::Exit]);
}

#[test]
fn no_marks_go_straight_to_the_move() {
    let mut a = app(2);
    named(&mut a, "Escape");
    assert_eq!(a.take_actions(), [Action::Save, Action::OfferMove, Action::Redraw]);
    a.open_move(0, 0, "~/x".to_owned());
    assert_eq!((a.mode, a.take_actions()), (Mode::Browse, vec![Action::Exit]));
    a.show_help = true;
    a.open_move(4, 2, "~/x".to_owned());
    assert_eq!((a.mode, a.show_help, a.moving.path.caret), (Mode::Move, false, 2));
    assert_eq!(a.move_title(), "Move the 2 remaining shot(s) (4 files) to:");
    a.open_move(4, 0, String::new());
    assert_eq!(a.move_title(), "Move the 4 remaining file(s) to:");
}

#[test]
fn typing_a_folder() {
    let mut a = app(2);
    a.open_move(4, 2, "~/x".to_owned());
    a.take_actions();
    typed(&mut a, "A");
    assert_eq!(a.move_hint().0, "-- INSERT --");
    a.on_key(true, &Key::Character("ü".to_owned()), Some("ü\u{7}"), PLAIN, 4);
    named(&mut a, "Backspace");
    a.on_key(true, &Key::Character("y".to_owned()), Some("y"), PLAIN, 4);
    a.on_key(true, &Key::Character("v".to_owned()), Some("v"), Modifiers { control: true, ..PLAIN }, 4);
    a.on_key(true, &Key::Named("Space".to_owned()), Some(" "), PLAIN, 4);
    assert_eq!(a.moving.path.text, "~/xy ");
    assert_eq!(a.typed(), "~/xy");
    a.on_key(true, &Key::Named("Escape".to_owned()), Some("\u{1b}"), PLAIN, 4);
    assert_eq!((a.moving.path.mode, a.moving.path.text.as_str()), (EditMode::Normal, "~/xy "));
    named(&mut a, "ArrowLeft");
    named(&mut a, "Backspace");
    assert_eq!(a.moving.path.caret, 2);
    named(&mut a, "ArrowRight");
    typed(&mut a, "x");
    assert_eq!(a.moving.path.text, "~/x ");
    assert!(a.take_actions().iter().all(|x| *x == Action::Redraw));
    named(&mut a, "Enter");
    assert_eq!(a.take_actions(), [Action::StartMove, Action::Redraw]);
}

#[test]
fn empty_folder_is_not_moved_to() {
    let mut a = app(2);
    a.open_move(4, 2, "  ".to_owned());
    a.take_actions();
    named(&mut a, "Enter");
    assert_eq!(a.take_actions(), [Action::Redraw]);
    named(&mut a, "Escape");
    assert_eq!(a.take_actions(), [Action::Exit, Action::Redraw]);
}

#[test]
fn only_escape_stops_a_running_move() {
    let mut a = app(2);
    a.open_move(4, 2, "~/x".to_owned());
    a.move_started("/home/me/x".to_owned());
    a.take_actions();
    typed(&mut a, "x");
    named(&mut a, "Enter");
    assert_eq!(a.moving.path.text, "~/x");
    assert_eq!(a.take_actions(), [Action::Redraw, Action::Redraw]);
    assert_eq!(a.move_status(), ("0 / 4 files".to_owned(), "Esc: stop after the current file"));
    a.move_progress(3);
    named(&mut a, "Escape");
    assert_eq!(a.take_actions(), [Action::CancelMove, Action::Redraw]);
    assert_eq!(a.move_status(), ("3 / 4 files".to_owned(), "Stopping after the current file…"));
    assert_eq!(a.moving_title(Some("/home/me")), "Moving to ~/x…");
}

#[test]
fn finishing_a_move() {
    let mut a = app(2);
    a.move_started("/home/me/x".to_owned());
    a.finish_move(&relocate::Report { files: 4, failures: vec![], cancelled: false }, Some("/home/me"));
    assert_eq!(a.exit_message.as_deref(), Some("cull: moved 4 file(s) to ~/x."));
    assert_eq!(a.take_actions(), [Action::RemoveState, Action::Exit]);
    a.finish_move(
        &relocate::Report { files: 1, failures: vec![("/d/a".to_owned(), "full".to_owned())], cancelled: true },
        None,
    );
    assert_eq!(
        a.exit_message.as_deref(),
        Some("cull: moved 4 file(s) to ~/x.\ncull: moved 1 file(s) to /home/me/x.\ncull: stopped early; the rest are still in /d.\ncull: 1 problem(s) moving files:\n  /d/a: full")
    );
    assert_eq!(a.take_actions(), [Action::Exit]);
}

#[test]
fn quitting_saves() {
    let mut a = app(2);
    a.on_key(true, &Key::Character("c".to_owned()), None, Modifiers { control: true, ..PLAIN }, 4);
    assert_eq!(a.take_actions(), [Action::Save, Action::Exit]);
    a.quit();
    assert_eq!(a.take_actions(), [Action::Save, Action::Exit]);
}

#[test]
fn help_and_metadata_toggle() {
    let mut a = app(2);
    typed(&mut a, "?");
    assert!(a.show_help);
    // Escape closes the help first.
    named(&mut a, "Escape");
    assert!(!a.show_help && a.mode == Mode::Browse);
    typed(&mut a, "m");
    assert!(a.show_meta && a.stage().metadata);
    assert_eq!(HELP.len(), 14);
}

#[test]
fn captions_and_messages() {
    let list = ["a.JPG", "a.ARW", "a.dng", "b.jpg"].map(str::to_owned).to_vec();
    let mut a = App::new("/d".to_owned(), Catalog::from_names("/d", list), &State::default());
    let s = a.stage();
    assert_eq!(s.caption, "1 / 2    a.JPG    ARW, DNG + JPEG");
    assert_eq!((s.message.as_deref(), s.picture), (Some("Loading…"), Picture::Nothing));
    assert_eq!((s.deletes.as_str(), s.alarm, s.marked), ("0 to delete", false, false));
    a.resumed();
    a.receive(0, JobKind::Fit, Arrived::Fit);
    a.toggle_mark();
    let s = a.stage();
    assert_eq!((s.message, s.picture), (None, Picture::Fit(0)));
    assert_eq!((s.deletes.as_str(), s.alarm, s.marked), ("1 to delete", true, true));
    a.enter_peek();
    assert_eq!(a.stage().picture, Picture::Enlarged(0));
    a.receive(0, JobKind::Full, Arrived::Full);
    assert_eq!(a.stage().picture, Picture::Full(0));
    a.go_to(1);
    a.receive(1, JobKind::Fit, Arrived::Failed("/d/b.jpg: bad".to_owned()));
    let s = a.stage();
    assert_eq!(s.caption, "2 / 2    b.jpg    JPEG only");
    assert_eq!(s.message.as_deref(), Some("Could not decode: /d/b.jpg: bad"));
}

#[test]
fn review_cells() {
    let mut a = reviewing(3, &[0, 2], 0);
    a.receive(0, JobKind::Thumb, Arrived::Thumb);
    a.receive(2, JobKind::Thumb, Arrived::Failed("x".to_owned()));
    a.toggle_keep(1);
    let (c, d) = (a.cell(0), a.cell(1));
    assert_eq!((c.shot, c.label.as_str(), c.keep, c.selected, c.note, c.badge), (0, "s00", false, true, None, "DELETE"));
    assert_eq!((d.shot, d.label.as_str(), d.keep, d.selected, d.note, d.badge), (2, "s02", true, false, Some("error"), "KEEP"));
    let a = reviewing(3, &[1], 0);
    assert_eq!(a.cell(0).note, Some("…"));
}

#[test]
fn folder_that_is_taken() {
    assert_eq!(taken_note("~/x", "/h/x", "/h/x"), None);
    assert_eq!(taken_note("~/x", "/h/x", "/h/x_1").as_deref(), Some("That folder exists, so they'll go in x_1"));
    assert_eq!(taken_note("  ", "", "_1"), None);
}

#[test]
fn every_file_is_reported() {
    let c = Catalog::from_names("/d", names(3));
    let shots: Vec<&Shot> = c.shots.iter().collect();
    let r = trash_shots(&shots, |f| if f.ends_with("01.ARW") { Err("no".to_owned()) } else { Ok(()) });
    assert_eq!((r.shots, r.files, r.failures.len()), (2, 5, 1));
    let r = trash_shots(&[], |_| Ok(()));
    assert_eq!((r.shots, r.files, r.failures.len()), (0, 0, 0));
    assert_eq!(Report::default().files, 0);
}

#[test]
fn every_file_is_tried_once_in_order() {
    let c = Catalog::from_names("/d", ["a.JPG", "a.ARW", "a.xmp", "b.JPG"].map(str::to_owned).to_vec());
    let shots: Vec<&Shot> = c.shots.iter().collect();
    let want = ["/d/a.JPG", "/d/a.ARW", "/d/a.xmp", "/d/b.JPG"];
    let answer = |f: &str| if f == "/d/a.ARW" { Err("busy".to_owned()) } else { Ok(()) };
    let mut sweep = Sweep::new(&shots);
    let mut tried = Vec::new();
    while let Some(f) = sweep.next() {
        tried.push(f.to_owned());
        let r = answer(f);
        sweep.record(r);
    }
    assert_eq!(tried, want);
    let r = sweep.finish();
    assert_eq!((r.shots, r.files), (1, 3));
    assert_eq!(r.failures, [("/d/a.ARW".to_owned(), "busy".to_owned())]);
    // The same with one call for every file.
    let seen = RefCell::new(Vec::new());
    let r = Report::run(&shots, |f| {
        seen.borrow_mut().push(f.to_owned());
        answer(f)
    });
    assert_eq!(seen.into_inner(), want);
    assert_eq!((r.shots, r.files, r.failures.len()), (1, 3, 1));
    assert!(Sweep::new(&[]).next().is_none());
}

#[test]
fn pointer_does_what_the_screen_is_for() {
    let mut a = app(3);
    let all = [Pointer::Pressed, Pointer::Moved, Pointer::Released, Pointer::Moved, Pointer::Wheel, Pointer::Resized];
    let seen = |a: &mut App| all.map(|p| a.on_pointer(p));
    assert_eq!(
        seen(&mut a),
        [Response::PeekThere, Response::Nothing, Response::Nothing, Response::Nothing, Response::Nothing, Response::Redraw]
    );
    a.enter_peek();
    assert_eq!(
        seen(&mut a),
        [Response::Redraw, Response::Pan, Response::Nothing, Response::Nothing, Response::Pan, Response::Pan]
    );
    let mut a = reviewing(3, &[1], 0);
    assert_eq!(
        seen(&mut a),
        [Response::ChooseThere, Response::Nothing, Response::Nothing, Response::Nothing, Response::Scroll, Response::Scroll]
    );
    a.open_move(1, 0, "x".to_owned());
    assert_eq!(
        seen(&mut a),
        [Response::Redraw, Response::Nothing, Response::Nothing, Response::Nothing, Response::Nothing, Response::Redraw]
    );
}

#[test]
fn greeting_counts_shots_and_raws() {
    let c = |names: &[&str]| Catalog::from_names("/d", names.iter().map(|s| s.to_string()).collect());
    assert_eq!(greeting(&c(&["a.JPG", "a.ARW", "b.jpg"]), "/d"), "cull: 2 shots (1 with RAW) in /d");
    assert_eq!(
        greeting(&c(&["a.JPG", "c.ARW", "d.NEF"]), "/d"),
        "cull: 1 shots (0 with RAW) in /d\ncull: skipping 2 RAW file(s) with no matching JPEG"
    );
}
