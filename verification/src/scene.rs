//! What is on the screen, in words: which image, and every line of text.
use crate::app::{count, App, AppView, Mode, MoveView};
use crate::catalog::{last_dot, Catalog, CatalogView, Shot, ShotView};
use crate::lineedit::Mode as EditMode;
use crate::order::texts;
use crate::paths::{file_name, file_name_of};
use crate::relocate::{abbreviate, abbreviate_of, home_of};
use crate::text::{
    chars_of, decimal, decimal_of, same_text, text_of, text_view, to_uppercase, trim, trim_of,
    uppercase,
};
use vstd::prelude::*;
use vstd::string::*;

verus! {

/// Which image is shown.
#[derive(Debug, Clone, Copy, PartialEq, Eq, Structural)]
pub enum Picture {
    Nothing,
    /// The screen-fit image of a shot.
    Fit(usize),
    /// The full image of a shot, at its size.
    Full(usize),
    /// The screen-fit image of a shot at the size of the full one, until that is there.
    Enlarged(usize),
}

/// The browse and peek screens.
pub struct Stage {
    pub picture: Picture,
    /// The image is greyed out and framed, and a banner says so.
    pub marked: bool,
    /// What is said in the middle of the screen when there is no image.
    pub message: Option<String>,
    /// The metadata panel is shown.
    pub metadata: bool,
    pub caption: String,
    pub deletes: String,
    /// Something is marked.
    pub alarm: bool,
}

/// A stage as texts.
pub struct StageView {
    pub picture: Picture,
    pub marked: bool,
    pub message: Option<Seq<char>>,
    pub metadata: bool,
    pub caption: Seq<char>,
    pub deletes: Seq<char>,
    pub alarm: bool,
}

impl View for Stage {
    type V = StageView;

    open spec fn view(&self) -> StageView {
        StageView {
            picture: self.picture,
            marked: self.marked,
            message: text_view(self.message),
            metadata: self.metadata,
            caption: self.caption@,
            deletes: self.deletes@,
            alarm: self.alarm,
        }
    }
}

/// A cell of the review screen.
pub struct Cell {
    pub shot: usize,
    pub label: String,
    pub keep: bool,
    pub selected: bool,
    /// What stands in place of a thumbnail that is not there.
    pub note: Option<&'static str>,
    pub badge: &'static str,
}

/// A cell as texts.
pub struct CellView {
    pub shot: usize,
    pub label: Seq<char>,
    pub keep: bool,
    pub selected: bool,
    pub note: Option<Seq<char>>,
    pub badge: Seq<char>,
}

impl View for Cell {
    type V = CellView;

    open spec fn view(&self) -> CellView {
        CellView {
            shot: self.shot,
            label: self.label@,
            keep: self.keep,
            selected: self.selected,
            note: match self.note {
                Some(s) => Some(s@),
                None => None,
            },
            badge: self.badge@,
        }
    }
}

/// The keys and what they do.
pub const HELP: [(&'static str, &'static str); 14] = [
    ("Browse", ""),
    ("← → / h l", "previous / next"),
    ("Space", "mark / unmark for deletion"),
    ("f  or click", "focus peek (100%)"),
    ("g / G", "first / last"),
    ("m", "show / hide metadata"),
    ("q / Esc", "review marked shots and finish"),
    ("", ""),
    ("Focus peek", ""),
    ("arrows / hjkl", "pan (Shift: faster), or drag / scroll"),
    ("n / p", "next / previous shot"),
    ("f / Esc", "back to full screen"),
    ("", ""),
    ("?", "toggle this help"),
];

/// The extension of the last component of a path: what stands behind its last `.`, unless that is
/// what it starts with.
pub open spec fn extension_of(path: Seq<char>) -> Option<Seq<char>> {
    match file_name_of(path) {
        Some(name) => match last_dot(name) {
            Some(i) => if i > 0 {
                Some(name.skip(i + 1))
            } else {
                None
            },
            None => None,
        },
        None => None,
    }
}

/// The extensions of the first `k` paths in upper case, with commas between them.
pub open spec fn extensions(paths: Seq<Seq<char>>, k: int) -> Option<Seq<char>>
    decreases k,
{
    if k <= 0 {
        None
    } else {
        match (extensions(paths, k - 1), extension_of(paths[k - 1])) {
            (before, None) => before,
            (None, Some(e)) => Some(uppercase(e)),
            (Some(b), Some(e)) => Some(b + ", "@ + uppercase(e)),
        }
    }
}

/// What a shot consists of.
pub open spec fn shot_kind(shot: ShotView) -> Seq<char> {
    if shot.raws.len() > 0 {
        (match extensions(shot.raws, shot.raws.len() as int) {
            Some(e) => e,
            None => Seq::empty(),
        }) + " + JPEG"@
    } else {
        "JPEG only"@
    }
}

/// The file name of a path, or nothing.
pub open spec fn name_or_nothing(path: Seq<char>) -> Seq<char> {
    match file_name_of(path) {
        Some(n) => n,
        None => Seq::empty(),
    }
}

/// How many files the first `k` of the given shots have, as far as can be counted.
pub open spec fn files_of(shots: Seq<ShotView>, items: Seq<usize>, k: int) -> nat
    decreases k,
{
    if k <= 0 {
        0
    } else {
        let before = files_of(shots, items, k - 1);
        let more = shots[items[k - 1] as int].files().len();
        if before + more > u64::MAX {
            u64::MAX as nat
        } else {
            before + more
        }
    }
}

impl AppView {
    /// The caption of the current shot.
    pub open spec fn caption(self) -> Seq<char> {
        let shot = self.shots[self.cursor as int];
        decimal_of((self.cursor + 1) as nat) + " / "@ + decimal_of(self.n() as nat) + "    "@
            + name_or_nothing(shot.jpeg) + "    "@ + shot_kind(shot)
    }

    /// Which image is shown: while peeking the full one, or the screen-fit one in its place.
    pub open spec fn picture(self) -> Picture {
        if self.mode is Peek {
            match self.full {
                Some(i) => Picture::Full(i),
                None => if self.cached[self.cursor as int] {
                    Picture::Enlarged(self.cursor)
                } else {
                    Picture::Nothing
                },
            }
        } else if self.cached[self.cursor as int] {
            Picture::Fit(self.cursor)
        } else {
            Picture::Nothing
        }
    }

    /// What is said when the screen-fit image is missing.
    pub open spec fn missing_message(self) -> Option<Seq<char>> {
        if self.cached[self.cursor as int] {
            None
        } else {
            match self.errors[self.cursor as int] {
                Some(e) => Some("Could not decode: "@ + e),
                None => Some("Loading…"@),
            }
        }
    }

    /// The browse and peek screens.
    pub open spec fn stage(self) -> StageView {
        StageView {
            picture: self.picture(),
            marked: self.marked[self.cursor as int],
            message: self.missing_message(),
            metadata: self.show_meta,
            caption: self.caption(),
            deletes: decimal_of(count(self.marked)) + " to delete"@,
            alarm: count(self.marked) > 0,
        }
    }

    /// The `i`-th cell of the review.
    pub open spec fn cell(self, i: int) -> CellView {
        let shot = self.review.items[i];
        CellView {
            shot,
            label: self.shots[shot as int].stem,
            keep: self.review.keep[i],
            selected: i == self.review.sel,
            note: if self.thumbs[shot as int] {
                None
            } else if self.errors[shot as int] is Some {
                Some("error"@)
            } else {
                Some("…"@)
            },
            badge: if self.review.keep[i] {
                "KEEP"@
            } else {
                "DELETE"@
            },
        }
    }

    /// The title of the review.
    pub open spec fn review_title(self) -> Seq<char> {
        let d = self.doomed();
        if d.len() == 0 {
            "Nothing to do (everything kept)"@
        } else {
            "Move "@ + decimal_of(d.len()) + " shot(s) ("@ + decimal_of(
                files_of(self.shots, d, d.len() as int),
            ) + " files) to Trash?"@
        }
    }
}

impl MoveView {
    /// The title of the move screen, before the move.
    pub open spec fn title(self) -> Seq<char> {
        if self.shots > 0 {
            "Move the "@ + decimal_of(self.shots) + " remaining shot(s) ("@ + decimal_of(self.files)
                + " files) to:"@
        } else {
            "Move the "@ + decimal_of(self.files) + " remaining file(s) to:"@
        }
    }
}

/// The extension of the last component of a path.
fn extension(path: &str) -> (r: Option<String>)
    ensures
        text_view(r) == extension_of(path@),
{
    let name = match file_name(path) {
        Some(n) => n,
        None => {
            return None;
        },
    };
    let c = chars_of(name.as_str());
    let ghost t = name@;
    let mut i: usize = c.len();
    assert(t.take(i as int) =~= t);
    while i > 0 && c[i - 1] != '.'
        invariant
            i <= c@.len(),
            c@ == t,
            last_dot(t) == last_dot(t.take(i as int)),
        decreases i,
    {
        assert(t.take(i as int).last() == t[i - 1]);
        assert(t.take(i as int).drop_last() =~= t.take(i - 1));
        i -= 1;
    }
    if i == 0 {
        return None;
    }
    assert(t.take(i as int).last() == t[i - 1]);
    assert(last_dot(t) == Some(i - 1));
    if i == 1 {
        return None;
    }
    assert(t.subrange(i as int, t.len() as int) =~= t.skip(i as int));
    Some(text_of(c.as_slice(), i, c.len()))
}

/// What a shot consists of.
fn kind_text(shot: &Shot) -> (r: String)
    ensures
        r@ == shot_kind(shot@),
{
    if !shot.has_raw() {
        return "JPEG only".to_owned();
    }
    let ghost paths = texts(shot.raws@);
    let mut out: Option<String> = None;
    let mut i: usize = 0;
    while i < shot.raws.len()
        invariant
            i <= shot.raws@.len(),
            paths == texts(shot.raws@),
            text_view(out) == extensions(paths, i as int),
        decreases shot.raws.len() - i,
    {
        assert(paths[i as int] == shot.raws@[i as int]@);
        match extension(shot.raws[i].as_str()) {
            Some(e) => {
                let upper = to_uppercase(e.as_str());
                out = Some(
                    match out {
                        Some(b) => {
                            let mut t = b;
                            t.append(", ");
                            t.append(upper.as_str());
                            t
                        },
                        None => upper,
                    },
                );
            },
            None => {},
        }
        i += 1;
    }
    let mut text = match out {
        Some(t) => t,
        None => String::new(),
    };
    assert(out is None ==> text@ =~= Seq::empty());
    text.append(" + JPEG");
    text
}

/// The file name of a path, or nothing.
fn name_text(path: &str) -> (r: String)
    ensures
        r@ == name_or_nothing(path@),
{
    match file_name(path) {
        Some(n) => n,
        None => {
            let r = String::new();
            assert(r@ =~= Seq::empty());
            r
        },
    }
}

impl App {
    /// The caption of the current shot.
    pub fn caption(&self) -> (r: String)
        requires
            self.wf(),
        ensures
            r@ == self@.caption(),
    {
        let shot = &self.catalog.shots[self.cursor];
        assert(shot@ == self@.shots[self.cursor as int]);
        let mut out = decimal(self.cursor as u64 + 1);
        out.append(" / ");
        out.append(decimal(self.n() as u64).as_str());
        out.append("    ");
        out.append(name_text(shot.jpeg.as_str()).as_str());
        out.append("    ");
        out.append(kind_text(shot).as_str());
        out
    }

    /// The browse and peek screens.
    pub fn stage(&self) -> (r: Stage)
        requires
            self.wf(),
        ensures
            r@ == self@.stage(),
    {
        let cursor: usize = self.cursor;
        let cached = self.cached[cursor];
        let picture = if self.mode == Mode::Peek {
            match self.full {
                Some(i) => Picture::Full(i),
                None => if cached {
                    Picture::Enlarged(cursor)
                } else {
                    Picture::Nothing
                },
            }
        } else if cached {
            Picture::Fit(cursor)
        } else {
            Picture::Nothing
        };
        assert(self@.errors[cursor as int] == text_view(self.errors@[cursor as int]));
        let message = if cached {
            None
        } else {
            match &self.errors[cursor] {
                Some(e) => {
                    let mut m = "Could not decode: ".to_owned();
                    m.append(e.as_str());
                    Some(m)
                },
                None => Some("Loading…".to_owned()),
            }
        };
        let marks: usize = self.marked_count();
        let mut deletes = decimal(marks as u64);
        deletes.append(" to delete");
        Stage {
            picture,
            marked: self.marked[cursor],
            message,
            metadata: self.show_meta,
            caption: self.caption(),
            deletes,
            alarm: marks > 0,
        }
    }

    /// The `i`-th cell of the review.
    pub fn cell(&self, i: usize) -> (r: Cell)
        requires
            self.wf(),
            i < self@.review.items.len(),
        ensures
            r@ == self@.cell(i as int),
    {
        let shot: usize = self.review.items[i];
        assert(shot < self@.n()) by {
            reveal(crate::app::ordered_items);
        }
        assert(self@.errors[shot as int] == text_view(self.errors@[shot as int]));
        let keep = self.review.keep[i];
        let label = self.catalog.shots[shot].stem.clone();
        assert(label@ == self@.shots[shot as int].stem);
        Cell {
            shot,
            label,
            keep,
            selected: i == self.review.sel,
            note: if self.thumbs[shot] {
                None
            } else if self.errors[shot].is_some() {
                Some("error")
            } else {
                Some("…")
            },
            badge: if keep {
                "KEEP"
            } else {
                "DELETE"
            },
        }
    }

    /// The title of the review, and whether anything goes to the trash.
    pub fn review_title(&self) -> (r: (String, bool))
        requires
            self.wf(),
        ensures
            r.0@ == self@.review_title(),
            r.1 == (self@.doomed().len() > 0),
    {
        let doomed = self.doomed();
        if doomed.len() == 0 {
            return ("Nothing to do (everything kept)".to_owned(), false);
        }
        let mut files: u64 = 0;
        let mut k: usize = 0;
        proof {
            lemma_doomed_in_range(self@);
        }
        while k < doomed.len()
            invariant
                k <= doomed@.len(),
                doomed@ == self@.doomed(),
                forall|j: int| 0 <= j < doomed@.len() ==> (#[trigger] doomed@[j]) < self@.n(),
                files == files_of(self@.shots, doomed@, k as int),
            decreases doomed.len() - k,
        {
            let shot = &self.catalog.shots[doomed[k]];
            assert(shot@ == self@.shots[doomed@[k as int] as int]);
            let names = shot.files();
            assert(names@.len() == texts(names@).len());
            let more: u64 = names.len() as u64;
            files = if more > u64::MAX - files {
                u64::MAX
            } else {
                files + more
            };
            k += 1;
        }
        let mut out = "Move ".to_owned();
        out.append(decimal(doomed.len() as u64).as_str());
        out.append(" shot(s) (");
        out.append(decimal(files).as_str());
        out.append(" files) to Trash?");
        (out, true)
    }

    /// The title of the move screen, before the move.
    pub fn move_title(&self) -> (r: String)
        ensures
            r@ == self@.moving.title(),
    {
        let mut out = "Move the ".to_owned();
        if self.moving.shots > 0 {
            out.append(decimal(self.moving.shots as u64).as_str());
            out.append(" remaining shot(s) (");
            out.append(decimal(self.moving.files as u64).as_str());
            out.append(" files) to:");
        } else {
            out.append(decimal(self.moving.files as u64).as_str());
            out.append(" remaining file(s) to:");
        }
        out
    }

    /// The mode of the typed folder, and the keys that it takes.
    pub fn move_hint(&self) -> (r: (&'static str, &'static str))
        ensures
            self@.moving.path.mode == EditMode::Insert ==> r.0@ == "-- INSERT --"@ && r.1@
                == "Esc: normal mode     Enter: move"@,
            self@.moving.path.mode == EditMode::Normal ==> r.0@ == "NORMAL"@ && r.1@
                == "Enter: move     Esc: leave them here     w b 0 $ h l: move     cw: change word     i a I A: insert     x: delete"@,
    {
        if self.moving.path.mode == EditMode::Insert {
            ("-- INSERT --", "Esc: normal mode     Enter: move")
        } else {
            (
                "NORMAL",
                "Enter: move     Esc: leave them here     w b 0 $ h l: move     cw: change word     i a I A: insert     x: delete",
            )
        }
    }

    /// Where the files are going.
    pub fn moving_title(&self, home: Option<&str>) -> (r: String)
        ensures
            r@ == "Moving to "@ + abbreviate_of(self@.moving.dest, home_of(home)) + "…"@,
    {
        let mut out = "Moving to ".to_owned();
        out.append(abbreviate(self.moving.dest.as_str(), home).as_str());
        out.append("…");
        out
    }

    /// How far the move is, and what Escape does.
    pub fn move_status(&self) -> (r: (String, &'static str))
        ensures
            r.0@ == decimal_of(self@.moving.done) + " / "@ + decimal_of(self@.moving.files)
                + " files"@,
            r.1@ == (if self@.moving.stopping {
                "Stopping after the current file…"@
            } else {
                "Esc: stop after the current file"@
            }),
    {
        let mut out = decimal(self.moving.done as u64);
        out.append(" / ");
        out.append(decimal(self.moving.files as u64).as_str());
        out.append(" files");
        (out, if self.moving.stopping {
            "Stopping after the current file…"
        } else {
            "Esc: stop after the current file"
        })
    }
}

/// What is said when the typed folder `typed` is there already and `actual` is used in its place.
pub open spec fn taken_note_of(text: Seq<char>, typed: Seq<char>, actual: Seq<char>) -> Option<
    Seq<char>,
> {
    if trim_of(text).len() > 0 && actual != typed {
        Some("That folder exists, so they'll go in "@ + name_or_nothing(actual))
    } else {
        None
    }
}

/// What is said when the folder `typed`, which `text` stands for, is there already and `actual` is
/// used in its place.
pub fn taken_note(text: &str, typed: &str, actual: &str) -> (r: Option<String>)
    ensures
        text_view(r) == taken_note_of(text@, typed@, actual@),
{
    if !trim(text).as_str().is_empty() && !same_text(actual, typed) {
        let mut out = "That folder exists, so they'll go in ".to_owned();
        out.append(name_text(actual).as_str());
        Some(out)
    } else {
        None
    }
}

/// How many of the first `k` shots have a RAW.
pub open spec fn with_raw(shots: Seq<ShotView>, k: int) -> nat
    decreases k,
{
    if k <= 0 {
        0
    } else {
        with_raw(shots, k - 1) + (if shots[k - 1].raws.len() > 0 {
            1nat
        } else {
            0
        })
    }
}

/// What is said of a catalog before the window opens.
pub open spec fn greeting_of(c: CatalogView, dir: Seq<char>) -> Seq<char> {
    let head = "cull: "@ + decimal_of(c.shots.len()) + " shots ("@ + decimal_of(
        with_raw(c.shots, c.shots.len() as int),
    ) + " with RAW) in "@ + dir;
    if c.orphan_raws.len() > 0 {
        head + "\ncull: skipping "@ + decimal_of(c.orphan_raws.len())
            + " RAW file(s) with no matching JPEG"@
    } else {
        head
    }
}

/// What is said of a catalog before the window opens.
pub fn greeting(catalog: &Catalog, dir: &str) -> (r: String)
    ensures
        r@ == greeting_of(catalog@, dir@),
{
    let ghost shots = catalog@.shots;
    let n: usize = catalog.shots.len();
    let mut raws: usize = 0;
    let mut i: usize = 0;
    while i < n
        invariant
            i <= n,
            n == catalog.shots@.len(),
            shots == catalog@.shots,
            raws <= i,
            raws == with_raw(shots, i as int),
        decreases n - i,
    {
        assert(shots[i as int] == catalog.shots@[i as int]@);
        if catalog.shots[i].has_raw() {
            raws += 1;
        }
        i += 1;
    }
    let mut out = "cull: ".to_owned();
    out.append(decimal(n as u64).as_str());
    out.append(" shots (");
    out.append(decimal(raws as u64).as_str());
    out.append(" with RAW) in ");
    out.append(dir);
    assert(catalog@.orphan_raws.len() == catalog.orphan_raws@.len());
    if catalog.orphan_raws.len() > 0 {
        out.append("\ncull: skipping ");
        out.append(decimal(catalog.orphan_raws.len() as u64).as_str());
        out.append(" RAW file(s) with no matching JPEG");
    }
    out
}

/// The doomed are shots.
proof fn lemma_doomed_in_range(s: AppView)
    requires
        s.valid(),
    ensures
        forall|j: int| 0 <= j < s.doomed().len() ==> (#[trigger] s.doomed()[j]) < s.n(),
{
    reveal(crate::app::ordered_items);
    assert forall|j: int| 0 <= j < s.doomed().len() implies (#[trigger] s.doomed()[j]) < s.n() by {
        let x = s.doomed()[j];
        assert(s.doomed().contains(x));
        if s.review.items.len() > 0 {
            crate::app::law_kept_shots_are_not_doomed(s, 0);
            let k = choose|k: int| 0 <= k < s.review.items.len() && s.review.items[k] == x;
            assert(s.review.items[k] < s.n());
        }
    }
}

/// A marked shot is shown as such, and the count of marks says so.
pub proof fn law_mark_is_shown(s: AppView)
    requires
        s.valid(),
        s.marked[s.cursor as int],
    ensures
        s.stage().marked,
        s.stage().alarm,
{
    lemma_count_positive(s.marked, s.cursor as int);
}

proof fn lemma_count_positive(m: Seq<bool>, i: int)
    requires
        0 <= i < m.len(),
        m[i],
    ensures
        count(m) > 0,
    decreases m.len(),
{
    if i < m.len() - 1 {
        lemma_count_positive(m.drop_last(), i);
    }
}

/// Some image or some words are always on the browse screen.
pub proof fn law_stage_never_empty(s: AppView)
    requires
        s.valid(),
    ensures
        s.stage().picture is Nothing ==> s.stage().message is Some,
{
}

/// The caption tells the place of the shot, counted from one, how many there are, the name of its
/// JPEG, and what it consists of.
pub proof fn law_caption(s: AppView, name: Seq<char>)
    ensures
        ({
            let shot = s.shots[s.cursor as int];
            let head = decimal_of((s.cursor + 1) as nat) + " / "@ + decimal_of(s.n() as nat) + "    "@;
            &&& file_name_of(shot.jpeg) == Some(name) ==> s.stage().caption == head + name + "    "@
                + shot_kind(shot)
            &&& file_name_of(shot.jpeg) is None ==> s.stage().caption == head + "    "@ + shot_kind(
                shot,
            )
            &&& s.caption() == s.stage().caption
        }),
{
    let head = decimal_of((s.cursor + 1) as nat) + " / "@ + decimal_of(s.n() as nat) + "    "@;
    assert(head + Seq::<char>::empty() =~= head);
}

/// While browsing, the screen-fit image of the current shot is shown once it is there; while peeking
/// its full image, and until that is there the other in its place.
pub proof fn law_picture(s: AppView, i: usize)
    requires
        s.valid(),
    ensures
        s.mode == Mode::Peek && s.full == Some(i) ==> s.stage().picture == Picture::Full(i),
        s.mode == Mode::Peek && s.full is None && s.cached[s.cursor as int] ==> s.stage().picture
            == Picture::Enlarged(s.cursor),
        s.mode != Mode::Peek && s.cached[s.cursor as int] ==> s.stage().picture == Picture::Fit(
            s.cursor,
        ),
        !s.cached[s.cursor as int] && !(s.mode == Mode::Peek && s.full is Some) ==> s.stage().picture
            == Picture::Nothing,
{
}

/// Without an image, the error is shown that came of decoding it, or that it is loading; with one,
/// nothing is said.
pub proof fn law_missing_message(s: AppView, e: Seq<char>)
    requires
        s.valid(),
    ensures
        s.cached[s.cursor as int] ==> s.stage().message is None,
        !s.cached[s.cursor as int] && s.errors[s.cursor as int] is None ==> s.stage().message == Some(
            "Loading…"@,
        ),
        !s.cached[s.cursor as int] && s.errors[s.cursor as int] == Some(e) ==> s.stage().message
            == Some("Could not decode: "@ + e),
{
}

/// The stage tells whether the shot is marked, whether the metadata is shown, and how many shots are
/// marked.
pub proof fn law_stage(s: AppView)
    requires
        s.valid(),
    ensures
        s.stage().marked == s.marked[s.cursor as int],
        s.stage().metadata == s.show_meta,
        s.stage().deletes == decimal_of(count(s.marked)) + " to delete"@,
        s.stage().alarm <==> count(s.marked) > 0,
{
}

/// A shot without a RAW is a JPEG only; else its RAWs are named by their extensions.
pub proof fn law_kind_of_a_shot(shot: ShotView, e: Seq<char>)
    ensures
        shot.raws.len() == 0 ==> shot_kind(shot) == "JPEG only"@,
        shot.raws.len() == 1 && extension_of(shot.raws[0]) == Some(e) ==> shot_kind(shot) == uppercase(
            e,
        ) + " + JPEG"@,
{
    if shot.raws.len() == 1 {
        assert(extensions(shot.raws, 0) is None);
        assert(extensions(shot.raws, 1) == match extension_of(shot.raws[0]) {
            Some(e) => Some(uppercase(e)),
            None => None,
        });
    }
}

/// Further extensions follow behind a comma, and a path without one adds nothing.
pub proof fn law_extensions(paths: Seq<Seq<char>>, k: int, before: Seq<char>, e: Seq<char>)
    requires
        0 <= k < paths.len(),
    ensures
        extensions(paths, 0) is None,
        extension_of(paths[k]) is None ==> extensions(paths, k + 1) == extensions(paths, k),
        extension_of(paths[k]) == Some(e) && extensions(paths, k) is None ==> extensions(paths, k + 1)
            == Some(uppercase(e)),
        extension_of(paths[k]) == Some(e) && extensions(paths, k) == Some(before) ==> extensions(
            paths,
            k + 1,
        ) == Some(before + ", "@ + uppercase(e)),
{
}

/// The extension of a file is what stands behind its last dot, unless its name starts with that.
pub proof fn law_extension(path: Seq<char>, stem: Seq<char>, ext: Seq<char>)
    requires
        !ext.contains('.'),
    ensures
        file_name_of(path) == Some(stem.push('.') + ext) && stem.len() > 0 ==> extension_of(path)
            == Some(ext),
        file_name_of(path) == Some(stem.push('.') + ext) && stem.len() == 0 ==> extension_of(path)
            is None,
        file_name_of(path) == Some(ext) ==> extension_of(path) is None,
        file_name_of(path) is None ==> extension_of(path) is None,
{
    crate::catalog::law_last_dot_parts_the_name(stem, ext);
    crate::catalog::lemma_last_dot(stem, ext);
}

/// A cell of the review shows its shot by its stem, whether it is kept and whether it is selected, and
/// a note in place of a thumbnail that is not there.
pub proof fn law_cell(s: AppView, i: int)
    requires
        s.valid(),
        0 <= i < s.review.items.len(),
    ensures
        ({
            let c = s.cell(i);
            let shot = s.review.items[i];
            &&& c.shot == shot
            &&& c.label == s.shots[shot as int].stem
            &&& c.keep == s.review.keep[i]
            &&& c.selected <==> i == s.review.sel
            &&& s.review.keep[i] ==> c.badge == "KEEP"@
            &&& !s.review.keep[i] ==> c.badge == "DELETE"@
            &&& s.thumbs[shot as int] ==> c.note is None
            &&& !s.thumbs[shot as int] && s.errors[shot as int] is Some ==> c.note == Some("error"@)
            &&& !s.thumbs[shot as int] && s.errors[shot as int] is None ==> c.note == Some("…"@)
        }),
{
}

/// The title of the review tells how many shots and how many files go to the trash.
pub proof fn law_review_title(s: AppView)
    ensures
        s.doomed().len() == 0 ==> s.review_title() == "Nothing to do (everything kept)"@,
        s.doomed().len() > 0 ==> s.review_title() == "Move "@ + decimal_of(s.doomed().len())
            + " shot(s) ("@ + decimal_of(
            files_of(s.shots, s.doomed(), s.doomed().len() as int),
        ) + " files) to Trash?"@,
{
}

/// Files are counted shot by shot, up to the largest number there is.
pub proof fn law_files_are_counted(shots: Seq<ShotView>, items: Seq<usize>, k: int)
    requires
        0 <= k < items.len(),
    ensures
        files_of(shots, items, 0) == 0,
        ({
            let sum = files_of(shots, items, k) + shots[items[k] as int].files().len();
            &&& sum <= u64::MAX ==> files_of(shots, items, k + 1) == sum
            &&& sum > u64::MAX ==> files_of(shots, items, k + 1) == u64::MAX
        }),
{
}

/// The title of the move tells how many shots and files are left, or only files.
pub proof fn law_move_title(m: MoveView)
    ensures
        m.shots > 0 ==> m.title() == "Move the "@ + decimal_of(m.shots) + " remaining shot(s) ("@
            + decimal_of(m.files) + " files) to:"@,
        m.shots == 0 ==> m.title() == "Move the "@ + decimal_of(m.files) + " remaining file(s) to:"@,
{
}

/// A note tells where the files go when the typed folder is there already, and nothing else is noted.
pub proof fn law_taken_note(text: Seq<char>, typed: Seq<char>, actual: Seq<char>, name: Seq<char>)
    ensures
        trim_of(text).len() == 0 ==> taken_note_of(text, typed, actual) is None,
        actual == typed ==> taken_note_of(text, typed, actual) is None,
        trim_of(text).len() > 0 && actual != typed && file_name_of(actual) == Some(name)
            ==> taken_note_of(text, typed, actual) == Some(
            "That folder exists, so they'll go in "@ + name,
        ),
{
}

/// The greeting counts the shots, those of them with a RAW, and the RAWs without a JPEG, if any.
pub proof fn law_greeting(c: CatalogView, dir: Seq<char>)
    ensures
        ({
            let head = "cull: "@ + decimal_of(c.shots.len()) + " shots ("@ + decimal_of(
                with_raw(c.shots, c.shots.len() as int),
            ) + " with RAW) in "@ + dir;
            &&& c.orphan_raws.len() == 0 ==> greeting_of(c, dir) == head
            &&& c.orphan_raws.len() > 0 ==> greeting_of(c, dir) == head + "\ncull: skipping "@
                + decimal_of(c.orphan_raws.len()) + " RAW file(s) with no matching JPEG"@
        }),
{
}

/// A shot counts among those with a RAW if it has one.
pub proof fn law_raws_are_counted(shots: Seq<ShotView>, k: int)
    requires
        0 <= k < shots.len(),
    ensures
        with_raw(shots, 0) == 0,
        shots[k].raws.len() > 0 ==> with_raw(shots, k + 1) == with_raw(shots, k) + 1,
        shots[k].raws.len() == 0 ==> with_raw(shots, k + 1) == with_raw(shots, k),
{
}

/// The help names the keys of the browse and peek screens, line by line.
pub proof fn law_help(i: int)
    requires
        0 <= i < HELP@.len(),
    ensures
        HELP@.len() == 14,
        i == 0 ==> HELP@[i].0@ == "Browse"@ && HELP@[i].1@ == ""@,
        i == 1 ==> HELP@[i].0@ == "← → / h l"@ && HELP@[i].1@ == "previous / next"@,
        i == 2 ==> HELP@[i].0@ == "Space"@ && HELP@[i].1@ == "mark / unmark for deletion"@,
        i == 3 ==> HELP@[i].0@ == "f  or click"@ && HELP@[i].1@ == "focus peek (100%)"@,
        i == 4 ==> HELP@[i].0@ == "g / G"@ && HELP@[i].1@ == "first / last"@,
        i == 5 ==> HELP@[i].0@ == "m"@ && HELP@[i].1@ == "show / hide metadata"@,
        i == 6 ==> HELP@[i].0@ == "q / Esc"@ && HELP@[i].1@ == "review marked shots and finish"@,
        i == 7 ==> HELP@[i].0@ == ""@ && HELP@[i].1@ == ""@,
        i == 8 ==> HELP@[i].0@ == "Focus peek"@ && HELP@[i].1@ == ""@,
        i == 9 ==> HELP@[i].0@ == "arrows / hjkl"@ && HELP@[i].1@ == "pan (Shift: faster), or drag / scroll"@,
        i == 10 ==> HELP@[i].0@ == "n / p"@ && HELP@[i].1@ == "next / previous shot"@,
        i == 11 ==> HELP@[i].0@ == "f / Esc"@ && HELP@[i].1@ == "back to full screen"@,
        i == 12 ==> HELP@[i].0@ == ""@ && HELP@[i].1@ == ""@,
        i == 13 ==> HELP@[i].0@ == "?"@ && HELP@[i].1@ == "toggle this help"@,
{
}

} // verus!
