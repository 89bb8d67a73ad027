//! Application state machine: browse, focus peek, review and move screens.
use crate::catalog::{ordered_shots, stems, Catalog, ShotView};
use crate::delete;
use crate::lineedit::{Line, LineEdit, Mode as EditMode};
use crate::loader::JobKind;
use crate::relocate::{self, abbreviate, abbreviate_of, home_of};
use crate::order::{increasing, lemma_text_trichotomy, text_lt, texts};
use crate::state::{State, StateView, STATE_VERSION};
use crate::text::{decimal, decimal_of, same_text, text_view, trim, trim_of};
use vstd::prelude::*;
use vstd::string::*;

verus! {

/// Screen-fit images kept around the cursor, in the direction of travel.
pub const AHEAD: usize = 3;

/// Screen-fit images kept around the cursor, behind the direction of travel.
pub const BEHIND: usize = 1;

#[derive(Debug, Clone, Copy, PartialEq, Eq, Structural)]
pub enum Mode {
    Browse,
    Peek,
    Review,
    /// Offer to move what's left into a new folder.
    Move,
}

#[derive(Debug, Clone, Copy, PartialEq, Eq, Structural)]
pub enum Toward {
    Left,
    Right,
    Up,
    Down,
}

/// What the window, the loader and the disk are asked to do, in order.
#[derive(Debug, Clone, Copy, PartialEq, Eq, Structural)]
pub enum Action {
    /// Tell the loader which shot is on the screen, and whether it is peeked at.
    SetCurrent { idx: usize, peeking: bool },
    /// Ask the loader for an image.
    Request { idx: usize, kind: JobKind, urgent: bool },
    /// Upload the screen-fit image that came for the shot.
    UploadFit { idx: usize },
    /// Upload the full image that came for the shot.
    UploadFull { idx: usize },
    /// Upload the thumbnail that came for the shot.
    UploadThumb { idx: usize },
    /// Upload the thumbnail that is kept with the shot's screen-fit image.
    UploadKeptThumb { idx: usize },
    /// Peek at the middle of the image.
    CenterPeek,
    /// Move the peeked-at part by a step, a large one if `fast`.
    Pan { toward: Toward, fast: bool },
    /// Scroll the review so that the selected item shows, from the top if `fresh`.
    ShowSelected { fresh: bool },
    /// Write the marks and the position to the disk.
    Save,
    /// Remove the marks and the position from the disk.
    RemoveState,
    /// Move the doomed shots to the trash.
    Trash,
    /// List the files that are left, to offer moving them.
    OfferMove,
    /// Start moving the files to the typed folder.
    StartMove,
    /// Ask the running move to stop.
    CancelMove,
    /// Draw the screen again.
    Redraw,
    /// Leave.
    Exit,
}

pub struct Review {
    /// Shot indices that were marked when the review screen opened.
    pub items: Vec<usize>,
    /// Items the user chose to keep after all.
    pub keep: Vec<bool>,
    pub sel: usize,
}

/// A review as sequences.
pub struct ReviewView {
    pub items: Seq<usize>,
    pub keep: Seq<bool>,
    pub sel: usize,
}

impl View for Review {
    type V = ReviewView;

    open spec fn view(&self) -> ReviewView {
        ReviewView { items: self.items@, keep: self.keep@, sel: self.sel }
    }
}

pub struct MoveTo {
    /// How many files are left in the folder.
    pub files: usize,
    /// How many of those files are shown shots' JPEGs.
    pub shots: usize,
    /// Destination as typed; a leading `~` is expanded.
    pub path: LineEdit,
    /// Where the files are going, once the move has started.
    pub dest: String,
    pub running: bool,
    /// The running move was asked to stop.
    pub stopping: bool,
    /// Files dealt with so far.
    pub done: usize,
}

/// A move as numbers and texts.
pub struct MoveView {
    pub files: nat,
    pub shots: nat,
    pub path: Line,
    pub dest: Seq<char>,
    pub running: bool,
    pub stopping: bool,
    pub done: nat,
}

impl View for MoveTo {
    type V = MoveView;

    open spec fn view(&self) -> MoveView {
        MoveView {
            files: self.files as nat,
            shots: self.shots as nat,
            path: self.path@,
            dest: self.dest@,
            running: self.running,
            stopping: self.stopping,
            done: self.done as nat,
        }
    }
}

/// What the user sees and has decided. What it holds of images are only notes of which are held.
pub struct App {
    /// The folder, for display.
    pub dir: String,
    pub catalog: Catalog,
    /// Whether each shot is marked for deletion.
    pub marked: Vec<bool>,
    pub cursor: usize,
    pub forward: bool,
    pub mode: Mode,
    /// Whether there is a window to draw in.
    pub ready: bool,
    /// The shots whose screen-fit image is held.
    pub cached: Vec<bool>,
    /// Why a shot could not be decoded.
    pub errors: Vec<Option<String>>,
    /// The shots whose screen-fit image was asked for.
    pub pending_fit: Vec<bool>,
    /// The shots whose full image was asked for.
    pub pending_full: Vec<bool>,
    /// The shots whose thumbnail was asked for.
    pub pending_thumb: Vec<bool>,
    /// The shot whose full image is held.
    pub full: Option<usize>,
    /// The shots whose thumbnail is held.
    pub thumbs: Vec<bool>,
    /// The shots whose metadata is known.
    pub known: Vec<bool>,
    pub review: Review,
    pub moving: MoveTo,
    pub show_help: bool,
    pub show_meta: bool,
    /// The button is down, and went down while peeking.
    pub dragging: bool,
    /// Message printed to the terminal after the window closes.
    pub exit_message: Option<String>,
    /// What is still to be done.
    pub actions: Vec<Action>,
}

/// The state of the application as sequences and texts.
pub struct AppView {
    pub dir: Seq<char>,
    pub shots: Seq<ShotView>,
    pub marked: Seq<bool>,
    pub cursor: usize,
    pub forward: bool,
    pub mode: Mode,
    pub ready: bool,
    pub cached: Seq<bool>,
    pub errors: Seq<Option<Seq<char>>>,
    pub pending_fit: Seq<bool>,
    pub pending_full: Seq<bool>,
    pub pending_thumb: Seq<bool>,
    pub full: Option<usize>,
    pub thumbs: Seq<bool>,
    pub known: Seq<bool>,
    pub review: ReviewView,
    pub moving: MoveView,
    pub show_help: bool,
    pub show_meta: bool,
    pub dragging: bool,
    pub exit_message: Option<Seq<char>>,
    pub actions: Seq<Action>,
}

/// Optional texts.
pub open spec fn optional_texts(v: Seq<Option<String>>) -> Seq<Option<Seq<char>>> {
    v.map_values(|s: Option<String>| text_view(s))
}

impl View for App {
    type V = AppView;

    open spec fn view(&self) -> AppView {
        AppView {
            dir: self.dir@,
            shots: self.catalog@.shots,
            marked: self.marked@,
            cursor: self.cursor,
            forward: self.forward,
            mode: self.mode,
            ready: self.ready,
            cached: self.cached@,
            errors: optional_texts(self.errors@),
            pending_fit: self.pending_fit@,
            pending_full: self.pending_full@,
            pending_thumb: self.pending_thumb@,
            full: self.full,
            thumbs: self.thumbs@,
            known: self.known@,
            review: self.review@,
            moving: self.moving@,
            show_help: self.show_help,
            show_meta: self.show_meta,
            dragging: self.dragging,
            exit_message: text_view(self.exit_message),
            actions: self.actions@,
        }
    }
}

/// How many are true.
pub open spec fn count(s: Seq<bool>) -> nat
    decreases s.len(),
{
    if s.len() == 0 {
        0
    } else {
        count(s.drop_last()) + (if s.last() {
            1nat
        } else {
            0
        })
    }
}

/// The places below `k` that are true, in order.
pub open spec fn places(s: Seq<bool>, k: int) -> Seq<usize>
    decreases k,
{
    if k <= 0 {
        Seq::empty()
    } else if s[k - 1] {
        places(s, k - 1).push((k - 1) as usize)
    } else {
        places(s, k - 1)
    }
}

/// The values whose flag is not set, among the first `k`.
pub open spec fn unflagged(items: Seq<usize>, flags: Seq<bool>, k: int) -> Seq<usize>
    decreases k,
{
    if k <= 0 {
        Seq::empty()
    } else if flags[k - 1] {
        unflagged(items, flags, k - 1)
    } else {
        unflagged(items, flags, k - 1).push(items[k - 1])
    }
}

/// The items are shots, in order and each once.
#[verifier::opaque]
pub open spec fn ordered_items(items: Seq<usize>, n: int) -> bool {
    &&& forall|k: int| 0 <= k < items.len() ==> (#[trigger] items[k]) < n
    &&& forall|a: int, b: int|
        0 <= a < b < items.len() ==> (#[trigger] items[a]) < (#[trigger] items[b])
}

impl App {
    /// The state is valid, and the cursor of the typed folder is between two characters.
    pub open spec fn wf(&self) -> bool {
        self@.valid() && self.moving.path.valid()
    }
}

impl AppView {
    /// Number of shots.
    pub open spec fn n(self) -> int {
        self.shots.len() as int
    }

    /// There is a shot; every shot has its notes; what is selected exists.
    pub open spec fn valid(self) -> bool {
        let n = self.n();
        &&& 0 < n <= usize::MAX
        &&& ordered_shots(self.shots)
        &&& self.cursor < n
        &&& self.marked.len() == n
        &&& self.cached.len() == n
        &&& self.errors.len() == n
        &&& self.pending_fit.len() == n
        &&& self.pending_full.len() == n
        &&& self.pending_thumb.len() == n
        &&& self.thumbs.len() == n
        &&& self.known.len() == n
        &&& self.full matches Some(i) ==> i < n
        &&& self.review.keep.len() == self.review.items.len()
        &&& ordered_items(self.review.items, n)
        &&& self.mode is Review ==> self.review.sel < self.review.items.len()
        &&& self.moving.path.valid()
    }

    pub open spec fn noted(self, a: Action) -> AppView {
        AppView { actions: self.actions.push(a), ..self }
    }

    /// How far ahead of the cursor screen-fit images are kept.
    pub open spec fn ahead(self) -> int {
        if self.forward {
            AHEAD as int
        } else {
            BEHIND as int
        }
    }

    /// How far before the cursor screen-fit images are kept.
    pub open spec fn before(self) -> int {
        if self.forward {
            BEHIND as int
        } else {
            AHEAD as int
        }
    }

    /// Which cached indices are worth keeping around the cursor.
    pub open spec fn in_window(self, idx: int) -> bool {
        self.cursor - self.before() <= idx <= self.cursor + self.ahead()
    }

    pub open spec fn pending(self, kind: JobKind) -> Seq<bool> {
        match kind {
            JobKind::Fit => self.pending_fit,
            JobKind::Full => self.pending_full,
            JobKind::Thumb => self.pending_thumb,
        }
    }

    /// The same, with an image asked for or no longer asked for.
    pub open spec fn set_pending(self, idx: usize, kind: JobKind, asked: bool) -> AppView {
        match kind {
            JobKind::Fit => AppView {
                pending_fit: self.pending_fit.update(idx as int, asked),
                ..self
            },
            JobKind::Full => AppView {
                pending_full: self.pending_full.update(idx as int, asked),
                ..self
            },
            JobKind::Thumb => AppView {
                pending_thumb: self.pending_thumb.update(idx as int, asked),
                ..self
            },
        }
    }

    /// Asks for an image, unless that was done already.
    pub open spec fn requested(self, idx: usize, kind: JobKind, urgent: bool) -> AppView {
        if self.pending(kind)[idx as int] {
            self
        } else {
            self.set_pending(idx, kind, true).noted(Action::Request { idx, kind, urgent })
        }
    }

    /// The shots at the distance `d` that are worth having, the ones in the direction of travel first.
    pub open spec fn near(self, d: int) -> Seq<usize> {
        let next: Seq<usize> = if d <= self.ahead() && self.cursor + d < self.n() {
            seq![(self.cursor + d) as usize]
        } else {
            Seq::empty()
        };
        let prev: Seq<usize> = if d <= self.before() && self.cursor >= d {
            seq![(self.cursor - d) as usize]
        } else {
            Seq::empty()
        };
        if self.forward {
            next + prev
        } else {
            prev + next
        }
    }

    /// The shots around the cursor, most important first.
    pub open spec fn order(self) -> Seq<usize> {
        seq![self.cursor] + self.near(1) + self.near(2) + self.near(3)
    }

    /// Whether the shot lacks its screen-fit image and can be decoded, as far as is known.
    pub open spec fn wants_fit(self, idx: usize) -> bool {
        !self.cached[idx as int] && self.errors[idx as int] is None
    }

    /// Asks for the missing screen-fit images of the first `k` of `order`, the first one urgently.
    pub open spec fn with_fits(self, order: Seq<usize>, k: int) -> AppView
        decreases k,
    {
        if k <= 0 {
            self
        } else {
            let s = self.with_fits(order, k - 1);
            if s.wants_fit(order[k - 1]) {
                s.requested(order[k - 1], JobKind::Fit, k == 1)
            } else {
                s
            }
        }
    }

    /// Asks for the missing thumbnails of the first `k` review items.
    pub open spec fn with_thumbs(self, k: int) -> AppView
        decreases k,
    {
        if k <= 0 {
            self
        } else {
            let s = self.with_thumbs(k - 1);
            let idx = s.review.items[k - 1];
            if !s.thumbs[idx as int] && s.errors[idx as int] is None {
                s.requested(idx, JobKind::Thumb, true)
            } else {
                s
            }
        }
    }

    /// Lets go of what is out of range.
    pub open spec fn tidied(self) -> AppView {
        AppView {
            cached: Seq::new(
                self.cached.len(),
                |i: int| self.cached[i] && self.in_window(i),
            ),
            full: match self.full {
                Some(i) => if i == self.cursor {
                    Some(i)
                } else {
                    None
                },
                None => None,
            },
            ..self
        }
    }

    /// Asks for the full image of a shot that is peeked at.
    pub open spec fn with_full(self) -> AppView {
        if self.mode is Peek && self.full is None && self.errors[self.cursor as int] is None {
            self.requested(self.cursor, JobKind::Full, true)
        } else {
            self
        }
    }

    /// Evict what's out of range and request what's missing, most important first.
    #[verifier::opaque]
    pub open spec fn scheduled(self) -> AppView {
        let s = self.noted(
            Action::SetCurrent { idx: self.cursor, peeking: self.mode is Peek },
        ).tidied().with_full();
        let t = s.with_fits(s.order(), s.order().len() as int);
        if self.mode is Review {
            t.with_thumbs(t.review.items.len() as int)
        } else {
            t
        }
    }
}

impl App {
    /// Number of shots.
    pub fn n(&self) -> (r: usize)
        ensures
            r == self@.n(),
    {
        self.catalog.shots.len()
    }

    fn note(&mut self, a: Action)
        ensures
            final(self)@ == old(self)@.noted(a),
            final(self).moving == old(self).moving,
    {
        self.actions.push(a);
    }

    /// Which cached indices are worth keeping around the cursor.
    pub fn in_window(&self, idx: usize) -> (r: bool)
        ensures
            r == self@.in_window(idx as int),
    {
        let (ahead, behind): (usize, usize) = if self.forward {
            (AHEAD, BEHIND)
        } else {
            (BEHIND, AHEAD)
        };
        if idx >= self.cursor {
            idx - self.cursor <= ahead
        } else {
            self.cursor - idx <= behind
        }
    }

    #[verifier::rlimit(40)]
    fn request(&mut self, idx: usize, kind: JobKind, urgent: bool)
        requires
            old(self).wf(),
            idx < old(self)@.n(),
        ensures
            final(self)@ == old(self)@.requested(idx, kind, urgent),
            final(self).wf(),
    {
        let asked = match kind {
            JobKind::Fit => self.pending_fit[idx],
            JobKind::Full => self.pending_full[idx],
            JobKind::Thumb => self.pending_thumb[idx],
        };
        if !asked {
            match kind {
                JobKind::Fit => {
                    self.pending_fit.set(idx, true);
                },
                JobKind::Full => {
                    self.pending_full.set(idx, true);
                },
                JobKind::Thumb => {
                    self.pending_thumb.set(idx, true);
                },
            }
            self.note(Action::Request { idx, kind, urgent });
        }
    }

    /// Adds the shots at the distance `d` that are worth having.
    fn push_near(&self, order: &mut Vec<usize>, d: usize)
        requires
            self.wf(),
            1 <= d <= 3,
        ensures
            final(order)@ == old(order)@ + self@.near(d as int),
    {
        let (ahead, behind): (usize, usize) = if self.forward {
            (AHEAD, BEHIND)
        } else {
            (BEHIND, AHEAD)
        };
        let n: usize = self.n();
        let fwd = d <= ahead && n - self.cursor > d;
        let back = d <= behind && self.cursor >= d;
        if self.forward {
            if fwd {
                order.push(self.cursor + d);
            }
            if back {
                order.push(self.cursor - d);
            }
        } else {
            if back {
                order.push(self.cursor - d);
            }
            if fwd {
                order.push(self.cursor + d);
            }
        }
        assert(order@ =~= old(order)@ + self@.near(d as int));
    }

    /// Lets go of what is out of range.
    #[verifier::rlimit(40)]
    fn tidy(&mut self)
        requires
            old(self).wf(),
        ensures
            final(self)@ == old(self)@.tidied(),
            final(self).wf(),
    {
        let ghost before = self@;
        let n: usize = self.cached.len();
        let mut i: usize = 0;
        while i < n
            invariant
                i <= n,
                n == before.cached.len(),
                before.valid(),
                self@ == (AppView { cached: self.cached@, ..before }),
                self.moving == old(self).moving,
                self.cached@.len() == n,
                forall|j: int|
                    0 <= j < i ==> #[trigger] self.cached@[j] == (before.cached[j]
                        && before.in_window(j)),
                forall|j: int| i <= j < n ==> #[trigger] self.cached@[j] == before.cached[j],
            decreases n - i,
        {
            if self.cached[i] && !self.in_window(i) {
                self.cached.set(i, false);
            }
            i += 1;
        }
        match self.full {
            Some(i) => {
                if i != self.cursor {
                    self.full = None;
                }
            },
            None => {},
        }
        assert(self.cached@ =~= before.tidied().cached);
    }

    /// Evict what's out of range and request what's missing, most important first.
    #[verifier::rlimit(40)]
    pub fn schedule(&mut self)
        requires
            old(self).wf(),
        ensures
            final(self)@ == old(self)@.scheduled(),
            final(self).wf(),
    {
        reveal(AppView::scheduled);
        let peeking = self.mode == Mode::Peek;
        let cursor: usize = self.cursor;
        self.note(Action::SetCurrent { idx: cursor, peeking });
        self.tidy();
        if peeking && self.full.is_none() && self.errors[cursor].is_none() {
            self.request(cursor, JobKind::Full, true);
        }
        let ghost s = self@;
        let mut order: Vec<usize> = Vec::new();
        order.push(cursor);
        self.push_near(&mut order, 1);
        self.push_near(&mut order, 2);
        self.push_near(&mut order, 3);
        assert(order@ =~= s.order());
        proof {
            lemma_order_in_range(s);
        }
        let mut k: usize = 0;
        while k < order.len()
            invariant
                k <= order@.len(),
                order@ == s.order(),
                s.valid(),
                forall|i: int| 0 <= i < order@.len() ==> (#[trigger] order@[i]) < s.n(),
                self@ == s.with_fits(s.order(), k as int),
                self.wf(),
                self@.n() == s.n(),
            decreases order.len() - k,
        {
            let idx: usize = order[k];
            assert(self@.errors[idx as int] == text_view(self.errors@[idx as int]));
            if !self.cached[idx] && self.errors[idx].is_none() {
                self.request(idx, JobKind::Fit, k == 0);
            }
            k += 1;
        }
        let ghost t = self@;
        proof {
            lemma_with_fits_keeps(s, s.order(), s.order().len() as int);
        }
        if self.mode == Mode::Review {
            let mut j: usize = 0;
            let m: usize = self.review.items.len();
            while j < m
                invariant
                    j <= m,
                    m == t.review.items.len(),
                    t.valid(),
                    self@ == t.with_thumbs(j as int),
                    self.wf(),
                    self@.review == t.review,
                    self@.n() == t.n(),
                decreases m - j,
            {
                let idx: usize = self.review.items[j];
                assert(idx < self@.n()) by {
                    reveal(ordered_items);
                }
                assert(self@.errors[idx as int] == text_view(self.errors@[idx as int]));
                if !self.thumbs[idx] && self.errors[idx].is_none() {
                    self.request(idx, JobKind::Thumb, true);
                }
                j += 1;
            }
        }
    }
}

proof fn lemma_order_in_range(s: AppView)
    requires
        s.valid(),
    ensures
        forall|i: int| 0 <= i < s.order().len() ==> (#[trigger] s.order()[i]) < s.n(),
{
    assert forall|d: int, i: int| 1 <= d <= 3 && 0 <= i < s.near(d).len() implies (
    #[trigger] s.near(d)[i]) < s.n() by {}
    let a = seq![s.cursor];
    let b = s.near(1);
    let c = s.near(2);
    assert forall|i: int| 0 <= i < s.order().len() implies (#[trigger] s.order()[i]) < s.n() by {
        if i == 0 {
        } else if i < 1 + b.len() {
            assert(s.order()[i] == s.near(1)[i - 1]);
        } else if i < 1 + b.len() + c.len() {
            assert(s.order()[i] == s.near(2)[i - 1 - b.len()]);
        } else {
            assert(s.order()[i] == s.near(3)[i - 1 - b.len() - c.len()]);
        }
    }
}

/// Asking for images changes nothing but what was asked for.
proof fn lemma_with_fits_keeps(s: AppView, order: Seq<usize>, k: int)
    ensures
        ({
            let t = s.with_fits(order, k);
            t == (AppView { pending_fit: t.pending_fit, actions: t.actions, ..s })
        }),
    decreases k,
{
    if k > 0 {
        lemma_with_fits_keeps(s, order, k - 1);
    }
}

/// The stems of the marked shots among the first `k`.
pub open spec fn marked_stems(shots: Seq<ShotView>, marked: Seq<bool>, k: int) -> Seq<Seq<char>>
    decreases k,
{
    if k <= 0 {
        Seq::empty()
    } else if marked[k - 1] {
        marked_stems(shots, marked, k - 1).push(shots[k - 1].stem)
    } else {
        marked_stems(shots, marked, k - 1)
    }
}

/// The first shot from the `i`-th on with the given stem.
pub open spec fn find_stem(shots: Seq<ShotView>, stem: Seq<char>, i: int) -> Option<int>
    decreases shots.len() - i,
{
    if i < 0 || i >= shots.len() {
        None
    } else if shots[i].stem == stem {
        Some(i)
    } else {
        find_stem(shots, stem, i + 1)
    }
}

/// The marks that a saved state gives.
pub open spec fn restored_marks(shots: Seq<ShotView>, saved: StateView) -> Seq<bool> {
    Seq::new(shots.len(), |i: int| saved.marked.contains(shots[i].stem))
}

/// The position that a saved state gives: the first shot, if the saved one is gone.
pub open spec fn restored_cursor(shots: Seq<ShotView>, saved: StateView) -> int {
    match saved.cursor {
        Some(stem) => match find_stem(shots, stem, 0) {
            Some(i) => i,
            None => 0,
        },
        None => 0,
    }
}

/// `n` times `b`.
pub open spec fn all(n: nat, b: bool) -> Seq<bool> {
    Seq::new(n, |i: int| b)
}

/// A move that has not been offered.
pub open spec fn no_move() -> MoveView {
    MoveView {
        files: 0,
        shots: 0,
        path: Line {
            text: Seq::empty(),
            pos: 0,
            mode: EditMode::Normal,
            pending: None,
        },
        dest: Seq::empty(),
        running: false,
        stopping: false,
        done: 0,
    }
}

/// The application as it starts.
pub open spec fn started(dir: Seq<char>, shots: Seq<ShotView>, saved: StateView) -> AppView {
    let n = shots.len();
    AppView {
        dir,
        shots,
        marked: restored_marks(shots, saved),
        cursor: restored_cursor(shots, saved) as usize,
        forward: true,
        mode: Mode::Browse,
        ready: false,
        cached: all(n, false),
        errors: Seq::new(n, |i: int| None),
        pending_fit: all(n, false),
        pending_full: all(n, false),
        pending_thumb: all(n, false),
        full: None,
        thumbs: all(n, false),
        known: all(n, false),
        review: ReviewView { items: Seq::empty(), keep: Seq::empty(), sel: 0 },
        moving: no_move(),
        show_help: false,
        show_meta: false,
        dragging: false,
        exit_message: None,
        actions: Seq::empty(),
    }
}

/// What came of a job, without the images.
pub enum Arrived {
    Failed(String),
    Fit,
    Full,
    Thumb,
    Skipped,
}

/// Failures, one on a line.
pub open spec fn failure_lines(f: Seq<(Seq<char>, Seq<char>)>) -> Seq<char>
    decreases f.len(),
{
    if f.len() == 0 {
        Seq::empty()
    } else {
        failure_lines(f.drop_last()) + "\n  "@ + f.last().0 + ": "@ + f.last().1
    }
}

/// What is said after moving shots to the trash.
pub open spec fn trash_message(r: delete::ReportView) -> Seq<char> {
    let head = "cull: moved "@ + decimal_of(r.shots) + " shot(s), "@ + decimal_of(r.files)
        + " file(s) to Trash."@;
    if r.failures.len() == 0 {
        head
    } else {
        head + "\ncull: "@ + decimal_of(r.failures.len()) + " file(s) could not be moved:"@
            + failure_lines(r.failures)
    }
}

/// What is said after moving files to another folder, following what was said before.
pub open spec fn move_message(
    before: Option<Seq<char>>,
    r: relocate::ReportView,
    dest: Seq<char>,
    dir: Seq<char>,
) -> Seq<char> {
    (match before {
        Some(m) => m + "\n"@,
        None => Seq::empty(),
    }) + "cull: moved "@ + decimal_of(r.files) + " file(s) to "@ + dest + "."@ + (if r.cancelled {
        "\ncull: stopped early; the rest are still in "@ + dir + "."@
    } else {
        Seq::empty()
    }) + (if r.failures.len() > 0 {
        "\ncull: "@ + decimal_of(r.failures.len()) + " problem(s) moving files:"@ + failure_lines(
            r.failures,
        )
    } else {
        Seq::empty()
    })
}

/// `x` brought into 0 to `n` - 1.
pub open spec fn clamped(x: int, n: int) -> int {
    if x < 0 {
        0
    } else if x >= n {
        n - 1
    } else {
        x
    }
}

/// The first place whose item is `least` or more, or the first place at all.
pub open spec fn first_from(items: Seq<usize>, least: usize, k: int) -> int
    decreases items.len() - k,
{
    if k < 0 || k >= items.len() {
        0
    } else if items[k] >= least {
        k
    } else {
        first_from(items, least, k + 1)
    }
}

impl AppView {
    /// What is saved.
    pub open spec fn state(self) -> StateView {
        StateView {
            version: STATE_VERSION as int,
            marked: marked_stems(self.shots, self.marked, self.n()),
            cursor: Some(self.shots[self.cursor as int].stem),
        }
    }

    /// Leave, remembering marks. On the move screen the marks are settled already, and a running
    /// move is asked to stop; the app exits once it has.
    pub open spec fn quitting(self) -> AppView {
        if self.mode is Move {
            if self.moving.running {
                AppView { moving: MoveView { stopping: true, ..self.moving }, ..self }.noted(
                    Action::CancelMove,
                )
            } else {
                self.noted(Action::Exit)
            }
        } else {
            self.noted(Action::Save).noted(Action::Exit)
        }
    }

    /// A note that the thumbnail of a shot is held.
    pub open spec fn got_thumb(self, idx: usize) -> AppView {
        AppView { thumbs: self.thumbs.update(idx as int, true), ..self }.noted(
            Action::UploadThumb { idx },
        )
    }

    /// A note that the screen-fit image of a shot is held.
    pub open spec fn got_fit(self, idx: usize) -> AppView {
        AppView { cached: self.cached.update(idx as int, true), ..self }.noted(
            Action::UploadFit { idx },
        )
    }

    /// What comes of an image that arrived. Without a window it is of no use.
    pub open spec fn taken(self, idx: usize, what: Arrived) -> AppView {
        match what {
            Arrived::Failed(e) => AppView {
                errors: self.errors.update(idx as int, Some(e@)),
                ..self
            },
            Arrived::Fit => if self.ready {
                let a = AppView { known: self.known.update(idx as int, true), ..self };
                let b = if a.marked[idx as int] && !a.thumbs[idx as int] {
                    a.got_thumb(idx)
                } else {
                    a
                };
                if b.in_window(idx as int) {
                    b.got_fit(idx)
                } else {
                    b
                }
            } else {
                self
            },
            Arrived::Full => if self.ready && idx == self.cursor && self.mode is Peek {
                AppView { full: Some(idx), ..self }.noted(Action::UploadFull { idx })
            } else {
                self
            },
            Arrived::Thumb => if self.ready && self.marked[idx as int] {
                self.got_thumb(idx)
            } else {
                self
            },
            Arrived::Skipped => self,
        }
    }

    /// The state after a job's result came in.
    pub open spec fn received(self, idx: usize, kind: JobKind, what: Arrived) -> AppView {
        self.set_pending(idx, kind, false).taken(idx, what)
    }

    /// The state after going to a shot, or to the last one.
    pub open spec fn gone_to(self, idx: int) -> AppView {
        let to = clamped(idx, self.n());
        if to == self.cursor {
            self
        } else {
            AppView { forward: to > self.cursor, cursor: to as usize, ..self }.scheduled()
        }
    }

    /// The state after marking or unmarking the current shot for deletion.
    pub open spec fn toggled(self) -> AppView {
        let i = self.cursor as int;
        let mark = !self.marked[i];
        let a = AppView { marked: self.marked.update(i, mark), ..self };
        (if !mark {
            AppView { thumbs: a.thumbs.update(i, false), ..a }
        } else if a.ready && a.cached[i] {
            AppView { thumbs: a.thumbs.update(i, true), ..a }.noted(
                Action::UploadKeptThumb { idx: self.cursor },
            )
        } else {
            a
        }).noted(Action::Save)
    }

    /// The state after turning to the current image at full size.
    pub open spec fn peeking(self) -> AppView {
        AppView { mode: Mode::Peek, ..self }.scheduled()
    }

    /// The state after turning to the review of the marked shots. With none, the rest is offered to
    /// be moved.
    pub open spec fn reviewing(self) -> AppView {
        let items = places(self.marked, self.n());
        if items.len() == 0 {
            self.noted(Action::Save).noted(Action::OfferMove)
        } else {
            AppView {
                review: ReviewView {
                    items,
                    keep: all(items.len(), false),
                    sel: first_from(items, self.cursor, 0) as usize,
                },
                mode: Mode::Review,
                ..self
            }.noted(Action::ShowSelected { fresh: true }).scheduled()
        }
    }

    /// The marks, without those of the first `k` review items that are kept.
    pub open spec fn unmarked(self, s: Seq<bool>, k: int) -> Seq<bool>
        decreases k,
    {
        if k <= 0 {
            s
        } else if self.review.keep[k - 1] {
            self.unmarked(s, k - 1).update(self.review.items[k - 1] as int, false)
        } else {
            self.unmarked(s, k - 1)
        }
    }

    /// The state after going back from the review: what was kept is no longer marked.
    pub open spec fn reviewed(self) -> AppView {
        let k = self.review.items.len() as int;
        AppView {
            mode: Mode::Browse,
            ..AppView {
                marked: self.unmarked(self.marked, k),
                thumbs: self.unmarked(self.thumbs, k),
                ..self
            }.noted(Action::Save)
        }.scheduled()
    }

    /// The state after moving the selection by `delta` items.
    pub open spec fn selected(self, delta: int) -> AppView {
        AppView {
            review: ReviewView {
                sel: clamped(
                    self.review.sel + delta,
                    self.review.items.len() as int,
                ) as usize,
                ..self.review
            },
            ..self
        }.noted(Action::ShowSelected { fresh: false })
    }

    /// The state after choosing to keep a review item, or not to.
    pub open spec fn kept(self, i: int) -> AppView {
        AppView {
            review: ReviewView {
                keep: self.review.keep.update(i, !self.review.keep[i]),
                ..self.review
            },
            ..self
        }
    }

    /// Review items (shot indices) the user didn't choose to keep.
    pub open spec fn doomed(self) -> Seq<usize> {
        unflagged(self.review.items, self.review.keep, self.review.items.len() as int)
    }

    /// The state after confirming the review.
    pub open spec fn confirmed(self) -> AppView {
        if self.doomed().len() == 0 {
            self.reviewed()
        } else {
            self.noted(Action::Trash)
        }
    }

    /// The marks after a try that left some files: none for what is kept or gone.
    pub open spec fn retry_marks(self, here: Seq<bool>, k: int) -> Seq<bool>
        decreases k,
    {
        if k <= 0 {
            self.marked
        } else if self.review.keep[k - 1] || !here[k - 1] {
            self.retry_marks(here, k - 1).update(self.review.items[k - 1] as int, false)
        } else {
            self.retry_marks(here, k - 1)
        }
    }

    /// The state after moving the doomed shots to the trash. `here` tells which review items' JPEGs
    /// are still in the folder.
    pub open spec fn trashed(self, r: delete::ReportView, here: Seq<bool>) -> AppView {
        let said = AppView { exit_message: Some(trash_message(r)), ..self };
        if r.failures.len() == 0 {
            said.noted(Action::RemoveState).noted(Action::OfferMove)
        } else {
            AppView {
                marked: self.retry_marks(here, self.review.items.len() as int),
                ..said
            }.noted(Action::Save).noted(Action::Exit)
        }
    }

    /// The state after looking what is left: with files, they are offered to be moved.
    pub open spec fn offered(self, files: nat, shots: nat, suggestion: Seq<char>) -> AppView {
        if files == 0 {
            self.noted(Action::Exit)
        } else {
            AppView {
                moving: MoveView {
                    files,
                    shots,
                    path: Line {
                        text: suggestion,
                        pos: suggestion.len() as int,
                        mode: EditMode::Normal,
                        pending: None,
                    }.clamped(),
                    dest: Seq::empty(),
                    running: false,
                    stopping: false,
                    done: 0,
                },
                mode: Mode::Move,
                show_help: false,
                ..self
            }.noted(Action::Redraw)
        }
    }

    /// The typed folder, without blanks around it.
    pub open spec fn typed(self) -> Seq<char> {
        trim_of(self.moving.path.text)
    }

    /// The state after asking to move the files.
    pub open spec fn starting_move(self) -> AppView {
        if self.typed().len() == 0 {
            self
        } else {
            self.noted(Action::StartMove)
        }
    }

    /// The state once the files are on their way to `dest`.
    pub open spec fn moving_to(self, dest: Seq<char>) -> AppView {
        AppView {
            moving: MoveView { dest, running: true, stopping: false, ..self.moving },
            ..self
        }
    }

    /// The state after the move ended.
    pub open spec fn moved(self, r: relocate::ReportView, home: Option<Seq<char>>) -> AppView {
        let said = AppView {
            exit_message: Some(
                move_message(
                    self.exit_message,
                    r,
                    abbreviate_of(self.moving.dest, home),
                    self.dir,
                ),
            ),
            ..self
        };
        if r.failures.len() == 0 && !r.cancelled {
            said.noted(Action::RemoveState).noted(Action::Exit)
        } else {
            said.noted(Action::Exit)
        }
    }
}

/// `n` times false.
fn falses(n: usize) -> (r: Vec<bool>)
    ensures
        r@ == all(n as nat, false),
{
    let mut out: Vec<bool> = Vec::new();
    let mut i: usize = 0;
    while i < n
        invariant
            i <= n,
            out@ == all(i as nat, false),
        decreases n - i,
    {
        out.push(false);
        assert(out@ =~= all((i + 1) as nat, false));
        i += 1;
    }
    out
}

/// `n` times nothing.
fn nones(n: usize) -> (r: Vec<Option<String>>)
    ensures
        optional_texts(r@) == Seq::new(n as nat, |i: int| None::<Seq<char>>),
{
    let mut out: Vec<Option<String>> = Vec::new();
    let mut i: usize = 0;
    while i < n
        invariant
            i <= n,
            out@.len() == i,
            forall|j: int| 0 <= j < i ==> (#[trigger] out@[j]) is None,
        decreases n - i,
    {
        out.push(None);
        i += 1;
    }
    assert(optional_texts(out@) =~= Seq::new(n as nat, |i: int| None::<Seq<char>>));
    out
}

/// Adds failures, one on a line.
fn push_failures(out: &mut String, f: &Vec<(String, String)>)
    ensures
        final(out)@ == old(out)@ + failure_lines(delete::text_pairs(f@)),
{
    let ghost start = out@;
    let ghost t = delete::text_pairs(f@);
    let mut i: usize = 0;
    assert(t.take(0) =~= Seq::empty());
    assert(out@ =~= start + failure_lines(t.take(0)));
    while i < f.len()
        invariant
            i <= f@.len(),
            t == delete::text_pairs(f@),
            out@ == start + failure_lines(t.take(i as int)),
        decreases f.len() - i,
    {
        out.append("\n  ");
        out.append(f[i].0.as_str());
        out.append(": ");
        out.append(f[i].1.as_str());
        assert(t.take(i + 1).drop_last() =~= t.take(i as int));
        assert(t.take(i + 1).last() == (f@[i as int].0@, f@[i as int].1@));
        assert(out@ =~= start + failure_lines(t.take(i + 1)));
        i += 1;
    }
    assert(t.take(i as int) =~= t);
}

impl App {
    /// The application as it starts, with the marks and the position of an earlier run.
    #[verifier::rlimit(40)]
    pub fn new(dir: String, catalog: Catalog, saved: &State) -> (r: App)
        requires
            catalog@.shots.len() > 0,
            ordered_shots(catalog@.shots),
        ensures
            r@ == started(dir@, catalog@.shots, saved@),
            r.wf(),
    {
        let ghost shots = catalog@.shots;
        let n: usize = catalog.shots.len();
        let mut marked: Vec<bool> = Vec::new();
        let mut cursor: usize = 0;
        let mut found = false;
        let mut i: usize = 0;
        while i < n
            invariant
                i <= n,
                n == shots.len(),
                shots == catalog@.shots,
                marked@.len() == i,
                forall|j: int|
                    0 <= j < i ==> #[trigger] marked@[j] == saved@.marked.contains(shots[j].stem),
                cursor < n || n == 0 || !found,
                found ==> restored_cursor(shots, saved@) == cursor && cursor < i,
                !found ==> cursor == 0,
                !found ==> (saved@.cursor matches Some(stem) ==> find_stem(shots, stem, 0)
                    == find_stem(shots, stem, i as int)),
            decreases n - i,
        {
            let stem = catalog.shots[i].stem.as_str();
            assert(stem@ == shots[i as int].stem);
            marked.push(saved.is_marked(stem));
            match &saved.cursor {
                Some(s) => {
                    if !found && same_text(s.as_str(), stem) {
                        cursor = i;
                        found = true;
                    }
                },
                None => {},
            }
            i += 1;
        }
        assert(restored_cursor(shots, saved@) == cursor);
        assert(marked@ =~= restored_marks(shots, saved@));
        let path = LineEdit::default();
        let moving = MoveTo {
            files: 0,
            shots: 0,
            path,
            dest: String::new(),
            running: false,
            stopping: false,
            done: 0,
        };
        assert(moving.dest@ =~= Seq::empty());
        assert(path@ =~= no_move().path);
        proof {
            reveal(ordered_items);
        }
        let app = App {
            dir,
            catalog,
            marked,
            cursor,
            forward: true,
            mode: Mode::Browse,
            ready: false,
            cached: falses(n),
            errors: nones(n),
            pending_fit: falses(n),
            pending_full: falses(n),
            pending_thumb: falses(n),
            full: None,
            thumbs: falses(n),
            known: falses(n),
            review: Review { items: Vec::new(), keep: Vec::new(), sel: 0 },
            moving,
            show_help: false,
            show_meta: false,
            dragging: false,
            exit_message: None,
            actions: Vec::new(),
        };
        app
    }

    /// How many shots are marked.
    pub fn marked_count(&self) -> (r: usize)
        ensures
            r == count(self@.marked),
            r <= self@.marked.len(),
    {
        let mut c: usize = 0;
        let mut i: usize = 0;
        let ghost m = self.marked@;
        assert(m.take(0) =~= Seq::<bool>::empty());
        while i < self.marked.len()
            invariant
                i <= m.len(),
                m == self.marked@,
                c <= i,
                c == count(m.take(i as int)),
            decreases self.marked.len() - i,
        {
            assert(m.take(i + 1).drop_last() =~= m.take(i as int));
            if self.marked[i] {
                c += 1;
            }
            i += 1;
        }
        assert(m.take(i as int) =~= m);
        c
    }

    /// The marks and the position, to be saved.
    pub fn state(&self) -> (r: State)
        requires
            self.wf(),
        ensures
            r@ == self@.state(),
    {
        let mut marked: Vec<String> = Vec::new();
        let ghost shots = self@.shots;
        let n: usize = self.n();
        let mut i: usize = 0;
        assert(texts(marked@) =~= Seq::<Seq<char>>::empty());
        while i < n
            invariant
                i <= n,
                n == shots.len(),
                shots == self@.shots,
                self.wf(),
                texts(marked@) == marked_stems(shots, self.marked@, i as int),
            decreases n - i,
        {
            if self.marked[i] {
                let ghost before = texts(marked@);
                let stem = self.catalog.shots[i].stem.clone();
                assert(stem@ == shots[i as int].stem);
                marked.push(stem);
                assert(texts(marked@) =~= before.push(stem@));
            }
            i += 1;
        }
        let stem = self.catalog.shots[self.cursor].stem.clone();
        assert(stem@ == shots[self.cursor as int].stem);
        State { version: STATE_VERSION, marked, cursor: Some(stem) }
    }

    /// Takes the actions that are to be carried out.
    pub fn take_actions(&mut self) -> (r: Vec<Action>)
        ensures
            r@ == old(self)@.actions,
            final(self)@ == (AppView { actions: Seq::empty(), ..old(self)@ }),
            old(self).wf() ==> final(self).wf(),
    {
        let mut taken: Vec<Action> = Vec::new();
        let n: usize = self.actions.len();
        let mut i: usize = 0;
        while i < n
            invariant
                i <= n,
                n == self.actions@.len(),
                *self == *old(self),
                taken@ == self.actions@.take(i as int),
            decreases n - i,
        {
            taken.push(self.actions[i]);
            assert(self.actions@.take(i + 1) =~= self.actions@.take(i as int).push(
                self.actions@[i as int],
            ));
            i += 1;
        }
        assert(self.actions@.take(n as int) =~= self.actions@);
        self.actions.clear();
        assert(self.actions@ =~= Seq::empty());
        taken
    }

    /// Leave, remembering marks. On the move screen the marks are settled already, and a running
    /// move is asked to stop; the app exits once it has.
    pub fn quit(&mut self)
        ensures
            final(self)@ == old(self)@.quitting(),
            old(self).wf() ==> final(self).wf(),
    {
        if self.mode == Mode::Move {
            if self.moving.running {
                self.moving.stopping = true;
                self.note(Action::CancelMove);
            } else {
                self.note(Action::Exit);
            }
        } else {
            self.note(Action::Save);
            self.note(Action::Exit);
        }
    }

    /// There is a window to draw in now.
    pub fn resumed(&mut self)
        requires
            old(self).wf(),
        ensures
            final(self)@ == (AppView { ready: true, ..old(self)@ }).scheduled(),
            final(self).wf(),
    {
        self.ready = true;
        self.schedule();
    }

    /// The image is no longer asked for.
    fn clear_pending(&mut self, idx: usize, kind: JobKind)
        requires
            old(self).wf(),
            idx < old(self)@.n(),
        ensures
            final(self)@ == old(self)@.set_pending(idx, kind, false),
            final(self).wf(),
    {
        match kind {
            JobKind::Fit => {
                self.pending_fit.set(idx, false);
            },
            JobKind::Full => {
                self.pending_full.set(idx, false);
            },
            JobKind::Thumb => {
                self.pending_thumb.set(idx, false);
            },
        }
    }

    /// The thumbnail of a shot is held.
    fn got_thumb(&mut self, idx: usize)
        requires
            old(self).wf(),
            idx < old(self)@.n(),
        ensures
            final(self)@ == old(self)@.got_thumb(idx),
            final(self).wf(),
    {
        self.thumbs.set(idx, true);
        self.note(Action::UploadThumb { idx });
    }

    /// The screen-fit image of a shot is held.
    fn got_fit(&mut self, idx: usize)
        requires
            old(self).wf(),
            idx < old(self)@.n(),
        ensures
            final(self)@ == old(self)@.got_fit(idx),
            final(self).wf(),
    {
        self.cached.set(idx, true);
        self.note(Action::UploadFit { idx });
    }

    /// A shot could not be decoded.
    fn failed(&mut self, idx: usize, e: String)
        requires
            old(self).wf(),
            idx < old(self)@.n(),
        ensures
            final(self)@ == (AppView {
                errors: old(self)@.errors.update(idx as int, Some(e@)),
                ..old(self)@
            }),
            final(self).wf(),
    {
        let ghost errors = self@.errors;
        self.errors.set(idx, Some(e));
        assert(optional_texts(self.errors@) =~= errors.update(idx as int, Some(e@)));
    }

    /// A screen-fit image came.
    #[verifier::rlimit(40)]
    fn take_fit(&mut self, idx: usize)
        requires
            old(self).wf(),
            idx < old(self)@.n(),
        ensures
            final(self)@ == old(self)@.taken(idx, Arrived::Fit),
            final(self).wf(),
    {
        if !self.ready {
            return ;
        }
        self.known.set(idx, true);
        if self.marked[idx] && !self.thumbs[idx] {
            self.got_thumb(idx);
        }
        if self.in_window(idx) {
            self.got_fit(idx);
        }
    }

    /// A full image came.
    fn take_full(&mut self, idx: usize)
        requires
            old(self).wf(),
            idx < old(self)@.n(),
        ensures
            final(self)@ == old(self)@.taken(idx, Arrived::Full),
            final(self).wf(),
    {
        if self.ready && idx == self.cursor && self.mode == Mode::Peek {
            self.full = Some(idx);
            self.note(Action::UploadFull { idx });
        }
    }

    /// A thumbnail came.
    fn take_thumb(&mut self, idx: usize)
        requires
            old(self).wf(),
            idx < old(self)@.n(),
        ensures
            final(self)@ == old(self)@.taken(idx, Arrived::Thumb),
            final(self).wf(),
    {
        if self.ready && self.marked[idx] {
            self.got_thumb(idx);
        }
    }

    /// Notes what came of a job.
    #[verifier::rlimit(40)]
    pub fn receive(&mut self, idx: usize, kind: JobKind, what: Arrived)
        requires
            old(self).wf(),
            idx < old(self)@.n(),
        ensures
            final(self)@ == old(self)@.received(idx, kind, what),
            final(self).wf(),
    {
        self.clear_pending(idx, kind);
        match what {
            Arrived::Failed(e) => {
                self.failed(idx, e);
            },
            Arrived::Fit => {
                self.take_fit(idx);
            },
            Arrived::Full => {
                self.take_full(idx);
            },
            Arrived::Thumb => {
                self.take_thumb(idx);
            },
            Arrived::Skipped => {},
        }
    }

    /// Goes to a shot, or to the last one.
    #[verifier::rlimit(40)]
    pub fn go_to(&mut self, idx: usize)
        requires
            old(self).wf(),
        ensures
            final(self)@ == old(self)@.gone_to(idx as int),
            final(self).wf(),
    {
        let n: usize = self.n();
        let to: usize = if idx < n {
            idx
        } else {
            n - 1
        };
        if to != self.cursor {
            self.forward = to > self.cursor;
            self.cursor = to;
            self.schedule();
        }
    }

    /// Goes `by` shots on, or back.
    pub fn step(&mut self, back: bool, by: usize)
        requires
            old(self).wf(),
        ensures
            final(self)@ == old(self)@.gone_to(
                if back {
                    old(self)@.cursor - by
                } else {
                    old(self)@.cursor + by
                },
            ),
            final(self).wf(),
    {
        let n: usize = self.n();
        let to: usize = if back {
            if by > self.cursor {
                0
            } else {
                self.cursor - by
            }
        } else if by >= n - self.cursor {
            n - 1
        } else {
            self.cursor + by
        };
        self.go_to(to);
    }

    /// Mark or unmark the current shot for deletion.
    #[verifier::rlimit(40)]
    pub fn toggle_mark(&mut self)
        requires
            old(self).wf(),
        ensures
            final(self)@ == old(self)@.toggled(),
            final(self).wf(),
    {
        let idx: usize = self.cursor;
        let mark = !self.marked[idx];
        self.marked.set(idx, mark);
        if mark {
            if self.ready && self.cached[idx] {
                self.thumbs.set(idx, true);
                self.note(Action::UploadKeptThumb { idx });
            }
        } else {
            self.thumbs.set(idx, false);
        }
        self.note(Action::Save);
    }

    /// Turns to the current image at full size.
    pub fn enter_peek(&mut self)
        requires
            old(self).wf(),
        ensures
            final(self)@ == old(self)@.peeking(),
            final(self).wf(),
    {
        self.mode = Mode::Peek;
        self.schedule();
    }

    /// Turns to the review of the marked shots.
    #[verifier::rlimit(40)]
    pub fn open_review(&mut self)
        requires
            old(self).wf(),
        ensures
            final(self)@ == old(self)@.reviewing(),
            final(self).wf(),
    {
        let n: usize = self.n();
        let mut items: Vec<usize> = Vec::new();
        let mut i: usize = 0;
        while i < n
            invariant
                i <= n,
                n == self@.n(),
                self.wf(),
                items@ == places(self.marked@, i as int),
            decreases n - i,
        {
            if self.marked[i] {
                items.push(i);
            }
            i += 1;
        }
        proof {
            lemma_places(self.marked@, n as int);
            assert(ordered_items(items@, n as int)) by {
                reveal(ordered_items);
            }
        }
        if items.len() == 0 {
            self.note(Action::Save);
            self.note(Action::OfferMove);
            return ;
        }
        let m: usize = items.len();
        let mut sel: usize = 0;
        let mut k: usize = 0;
        while k < m && items[k] < self.cursor
            invariant
                k <= m,
                m == items@.len(),
                first_from(items@, self.cursor, 0) == first_from(items@, self.cursor, k as int),
            decreases m - k,
        {
            k += 1;
        }
        if k < m {
            sel = k;
        }
        assert(sel == first_from(items@, self.cursor, 0));
        self.review = Review { items, keep: falses(m), sel };
        self.mode = Mode::Review;
        self.note(Action::ShowSelected { fresh: true });
        self.schedule();
    }

    /// Clears the marks of the review items that are kept.
    #[verifier::rlimit(40)]
    fn clear_kept(&mut self)
        requires
            old(self).wf(),
        ensures
            final(self)@ == (AppView {
                marked: old(self)@.unmarked(
                    old(self)@.marked,
                    old(self)@.review.items.len() as int,
                ),
                thumbs: old(self)@.unmarked(
                    old(self)@.thumbs,
                    old(self)@.review.items.len() as int,
                ),
                ..old(self)@
            }),
            final(self).wf(),
    {
        let ghost s = self@;
        let m: usize = self.review.items.len();
        let mut k: usize = 0;
        while k < m
            invariant
                k <= m,
                m == s.review.items.len(),
                s.valid(),
                self@ == (AppView {
                    marked: s.unmarked(s.marked, k as int),
                    thumbs: s.unmarked(s.thumbs, k as int),
                    ..s
                }),
                self.wf(),
            decreases m - k,
        {
            if self.review.keep[k] {
                let idx: usize = self.review.items[k];
                assert(idx < s.n()) by {
                    reveal(ordered_items);
                }
                self.marked.set(idx, false);
                self.thumbs.set(idx, false);
            }
            k += 1;
        }
    }

    /// Goes back from the review: what was kept is no longer marked.
    #[verifier::rlimit(40)]
    pub fn close_review(&mut self)
        requires
            old(self).wf(),
        ensures
            final(self)@ == old(self)@.reviewed(),
            final(self).wf(),
    {
        self.clear_kept();
        self.note(Action::Save);
        self.mode = Mode::Browse;
        self.schedule();
    }

    /// Moves the selection by `by` items, on or back.
    pub fn review_move(&mut self, back: bool, by: usize)
        requires
            old(self).wf(),
            old(self).mode == Mode::Review,
        ensures
            final(self)@ == old(self)@.selected(
                if back {
                    -(by as int)
                } else {
                    by as int
                },
            ),
            final(self).wf(),
    {
        let m: usize = self.review.items.len();
        let sel: usize = self.review.sel;
        self.review.sel = if back {
            if by > sel {
                0
            } else {
                sel - by
            }
        } else if by >= m - sel {
            m - 1
        } else {
            sel + by
        };
        self.note(Action::ShowSelected { fresh: false });
    }

    /// Chooses to keep a review item, or not to.
    pub fn toggle_keep(&mut self, i: usize)
        requires
            old(self).wf(),
            i < old(self)@.review.items.len(),
        ensures
            final(self)@ == old(self)@.kept(i as int),
            final(self).wf(),
    {
        let keep = !self.review.keep[i];
        self.review.keep.set(i, keep);
    }

    /// Selects the review item that was clicked at, and chooses to keep it or not to.
    pub fn click_item(&mut self, i: usize)
        requires
            old(self).wf(),
            i < old(self)@.review.items.len(),
        ensures
            final(self)@ == (AppView {
                review: ReviewView { sel: i, ..old(self)@.review },
                ..old(self)@
            }).kept(i as int),
            final(self).wf(),
    {
        self.review.sel = i;
        self.toggle_keep(i);
    }

    /// Review items (shot indices) the user didn't choose to keep.
    pub fn doomed(&self) -> (r: Vec<usize>)
        requires
            self.wf(),
        ensures
            r@ == self@.doomed(),
    {
        let mut out: Vec<usize> = Vec::new();
        let m: usize = self.review.items.len();
        let mut k: usize = 0;
        while k < m
            invariant
                k <= m,
                m == self.review.items@.len(),
                self.wf(),
                out@ == unflagged(self.review.items@, self.review.keep@, k as int),
            decreases m - k,
        {
            if !self.review.keep[k] {
                out.push(self.review.items[k]);
            }
            k += 1;
        }
        out
    }

    /// Confirms the review: the doomed shots go to the trash.
    #[verifier::rlimit(40)]
    pub fn confirm(&mut self)
        requires
            old(self).wf(),
        ensures
            final(self)@ == old(self)@.confirmed(),
            final(self).wf(),
    {
        if self.doomed().len() == 0 {
            self.close_review();
        } else {
            self.note(Action::Trash);
        }
    }

    /// Takes note of what came of moving the doomed shots to the trash. `here` tells which review
    /// items' JPEGs are still in the folder.
    #[verifier::rlimit(40)]
    pub fn trashed(&mut self, report: &delete::Report, here: &Vec<bool>)
        requires
            old(self).wf(),
            here@.len() == old(self)@.review.items.len(),
        ensures
            final(self)@ == old(self)@.trashed(report@, here@),
            final(self).wf(),
    {
        let ghost s = self@;
        let message = tell_trash(report);
        assert(report@.failures.len() == report.failures@.len());
        if report.failures.len() == 0 {
            self.note(Action::RemoveState);
            self.exit_message = Some(message);
            self.note(Action::OfferMove);
            return ;
        }
        // Keep marks only for shots that are still here, so a rerun can retry them.
        let m: usize = self.review.items.len();
        let mut k: usize = 0;
        while k < m
            invariant
                k <= m,
                m == s.review.items.len(),
                m == here@.len(),
                s.valid(),
                self@ == (AppView { marked: s.retry_marks(here@, k as int), ..s }),
                self.wf(),
            decreases m - k,
        {
            if self.review.keep[k] || !here[k] {
                let idx: usize = self.review.items[k];
                assert(idx < s.n()) by {
                    reveal(ordered_items);
                }
                self.marked.set(idx, false);
            }
            k += 1;
        }
        self.exit_message = Some(message);
        self.note(Action::Save);
        self.note(Action::Exit);
    }

    /// Offers to move the `files` files that are still in the folder, `shots` of them JPEGs of
    /// shots, to the folder `suggestion`. With no files left there is nothing more to do.
    #[verifier::rlimit(40)]
    pub fn open_move(&mut self, files: usize, shots: usize, suggestion: String)
        requires
            old(self).wf(),
        ensures
            final(self)@ == old(self)@.offered(files as nat, shots as nat, suggestion@),
            final(self).wf(),
    {
        if files == 0 {
            self.note(Action::Exit);
            return ;
        }
        let path = LineEdit::new(suggestion);
        self.moving = MoveTo {
            files,
            shots,
            path,
            dest: String::new(),
            running: false,
            stopping: false,
            done: 0,
        };
        self.mode = Mode::Move;
        self.show_help = false;
        self.note(Action::Redraw);
        assert(self@.moving.dest =~= Seq::empty());
    }

    /// The typed folder, without blanks around it.
    pub fn typed(&self) -> (r: String)
        ensures
            r@ == self@.typed(),
    {
        trim(self.moving.path.text.as_str())
    }

    /// Asks to move the files to the typed folder, if one is typed.
    pub fn start_move(&mut self)
        ensures
            final(self)@ == old(self)@.starting_move(),
            old(self).wf() ==> final(self).wf(),
    {
        if !self.typed().as_str().is_empty() {
            self.note(Action::StartMove);
        }
    }

    /// The files are on their way to `dest` now.
    pub fn move_started(&mut self, dest: String)
        ensures
            final(self)@ == old(self)@.moving_to(dest@),
            old(self).wf() ==> final(self).wf(),
    {
        self.moving.dest = dest;
        self.moving.running = true;
        self.moving.stopping = false;
    }

    /// So many files are dealt with now.
    pub fn move_progress(&mut self, done: usize)
        ensures
            final(self)@ == (AppView {
                moving: MoveView { done: done as nat, ..old(self)@.moving },
                ..old(self)@
            }),
            old(self).wf() ==> final(self).wf(),
    {
        self.moving.done = done;
    }

    /// The move ended.
    #[verifier::rlimit(40)]
    pub fn finish_move(&mut self, report: &relocate::Report, home: Option<&str>)
        ensures
            old(self).wf() ==> final(self).wf(),
            final(self)@ == old(self)@.moved(report@, home_of(home)),
    {
        let dest = abbreviate(self.moving.dest.as_str(), home);
        let message = tell_move(&self.exit_message, report, dest.as_str(), self.dir.as_str());
        assert(report@.failures.len() == report.failures@.len());
        if report.failures.len() == 0 && !report.cancelled {
            self.note(Action::RemoveState);
        }
        self.exit_message = Some(message);
        self.note(Action::Exit);
    }
}

/// What is said after moving shots to the trash.
fn tell_trash(report: &delete::Report) -> (r: String)
    ensures
        r@ == trash_message(report@),
{
    let mut message = "cull: moved ".to_owned();
    message.append(decimal(report.shots as u64).as_str());
    message.append(" shot(s), ");
    message.append(decimal(report.files as u64).as_str());
    message.append(" file(s) to Trash.");
    assert(report@.failures.len() == report.failures@.len());
    if report.failures.len() > 0 {
        message.append("\ncull: ");
        message.append(decimal(report.failures.len() as u64).as_str());
        message.append(" file(s) could not be moved:");
        push_failures(&mut message, &report.failures);
    }
    message
}

/// What is said after moving files to another folder, following what was said before.
fn tell_move(before: &Option<String>, report: &relocate::Report, dest: &str, dir: &str) -> (r: String)
    ensures
        r@ == move_message(text_view(*before), report@, dest@, dir@),
{
    let mut stopped = String::new();
    if report.cancelled {
        stopped = "\ncull: stopped early; the rest are still in ".to_owned();
        stopped.append(dir);
        stopped.append(".");
    }
    assert(!report.cancelled ==> stopped@ =~= Seq::empty());
    assert(report@.failures.len() == report.failures@.len());
    let mut problems = String::new();
    if report.failures.len() > 0 {
        problems = "\ncull: ".to_owned();
        problems.append(decimal(report.failures.len() as u64).as_str());
        problems.append(" problem(s) moving files:");
        push_failures(&mut problems, &report.failures);
    }
    assert(report.failures@.len() == 0 ==> problems@ =~= Seq::empty());
    let mut message = match before {
        Some(m) => {
            let mut t = m.clone();
            t.append("\n");
            t
        },
        None => String::new(),
    };
    assert(before is None ==> message@ =~= Seq::empty());
    message.append("cull: moved ");
    message.append(decimal(report.files as u64).as_str());
    message.append(" file(s) to ");
    message.append(dest);
    message.append(".");
    message.append(stopped.as_str());
    message.append(problems.as_str());
    message
}

proof fn lemma_places(s: Seq<bool>, k: int)
    requires
        0 <= k <= s.len(),
        s.len() <= usize::MAX,
    ensures
        forall|i: int| 0 <= i < places(s, k).len() ==> (#[trigger] places(s, k)[i]) < k,
        forall|i: int| 0 <= i < places(s, k).len() ==> s[#[trigger] places(s, k)[i] as int],
        forall|a: int, b: int|
            0 <= a < b < places(s, k).len() ==> (#[trigger] places(s, k)[a]) < (#[trigger] places(
                s,
                k,
            )[b]),
        forall|i: int| 0 <= i < k && s[i] ==> #[trigger] places(s, k).contains(i as usize),
    decreases k,
{
    if k > 0 {
        lemma_places(s, k - 1);
        let p = places(s, k - 1);
        assert forall|i: int| 0 <= i < k && s[i] implies #[trigger] places(s, k).contains(
            i as usize,
        ) by {
            if i < k - 1 {
                assert(p.contains(i as usize));
                let j = choose|j: int| 0 <= j < p.len() && p[j] == i as usize;
                assert(places(s, k)[j] == i as usize);
            } else {
                assert(places(s, k)[p.len() as int] == i as usize);
            }
        }
    }
}

proof fn lemma_marked_stems(shots: Seq<ShotView>, marked: Seq<bool>, k: int)
    requires
        ordered_shots(shots),
        0 <= k <= shots.len(),
        marked.len() == shots.len(),
    ensures
        increasing(marked_stems(shots, marked, k)),
        forall|i: int|
            0 <= i < shots.len() ==> (#[trigger] marked_stems(shots, marked, k).contains(
                shots[i].stem,
            ) <==> i < k && marked[i]),
        forall|j: int|
            0 <= j < marked_stems(shots, marked, k).len() ==> exists|i: int|
                0 <= i < k && (#[trigger] shots[i]).stem == #[trigger] marked_stems(
                    shots,
                    marked,
                    k,
                )[j],
    decreases k,
{
    reveal(ordered_shots);
    let all = stems(shots);
    assert forall|a: int, b: int| 0 <= a < b < shots.len() implies text_lt(
        (#[trigger] shots[a]).stem,
        (#[trigger] shots[b]).stem,
    ) by {
        assert(text_lt(all[a], all[b]));
    }
    if k > 0 {
        lemma_marked_stems(shots, marked, k - 1);
        let p = marked_stems(shots, marked, k - 1);
        let q = marked_stems(shots, marked, k);
        let x = shots[k - 1].stem;
        assert forall|j: int| 0 <= j < p.len() implies text_lt(#[trigger] p[j], x) by {
            let i = choose|i: int| 0 <= i < k - 1 && (#[trigger] shots[i]).stem == p[j];
            assert(text_lt(shots[i].stem, shots[k - 1].stem));
        }
        assert forall|i: int| 0 <= i < shots.len() implies (#[trigger] q.contains(shots[i].stem)
            <==> i < k && marked[i]) by {
            let y = shots[i].stem;
            assert(p.contains(y) <==> i < k - 1 && marked[i]);
            if i != k - 1 {
                if i < k - 1 {
                    assert(text_lt(shots[i].stem, shots[k - 1].stem));
                } else {
                    assert(text_lt(shots[k - 1].stem, shots[i].stem));
                }
                lemma_text_trichotomy(x, y);
            }
            if q.contains(y) {
                let j = choose|j: int| 0 <= j < q.len() && q[j] == y;
                if j < p.len() {
                    assert(p[j] == y);
                }
            }
            if p.contains(y) {
                let j = choose|j: int| 0 <= j < p.len() && p[j] == y;
                assert(q[j] == y);
            }
            if i == k - 1 && marked[i] {
                assert(q[p.len() as int] == y);
            }
        }
        assert forall|j: int| 0 <= j < q.len() implies exists|i: int|
            0 <= i < k && (#[trigger] shots[i]).stem == #[trigger] q[j] by {
            if j < p.len() {
                assert(p[j] == q[j]);
            } else {
                assert(shots[k - 1].stem == q[j]);
            }
        }
    }
}

proof fn lemma_find_stem(shots: Seq<ShotView>, i: int, j: int)
    requires
        ordered_shots(shots),
        0 <= i <= j < shots.len(),
    ensures
        find_stem(shots, shots[j].stem, i) == Some(j),
    decreases j - i,
{
    reveal(ordered_shots);
    if i < j {
        let all = stems(shots);
        assert(text_lt(all[i], all[j]));
        lemma_text_trichotomy(shots[i].stem, shots[j].stem);
        lemma_find_stem(shots, i + 1, j);
    }
}

/// Marks and position survive: what is saved gives them back when the same shots are opened again.
pub proof fn law_saved_state_restores(s: AppView)
    requires
        s.valid(),
    ensures
        restored_marks(s.shots, s.state()) == s.marked,
        restored_cursor(s.shots, s.state()) == s.cursor,
{
    lemma_marked_stems(s.shots, s.marked, s.n());
    lemma_find_stem(s.shots, 0, s.cursor as int);
    assert(restored_marks(s.shots, s.state()) =~= s.marked) by {
        assert forall|i: int| 0 <= i < s.n() implies s.state().marked.contains(
            s.shots[i].stem,
        ) == s.marked[i] by {
            assert(marked_stems(s.shots, s.marked, s.n()).contains(s.shots[i].stem) <==> i < s.n()
                && s.marked[i]);
        }
    }
}

/// The saved stems come in order, each once.
pub proof fn law_saved_state_ordered(s: AppView)
    requires
        s.valid(),
    ensures
        s.state().ordered(),
        s.state().version == STATE_VERSION,
{
    lemma_marked_stems(s.shots, s.marked, s.n());
}

/// The review lists the marked shots, all of them and no others, with none kept yet.
pub proof fn law_review_lists_the_marked(s: AppView, i: int)
    requires
        s.valid(),
        0 <= i < s.n(),
        count_places(s) > 0,
    ensures
        s.reviewing().mode is Review,
        s.reviewing().review.items.contains(i as usize) <==> s.marked[i],
        s.reviewing().doomed() == s.reviewing().review.items,
        s.reviewing().marked == s.marked,
{
    let items = places(s.marked, s.n());
    lemma_places(s.marked, s.n());
    let t = AppView {
        review: ReviewView {
            items,
            keep: all(items.len(), false),
            sel: first_from(items, s.cursor, 0) as usize,
        },
        mode: Mode::Review,
        ..s
    }.noted(Action::ShowSelected { fresh: true });
    lemma_scheduled_keeps(t);
    if items.contains(i as usize) {
        let k = choose|k: int| 0 <= k < items.len() && items[k] == i as usize;
        assert(s.marked[items[k] as int]);
    }
    lemma_nothing_kept(items, items.len() as int);
}

/// How many shots are marked, as the review lists them.
pub open spec fn count_places(s: AppView) -> nat {
    places(s.marked, s.n()).len()
}

proof fn lemma_nothing_kept(items: Seq<usize>, k: int)
    requires
        0 <= k <= items.len(),
    ensures
        unflagged(items, all(items.len(), false), k) == items.take(k),
    decreases k,
{
    if k > 0 {
        lemma_nothing_kept(items, k - 1);
        assert(items.take(k) =~= items.take(k - 1).push(items[k - 1]));
    } else {
        assert(items.take(0) =~= Seq::<usize>::empty());
    }
    assert(items.take(items.len() as int) =~= items);
}

/// Scheduling asks for images and lets go of some; it changes nothing else.
pub proof fn lemma_scheduled_keeps(s: AppView)
    ensures
        ({
            let t = s.scheduled();
            t == (AppView {
                cached: t.cached,
                full: t.full,
                pending_fit: t.pending_fit,
                pending_full: t.pending_full,
                pending_thumb: t.pending_thumb,
                actions: t.actions,
                ..s
            })
        }),
        s.scheduled().cached == s.tidied().cached,
        s.scheduled().full == s.tidied().full,
{
    reveal(AppView::scheduled);
    let a = s.noted(
        Action::SetCurrent { idx: s.cursor, peeking: s.mode is Peek },
    ).tidied().with_full();
    lemma_with_fits_keeps(a, a.order(), a.order().len() as int);
    let t = a.with_fits(a.order(), a.order().len() as int);
    lemma_with_thumbs_keeps(t, t.review.items.len() as int);
    assert(s.noted(
        Action::SetCurrent { idx: s.cursor, peeking: s.mode is Peek },
    ).tidied().cached =~= s.tidied().cached);
}

proof fn lemma_with_thumbs_keeps(s: AppView, k: int)
    ensures
        ({
            let t = s.with_thumbs(k);
            t == (AppView { pending_thumb: t.pending_thumb, actions: t.actions, ..s })
        }),
    decreases k,
{
    if k > 0 {
        lemma_with_thumbs_keeps(s, k - 1);
    }
}

proof fn lemma_unflagged(items: Seq<usize>, flags: Seq<bool>, k: int, x: usize)
    requires
        0 <= k <= items.len(),
        flags.len() == items.len(),
    ensures
        unflagged(items, flags, k).contains(x) <==> exists|j: int|
            0 <= j < k && #[trigger] items[j] == x && !flags[j],
    decreases k,
{
    if k > 0 {
        lemma_unflagged(items, flags, k - 1, x);
        let p = unflagged(items, flags, k - 1);
        let q = unflagged(items, flags, k);
        if q.contains(x) {
            let i = choose|i: int| 0 <= i < q.len() && q[i] == x;
            if i < p.len() {
                assert(p[i] == x);
                let j = choose|j: int| 0 <= j < k - 1 && #[trigger] items[j] == x && !flags[j];
                assert(items[j] == x && !flags[j]);
            } else {
                assert(items[k - 1] == x && !flags[k - 1]);
            }
        }
        if exists|j: int| 0 <= j < k && #[trigger] items[j] == x && !flags[j] {
            let j = choose|j: int| 0 <= j < k && #[trigger] items[j] == x && !flags[j];
            if j < k - 1 {
                assert(p.contains(x));
                let i = choose|i: int| 0 <= i < p.len() && p[i] == x;
                assert(q[i] == x);
            } else {
                assert(q[p.len() as int] == x);
            }
        }
    }
}

/// Only what is in the review and not kept goes to the trash.
pub proof fn law_kept_shots_are_not_doomed(s: AppView, k: int)
    requires
        s.valid(),
        0 <= k < s.review.items.len(),
    ensures
        s.doomed().contains(s.review.items[k]) <==> !s.review.keep[k],
        forall|x: usize| #[trigger] s.doomed().contains(x) ==> s.review.items.contains(x),
{
    reveal(ordered_items);
    let n = s.review.items.len() as int;
    lemma_unflagged(s.review.items, s.review.keep, n, s.review.items[k]);
    if s.doomed().contains(s.review.items[k]) {
        let j = choose|j: int|
            0 <= j < n && #[trigger] s.review.items[j] == s.review.items[k] && !s.review.keep[j];
        assert(j == k) by {
            if j < k {
                assert(s.review.items[j] < s.review.items[k]);
            } else if k < j {
                assert(s.review.items[k] < s.review.items[j]);
            }
        }
    }
    if !s.review.keep[k] {
        assert(s.review.items[k] == s.review.items[k] && !s.review.keep[k]);
    }
    assert forall|x: usize| #[trigger] s.doomed().contains(x) implies s.review.items.contains(x) by {
        lemma_unflagged(s.review.items, s.review.keep, n, x);
    }
}

proof fn lemma_unmarked(s: AppView, m: Seq<bool>, k: int, i: int)
    requires
        s.valid(),
        m.len() == s.n(),
        0 <= k <= s.review.items.len(),
        0 <= i < s.n(),
    ensures
        s.unmarked(m, k).len() == m.len(),
        s.unmarked(m, k)[i] == (m[i] && !exists|j: int|
            0 <= j < k && #[trigger] s.review.items[j] == i && s.review.keep[j]),
    decreases k,
{
    reveal(ordered_items);
    if k > 0 {
        lemma_unmarked(s, m, k - 1, i);
        let item = s.review.items[k - 1];
        if exists|j: int| 0 <= j < k && #[trigger] s.review.items[j] == i && s.review.keep[j] {
            let j = choose|j: int|
                0 <= j < k && #[trigger] s.review.items[j] == i && s.review.keep[j];
            if j < k - 1 {
                assert(s.review.items[j] == i && s.review.keep[j]);
            }
        }
        if item == i && s.review.keep[k - 1] {
            assert(s.review.items[k - 1] == i && s.review.keep[k - 1]);
        }
        if exists|j: int| 0 <= j < k - 1 && #[trigger] s.review.items[j] == i && s.review.keep[j] {
            let j = choose|j: int|
                0 <= j < k - 1 && #[trigger] s.review.items[j] == i && s.review.keep[j];
            assert(s.review.items[j] == i && s.review.keep[j]);
        }
    }
}

/// Going back from the review clears the marks of what was kept, and no others.
pub proof fn law_leaving_review_unmarks_the_kept(s: AppView, i: int)
    requires
        s.valid(),
        0 <= i < s.n(),
    ensures
        s.reviewed().mode is Browse,
        s.reviewed().marked[i] == (s.marked[i] && !exists|j: int|
            0 <= j < s.review.items.len() && #[trigger] s.review.items[j] == i
                && s.review.keep[j]),
{
    let k = s.review.items.len() as int;
    lemma_unmarked(s, s.marked, k, i);
    let t = AppView {
        mode: Mode::Browse,
        ..AppView {
            marked: s.unmarked(s.marked, k),
            thumbs: s.unmarked(s.thumbs, k),
            ..s
        }.noted(Action::Save)
    };
    lemma_scheduled_keeps(t);
}

/// Marking a shot and unmarking it leaves the marks as they were.
pub proof fn law_mark_twice(s: AppView)
    requires
        s.valid(),
    ensures
        s.toggled().marked == s.marked.update(s.cursor as int, !s.marked[s.cursor as int]),
        s.toggled().toggled().marked == s.marked,
        s.toggled().cursor == s.cursor,
{
    assert(s.toggled().toggled().marked =~= s.marked);
}

/// Going to another shot keeps the screen, and with it the part of the image that is peeked at; the
/// marks stay.
pub proof fn law_going_keeps_screen_and_marks(s: AppView, idx: int)
    requires
        s.valid(),
    ensures
        s.gone_to(idx).cursor == clamped(idx, s.n()),
        s.gone_to(idx).mode == s.mode,
        s.gone_to(idx).marked == s.marked,
{
    let to = clamped(idx, s.n());
    if to != s.cursor {
        lemma_scheduled_keeps(AppView { forward: to > s.cursor, cursor: to as usize, ..s });
    }
}

/// Away from the ends, a step on and a step back lead to the same shot.
pub proof fn law_step_on_and_back(s: AppView)
    requires
        s.valid(),
        s.cursor + 1 < s.n(),
    ensures
        s.gone_to(s.cursor + 1).gone_to(s.gone_to(s.cursor + 1).cursor - 1).cursor == s.cursor,
{
    let a = s.gone_to(s.cursor + 1);
    lemma_scheduled_keeps(AppView { forward: true, cursor: (s.cursor + 1) as usize, ..s });
    lemma_scheduled_keeps(AppView { forward: false, cursor: s.cursor, ..a });
}

/// After scheduling, no screen-fit image is held but those around the cursor, and no full image but
/// that of the current shot.
pub proof fn law_only_near_images_held(s: AppView, i: int)
    requires
        s.valid(),
        0 <= i < s.n(),
    ensures
        s.scheduled().cached[i] ==> s.in_window(i),
        s.scheduled().full matches Some(f) ==> f == s.cursor,
{
    lemma_scheduled_keeps(s);
}

/// What is asked for around the cursor starts with the current shot, and is never so far away that
/// the loader would skip it.
pub proof fn law_requests_are_worth_decoding(s: AppView, k: int)
    requires
        s.valid(),
        0 <= k < s.order().len(),
    ensures
        s.order()[0] == s.cursor,
        s.in_window(s.order()[k] as int),
        !crate::loader::is_stale(
            JobKind::Fit,
            s.order()[k] as int,
            s.cursor as int,
            s.mode is Peek,
        ),
{
    let b = s.near(1);
    let c = s.near(2);
    if k > 0 {
        if k < 1 + b.len() {
            assert(s.order()[k] == s.near(1)[k - 1]);
        } else if k < 1 + b.len() + c.len() {
            assert(s.order()[k] == s.near(2)[k - 1 - b.len()]);
        } else {
            assert(s.order()[k] == s.near(3)[k - 1 - b.len() - c.len()]);
        }
    }
}

/// Everything around the cursor that is missing has been asked for.
pub proof fn law_missing_images_are_asked_for(s: AppView, i: int)
    requires
        s.valid(),
        0 <= i < s.n(),
        s.in_window(i),
        s.errors[i] is None,
    ensures
        s.scheduled().cached[i] || s.scheduled().pending_fit[i],
{
    reveal(AppView::scheduled);
    let a = s.noted(
        Action::SetCurrent { idx: s.cursor, peeking: s.mode is Peek },
    ).tidied().with_full();
    let order = a.order();
    let m = order.len() as int;
    lemma_order_complete(a, i);
    let k = choose|k: int| 0 <= k < m && order[k] == i;
    assert(a.cached.len() == s.n() && a.pending_fit.len() == s.n());
    assert(a.valid());
    lemma_order_in_range(a);
    lemma_fits_pending(a, order, m, k);
    let t = a.with_fits(order, m);
    lemma_with_fits_keeps(a, order, m);
    lemma_with_thumbs_keeps(t, t.review.items.len() as int);
}

proof fn lemma_order_complete(s: AppView, i: int)
    requires
        0 <= i < s.n() <= usize::MAX,
        s.in_window(i),
        s.cursor < s.n(),
    ensures
        s.order().contains(i as usize),
{
    let b = s.near(1);
    let c = s.near(2);
    let e = s.near(3);
    let d = if i >= s.cursor {
        i - s.cursor
    } else {
        s.cursor - i
    };
    if d == 0 {
        assert(s.order()[0] == i as usize);
    } else {
        let l = s.near(d);
        assert(l.contains(i as usize)) by {
            if l.len() == 1 {
                assert(l[0] == i as usize);
            } else {
                assert(l[0] == i as usize || l[1] == i as usize);
            }
        }
        let j = choose|j: int| 0 <= j < l.len() && l[j] == i as usize;
        if d == 1 {
            assert(s.order()[1 + j] == i as usize);
        } else if d == 2 {
            assert(s.order()[1 + b.len() + j] == i as usize);
        } else {
            assert(s.order()[1 + b.len() + c.len() + j] == i as usize);
        }
    }
}

proof fn lemma_fits_pending(s: AppView, order: Seq<usize>, m: int, k: int)
    requires
        0 <= k < m <= order.len(),
        order[k] < s.cached.len(),
        s.cached.len() == s.pending_fit.len(),
        s.errors[order[k] as int] is None,
        forall|j: int| 0 <= j < order.len() ==> (#[trigger] order[j]) < s.cached.len(),
    ensures
        s.cached[order[k] as int] || s.with_fits(order, m).pending_fit[order[k] as int],
    decreases m,
{
    lemma_with_fits_keeps(s, order, m - 1);
    lemma_pending_len(s, order, m - 1);
    if k < m - 1 {
        lemma_fits_pending(s, order, m - 1, k);
    }
}

proof fn lemma_pending_len(s: AppView, order: Seq<usize>, m: int)
    requires
        m <= order.len(),
        forall|j: int| 0 <= j < order.len() ==> (#[trigger] order[j]) < s.pending_fit.len(),
    ensures
        s.with_fits(order, m).pending_fit.len() == s.pending_fit.len(),
    decreases m,
{
    if m > 0 {
        lemma_pending_len(s, order, m - 1);
    }
}

/// Leaving saves the marks first, unless they are settled already.
pub proof fn law_quit_saves_first(s: AppView)
    requires
        !(s.mode is Move),
    ensures
        s.quitting().actions == s.actions.push(Action::Save).push(Action::Exit),
        s.quitting().state() == s.state(),
{
}

/// After a try that left some files, a shot is still marked only if it was marked, was not kept and
/// is still in the folder.
pub proof fn law_retry_marks_what_is_left(
    s: AppView,
    r: delete::ReportView,
    here: Seq<bool>,
    k: int,
)
    requires
        s.valid(),
        r.failures.len() > 0,
        here.len() == s.review.items.len(),
        0 <= k < s.review.items.len(),
    ensures
        s.trashed(r, here).marked[s.review.items[k] as int] == (s.marked[s.review.items[k] as int]
            && !s.review.keep[k] && here[k]),
        s.trashed(r, here).exit_message == Some(trash_message(r)),
{
    lemma_retry(s, here, s.review.items.len() as int, k);
}

proof fn lemma_retry(s: AppView, here: Seq<bool>, n: int, k: int)
    requires
        s.valid(),
        here.len() == s.review.items.len(),
        0 <= k < s.review.items.len(),
        0 <= n <= s.review.items.len(),
    ensures
        s.retry_marks(here, n).len() == s.marked.len(),
        s.retry_marks(here, n)[s.review.items[k] as int] == (s.marked[s.review.items[k] as int]
            && !(k < n && (s.review.keep[k] || !here[k]))),
    decreases n,
{
    reveal(ordered_items);
    if n > 0 {
        lemma_retry(s, here, n - 1, k);
        if n - 1 < k {
            assert(s.review.items[n - 1] < s.review.items[k]);
        } else if k < n - 1 {
            assert(s.review.items[k] < s.review.items[n - 1]);
        }
    }
}

/// An image that was asked for is not asked for again until something came of it.
pub proof fn law_asked_for_once(s: AppView, idx: usize, kind: JobKind, urgent: bool, again: bool)
    requires
        s.valid(),
        idx < s.n(),
    ensures
        s.requested(idx, kind, urgent).requested(idx, kind, again) == s.requested(
            idx,
            kind,
            urgent,
        ),
        !s.received(idx, kind, Arrived::Skipped).pending(kind)[idx as int],
{
}

/// Scheduling again, with nothing changed in between, asks for no image.
pub proof fn law_scheduling_twice(s: AppView)
    requires
        s.valid(),
    ensures
        s.scheduled().scheduled() == s.scheduled().noted(
            Action::SetCurrent { idx: s.cursor, peeking: s.mode is Peek },
        ),
{
    reveal(AppView::scheduled);
    let note = Action::SetCurrent { idx: s.cursor, peeking: s.mode is Peek };
    let a = s.noted(note).tidied().with_full();
    let order = a.order();
    let m = order.len() as int;
    let b = a.with_fits(order, m);
    let n = b.review.items.len() as int;
    let t = s.scheduled();
    assert(a.valid());
    lemma_order_in_range(a);
    lemma_with_fits_keeps(a, order, m);
    lemma_pending_len(a, order, m);
    lemma_with_thumbs_keeps(b, n);
    let u = t.noted(note);
    assert(u.tidied().cached =~= u.cached);
    assert(u.tidied() == u);
    assert(u.with_full() == u);
    assert(u.order() =~= order);
    assert forall|k: int| 0 <= k < m && u.wants_fit(#[trigger] order[k]) implies u.pending_fit[
        order[k] as int
    ] by {
        lemma_fits_pending(a, order, m, k);
    }
    lemma_fits_asked(u, order, m);
    if s.mode is Review {
        assert forall|k: int|
            0 <= k < n && !u.thumbs[u.review.items[k] as int]
                && u.errors[#[trigger] u.review.items[k] as int] is None implies u.pending_thumb[
            u.review.items[k] as int
        ] by {
            lemma_thumbs_pending(b, n, k);
        }
        lemma_thumbs_asked(u, n);
    }
}

/// Nothing is asked for where all that is missing was.
proof fn lemma_fits_asked(s: AppView, order: Seq<usize>, m: int)
    requires
        m <= order.len(),
        forall|k: int|
            0 <= k < m && s.wants_fit(#[trigger] order[k]) ==> s.pending_fit[order[k] as int],
    ensures
        s.with_fits(order, m) == s,
    decreases m,
{
    if m > 0 {
        lemma_fits_asked(s, order, m - 1);
        assert(s.wants_fit(order[m - 1]) ==> s.pending_fit[order[m - 1] as int]);
    }
}

proof fn lemma_thumbs_asked(s: AppView, n: int)
    requires
        n <= s.review.items.len(),
        forall|k: int|
            0 <= k < n && !s.thumbs[s.review.items[k] as int]
                && s.errors[#[trigger] s.review.items[k] as int] is None
                ==> s.pending_thumb[s.review.items[k] as int],
    ensures
        s.with_thumbs(n) == s,
    decreases n,
{
    if n > 0 {
        lemma_thumbs_asked(s, n - 1);
        let idx = s.review.items[n - 1];
        assert(!s.thumbs[idx as int] && s.errors[idx as int] is None
            ==> s.pending_thumb[idx as int]);
    }
}

proof fn lemma_thumbs_pending(s: AppView, n: int, k: int)
    requires
        s.valid(),
        0 <= k < n <= s.review.items.len(),
        s.errors[s.review.items[k] as int] is None,
    ensures
        s.with_thumbs(n).pending_thumb.len() == s.pending_thumb.len(),
        s.thumbs[s.review.items[k] as int]
            || s.with_thumbs(n).pending_thumb[s.review.items[k] as int],
    decreases n,
{
    lemma_with_thumbs_keeps(s, n - 1);
    lemma_thumbs_len(s, n - 1);
    assert(s.review.items[n - 1] < s.n() && s.review.items[k] < s.n()) by {
        reveal(ordered_items);
    }
    if k < n - 1 {
        lemma_thumbs_pending(s, n - 1, k);
    }
}

proof fn lemma_thumbs_len(s: AppView, n: int)
    requires
        s.valid(),
        n <= s.review.items.len(),
    ensures
        s.with_thumbs(n).pending_thumb.len() == s.pending_thumb.len(),
    decreases n,
{
    if n > 0 {
        lemma_thumbs_len(s, n - 1);
        lemma_with_thumbs_keeps(s, n - 1);
        assert(s.review.items[n - 1] < s.n()) by {
            reveal(ordered_items);
        }
    }
}

/// Screen-fit images are kept three ahead of the cursor in the direction of travel, and one behind it.
pub proof fn law_window_around_the_cursor(s: AppView, idx: int)
    ensures
        s.forward ==> (s.in_window(idx) <==> s.cursor - 1 <= idx <= s.cursor + 3),
        !s.forward ==> (s.in_window(idx) <==> s.cursor - 3 <= idx <= s.cursor + 1),
{
}

/// How far a shot is from the cursor.
pub open spec fn distance(s: AppView, idx: usize) -> int {
    if idx >= s.cursor {
        idx - s.cursor
    } else {
        s.cursor - idx
    }
}

/// Images are asked for from the current shot outwards; of two that are as far away, the one in the
/// direction of travel comes first.
pub proof fn law_nearest_first(s: AppView, i: int, j: int)
    requires
        s.valid(),
        0 <= i < j < s.order().len(),
    ensures
        s.order()[0] == s.cursor,
        distance(s, s.order()[i]) <= distance(s, s.order()[j]),
        distance(s, s.order()[i]) == distance(s, s.order()[j]) ==> (if s.forward {
            s.order()[i] > s.cursor && s.order()[j] < s.cursor
        } else {
            s.order()[i] < s.cursor && s.order()[j] > s.cursor
        }),
{
    lemma_order_part(s, i);
    lemma_order_part(s, j);
}

/// Which distance a place in the order is for.
proof fn lemma_order_part(s: AppView, i: int)
    requires
        s.valid(),
        0 <= i < s.order().len(),
    ensures
        ({
            let b = s.near(1).len() as int;
            let c = s.near(2).len() as int;
            let d = if i == 0 {
                0int
            } else if i < 1 + b {
                1
            } else if i < 1 + b + c {
                2
            } else {
                3
            };
            let k = if d == 1 {
                i - 1
            } else if d == 2 {
                i - 1 - b
            } else {
                i - 1 - b - c
            };
            &&& distance(s, s.order()[i]) == d
            &&& d > 0 ==> 0 <= k < s.near(d).len() <= 2 && s.order()[i] == s.near(d)[k]
            &&& d > 0 && s.near(d).len() == 2 && s.forward ==> (s.order()[i] > s.cursor) == (k == 0)
            &&& d > 0 && s.near(d).len() == 2 && !s.forward ==> (s.order()[i] < s.cursor) == (k == 0)
        }),
{
    let b = s.near(1);
    let c = s.near(2);
    if i > 0 {
        if i < 1 + b.len() {
            assert(s.order()[i] == s.near(1)[i - 1]);
        } else if i < 1 + b.len() + c.len() {
            assert(s.order()[i] == s.near(2)[i - 1 - b.len()]);
        } else {
            assert(s.order()[i] == s.near(3)[i - 1 - b.len() - c.len()]);
        }
    }
}

/// Asking adds to what is to be done, and takes nothing back.
proof fn lemma_with_fits_adds(s: AppView, order: Seq<usize>, k: int)
    requires
        0 <= k <= order.len(),
    ensures
        s.with_fits(order, k).actions.len() >= s.actions.len(),
        s.with_fits(order, k).actions.take(s.actions.len() as int) == s.actions,
        forall|m: int|
            s.actions.len() <= m < s.with_fits(order, k).actions.len() ==> fit_request(
                s,
                order,
                k,
                #[trigger] s.with_fits(order, k).actions[m],
            ),
    decreases k,
{
    if k > 0 {
        lemma_with_fits_adds(s, order, k - 1);
        lemma_with_fits_keeps(s, order, k - 1);
        let t = s.with_fits(order, k - 1);
        let u = s.with_fits(order, k);
        assert(u.actions.take(s.actions.len() as int) =~= t.actions.take(s.actions.len() as int));
        assert forall|m: int| s.actions.len() <= m < u.actions.len() implies fit_request(
            s,
            order,
            k,
            #[trigger] u.actions[m],
        ) by {
            if m < t.actions.len() {
                assert(u.actions[m] == t.actions[m]);
                assert(fit_request(s, order, k - 1, t.actions[m]));
                let i = choose|i: int|
                    0 <= i < k - 1 && t.actions[m] == (Action::Request {
                        idx: #[trigger] order[i],
                        kind: JobKind::Fit,
                        urgent: i == 0,
                    }) && s.wants_fit(order[i]);
                assert(u.actions[m] == (Action::Request {
                    idx: order[i],
                    kind: JobKind::Fit,
                    urgent: i == 0,
                }));
            } else {
                assert(u.actions[m] == (Action::Request {
                    idx: order[k - 1],
                    kind: JobKind::Fit,
                    urgent: k == 1,
                }));
            }
        }
    } else {
        assert(s.actions.take(s.actions.len() as int) =~= s.actions);
    }
}

/// An image of the first `k` of `order` that is missing is asked for, the first one urgently.
spec fn fit_request(s: AppView, order: Seq<usize>, k: int, a: Action) -> bool {
    exists|i: int|
        0 <= i < k && a == (Action::Request {
            idx: #[trigger] order[i],
            kind: JobKind::Fit,
            urgent: i == 0,
        }) && s.wants_fit(order[i])
}

proof fn lemma_with_thumbs_adds(s: AppView, k: int)
    requires
        0 <= k <= s.review.items.len(),
    ensures
        s.with_thumbs(k).actions.len() >= s.actions.len(),
        s.with_thumbs(k).actions.take(s.actions.len() as int) == s.actions,
        forall|m: int|
            s.actions.len() <= m < s.with_thumbs(k).actions.len() ==> thumb_request(
                s,
                #[trigger] s.with_thumbs(k).actions[m],
            ),
    decreases k,
{
    if k > 0 {
        lemma_with_thumbs_adds(s, k - 1);
        lemma_with_thumbs_keeps(s, k - 1);
        let t = s.with_thumbs(k - 1);
        let u = s.with_thumbs(k);
        assert(u.actions.take(s.actions.len() as int) =~= t.actions.take(s.actions.len() as int));
        assert forall|m: int| s.actions.len() <= m < u.actions.len() implies thumb_request(
            s,
            #[trigger] u.actions[m],
        ) by {
            if m < t.actions.len() {
                assert(u.actions[m] == t.actions[m]);
            } else {
                let idx = s.review.items[k - 1];
                assert(s.review.items.contains(idx));
                assert(u.actions[m] == (Action::Request { idx, kind: JobKind::Thumb, urgent: true }));
            }
        }
    } else {
        assert(s.actions.take(s.actions.len() as int) =~= s.actions);
    }
}

/// A missing thumbnail of a review item is asked for, urgently.
spec fn thumb_request(s: AppView, a: Action) -> bool {
    a matches Action::Request { idx, kind, urgent } && kind == JobKind::Thumb && urgent
        && s.review.items.contains(idx) && !s.thumbs[idx as int] && s.errors[idx as int] is None
}

/// Scheduling tells the loader what is on the screen, and then asks for what is missing and can be
/// decoded, as far as is known, and for nothing else: the full image of the current shot while
/// peeking, screen-fit images around the cursor, the current one urgently, and while reviewing the
/// thumbnails of the items. What was to be done before is still to be done.
pub proof fn law_schedule_asks_for_what_is_missing(s: AppView, m: int)
    requires
        s.valid(),
        0 <= m,
    ensures
        s.scheduled().actions.len() > s.actions.len(),
        m < s.actions.len() ==> s.scheduled().actions[m] == s.actions[m],
        m == s.actions.len() ==> s.scheduled().actions[m] == (Action::SetCurrent {
            idx: s.cursor,
            peeking: s.mode == Mode::Peek,
        }),
        s.actions.len() < m < s.scheduled().actions.len() ==> (s.scheduled().actions[m] matches Action::Request {
            idx,
            kind,
            urgent,
        } && s.errors[idx as int] is None && match kind {
            JobKind::Full => s.mode == Mode::Peek && idx == s.cursor && urgent && (s.full is None
                || s.full != Some(s.cursor)),
            JobKind::Fit => distance(s, idx) <= 3 && urgent == (idx == s.cursor) && (
            !s.cached[idx as int] || !s.in_window(idx as int)),
            JobKind::Thumb => s.mode == Mode::Review && s.review.items.contains(idx) && urgent
                && !s.thumbs[idx as int],
        }),
{
    reveal(AppView::scheduled);
    let note = Action::SetCurrent { idx: s.cursor, peeking: s.mode is Peek };
    let b = s.noted(note).tidied();
    let a = b.with_full();
    let order = a.order();
    let k = order.len() as int;
    let t = a.with_fits(order, k);
    lemma_with_fits_adds(a, order, k);
    lemma_with_fits_keeps(a, order, k);
    let n = t.review.items.len() as int;
    lemma_with_thumbs_adds(t, n);
    let u = s.scheduled();
    assert(u.actions.take(t.actions.len() as int) =~= t.actions);
    if m < t.actions.len() {
        assert(u.actions[m] == t.actions.take(t.actions.len() as int)[m]);
        if m < a.actions.len() {
            assert(t.actions[m] == t.actions.take(a.actions.len() as int)[m]);
        } else {
            assert(fit_request(a, order, k, t.actions[m]));
            let i = choose|i: int|
                0 <= i < k && t.actions[m] == (Action::Request {
                    idx: #[trigger] order[i],
                    kind: JobKind::Fit,
                    urgent: i == 0,
                }) && a.wants_fit(order[i]);
            assert(a.valid());
            lemma_order_in_range(a);
            lemma_order_part(a, i);
            assert(distance(a, order[i]) == distance(s, order[i]));
        }
    }
}

/// Going somewhere leads there, or to the nearest end: the direction is that of the last move, and
/// all else but the images stays.
pub proof fn law_going_leads_there(s: AppView, idx: int)
    requires
        s.valid(),
    ensures
        ({
            let r = s.gone_to(idx);
            &&& 0 <= idx < s.n() ==> r.cursor == idx
            &&& idx < 0 ==> r.cursor == 0
            &&& idx >= s.n() ==> r.cursor == s.n() - 1
            &&& r.cursor > s.cursor ==> r.forward
            &&& r.cursor < s.cursor ==> !r.forward
            &&& r.cursor == s.cursor ==> r == s
            &&& r.mode == s.mode && r.marked == s.marked && r.review == s.review && r.moving == s.moving
            &&& r.shots == s.shots && r.errors == s.errors && r.thumbs == s.thumbs && r.known
                == s.known
            &&& r.show_help == s.show_help && r.show_meta == s.show_meta
            &&& r.exit_message == s.exit_message && r.dir == s.dir
        }),
{
    let to = clamped(idx, s.n());
    lemma_scheduled_keeps(AppView { forward: to > s.cursor, cursor: to as usize, ..s });
}

/// Marking changes the mark of the current shot alone, and is saved at once. The thumbnail of a
/// marked shot is kept ready where there is one; that of an unmarked one is let go.
pub proof fn law_marking_changes_one_mark(s: AppView, i: int)
    requires
        s.valid(),
        0 <= i < s.n(),
    ensures
        s.toggled().marked.len() == s.marked.len(),
        i == s.cursor ==> s.toggled().marked[i] == !s.marked[i],
        i != s.cursor ==> s.toggled().marked[i] == s.marked[i] && s.toggled().thumbs[i] == s.thumbs[i],
        s.toggled().cursor == s.cursor && s.toggled().mode == s.mode,
        s.toggled().actions.last() == Action::Save,
        !s.toggled().marked[s.cursor as int] ==> !s.toggled().thumbs[s.cursor as int],
        s.toggled().marked[s.cursor as int] && s.ready && s.cached[s.cursor as int]
            ==> s.toggled().thumbs[s.cursor as int] && s.toggled().actions.contains(
            Action::UploadKeptThumb { idx: s.cursor },
        ),
{
    let t = s.toggled();
    if t.marked[s.cursor as int] && s.ready && s.cached[s.cursor as int] {
        assert(t.actions[t.actions.len() - 2] == Action::UploadKeptThumb { idx: s.cursor });
    }
}

/// What comes of a decoded image: it is no longer asked for; a failure is noted with its reason, and
/// needs no window; else, with a window, a screen-fit image is kept if it is near, and its thumbnail if
/// the shot is marked and has none; a full image is kept if it is that of the shot that is peeked at;
/// a thumbnail if the shot is marked. Other shots are not touched.
pub proof fn law_arrivals(s: AppView, idx: usize, kind: JobKind, e: String, i: int)
    requires
        s.valid(),
        idx < s.n(),
        0 <= i < s.n(),
    ensures
        ({
            let failed = s.received(idx, kind, Arrived::Failed(e));
            let fit = s.received(idx, JobKind::Fit, Arrived::Fit);
            let full = s.received(idx, JobKind::Full, Arrived::Full);
            let thumb = s.received(idx, JobKind::Thumb, Arrived::Thumb);
            &&& !failed.pending(kind)[idx as int]
            &&& failed.errors[idx as int] == Some(e@)
            &&& i != idx ==> failed.errors[i] == s.errors[i] && failed.pending(kind)[i] == s.pending(
                kind,
            )[i]
            &&& failed.cached == s.cached && failed.actions == s.actions
            &&& !fit.pending_fit[idx as int]
            &&& fit.errors == s.errors
            &&& s.ready ==> fit.known[idx as int] && fit.cached[idx as int] == (s.cached[idx as int]
                || s.in_window(idx as int)) && fit.thumbs[idx as int] == (s.thumbs[idx as int]
                || s.marked[idx as int])
            &&& s.ready && s.in_window(idx as int) ==> fit.actions.last() == (Action::UploadFit { idx })
            &&& s.ready && s.marked[idx as int] && !s.thumbs[idx as int] ==> fit.actions.contains(
                Action::UploadThumb { idx },
            )
            &&& !s.ready ==> fit.cached == s.cached && fit.known == s.known && fit.actions == s.actions
            &&& i != idx ==> fit.cached[i] == s.cached[i] && fit.known[i] == s.known[i]
                && fit.thumbs[i] == s.thumbs[i]
            &&& !full.pending_full[idx as int]
            &&& full.full == (if s.ready && idx == s.cursor && s.mode == Mode::Peek {
                Some(idx)
            } else {
                s.full
            })
            &&& full.cached == s.cached && full.thumbs == s.thumbs
            &&& !thumb.pending_thumb[idx as int]
            &&& thumb.thumbs[idx as int] == (s.thumbs[idx as int] || (s.ready
                && s.marked[idx as int]))
            &&& s.ready && s.marked[idx as int] ==> thumb.actions == s.actions.push(
                Action::UploadThumb { idx },
            )
            &&& i != idx ==> thumb.thumbs[i] == s.thumbs[i]
        }),
{
    let fit = s.received(idx, JobKind::Fit, Arrived::Fit);
    if s.ready && s.marked[idx as int] && !s.thumbs[idx as int] {
        assert(fit.actions[s.actions.len() as int] == Action::UploadThumb { idx });
    }
}

/// The review starts on the first marked shot from the current one on, or on the first of all where
/// none is left.
pub proof fn law_review_starts_near(s: AppView)
    requires
        s.valid(),
        places(s.marked, s.n()).len() > 0,
    ensures
        ({
            let r = s.reviewing().review;
            &&& s.reviewing().mode == Mode::Review
            &&& r.sel < r.items.len()
            &&& r.items[r.sel as int] >= s.cursor ==> forall|j: int|
                0 <= j < r.sel ==> (#[trigger] r.items[j]) < s.cursor
            &&& r.items[r.sel as int] < s.cursor ==> r.sel == 0 && forall|j: int|
                0 <= j < r.items.len() ==> (#[trigger] r.items[j]) < s.cursor
            &&& s.reviewing().cursor == s.cursor && s.reviewing().marked == s.marked
        }),
{
    let items = places(s.marked, s.n());
    lemma_first_from(items, s.cursor, 0);
    lemma_places_len(s.marked, s.n());
    let sel = first_from(items, s.cursor, 0) as usize;
    lemma_scheduled_keeps(
        AppView {
            review: ReviewView { items, keep: all(items.len(), false), sel },
            mode: Mode::Review,
            ..s
        }.noted(Action::ShowSelected { fresh: true }),
    );
}

proof fn lemma_places_len(m: Seq<bool>, k: int)
    ensures
        k >= 0 ==> places(m, k).len() <= k,
    decreases k,
{
    if k > 0 {
        lemma_places_len(m, k - 1);
    }
}

proof fn lemma_first_from(items: Seq<usize>, least: usize, k: int)
    requires
        0 <= k <= items.len(),
        items.len() > 0,
    ensures
        ({
            let r = first_from(items, least, k);
            &&& 0 <= r < items.len()
            &&& (r >= k && items[r] >= least && forall|j: int| k <= j < r ==> (#[trigger] items[j])
                < least) || (r == 0 && forall|j: int|
                k <= j < items.len() ==> (#[trigger] items[j]) < least)
        }),
    decreases items.len() - k,
{
    if k < items.len() && items[k] < least {
        lemma_first_from(items, least, k + 1);
    }
}

/// With no marks there is nothing to review: the state is saved, and what is left is offered to be
/// moved.
pub proof fn law_nothing_marked_offers_the_move(s: AppView)
    requires
        s.valid(),
        forall|i: int| 0 <= i < s.n() ==> !(#[trigger] s.marked[i]),
    ensures
        s.reviewing() == (AppView {
            actions: s.actions.push(Action::Save).push(Action::OfferMove),
            ..s
        }),
{
    lemma_no_places(s.marked, s.n());
}

proof fn lemma_no_places(m: Seq<bool>, k: int)
    requires
        k <= m.len(),
        forall|i: int| 0 <= i < m.len() ==> !(#[trigger] m[i]),
    ensures
        places(m, k).len() == 0,
    decreases k,
{
    if k > 0 {
        lemma_no_places(m, k - 1);
    }
}

/// Moving the selection leads to that item, or to the nearest end; nothing else changes.
pub proof fn law_selection_moves(s: AppView, delta: int)
    requires
        s.valid(),
        0 < s.review.items.len() <= usize::MAX,
    ensures
        ({
            let r = s.selected(delta);
            let to = s.review.sel + delta;
            let n = s.review.items.len();
            &&& 0 <= to < n ==> r.review.sel == to
            &&& to < 0 ==> r.review.sel == 0
            &&& to >= n ==> r.review.sel == n - 1
            &&& r.review.items == s.review.items && r.review.keep == s.review.keep
            &&& r == (AppView {
                review: ReviewView { sel: r.review.sel, ..s.review },
                actions: s.actions.push(Action::ShowSelected { fresh: false }),
                ..s
            })
        }),
{
}

/// Keeping an item is taken back by choosing it again, and touches no other.
pub proof fn law_keep_twice(s: AppView, i: int, j: int)
    requires
        s.valid(),
        0 <= i < s.review.items.len(),
        0 <= j < s.review.items.len(),
    ensures
        s.kept(i).review.keep[i] == !s.review.keep[i],
        i != j ==> s.kept(i).review.keep[j] == s.review.keep[j],
        s.kept(i).kept(i).review.keep == s.review.keep,
        s.kept(i).marked == s.marked && s.kept(i).actions == s.actions && s.kept(i).mode == s.mode,
{
    assert(s.kept(i).kept(i).review.keep =~= s.review.keep);
}

/// Confirming sends the doomed shots to the trash, and nothing is done yet; where everything was kept
/// it only goes back.
pub proof fn law_confirming(s: AppView)
    requires
        s.valid(),
    ensures
        (exists|k: int| 0 <= k < s.review.items.len() && !(#[trigger] s.review.keep[k]))
            ==> s.confirmed() == (AppView { actions: s.actions.push(Action::Trash), ..s }),
        (forall|k: int| 0 <= k < s.review.items.len() ==> #[trigger] s.review.keep[k])
            ==> s.confirmed() == s.reviewed() && s.confirmed().mode == Mode::Browse,
{
    let n = s.review.items.len() as int;
    if exists|k: int| 0 <= k < n && !(#[trigger] s.review.keep[k]) {
        let k = choose|k: int| 0 <= k < n && !(#[trigger] s.review.keep[k]);
        lemma_unflagged_some(s.review.items, s.review.keep, n, k);
    } else {
        lemma_unflagged_none(s.review.items, s.review.keep, n);
        lemma_scheduled_keeps(
            AppView {
                mode: Mode::Browse,
                ..AppView {
                    marked: s.unmarked(s.marked, n),
                    thumbs: s.unmarked(s.thumbs, n),
                    ..s
                }.noted(Action::Save)
            },
        );
    }
}

proof fn lemma_unflagged_some(items: Seq<usize>, flags: Seq<bool>, n: int, k: int)
    requires
        0 <= k < n <= items.len(),
        !flags[k],
    ensures
        unflagged(items, flags, n).len() > 0,
    decreases n,
{
    if k < n - 1 {
        lemma_unflagged_some(items, flags, n - 1, k);
    }
}

proof fn lemma_unflagged_none(items: Seq<usize>, flags: Seq<bool>, n: int)
    requires
        n <= items.len(),
        forall|k: int| 0 <= k < n ==> #[trigger] flags[k],
    ensures
        unflagged(items, flags, n).len() == 0,
    decreases n,
{
    if n > 0 {
        lemma_unflagged_none(items, flags, n - 1);
    }
}

/// When all files went to the trash the saved state is removed and what is left is offered to be moved;
/// when some did not, the marks are saved and the program ends. Either way it is said what was done.
pub proof fn law_after_the_trash(s: AppView, r: delete::ReportView, here: Seq<bool>)
    ensures
        r.failures.len() == 0 ==> s.trashed(r, here) == (AppView {
            exit_message: Some(
                "cull: moved "@ + decimal_of(r.shots) + " shot(s), "@ + decimal_of(r.files)
                    + " file(s) to Trash."@,
            ),
            actions: s.actions.push(Action::RemoveState).push(Action::OfferMove),
            ..s
        }),
        r.failures.len() > 0 ==> s.trashed(r, here).actions == s.actions.push(Action::Save).push(
            Action::Exit,
        ) && s.trashed(r, here).exit_message == Some(
            "cull: moved "@ + decimal_of(r.shots) + " shot(s), "@ + decimal_of(r.files)
                + " file(s) to Trash."@ + "\ncull: "@ + decimal_of(r.failures.len())
                + " file(s) could not be moved:"@ + failure_lines(r.failures),
        ),
{
}

/// Failures are listed one on a line, with the file and its error, in their order.
pub proof fn law_failures_are_listed(
    f: Seq<(Seq<char>, Seq<char>)>,
    file: Seq<char>,
    error: Seq<char>,
)
    ensures
        failure_lines(f.push((file, error))) == failure_lines(f) + "\n  "@ + file + ": "@ + error,
        failure_lines(Seq::empty()) == Seq::<char>::empty(),
{
    assert(f.push((file, error)).drop_last() =~= f);
}

/// With nothing left the program ends; else the move screen opens with the suggested folder to be
/// edited, nothing being moved yet.
pub proof fn law_offer_of_the_move(s: AppView, files: nat, shots: nat, suggestion: Seq<char>)
    ensures
        files == 0 ==> s.offered(files, shots, suggestion) == (AppView {
            actions: s.actions.push(Action::Exit),
            ..s
        }),
        files > 0 ==> ({
            let r = s.offered(files, shots, suggestion);
            &&& r.mode == Mode::Move
            &&& r.moving.files == files && r.moving.shots == shots && r.moving.done == 0
            &&& r.moving.path.text == suggestion
            &&& !r.moving.running && !r.moving.stopping && !r.show_help
            &&& r.marked == s.marked && r.exit_message == s.exit_message
            &&& r.actions == s.actions.push(Action::Redraw)
        }),
{
}

/// Leaving: on the move screen a running move is asked to stop and the program goes on until it has;
/// otherwise it ends, and on the other screens it saves first.
pub proof fn law_leaving(s: AppView)
    ensures
        s.mode == Mode::Move && s.moving.running ==> s.quitting().moving.stopping
            && s.quitting().moving.running && s.quitting().actions == s.actions.push(
            Action::CancelMove,
        ),
        s.mode == Mode::Move && !s.moving.running ==> s.quitting() == (AppView {
            actions: s.actions.push(Action::Exit),
            ..s
        }),
        s.mode != Mode::Move ==> s.quitting() == (AppView {
            actions: s.actions.push(Action::Save).push(Action::Exit),
            ..s
        }),
{
}

/// Files are moved only to a folder that was typed: blanks alone are none.
pub proof fn law_moving_needs_a_folder(s: AppView)
    ensures
        trim_of(s.moving.path.text).len() > 0 ==> s.starting_move() == (AppView {
            actions: s.actions.push(Action::StartMove),
            ..s
        }),
        trim_of(s.moving.path.text).len() == 0 ==> s.starting_move() == s,
        s.typed() == trim_of(s.moving.path.text),
{
}

/// When the move has ended the program ends, and the saved state is removed only if every file was
/// moved. What was said before is said first.
pub proof fn law_after_the_move(s: AppView, r: relocate::ReportView, home: Option<Seq<char>>)
    ensures
        r.failures.len() == 0 && !r.cancelled ==> s.moved(r, home).actions == s.actions.push(
            Action::RemoveState,
        ).push(Action::Exit),
        r.failures.len() > 0 || r.cancelled ==> s.moved(r, home).actions == s.actions.push(
            Action::Exit,
        ),
        s.moved(r, home).exit_message == Some(
            (match s.exit_message {
                Some(m) => m + "\n"@,
                None => Seq::empty(),
            }) + "cull: moved "@ + decimal_of(r.files) + " file(s) to "@ + abbreviate_of(
                s.moving.dest,
                home,
            ) + "."@ + (if r.cancelled {
                "\ncull: stopped early; the rest are still in "@ + s.dir + "."@
            } else {
                Seq::empty()
            }) + (if r.failures.len() > 0 {
                "\ncull: "@ + decimal_of(r.failures.len()) + " problem(s) moving files:"@
                    + failure_lines(r.failures)
            } else {
                Seq::empty()
            }),
        ),
{
}

/// A session starts browsing, with the saved marks and at the saved shot where it is still there, and
/// at the first one otherwise. Marks of shots that are gone are forgotten.
pub proof fn law_start(dir: Seq<char>, shots: Seq<ShotView>, saved: StateView, i: int)
    requires
        0 <= i < shots.len() <= usize::MAX,
    ensures
        ({
            let s = started(dir, shots, saved);
            &&& s.mode == Mode::Browse
            &&& s.forward
            &&& s.shots == shots && s.dir == dir
            &&& s.marked.len() == shots.len()
            &&& s.marked[i] == saved.marked.contains(shots[i].stem)
            &&& s.cursor < shots.len()
            &&& saved.cursor == Some(shots[s.cursor as int].stem) || s.cursor == 0
            &&& saved.cursor == Some(shots[i].stem) ==> shots[s.cursor as int].stem == shots[i].stem
            &&& !s.show_help && !s.show_meta && !s.ready && s.actions.len() == 0 && s.exit_message
                is None
            &&& !s.cached[i] && s.errors[i] is None && !s.thumbs[i]
        }),
{
    if let Some(stem) = saved.cursor {
        lemma_stem_found(shots, stem, 0);
    }
}

proof fn lemma_stem_found(shots: Seq<ShotView>, stem: Seq<char>, i: int)
    requires
        0 <= i <= shots.len(),
    ensures
        match find_stem(shots, stem, i) {
            Some(k) => i <= k < shots.len() && shots[k].stem == stem,
            None => forall|k: int| i <= k < shots.len() ==> (#[trigger] shots[k]).stem != stem,
        },
    decreases shots.len() - i,
{
    if i < shots.len() && shots[i].stem != stem {
        lemma_stem_found(shots, stem, i + 1);
    }
}

/// What is saved: the stems of the marked shots and of the current one, and the version 1.
pub proof fn law_saved_are_the_marked(s: AppView, i: int)
    requires
        s.valid(),
        0 <= i < s.n(),
    ensures
        s.state().version == 1,
        s.state().cursor == Some(s.shots[s.cursor as int].stem),
        s.marked[i] ==> s.state().marked.contains(s.shots[i].stem),
        forall|x: Seq<char>| #[trigger]
            s.state().marked.contains(x) ==> exists|k: int|
                0 <= k < s.n() && s.marked[k] && (#[trigger] s.shots[k]).stem == x,
{
    lemma_saved_stems(s.shots, s.marked, s.n());
}

proof fn lemma_saved_stems(shots: Seq<ShotView>, marked: Seq<bool>, n: int)
    requires
        0 <= n <= shots.len(),
        marked.len() == shots.len(),
    ensures
        forall|i: int|
            0 <= i < n && marked[i] ==> marked_stems(shots, marked, n).contains(
                (#[trigger] shots[i]).stem,
            ),
        forall|x: Seq<char>| #[trigger]
            marked_stems(shots, marked, n).contains(x) ==> exists|k: int|
                0 <= k < n && marked[k] && (#[trigger] shots[k]).stem == x,
    decreases n,
{
    if n > 0 {
        lemma_saved_stems(shots, marked, n - 1);
        let before = marked_stems(shots, marked, n - 1);
        let now = marked_stems(shots, marked, n);
        assert forall|i: int| 0 <= i < n && marked[i] implies now.contains((#[trigger] shots[i]).stem) by {
            if i < n - 1 {
                let j = choose|j: int| 0 <= j < before.len() && before[j] == shots[i].stem;
                assert(now[j] == shots[i].stem);
            } else {
                assert(now[before.len() as int] == shots[i].stem);
            }
        }
        assert forall|x: Seq<char>| #[trigger] now.contains(x) implies exists|k: int|
            0 <= k < n && marked[k] && (#[trigger] shots[k]).stem == x by {
            let j = choose|j: int| 0 <= j < now.len() && now[j] == x;
            if j < before.len() {
                assert(before[j] == x);
                assert(before.contains(x));
                let k = choose|k: int| 0 <= k < n - 1 && marked[k] && (#[trigger] shots[k]).stem == x;
                assert(shots[k].stem == x);
            } else {
                assert(shots[n - 1].stem == x);
            }
        }
    }
}

/// Scheduling keeps a state valid.
pub proof fn lemma_scheduled_valid(s: AppView)
    requires
        s.valid(),
    ensures
        s.scheduled().valid(),
{
    reveal(AppView::scheduled);
    lemma_scheduled_keeps(s);
    let a = s.noted(
        Action::SetCurrent { idx: s.cursor, peeking: s.mode is Peek },
    ).tidied().with_full();
    assert(a.valid());
    let order = a.order();
    lemma_order_in_range(a);
    lemma_with_fits_keeps(a, order, order.len() as int);
    lemma_pending_len(a, order, order.len() as int);
    let t = a.with_fits(order, order.len() as int);
    assert(t.valid());
    lemma_with_thumbs_keeps(t, t.review.items.len() as int);
    lemma_thumbs_len(t, t.review.items.len() as int);
}

/// Going back from the review leads to browsing.
pub proof fn lemma_reviewed_mode(s: AppView)
    ensures
        s.reviewed().mode == Mode::Browse,
        s.reviewed().cursor == s.cursor,
{
    let k = s.review.items.len() as int;
    lemma_scheduled_keeps(
        AppView {
            mode: Mode::Browse,
            ..AppView {
                marked: s.unmarked(s.marked, k),
                thumbs: s.unmarked(s.thumbs, k),
                ..s
            }.noted(Action::Save)
        },
    );
}

/// Something to do is added behind what is to be done, and nothing else changes.
pub proof fn law_noted(s: AppView, a: Action)
    ensures
        s.noted(a) == (AppView { actions: s.actions.push(a), ..s }),
{
}

/// Going to another shot schedules from there; turning to the full size schedules while peeking.
pub proof fn law_going_and_peeking_schedule(s: AppView, idx: int)
    requires
        s.valid(),
    ensures
        0 <= idx < s.n() && idx != s.cursor ==> s.gone_to(idx) == (AppView {
            cursor: idx as usize,
            forward: idx > s.cursor,
            ..s
        }.scheduled()),
        idx == s.cursor ==> s.gone_to(idx) == s,
        s.peeking() == (AppView { mode: Mode::Peek, ..s }.scheduled()),
        s.peeking().cursor == s.cursor && s.peeking().marked == s.marked,
{
    lemma_scheduled_keeps(AppView { mode: Mode::Peek, ..s });
}

/// Going beyond an end is going to it.
pub proof fn law_going_beyond_the_ends(s: AppView, idx: int)
    requires
        s.valid(),
    ensures
        idx < 0 ==> s.gone_to(idx) == s.gone_to(0),
        idx >= s.n() ==> s.gone_to(idx) == s.gone_to(s.n() - 1),
{
}

/// All that marking and unmarking does: the mark, the thumbnail that is needed or not, and saving.
pub proof fn law_marking_in_full(s: AppView)
    requires
        s.valid(),
    ensures
        ({
            let c = s.cursor as int;
            &&& s.marked[c] ==> s.toggled() == (AppView {
                marked: s.marked.update(c, false),
                thumbs: s.thumbs.update(c, false),
                actions: s.actions.push(Action::Save),
                ..s
            })
            &&& !s.marked[c] && s.ready && s.cached[c] ==> s.toggled() == (AppView {
                marked: s.marked.update(c, true),
                thumbs: s.thumbs.update(c, true),
                actions: s.actions.push(Action::UploadKeptThumb { idx: s.cursor }).push(Action::Save),
                ..s
            })
            &&& !s.marked[c] && !(s.ready && s.cached[c]) ==> s.toggled() == (AppView {
                marked: s.marked.update(c, true),
                actions: s.actions.push(Action::Save),
                ..s
            })
        }),
{
}

/// Each kind of image is asked for on its own, once: where it was not asked for yet, that is noted
/// and to be done.
pub proof fn law_asking_for_images(s: AppView, idx: usize, urgent: bool)
    requires
        s.valid(),
        idx < s.n(),
    ensures
        ({
            let i = idx as int;
            let fit = s.actions.push(Action::Request { idx, kind: JobKind::Fit, urgent });
            let full = s.actions.push(Action::Request { idx, kind: JobKind::Full, urgent });
            let thumb = s.actions.push(Action::Request { idx, kind: JobKind::Thumb, urgent });
            &&& s.pending_fit[i] ==> s.requested(idx, JobKind::Fit, urgent) == s
            &&& s.pending_full[i] ==> s.requested(idx, JobKind::Full, urgent) == s
            &&& s.pending_thumb[i] ==> s.requested(idx, JobKind::Thumb, urgent) == s
            &&& !s.pending_fit[i] ==> s.requested(idx, JobKind::Fit, urgent) == (AppView {
                pending_fit: s.pending_fit.update(i, true),
                actions: fit,
                ..s
            })
            &&& !s.pending_full[i] ==> s.requested(idx, JobKind::Full, urgent) == (AppView {
                pending_full: s.pending_full.update(i, true),
                actions: full,
                ..s
            })
            &&& !s.pending_thumb[i] ==> s.requested(idx, JobKind::Thumb, urgent) == (AppView {
                pending_thumb: s.pending_thumb.update(i, true),
                actions: thumb,
                ..s
            })
        }),
{
}

/// What comes in is no longer asked for, of its own kind, and that is all where it is of no use:
/// where the job was skipped, where there is no window, or where nothing needs the image any more.
pub proof fn law_arrivals_of_no_use(s: AppView, idx: usize)
    requires
        s.valid(),
        idx < s.n(),
    ensures
        ({
            let i = idx as int;
            let fit = AppView { pending_fit: s.pending_fit.update(i, false), ..s };
            let full = AppView { pending_full: s.pending_full.update(i, false), ..s };
            let thumb = AppView { pending_thumb: s.pending_thumb.update(i, false), ..s };
            &&& s.received(idx, JobKind::Fit, Arrived::Skipped) == fit
            &&& s.received(idx, JobKind::Full, Arrived::Skipped) == full
            &&& s.received(idx, JobKind::Thumb, Arrived::Skipped) == thumb
            &&& !s.ready ==> s.received(idx, JobKind::Fit, Arrived::Fit) == fit
            &&& !(s.ready && idx == s.cursor && s.mode == Mode::Peek) ==> s.received(
                idx,
                JobKind::Full,
                Arrived::Full,
            ) == full
            &&& !(s.ready && s.marked[i]) ==> s.received(idx, JobKind::Thumb, Arrived::Thumb) == thumb
        }),
{
}

/// All that an image of use does when it comes in.
pub proof fn law_arrivals_in_full(s: AppView, idx: usize, e: String)
    requires
        s.valid(),
        idx < s.n(),
        s.ready,
    ensures
        ({
            let i = idx as int;
            let fit = AppView {
                pending_fit: s.pending_fit.update(i, false),
                known: s.known.update(i, true),
                ..s
            };
            let needs = s.marked[i] && !s.thumbs[i];
            let near = s.in_window(i);
            let r = s.received(idx, JobKind::Fit, Arrived::Fit);
            &&& !needs && !near ==> r == fit
            &&& !needs && near ==> r == (AppView {
                cached: s.cached.update(i, true),
                actions: s.actions.push(Action::UploadFit { idx }),
                ..fit
            })
            &&& needs && !near ==> r == (AppView {
                thumbs: s.thumbs.update(i, true),
                actions: s.actions.push(Action::UploadThumb { idx }),
                ..fit
            })
            &&& needs && near ==> r == (AppView {
                thumbs: s.thumbs.update(i, true),
                cached: s.cached.update(i, true),
                actions: s.actions.push(Action::UploadThumb { idx }).push(Action::UploadFit { idx }),
                ..fit
            })
            &&& idx == s.cursor && s.mode == Mode::Peek ==> s.received(
                idx,
                JobKind::Full,
                Arrived::Full,
            ) == (AppView {
                pending_full: s.pending_full.update(i, false),
                full: Some(idx),
                actions: s.actions.push(Action::UploadFull { idx }),
                ..s
            })
            &&& s.marked[i] ==> s.received(idx, JobKind::Thumb, Arrived::Thumb) == (AppView {
                pending_thumb: s.pending_thumb.update(i, false),
                thumbs: s.thumbs.update(i, true),
                actions: s.actions.push(Action::UploadThumb { idx }),
                ..s
            })
        }),
{
}

/// A failure is noted with its reason, whatever was asked for.
pub proof fn law_failures_are_noted(s: AppView, idx: usize, e: String)
    requires
        s.valid(),
        idx < s.n(),
    ensures
        ({
            let i = idx as int;
            let errors = s.errors.update(i, Some(e@));
            &&& s.received(idx, JobKind::Fit, Arrived::Failed(e)) == (AppView {
                pending_fit: s.pending_fit.update(i, false),
                errors,
                ..s
            })
            &&& s.received(idx, JobKind::Full, Arrived::Failed(e)) == (AppView {
                pending_full: s.pending_full.update(i, false),
                errors,
                ..s
            })
            &&& s.received(idx, JobKind::Thumb, Arrived::Failed(e)) == (AppView {
                pending_thumb: s.pending_thumb.update(i, false),
                errors,
                ..s
            })
        }),
{
}

/// Images that are near stay, and so does the full image of the current shot.
pub proof fn law_near_images_stay(s: AppView, i: int)
    requires
        s.valid(),
        0 <= i < s.n(),
    ensures
        s.cached[i] && s.in_window(i) ==> s.scheduled().cached[i],
        s.full == Some(s.cursor) ==> s.scheduled().full == Some(s.cursor),
{
    lemma_scheduled_keeps(s);
}

/// Scheduling asks for the full image while peeking, where it is missing and can be decoded.
pub proof fn law_full_image_is_asked_for(s: AppView)
    requires
        s.valid(),
        s.mode == Mode::Peek,
        s.errors[s.cursor as int] is None,
    ensures
        s.scheduled().full == Some(s.cursor) || s.scheduled().pending_full[s.cursor as int],
{
    reveal(AppView::scheduled);
    lemma_scheduled_keeps(s);
    let a = s.noted(
        Action::SetCurrent { idx: s.cursor, peeking: s.mode is Peek },
    ).tidied().with_full();
    let order = a.order();
    lemma_fits_leave_full(a, order, order.len() as int);
}

proof fn lemma_fits_leave_full(s: AppView, order: Seq<usize>, k: int)
    ensures
        s.with_fits(order, k).pending_full == s.pending_full,
        s.with_fits(order, k).pending_thumb == s.pending_thumb,
    decreases k,
{
    if k > 0 {
        lemma_fits_leave_full(s, order, k - 1);
    }
}

proof fn lemma_item_asked_for(s: AppView, k: int, j: int)
    requires
        s.valid(),
        0 <= j < k <= s.review.items.len(),
        s.errors[s.review.items[j] as int] is None,
    ensures
        s.thumbs[s.review.items[j] as int] || s.with_thumbs(k).pending_thumb[s.review.items[j] as int],
        s.with_thumbs(k).pending_thumb.len() == s.pending_thumb.len(),
    decreases k,
{
    lemma_with_thumbs_keeps(s, k - 1);
    lemma_thumbs_len(s, k - 1);
    reveal(ordered_items);
    assert(s.review.items[j] < s.n());
    assert(s.review.items[k - 1] < s.n());
    if j < k - 1 {
        lemma_item_asked_for(s, k - 1, j);
    }
}

/// While reviewing, every thumbnail of an item that is missing and can be decoded has been asked for.
pub proof fn law_thumbnails_are_asked_for(s: AppView, j: int)
    requires
        s.valid(),
        s.mode == Mode::Review,
        0 <= j < s.review.items.len(),
        s.errors[s.review.items[j] as int] is None,
    ensures
        s.thumbs[s.review.items[j] as int] || s.scheduled().pending_thumb[s.review.items[j] as int],
{
    reveal(AppView::scheduled);
    let a = s.noted(
        Action::SetCurrent { idx: s.cursor, peeking: s.mode is Peek },
    ).tidied().with_full();
    assert(a.valid());
    let order = a.order();
    lemma_order_in_range(a);
    lemma_with_fits_keeps(a, order, order.len() as int);
    lemma_pending_len(a, order, order.len() as int);
    let t = a.with_fits(order, order.len() as int);
    assert(t.valid());
    lemma_item_asked_for(t, t.review.items.len() as int, j);
}

/// The review starts with nothing kept, and is shown from there.
pub proof fn law_review_starts_afresh(s: AppView, j: int)
    requires
        s.valid(),
        places(s.marked, s.n()).len() > 0,
    ensures
        ({
            let r = s.reviewing();
            &&& r.review.keep.len() == r.review.items.len()
            &&& 0 <= j < r.review.keep.len() ==> !r.review.keep[j]
            &&& r.actions.len() > s.actions.len() + 1
            &&& r.actions[s.actions.len() as int] == (Action::ShowSelected { fresh: true })
            &&& r.actions[s.actions.len() as int + 1] == (Action::SetCurrent {
                idx: s.cursor,
                peeking: false,
            })
        }),
{
    let items = places(s.marked, s.n());
    lemma_first_from(items, s.cursor, 0);
    lemma_places_len(s.marked, s.n());
    lemma_places(s.marked, s.n());
    let sel = first_from(items, s.cursor, 0) as usize;
    let t = AppView {
        review: ReviewView { items, keep: all(items.len(), false), sel },
        mode: Mode::Review,
        ..s
    }.noted(Action::ShowSelected { fresh: true });
    assert(ordered_items(items, s.n())) by {
        reveal(ordered_items);
    }
    assert(t.valid());
    lemma_scheduled_keeps(t);
    law_schedule_asks_for_what_is_missing(t, s.actions.len() as int);
    law_schedule_asks_for_what_is_missing(t, s.actions.len() as int + 1);
}

/// Going back from the review saves, and schedules for browsing. The thumbnails of what was kept are
/// let go.
pub proof fn law_going_back_saves(s: AppView, i: int)
    requires
        s.valid(),
        0 <= i < s.n(),
    ensures
        s.reviewed().actions.len() > s.actions.len() + 1,
        s.reviewed().actions[s.actions.len() as int] == Action::Save,
        s.reviewed().actions[s.actions.len() as int + 1] == (Action::SetCurrent {
            idx: s.cursor,
            peeking: false,
        }),
        s.reviewed().thumbs[i] == (s.thumbs[i] && !exists|j: int|
            0 <= j < s.review.items.len() && #[trigger] s.review.items[j] == i
                && s.review.keep[j]),
        s.reviewed().show_help == s.show_help && s.reviewed().show_meta == s.show_meta,
{
    let k = s.review.items.len() as int;
    lemma_unmarked(s, s.marked, k, i);
    lemma_unmarked(s, s.thumbs, k, i);
    let t = AppView {
        mode: Mode::Browse,
        ..AppView {
            marked: s.unmarked(s.marked, k),
            thumbs: s.unmarked(s.thumbs, k),
            ..s
        }.noted(Action::Save)
    };
    assert(t.valid());
    lemma_scheduled_keeps(t);
    law_schedule_asks_for_what_is_missing(t, s.actions.len() as int);
    law_schedule_asks_for_what_is_missing(t, s.actions.len() as int + 1);
}

/// Choosing to keep an item touches that choice alone.
pub proof fn law_keeping_in_full(s: AppView, i: int)
    requires
        0 <= i < s.review.keep.len(),
    ensures
        s.kept(i) == (AppView {
            review: ReviewView {
                items: s.review.items,
                keep: s.review.keep.update(i, !s.review.keep[i]),
                sel: s.review.sel,
            },
            ..s
        }),
{
}

/// The doomed come in the order of the review.
pub proof fn law_doomed_in_order(items: Seq<usize>, flags: Seq<bool>, k: int)
    requires
        0 <= k < items.len(),
        flags.len() == items.len(),
    ensures
        unflagged(items, flags, 0) == Seq::<usize>::empty(),
        flags[k] ==> unflagged(items, flags, k + 1) == unflagged(items, flags, k),
        !flags[k] ==> unflagged(items, flags, k + 1) == unflagged(items, flags, k).push(items[k]),
{
}

/// Marks are counted one by one.
pub proof fn law_marks_are_counted(m: Seq<bool>, b: bool)
    ensures
        count(Seq::<bool>::empty()) == 0,
        b ==> count(m.push(b)) == count(m) + 1,
        !b ==> count(m.push(b)) == count(m),
{
    assert(m.push(b).drop_last() =~= m);
}

/// After a try that left some files nothing changes but the marks of the reviewed shots, what is said
/// and what is to be done.
pub proof fn law_after_a_failed_try(s: AppView, r: delete::ReportView, here: Seq<bool>, i: int)
    requires
        s.valid(),
        r.failures.len() > 0,
        here.len() == s.review.items.len(),
        0 <= i < s.n(),
        !s.review.items.contains(i as usize),
    ensures
        s.trashed(r, here).marked[i] == s.marked[i],
        s.trashed(r, here) == (AppView {
            marked: s.trashed(r, here).marked,
            exit_message: s.trashed(r, here).exit_message,
            actions: s.actions.push(Action::Save).push(Action::Exit),
            ..s
        }),
{
    lemma_retry_others(s, here, s.review.items.len() as int, i);
}

proof fn lemma_retry_others(s: AppView, here: Seq<bool>, n: int, i: int)
    requires
        s.valid(),
        here.len() == s.review.items.len(),
        0 <= n <= s.review.items.len(),
        0 <= i < s.n(),
        !s.review.items.contains(i as usize),
    ensures
        s.retry_marks(here, n).len() == s.marked.len(),
        s.retry_marks(here, n)[i] == s.marked[i],
    decreases n,
{
    reveal(ordered_items);
    if n > 0 {
        lemma_retry_others(s, here, n - 1, i);
        assert(s.review.items[n - 1] < s.n());
        if s.review.items[n - 1] == i {
            assert(s.review.items.contains(i as usize));
        }
    }
}

/// The offered folder is edited in normal mode, with the cursor on its last character.
pub proof fn law_offer_in_full(s: AppView, files: nat, shots: nat, suggestion: Seq<char>)
    requires
        files > 0,
    ensures
        s.offered(files, shots, suggestion) == (AppView {
            moving: MoveView {
                files,
                shots,
                path: Line {
                    text: suggestion,
                    pos: if suggestion.len() > 0 {
                        suggestion.len() - 1
                    } else {
                        0
                    },
                    mode: EditMode::Normal,
                    pending: None,
                },
                dest: Seq::empty(),
                running: false,
                stopping: false,
                done: 0,
            },
            mode: Mode::Move,
            show_help: false,
            actions: s.actions.push(Action::Redraw),
            ..s
        }),
{
}

/// On their way, files go to the given folder until they are there or the move is stopped.
pub proof fn law_on_the_way(s: AppView, dest: Seq<char>)
    ensures
        s.moving_to(dest) == (AppView {
            moving: MoveView {
                files: s.moving.files,
                shots: s.moving.shots,
                path: s.moving.path,
                dest,
                running: true,
                stopping: false,
                done: s.moving.done,
            },
            ..s
        }),
{
}

/// When the move has ended only what is said and what is to be done has changed.
pub proof fn law_end_of_the_move(s: AppView, r: relocate::ReportView, home: Option<Seq<char>>)
    ensures
        s.moved(r, home) == (AppView {
            exit_message: s.moved(r, home).exit_message,
            actions: s.moved(r, home).actions,
            ..s
        }),
        s.mode == Mode::Move && s.moving.running ==> s.quitting() == (AppView {
            moving: MoveView { stopping: true, ..s.moving },
            actions: s.actions.push(Action::CancelMove),
            ..s
        }),
{
}

/// A session starts with nothing held, nothing asked for, nothing reviewed and no move.
pub proof fn law_start_is_blank(dir: Seq<char>, shots: Seq<ShotView>, saved: StateView, i: int)
    requires
        0 <= i < shots.len() <= usize::MAX,
    ensures
        ({
            let s = started(dir, shots, saved);
            &&& !s.pending_fit[i] && !s.pending_full[i] && !s.pending_thumb[i] && !s.known[i]
            &&& s.full is None
            &&& s.review.items.len() == 0 && s.review.keep.len() == 0 && s.review.sel == 0
            &&& !s.dragging
            &&& s.moving.files == 0 && s.moving.shots == 0 && s.moving.done == 0
            &&& !s.moving.running && !s.moving.stopping && s.moving.dest.len() == 0
            &&& s.moving.path.text.len() == 0 && s.moving.path.pos == 0
            &&& s.moving.path.mode == EditMode::Normal && s.moving.path.pending is None
        }),
{
}

} // verus!
