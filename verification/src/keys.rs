//! What the keys do on each screen.
use crate::app::{Action, App, AppView, Mode, MoveView, ReviewView, Toward};
use crate::lineedit::{Line, LineEdit, Mode as EditMode};
use crate::text::{control, is_ctrl, same_text};
use vstd::prelude::*;
use vstd::string::*;

verus! {

/// A key, as the window system reports it.
pub enum Key {
    /// A key that types something.
    Character(String),
    /// A key with a name, such as `Escape`.
    Named(String),
    Other,
}

#[derive(Debug, Clone, Copy, PartialEq, Eq, Structural)]
pub struct Modifiers {
    pub shift: bool,
    pub control: bool,
    pub logo: bool,
}

/// What can be asked for while browsing.
#[derive(Debug, Clone, Copy, PartialEq, Eq, Structural)]
pub enum Browse {
    Back,
    On,
    First,
    Last,
    PageBack,
    PageOn,
    Mark,
    Peek,
    Metadata,
    Leave,
}

/// What can be asked for while peeking.
#[derive(Debug, Clone, Copy, PartialEq, Eq, Structural)]
pub enum Peek {
    Left,
    Right,
    Up,
    Down,
    Mark,
    Metadata,
    On,
    Back,
    Leave,
}

/// What can be asked for while reviewing.
#[derive(Debug, Clone, Copy, PartialEq, Eq, Structural)]
pub enum Choice {
    Back,
    On,
    Up,
    Down,
    PageUp,
    PageDown,
    First,
    Last,
    Keep,
    Confirm,
    Leave,
}

pub const BROWSE_KEYS: [(&'static str, Browse); 19] = [
    ("ArrowLeft", Browse::Back),
    ("ArrowUp", Browse::Back),
    ("h", Browse::Back),
    ("k", Browse::Back),
    ("ArrowRight", Browse::On),
    ("ArrowDown", Browse::On),
    ("l", Browse::On),
    ("j", Browse::On),
    ("Home", Browse::First),
    ("g", Browse::First),
    ("End", Browse::Last),
    ("G", Browse::Last),
    ("PageUp", Browse::PageBack),
    ("PageDown", Browse::PageOn),
    ("Space", Browse::Mark),
    ("f", Browse::Peek),
    ("m", Browse::Metadata),
    ("q", Browse::Leave),
    ("Escape", Browse::Leave),
];

pub const PEEK_KEYS: [(&'static str, Peek); 20] = [
    ("ArrowLeft", Peek::Left),
    ("h", Peek::Left),
    ("H", Peek::Left),
    ("ArrowRight", Peek::Right),
    ("l", Peek::Right),
    ("L", Peek::Right),
    ("ArrowUp", Peek::Up),
    ("k", Peek::Up),
    ("K", Peek::Up),
    ("ArrowDown", Peek::Down),
    ("j", Peek::Down),
    ("J", Peek::Down),
    ("Space", Peek::Mark),
    ("m", Peek::Metadata),
    ("n", Peek::On),
    ("PageDown", Peek::On),
    ("p", Peek::Back),
    ("PageUp", Peek::Back),
    ("f", Peek::Leave),
    ("Escape", Peek::Leave),
];

pub const REVIEW_KEYS: [(&'static str, Choice); 20] = [
    ("ArrowLeft", Choice::Back),
    ("h", Choice::Back),
    ("ArrowRight", Choice::On),
    ("l", Choice::On),
    ("ArrowUp", Choice::Up),
    ("k", Choice::Up),
    ("ArrowDown", Choice::Down),
    ("j", Choice::Down),
    ("PageUp", Choice::PageUp),
    ("PageDown", Choice::PageDown),
    ("Home", Choice::First),
    ("g", Choice::First),
    ("End", Choice::Last),
    ("G", Choice::Last),
    ("Space", Choice::Keep),
    ("y", Choice::Confirm),
    ("Enter", Choice::Confirm),
    ("n", Choice::Leave),
    ("Escape", Choice::Leave),
    ("q", Choice::Leave),
];

/// What a key asks for by a table.
pub open spec fn asked<T>(table: Seq<(&'static str, T)>, key: Seq<char>) -> Option<T>
    decreases table.len(),
{
    if table.len() == 0 {
        None
    } else if table[0].0@ == key {
        Some(table[0].1)
    } else {
        asked(table.drop_first(), key)
    }
}

/// What a key asks for by a table.
fn ask<T: Copy>(table: &[(&'static str, T)], key: &str) -> (r: Option<T>)
    ensures
        r == asked(table@, key@),
{
    let mut i: usize = 0;
    assert(table@.skip(0) =~= table@);
    while i < table.len()
        invariant
            i <= table@.len(),
            asked(table@, key@) == asked(table@.skip(i as int), key@),
        decreases table.len() - i,
    {
        let ghost rest = table@.skip(i as int);
        assert(rest[0] == table@[i as int]);
        if same_text(table[i].0, key) {
            return Some(table[i].1);
        }
        assert(rest.drop_first() =~= table@.skip(i + 1));
        i += 1;
    }
    None
}

/// What of a text can be typed: everything but control characters.
pub open spec fn printable(t: Seq<char>) -> Seq<char>
    decreases t.len(),
{
    if t.len() == 0 {
        Seq::empty()
    } else if control(t.last()) {
        printable(t.drop_last())
    } else {
        printable(t.drop_last()).push(t.last())
    }
}

fn printable_text(t: Option<&str>) -> (r: String)
    ensures
        r@ == (match t {
            Some(s) => printable(s@),
            None => Seq::empty(),
        }),
{
    let mut out = String::new();
    match t {
        Some(s) => {
            let c = crate::text::chars_of(s);
            let mut i: usize = 0;
            assert(s@.take(0) =~= Seq::<char>::empty());
            while i < c.len()
                invariant
                    i <= c@.len(),
                    c@ == s@,
                    out@ == printable(s@.take(i as int)),
                decreases c.len() - i,
            {
                assert(s@.take(i + 1).drop_last() =~= s@.take(i as int));
                if !is_ctrl(c[i]) {
                    out.push(c[i]);
                }
                i += 1;
            }
            assert(s@.take(i as int) =~= s@);
        },
        None => {
            assert(out@ =~= Seq::<char>::empty());
        },
    }
    out
}

/// Whether the key has this name.
pub open spec fn is_named(key: Key, name: Seq<char>) -> bool {
    key matches Key::Named(k) && k@ == name
}

fn named(key: &Key, name: &str) -> (r: bool)
    ensures
        r == is_named(*key, name@),
{
    match key {
        Key::Named(k) => same_text(k.as_str(), name),
        _ => false,
    }
}

pub open spec fn text_option(t: Option<&str>) -> Seq<char> {
    match t {
        Some(s) => printable(s@),
        None => Seq::empty(),
    }
}

impl Line {
    /// The typed folder after a key that edits it.
    pub open spec fn edited(self, key: Key, typed: Seq<char>, plain: bool) -> Line {
        let insert = self.mode == EditMode::Insert;
        if is_named(key, "ArrowLeft"@) {
            self.at(self.left())
        } else if is_named(key, "ArrowRight"@) {
            self.at(self.right()).clamped()
        } else if is_named(key, "Backspace"@) {
            if insert {
                self.backspace()
            } else {
                self.at(self.left())
            }
        } else if !plain {
            self
        } else if insert {
            self.insert(typed)
        } else {
            match key {
                Key::Character(c) => self.command(c@),
                _ => self,
            }
        }
    }
}

impl AppView {
    pub open spec fn with_path(self, path: Line) -> AppView {
        AppView { moving: MoveView { path, ..self.moving }, ..self }
    }

    /// The state after a browse command.
    #[verifier::opaque]
    pub open spec fn browsed(self, c: Browse) -> AppView {
        match c {
            Browse::Back => self.gone_to(self.cursor - 1),
            Browse::On => self.gone_to(self.cursor + 1),
            Browse::First => self.gone_to(0),
            Browse::Last => self.gone_to(self.n() - 1),
            Browse::PageBack => self.gone_to(self.cursor - 10),
            Browse::PageOn => self.gone_to(self.cursor + 10),
            Browse::Mark => self.toggled(),
            Browse::Peek => self.noted(Action::CenterPeek).peeking(),
            Browse::Metadata => AppView { show_meta: !self.show_meta, ..self },
            Browse::Leave => if self.show_help {
                AppView { show_help: false, ..self }
            } else {
                self.reviewing()
            },
        }
    }

    /// The state after a peek command.
    #[verifier::opaque]
    pub open spec fn peeked(self, c: Peek, fast: bool) -> AppView {
        match c {
            Peek::Left => self.noted(Action::Pan { toward: Toward::Left, fast }),
            Peek::Right => self.noted(Action::Pan { toward: Toward::Right, fast }),
            Peek::Up => self.noted(Action::Pan { toward: Toward::Up, fast }),
            Peek::Down => self.noted(Action::Pan { toward: Toward::Down, fast }),
            Peek::Mark => self.toggled(),
            Peek::Metadata => AppView { show_meta: !self.show_meta, ..self },
            Peek::On => self.gone_to(self.cursor + 1),
            Peek::Back => self.gone_to(self.cursor - 1),
            Peek::Leave => AppView { mode: Mode::Browse, ..self }.scheduled(),
        }
    }

    /// The state after a review command, where the grid has `cols` columns.
    #[verifier::opaque]
    pub open spec fn chosen(self, c: Choice, cols: int) -> AppView {
        match c {
            Choice::Back => self.selected(-1),
            Choice::On => self.selected(1),
            Choice::Up => self.selected(-cols),
            Choice::Down => self.selected(cols),
            Choice::PageUp => self.selected(-3 * cols),
            Choice::PageDown => self.selected(3 * cols),
            Choice::First => self.selected(-(self.review.items.len() as int)),
            Choice::Last => self.selected(self.review.items.len() as int),
            Choice::Keep => self.kept(self.review.sel as int),
            Choice::Confirm => self.confirmed(),
            Choice::Leave => self.reviewed(),
        }
    }

    /// What a key does on a screen other than the move screen, if anything.
    pub open spec fn answered(self, key: Seq<char>, fast: bool, cols: int) -> Option<AppView> {
        match self.mode {
            Mode::Browse => match asked(BROWSE_KEYS@, key) {
                Some(c) => Some(self.browsed(c)),
                None => None,
            },
            Mode::Peek => match asked(PEEK_KEYS@, key) {
                Some(c) => Some(self.peeked(c, fast)),
                None => None,
            },
            Mode::Review => match asked(REVIEW_KEYS@, key) {
                Some(c) => Some(self.chosen(c, cols)),
                None => None,
            },
            Mode::Move => None,
        }
    }

    /// The typed folder after an Escape that it takes.
    pub open spec fn escaped(self, typed: Seq<char>, plain: bool) -> AppView {
        let p = self.moving.path.escape();
        self.with_path(
            if plain && self.moving.path.mode == EditMode::Insert {
                p.insert(typed)
            } else {
                p
            },
        )
    }

    /// The state after a key on the move screen, which types `typed`. Escape leaves insert mode
    /// first, and then the screen; while files are moved it is the only key.
    #[verifier::opaque]
    pub open spec fn move_keyed(self, key: Key, typed: Seq<char>, plain: bool) -> AppView {
        if is_named(key, "Escape"@) && (self.moving.running || !self.moving.path.escapes()) {
            self.quitting()
        } else if self.moving.running {
            self
        } else if is_named(key, "Escape"@) {
            self.escaped(typed, plain)
        } else if is_named(key, "Enter"@) {
            self.starting_move()
        } else {
            self.with_path(self.moving.path.edited(key, typed, plain))
        }
    }

    /// What a key with the text `name` does.
    pub open spec fn named_key(
        self,
        name: Seq<char>,
        key: Key,
        typed: Seq<char>,
        mods: Modifiers,
        cols: int,
    ) -> AppView {
        if self.mode is Move {
            self.move_keyed(key, typed, !(mods.control || mods.logo)).noted(Action::Redraw)
        } else if name == "?"@ {
            AppView { show_help: !self.show_help, ..self }.noted(Action::Redraw)
        } else {
            match self.answered(name, mods.shift, cols) {
                Some(s) => s.noted(Action::Redraw),
                None => self,
            }
        }
    }

    /// The state after a key was pressed or released. `text` is what it types, and `cols` the number
    /// of columns of the review.
    pub open spec fn keyed(
        self,
        pressed: bool,
        key: Key,
        text: Option<&str>,
        mods: Modifiers,
        cols: int,
    ) -> AppView {
        if !pressed {
            self
        } else {
            match key {
                Key::Character(c) => if mods.control && c@ == "c"@ {
                    self.quitting()
                } else {
                    self.named_key(c@, key, text_option(text), mods, cols)
                },
                Key::Named(k) => self.named_key(k@, key, text_option(text), mods, cols),
                Key::Other => self,
            }
        }
    }
}

impl App {
    #[verifier::rlimit(40)]
    fn browse(&mut self, c: Browse)
        requires
            old(self).wf(),
        ensures
            final(self)@ == old(self)@.browsed(c),
            final(self).wf(),
    {
        reveal(AppView::browsed);
        match c {
            Browse::Back => {
                self.step(true, 1);
            },
            Browse::On => {
                self.step(false, 1);
            },
            Browse::First => {
                self.go_to(0);
            },
            Browse::Last => {
                let last: usize = self.n() - 1;
                self.go_to(last);
            },
            Browse::PageBack => {
                self.step(true, 10);
            },
            Browse::PageOn => {
                self.step(false, 10);
            },
            Browse::Mark => {
                self.toggle_mark();
            },
            Browse::Peek => {
                self.actions.push(Action::CenterPeek);
                self.enter_peek();
            },
            Browse::Metadata => {
                self.show_meta = !self.show_meta;
            },
            Browse::Leave => {
                if self.show_help {
                    self.show_help = false;
                } else {
                    self.open_review();
                }
            },
        }
    }

    #[verifier::rlimit(40)]
    fn peek(&mut self, c: Peek, fast: bool)
        requires
            old(self).wf(),
        ensures
            final(self)@ == old(self)@.peeked(c, fast),
            final(self).wf(),
    {
        reveal(AppView::peeked);
        match c {
            Peek::Left => {
                self.actions.push(Action::Pan { toward: Toward::Left, fast });
            },
            Peek::Right => {
                self.actions.push(Action::Pan { toward: Toward::Right, fast });
            },
            Peek::Up => {
                self.actions.push(Action::Pan { toward: Toward::Up, fast });
            },
            Peek::Down => {
                self.actions.push(Action::Pan { toward: Toward::Down, fast });
            },
            Peek::Mark => {
                self.toggle_mark();
            },
            Peek::Metadata => {
                self.show_meta = !self.show_meta;
            },
            Peek::On => {
                self.step(false, 1);
            },
            Peek::Back => {
                self.step(true, 1);
            },
            Peek::Leave => {
                self.mode = Mode::Browse;
                self.schedule();
            },
        }
    }

    #[verifier::rlimit(40)]
    fn choose_item(&mut self, c: Choice, cols: usize)
        requires
            old(self).wf(),
            old(self).mode == Mode::Review,
        ensures
            final(self)@ == old(self)@.chosen(c, cols as int),
            final(self).wf(),
    {
        reveal(AppView::chosen);
        let m: usize = self.review.items.len();
        // Three rows on is beyond the end where that many items cannot be counted.
        let page: usize = if cols > usize::MAX / 3 {
            usize::MAX
        } else {
            3 * cols
        };
        match c {
            Choice::Back => {
                self.review_move(true, 1);
            },
            Choice::On => {
                self.review_move(false, 1);
            },
            Choice::Up => {
                self.review_move(true, cols);
            },
            Choice::Down => {
                self.review_move(false, cols);
            },
            Choice::PageUp => {
                self.review_move(true, page);
            },
            Choice::PageDown => {
                self.review_move(false, page);
            },
            Choice::First => {
                self.review_move(true, m);
            },
            Choice::Last => {
                self.review_move(false, m);
            },
            Choice::Keep => {
                let sel: usize = self.review.sel;
                self.toggle_keep(sel);
            },
            Choice::Confirm => {
                self.confirm();
            },
            Choice::Leave => {
                self.close_review();
            },
        }
    }

    /// An Escape on the move screen, before the move.
    #[verifier::rlimit(40)]
    fn move_escape(&mut self, text: Option<&str>, plain: bool)
        requires
            old(self).wf(),
        ensures
            final(self)@ == (if old(self)@.moving.path.escapes() {
                old(self)@.escaped(text_option(text), plain)
            } else {
                old(self)@.quitting()
            }),
            final(self).wf(),
    {
        let insert = self.moving.path.mode == EditMode::Insert;
        if !self.moving.path.escape() {
            self.quit();
        } else if plain && insert {
            let typed = printable_text(text);
            self.moving.path.insert(typed.as_str());
        }
    }

    /// A key that edits the typed folder.
    fn edit(path: &mut LineEdit, key: &Key, text: Option<&str>, plain: bool)
        requires
            old(path).valid(),
        ensures
            final(path).valid(),
            final(path)@ == old(path)@.edited(*key, text_option(text), plain),
    {
        let insert = path.mode == EditMode::Insert;
        if named(key, "ArrowLeft") {
            path.left();
        } else if named(key, "ArrowRight") {
            path.right();
        } else if named(key, "Backspace") {
            if insert {
                path.backspace();
            } else {
                path.left();
            }
        } else if plain && insert {
            let typed = printable_text(text);
            path.insert(typed.as_str());
        } else if plain {
            match key {
                Key::Character(c) => {
                    path.command(c.as_str());
                },
                _ => {},
            }
        }
    }

    /// A key on the move screen.
    #[verifier::rlimit(40)]
    fn move_key(&mut self, key: &Key, text: Option<&str>, plain: bool)
        requires
            old(self).wf(),
        ensures
            final(self)@ == old(self)@.move_keyed(*key, text_option(text), plain),
            final(self).wf(),
    {
        reveal(AppView::move_keyed);
        let escape = named(key, "Escape");
        if self.moving.running {
            if escape {
                self.quit();
            }
        } else if escape {
            self.move_escape(text, plain);
        } else if named(key, "Enter") {
            self.start_move();
        } else {
            Self::edit(&mut self.moving.path, key, text, plain);
        }
    }

    /// A key on a screen other than the move screen. True if it does anything.
    #[verifier::rlimit(40)]
    fn answer(&mut self, name: &str, fast: bool, cols: usize) -> (r: bool)
        requires
            old(self).wf(),
        ensures
            match old(self)@.answered(name@, fast, cols as int) {
                Some(s) => r && final(self)@ == s,
                None => !r && final(self)@ == old(self)@,
            },
            final(self).wf(),
    {
        match self.mode {
            Mode::Browse => match ask(&BROWSE_KEYS, name) {
                Some(c) => {
                    self.browse(c);
                    true
                },
                None => false,
            },
            Mode::Peek => match ask(&PEEK_KEYS, name) {
                Some(c) => {
                    self.peek(c, fast);
                    true
                },
                None => false,
            },
            Mode::Review => match ask(&REVIEW_KEYS, name) {
                Some(c) => {
                    self.choose_item(c, cols);
                    true
                },
                None => false,
            },
            Mode::Move => false,
        }
    }

    /// A key with the text `name`.
    #[verifier::rlimit(40)]
    fn name_key(&mut self, name: &str, key: &Key, text: Option<&str>, mods: Modifiers, cols: usize)
        requires
            old(self).wf(),
        ensures
            final(self)@ == old(self)@.named_key(name@, *key, text_option(text), mods, cols as int),
            final(self).wf(),
    {
        if self.mode == Mode::Move {
            self.move_key(key, text, !(mods.control || mods.logo));
            self.actions.push(Action::Redraw);
        } else if same_text(name, "?") {
            self.show_help = !self.show_help;
            self.actions.push(Action::Redraw);
        } else if self.answer(name, mods.shift, cols) {
            self.actions.push(Action::Redraw);
        }
    }

    /// A key was pressed or released. `text` is what it types, and `cols` the number of columns of
    /// the review.
    #[verifier::rlimit(40)]
    pub fn on_key(&mut self, pressed: bool, key: &Key, text: Option<&str>, mods: Modifiers, cols: usize)
        requires
            old(self).wf(),
        ensures
            final(self)@ == old(self)@.keyed(pressed, *key, text, mods, cols as int),
            final(self).wf(),
    {
        if !pressed {
            return ;
        }
        match key {
            Key::Character(c) => {
                if mods.control && same_text(c.as_str(), "c") {
                    self.quit();
                } else {
                    self.name_key(c.as_str(), key, text, mods, cols);
                }
            },
            Key::Named(k) => {
                self.name_key(k.as_str(), key, text, mods, cols);
            },
            Key::Other => {},
        }
    }
}

/// What the pointer did.
#[derive(Debug, Clone, Copy, PartialEq, Eq, Structural)]
pub enum Pointer {
    Pressed,
    Released,
    Moved,
    Wheel,
    /// The window has another size.
    Resized,
}

/// What is to be done about it, which takes places on the screen.
#[derive(Debug, Clone, Copy, PartialEq, Eq, Structural)]
pub enum Response {
    Nothing,
    Redraw,
    /// Peek at the spot, if the image is there.
    PeekThere,
    /// Choose the item that is there.
    ChooseThere,
    /// Move the peeked-at part along.
    Pan,
    /// Scroll the review.
    Scroll,
}

impl AppView {
    /// What is to be done about the pointer. Dragging starts with a press while peeking.
    pub open spec fn response(self, p: Pointer) -> Response {
        match (p, self.mode) {
            (Pointer::Pressed, Mode::Browse) => Response::PeekThere,
            (Pointer::Pressed, Mode::Review) => Response::ChooseThere,
            (Pointer::Pressed, _) => Response::Redraw,
            (Pointer::Released, _) => Response::Nothing,
            (Pointer::Moved, Mode::Peek) => if self.dragging {
                Response::Pan
            } else {
                Response::Nothing
            },
            (Pointer::Moved, _) => Response::Nothing,
            (Pointer::Wheel, Mode::Review) => Response::Scroll,
            (Pointer::Wheel, Mode::Peek) => Response::Pan,
            (Pointer::Wheel, _) => Response::Nothing,
            (Pointer::Resized, Mode::Peek) => Response::Pan,
            (Pointer::Resized, Mode::Review) => Response::Scroll,
            (Pointer::Resized, _) => Response::Redraw,
        }
    }

    /// The state after the pointer did something.
    pub open spec fn pointed(self, p: Pointer) -> AppView {
        match p {
            Pointer::Pressed => AppView { dragging: self.mode is Peek, ..self },
            Pointer::Released => AppView { dragging: false, ..self },
            _ => self,
        }
    }
}

impl App {
    /// The pointer did something, or the window has another size. Returns what is to be done.
    #[verifier::rlimit(40)]
    pub fn on_pointer(&mut self, p: Pointer) -> (r: Response)
        ensures
            final(self)@ == old(self)@.pointed(p),
            r == old(self)@.response(p),
            old(self).wf() ==> final(self).wf(),
    {
        match p {
            Pointer::Pressed => {
                self.dragging = self.mode == Mode::Peek;
                match self.mode {
                    Mode::Browse => Response::PeekThere,
                    Mode::Review => Response::ChooseThere,
                    _ => Response::Redraw,
                }
            },
            Pointer::Released => {
                self.dragging = false;
                Response::Nothing
            },
            Pointer::Moved => {
                if self.mode == Mode::Peek && self.dragging {
                    Response::Pan
                } else {
                    Response::Nothing
                }
            },
            Pointer::Wheel => match self.mode {
                Mode::Review => Response::Scroll,
                Mode::Peek => Response::Pan,
                _ => Response::Nothing,
            },
            Pointer::Resized => match self.mode {
                Mode::Review => Response::Scroll,
                Mode::Peek => Response::Pan,
                _ => Response::Redraw,
            },
        }
    }
}

/// Dragging pans only while the button is down, and only if it went down while peeking.
pub proof fn law_drag_needs_a_press_while_peeking(s: AppView)
    ensures
        s.pointed(Pointer::Pressed).response(Pointer::Moved) == (if s.mode is Peek {
            Response::Pan
        } else {
            Response::Nothing
        }),
        s.pointed(Pointer::Released).response(Pointer::Moved) == Response::Nothing,
{
}

/// While files are being moved, Escape is the only key that does anything.
pub proof fn law_only_escape_while_moving(s: AppView, key: Key, typed: Seq<char>, plain: bool)
    requires
        s.moving.running,
        !is_named(key, "Escape"@),
    ensures
        s.move_keyed(key, typed, plain) == s,
{
    reveal(AppView::move_keyed);
}

/// Escape first leaves insert mode or drops a half-typed command; only then does it leave the screen.
pub proof fn law_escape_leaves_typing_first(s: AppView, key: Key, typed: Seq<char>, plain: bool)
    requires
        is_named(key, "Escape"@),
        !s.moving.running,
        s.moving.path.escapes(),
    ensures
        s.move_keyed(key, typed, plain).actions == s.actions,
        s.move_keyed(key, typed, plain).mode == s.mode,
        s.move_keyed(key, typed, plain).moving.path.mode == EditMode::Normal,
{
    reveal(AppView::move_keyed);
}

/// Letting go of a key does nothing.
pub proof fn law_release_ignored(
    s: AppView,
    key: Key,
    text: Option<&str>,
    mods: Modifiers,
    cols: int,
)
    ensures
        s.keyed(false, key, text, mods, cols) == s,
{
}

/// A key that means nothing on a screen changes nothing there, and nothing is drawn again.
pub proof fn law_unknown_key_ignored(
    s: AppView,
    name: Seq<char>,
    key: Key,
    typed: Seq<char>,
    mods: Modifiers,
    cols: int,
)
    requires
        !(s.mode is Move),
        name != "?"@,
        s.mode is Browse ==> asked(BROWSE_KEYS@, name) is None,
        s.mode is Peek ==> asked(PEEK_KEYS@, name) is None,
        s.mode is Review ==> asked(REVIEW_KEYS@, name) is None,
    ensures
        s.named_key(name, key, typed, mods, cols) == s,
{
}

/// `?` twice leaves the help as it was, on every screen but the move screen.
pub proof fn law_help_twice(
    s: AppView,
    key: Key,
    typed: Seq<char>,
    mods: Modifiers,
    cols: int,
)
    requires
        !(s.mode is Move),
    ensures
        ({
            let once = s.named_key("?"@, key, typed, mods, cols);
            &&& once.show_help == !s.show_help
            &&& once.named_key("?"@, key, typed, mods, cols).show_help == s.show_help
        }),
{
}

/// The text of a key: what it types, or its name.
pub open spec fn key_text(key: Key) -> Option<Seq<char>> {
    match key {
        Key::Character(c) => Some(c@),
        Key::Named(k) => Some(k@),
        Key::Other => None,
    }
}

proof fn lemma_asked_at<T>(table: Seq<(&'static str, T)>, i: int)
    requires
        0 <= i < table.len(),
        forall|j: int| 0 <= j < i ==> (#[trigger] table[j]).0@ != table[i].0@,
    ensures
        asked(table, table[i].0@) == Some(table[i].1),
    decreases i,
{
    if i > 0 {
        let rest = table.drop_first();
        assert(rest[i - 1] == table[i]);
        assert(table[0].0@ != table[i].0@);
        assert forall|j: int| 0 <= j < i - 1 implies (#[trigger] rest[j]).0@ != rest[i - 1].0@ by {
            assert(rest[j] == table[j + 1]);
        }
        lemma_asked_at(rest, i - 1);
    }
}

proof fn lemma_asked_none<T>(table: Seq<(&'static str, T)>, name: Seq<char>)
    requires
        forall|j: int| 0 <= j < table.len() ==> (#[trigger] table[j]).0@ != name,
    ensures
        asked(table, name) is None,
    decreases table.len(),
{
    if table.len() > 0 {
        let rest = table.drop_first();
        assert(table[0].0@ != name);
        assert forall|j: int| 0 <= j < rest.len() implies (#[trigger] rest[j]).0@ != name by {
            assert(rest[j] == table[j + 1]);
        }
        lemma_asked_none(rest, name);
    }
}

/// The place of a key among those that mean something while browsing.
pub open spec fn browse_place(name: Seq<char>) -> int {
    if name == "ArrowLeft"@ {
        0
    } else if name == "ArrowUp"@ {
        1
    } else if name == "h"@ {
        2
    } else if name == "k"@ {
        3
    } else if name == "ArrowRight"@ {
        4
    } else if name == "ArrowDown"@ {
        5
    } else if name == "l"@ {
        6
    } else if name == "j"@ {
        7
    } else if name == "Home"@ {
        8
    } else if name == "g"@ {
        9
    } else if name == "End"@ {
        10
    } else if name == "G"@ {
        11
    } else if name == "PageUp"@ {
        12
    } else if name == "PageDown"@ {
        13
    } else if name == "Space"@ {
        14
    } else if name == "f"@ {
        15
    } else if name == "m"@ {
        16
    } else if name == "q"@ {
        17
    } else if name == "Escape"@ {
        18
    } else {
        -1
    }
}

proof fn lemma_browse_places()
    ensures
        forall|i: int| 0 <= i < 19 ==> browse_place((#[trigger] BROWSE_KEYS@[i]).0@) == i,
{
    reveal_strlit("ArrowLeft");
    reveal_strlit("ArrowUp");
    reveal_strlit("h");
    reveal_strlit("k");
    reveal_strlit("ArrowRight");
    reveal_strlit("ArrowDown");
    reveal_strlit("l");
    reveal_strlit("j");
    reveal_strlit("Home");
    reveal_strlit("g");
    reveal_strlit("End");
    reveal_strlit("G");
    reveal_strlit("PageUp");
    reveal_strlit("PageDown");
    reveal_strlit("Space");
    reveal_strlit("f");
    reveal_strlit("m");
    reveal_strlit("q");
    reveal_strlit("Escape");
    assert("ArrowLeft"@.len() == 9 && "ArrowLeft"@[0] == 'A' && "ArrowLeft"@[5] == 'L');
    assert("ArrowUp"@.len() == 7 && "ArrowUp"@[0] == 'A' && "ArrowUp"@[5] == 'U');
    assert("h"@.len() == 1 && "h"@[0] == 'h');
    assert("k"@.len() == 1 && "k"@[0] == 'k');
    assert("ArrowRight"@.len() == 10 && "ArrowRight"@[0] == 'A' && "ArrowRight"@[5] == 'R');
    assert("ArrowDown"@.len() == 9 && "ArrowDown"@[0] == 'A' && "ArrowDown"@[5] == 'D');
    assert("l"@.len() == 1 && "l"@[0] == 'l');
    assert("j"@.len() == 1 && "j"@[0] == 'j');
    assert("Home"@.len() == 4 && "Home"@[0] == 'H');
    assert("g"@.len() == 1 && "g"@[0] == 'g');
    assert("End"@.len() == 3 && "End"@[0] == 'E');
    assert("G"@.len() == 1 && "G"@[0] == 'G');
    assert("PageUp"@.len() == 6 && "PageUp"@[0] == 'P');
    assert("PageDown"@.len() == 8 && "PageDown"@[0] == 'P');
    assert("Space"@.len() == 5 && "Space"@[0] == 'S');
    assert("f"@.len() == 1 && "f"@[0] == 'f');
    assert("m"@.len() == 1 && "m"@[0] == 'm');
    assert("q"@.len() == 1 && "q"@[0] == 'q');
    assert("Escape"@.len() == 6 && "Escape"@[0] == 'E');
    assert(browse_place("ArrowLeft"@) == 0);
    assert(browse_place("ArrowUp"@) == 1);
    assert(browse_place("h"@) == 2);
    assert(browse_place("k"@) == 3);
    assert(browse_place("ArrowRight"@) == 4);
    assert(browse_place("ArrowDown"@) == 5);
    assert(browse_place("l"@) == 6);
    assert(browse_place("j"@) == 7);
    assert(browse_place("Home"@) == 8);
    assert(browse_place("g"@) == 9);
    assert(browse_place("End"@) == 10);
    assert(browse_place("G"@) == 11);
    assert(browse_place("PageUp"@) == 12);
    assert(browse_place("PageDown"@) == 13);
    assert(browse_place("Space"@) == 14);
    assert(browse_place("f"@) == 15);
    assert(browse_place("m"@) == 16);
    assert(browse_place("q"@) == 17);
    assert(browse_place("Escape"@) == 18);
    assert forall|i: int| 0 <= i < 19 implies browse_place((#[trigger] BROWSE_KEYS@[i]).0@) == i by {
        if i == 0 {
            assert(BROWSE_KEYS@[0].0@ == "ArrowLeft"@);
        } else if i == 1 {
            assert(BROWSE_KEYS@[1].0@ == "ArrowUp"@);
        } else if i == 2 {
            assert(BROWSE_KEYS@[2].0@ == "h"@);
        } else if i == 3 {
            assert(BROWSE_KEYS@[3].0@ == "k"@);
        } else if i == 4 {
            assert(BROWSE_KEYS@[4].0@ == "ArrowRight"@);
        } else if i == 5 {
            assert(BROWSE_KEYS@[5].0@ == "ArrowDown"@);
        } else if i == 6 {
            assert(BROWSE_KEYS@[6].0@ == "l"@);
        } else if i == 7 {
            assert(BROWSE_KEYS@[7].0@ == "j"@);
        } else if i == 8 {
            assert(BROWSE_KEYS@[8].0@ == "Home"@);
        } else if i == 9 {
            assert(BROWSE_KEYS@[9].0@ == "g"@);
        } else if i == 10 {
            assert(BROWSE_KEYS@[10].0@ == "End"@);
        } else if i == 11 {
            assert(BROWSE_KEYS@[11].0@ == "G"@);
        } else if i == 12 {
            assert(BROWSE_KEYS@[12].0@ == "PageUp"@);
        } else if i == 13 {
            assert(BROWSE_KEYS@[13].0@ == "PageDown"@);
        } else if i == 14 {
            assert(BROWSE_KEYS@[14].0@ == "Space"@);
        } else if i == 15 {
            assert(BROWSE_KEYS@[15].0@ == "f"@);
        } else if i == 16 {
            assert(BROWSE_KEYS@[16].0@ == "m"@);
        } else if i == 17 {
            assert(BROWSE_KEYS@[17].0@ == "q"@);
        } else if i == 18 {
            assert(BROWSE_KEYS@[18].0@ == "Escape"@);
        }
    }
}

proof fn lemma_browse_key(i: int)
    requires
        0 <= i < 19,
    ensures
        asked(BROWSE_KEYS@, BROWSE_KEYS@[i].0@) == Some(BROWSE_KEYS@[i].1),
{
    lemma_browse_places();
    let table = BROWSE_KEYS@;
    assert forall|j: int| 0 <= j < i implies (#[trigger] table[j]).0@ != table[i].0@ by {
        assert(browse_place(BROWSE_KEYS@[j].0@) == j);
        assert(browse_place(BROWSE_KEYS@[i].0@) == i);
    }
    lemma_asked_at(table, i);
}

/// What the keys mean while browsing; any other key means nothing.
pub proof fn law_browse_keys(name: Seq<char>)
    ensures
        name == "ArrowLeft"@ || name == "ArrowUp"@ || name == "h"@ || name == "k"@ ==> asked(BROWSE_KEYS@, name) == Some(Browse::Back),
        name == "ArrowRight"@ || name == "ArrowDown"@ || name == "l"@ || name == "j"@ ==> asked(BROWSE_KEYS@, name) == Some(Browse::On),
        name == "Home"@ || name == "g"@ ==> asked(BROWSE_KEYS@, name) == Some(Browse::First),
        name == "End"@ || name == "G"@ ==> asked(BROWSE_KEYS@, name) == Some(Browse::Last),
        name == "PageUp"@ ==> asked(BROWSE_KEYS@, name) == Some(Browse::PageBack),
        name == "PageDown"@ ==> asked(BROWSE_KEYS@, name) == Some(Browse::PageOn),
        name == "Space"@ ==> asked(BROWSE_KEYS@, name) == Some(Browse::Mark),
        name == "f"@ ==> asked(BROWSE_KEYS@, name) == Some(Browse::Peek),
        name == "m"@ ==> asked(BROWSE_KEYS@, name) == Some(Browse::Metadata),
        name == "q"@ || name == "Escape"@ ==> asked(BROWSE_KEYS@, name) == Some(Browse::Leave),
        asked(BROWSE_KEYS@, name) is Some ==> browse_place(name) >= 0,
{
    if name == "ArrowLeft"@ {
        lemma_browse_key(0);
        assert(BROWSE_KEYS@[0].0@ == "ArrowLeft"@);
    }
    if name == "ArrowUp"@ {
        lemma_browse_key(1);
        assert(BROWSE_KEYS@[1].0@ == "ArrowUp"@);
    }
    if name == "h"@ {
        lemma_browse_key(2);
        assert(BROWSE_KEYS@[2].0@ == "h"@);
    }
    if name == "k"@ {
        lemma_browse_key(3);
        assert(BROWSE_KEYS@[3].0@ == "k"@);
    }
    if name == "ArrowRight"@ {
        lemma_browse_key(4);
        assert(BROWSE_KEYS@[4].0@ == "ArrowRight"@);
    }
    if name == "ArrowDown"@ {
        lemma_browse_key(5);
        assert(BROWSE_KEYS@[5].0@ == "ArrowDown"@);
    }
    if name == "l"@ {
        lemma_browse_key(6);
        assert(BROWSE_KEYS@[6].0@ == "l"@);
    }
    if name == "j"@ {
        lemma_browse_key(7);
        assert(BROWSE_KEYS@[7].0@ == "j"@);
    }
    if name == "Home"@ {
        lemma_browse_key(8);
        assert(BROWSE_KEYS@[8].0@ == "Home"@);
    }
    if name == "g"@ {
        lemma_browse_key(9);
        assert(BROWSE_KEYS@[9].0@ == "g"@);
    }
    if name == "End"@ {
        lemma_browse_key(10);
        assert(BROWSE_KEYS@[10].0@ == "End"@);
    }
    if name == "G"@ {
        lemma_browse_key(11);
        assert(BROWSE_KEYS@[11].0@ == "G"@);
    }
    if name == "PageUp"@ {
        lemma_browse_key(12);
        assert(BROWSE_KEYS@[12].0@ == "PageUp"@);
    }
    if name == "PageDown"@ {
        lemma_browse_key(13);
        assert(BROWSE_KEYS@[13].0@ == "PageDown"@);
    }
    if name == "Space"@ {
        lemma_browse_key(14);
        assert(BROWSE_KEYS@[14].0@ == "Space"@);
    }
    if name == "f"@ {
        lemma_browse_key(15);
        assert(BROWSE_KEYS@[15].0@ == "f"@);
    }
    if name == "m"@ {
        lemma_browse_key(16);
        assert(BROWSE_KEYS@[16].0@ == "m"@);
    }
    if name == "q"@ {
        lemma_browse_key(17);
        assert(BROWSE_KEYS@[17].0@ == "q"@);
    }
    if name == "Escape"@ {
        lemma_browse_key(18);
        assert(BROWSE_KEYS@[18].0@ == "Escape"@);
    }
    if browse_place(name) < 0 {
        let table = BROWSE_KEYS@;
        lemma_browse_places();
        assert forall|j: int| 0 <= j < table.len() implies (#[trigger] table[j]).0@ != name by {
            assert(browse_place(BROWSE_KEYS@[j].0@) == j);
        }
        lemma_asked_none(table, name);
    }
}

/// The place of a key among those that mean something while peeking.
pub open spec fn peek_place(name: Seq<char>) -> int {
    if name == "ArrowLeft"@ {
        0
    } else if name == "h"@ {
        1
    } else if name == "H"@ {
        2
    } else if name == "ArrowRight"@ {
        3
    } else if name == "l"@ {
        4
    } else if name == "L"@ {
        5
    } else if name == "ArrowUp"@ {
        6
    } else if name == "k"@ {
        7
    } else if name == "K"@ {
        8
    } else if name == "ArrowDown"@ {
        9
    } else if name == "j"@ {
        10
    } else if name == "J"@ {
        11
    } else if name == "Space"@ {
        12
    } else if name == "m"@ {
        13
    } else if name == "n"@ {
        14
    } else if name == "PageDown"@ {
        15
    } else if name == "p"@ {
        16
    } else if name == "PageUp"@ {
        17
    } else if name == "f"@ {
        18
    } else if name == "Escape"@ {
        19
    } else {
        -1
    }
}

proof fn lemma_peek_places()
    ensures
        forall|i: int| 0 <= i < 20 ==> peek_place((#[trigger] PEEK_KEYS@[i]).0@) == i,
{
    reveal_strlit("ArrowLeft");
    reveal_strlit("h");
    reveal_strlit("H");
    reveal_strlit("ArrowRight");
    reveal_strlit("l");
    reveal_strlit("L");
    reveal_strlit("ArrowUp");
    reveal_strlit("k");
    reveal_strlit("K");
    reveal_strlit("ArrowDown");
    reveal_strlit("j");
    reveal_strlit("J");
    reveal_strlit("Space");
    reveal_strlit("m");
    reveal_strlit("n");
    reveal_strlit("PageDown");
    reveal_strlit("p");
    reveal_strlit("PageUp");
    reveal_strlit("f");
    reveal_strlit("Escape");
    assert("ArrowLeft"@.len() == 9 && "ArrowLeft"@[0] == 'A' && "ArrowLeft"@[5] == 'L');
    assert("h"@.len() == 1 && "h"@[0] == 'h');
    assert("H"@.len() == 1 && "H"@[0] == 'H');
    assert("ArrowRight"@.len() == 10 && "ArrowRight"@[0] == 'A' && "ArrowRight"@[5] == 'R');
    assert("l"@.len() == 1 && "l"@[0] == 'l');
    assert("L"@.len() == 1 && "L"@[0] == 'L');
    assert("ArrowUp"@.len() == 7 && "ArrowUp"@[0] == 'A' && "ArrowUp"@[5] == 'U');
    assert("k"@.len() == 1 && "k"@[0] == 'k');
    assert("K"@.len() == 1 && "K"@[0] == 'K');
    assert("ArrowDown"@.len() == 9 && "ArrowDown"@[0] == 'A' && "ArrowDown"@[5] == 'D');
    assert("j"@.len() == 1 && "j"@[0] == 'j');
    assert("J"@.len() == 1 && "J"@[0] == 'J');
    assert("Space"@.len() == 5 && "Space"@[0] == 'S');
    assert("m"@.len() == 1 && "m"@[0] == 'm');
    assert("n"@.len() == 1 && "n"@[0] == 'n');
    assert("PageDown"@.len() == 8 && "PageDown"@[0] == 'P');
    assert("p"@.len() == 1 && "p"@[0] == 'p');
    assert("PageUp"@.len() == 6 && "PageUp"@[0] == 'P');
    assert("f"@.len() == 1 && "f"@[0] == 'f');
    assert("Escape"@.len() == 6 && "Escape"@[0] == 'E');
    assert(peek_place("ArrowLeft"@) == 0);
    assert(peek_place("h"@) == 1);
    assert(peek_place("H"@) == 2);
    assert(peek_place("ArrowRight"@) == 3);
    assert(peek_place("l"@) == 4);
    assert(peek_place("L"@) == 5);
    assert(peek_place("ArrowUp"@) == 6);
    assert(peek_place("k"@) == 7);
    assert(peek_place("K"@) == 8);
    assert(peek_place("ArrowDown"@) == 9);
    assert(peek_place("j"@) == 10);
    assert(peek_place("J"@) == 11);
    assert(peek_place("Space"@) == 12);
    assert(peek_place("m"@) == 13);
    assert(peek_place("n"@) == 14);
    assert(peek_place("PageDown"@) == 15);
    assert(peek_place("p"@) == 16);
    assert(peek_place("PageUp"@) == 17);
    assert(peek_place("f"@) == 18);
    assert(peek_place("Escape"@) == 19);
    assert forall|i: int| 0 <= i < 20 implies peek_place((#[trigger] PEEK_KEYS@[i]).0@) == i by {
        if i == 0 {
            assert(PEEK_KEYS@[0].0@ == "ArrowLeft"@);
        } else if i == 1 {
            assert(PEEK_KEYS@[1].0@ == "h"@);
        } else if i == 2 {
            assert(PEEK_KEYS@[2].0@ == "H"@);
        } else if i == 3 {
            assert(PEEK_KEYS@[3].0@ == "ArrowRight"@);
        } else if i == 4 {
            assert(PEEK_KEYS@[4].0@ == "l"@);
        } else if i == 5 {
            assert(PEEK_KEYS@[5].0@ == "L"@);
        } else if i == 6 {
            assert(PEEK_KEYS@[6].0@ == "ArrowUp"@);
        } else if i == 7 {
            assert(PEEK_KEYS@[7].0@ == "k"@);
        } else if i == 8 {
            assert(PEEK_KEYS@[8].0@ == "K"@);
        } else if i == 9 {
            assert(PEEK_KEYS@[9].0@ == "ArrowDown"@);
        } else if i == 10 {
            assert(PEEK_KEYS@[10].0@ == "j"@);
        } else if i == 11 {
            assert(PEEK_KEYS@[11].0@ == "J"@);
        } else if i == 12 {
            assert(PEEK_KEYS@[12].0@ == "Space"@);
        } else if i == 13 {
            assert(PEEK_KEYS@[13].0@ == "m"@);
        } else if i == 14 {
            assert(PEEK_KEYS@[14].0@ == "n"@);
        } else if i == 15 {
            assert(PEEK_KEYS@[15].0@ == "PageDown"@);
        } else if i == 16 {
            assert(PEEK_KEYS@[16].0@ == "p"@);
        } else if i == 17 {
            assert(PEEK_KEYS@[17].0@ == "PageUp"@);
        } else if i == 18 {
            assert(PEEK_KEYS@[18].0@ == "f"@);
        } else if i == 19 {
            assert(PEEK_KEYS@[19].0@ == "Escape"@);
        }
    }
}

proof fn lemma_peek_key(i: int)
    requires
        0 <= i < 20,
    ensures
        asked(PEEK_KEYS@, PEEK_KEYS@[i].0@) == Some(PEEK_KEYS@[i].1),
{
    lemma_peek_places();
    let table = PEEK_KEYS@;
    assert forall|j: int| 0 <= j < i implies (#[trigger] table[j]).0@ != table[i].0@ by {
        assert(peek_place(PEEK_KEYS@[j].0@) == j);
        assert(peek_place(PEEK_KEYS@[i].0@) == i);
    }
    lemma_asked_at(table, i);
}

/// What the keys mean while peeking; any other key means nothing.
pub proof fn law_peek_keys(name: Seq<char>)
    ensures
        name == "ArrowLeft"@ || name == "h"@ || name == "H"@ ==> asked(PEEK_KEYS@, name) == Some(Peek::Left),
        name == "ArrowRight"@ || name == "l"@ || name == "L"@ ==> asked(PEEK_KEYS@, name) == Some(Peek::Right),
        name == "ArrowUp"@ || name == "k"@ || name == "K"@ ==> asked(PEEK_KEYS@, name) == Some(Peek::Up),
        name == "ArrowDown"@ || name == "j"@ || name == "J"@ ==> asked(PEEK_KEYS@, name) == Some(Peek::Down),
        name == "Space"@ ==> asked(PEEK_KEYS@, name) == Some(Peek::Mark),
        name == "m"@ ==> asked(PEEK_KEYS@, name) == Some(Peek::Metadata),
        name == "n"@ || name == "PageDown"@ ==> asked(PEEK_KEYS@, name) == Some(Peek::On),
        name == "p"@ || name == "PageUp"@ ==> asked(PEEK_KEYS@, name) == Some(Peek::Back),
        name == "f"@ || name == "Escape"@ ==> asked(PEEK_KEYS@, name) == Some(Peek::Leave),
        asked(PEEK_KEYS@, name) is Some ==> peek_place(name) >= 0,
{
    if name == "ArrowLeft"@ {
        lemma_peek_key(0);
        assert(PEEK_KEYS@[0].0@ == "ArrowLeft"@);
    }
    if name == "h"@ {
        lemma_peek_key(1);
        assert(PEEK_KEYS@[1].0@ == "h"@);
    }
    if name == "H"@ {
        lemma_peek_key(2);
        assert(PEEK_KEYS@[2].0@ == "H"@);
    }
    if name == "ArrowRight"@ {
        lemma_peek_key(3);
        assert(PEEK_KEYS@[3].0@ == "ArrowRight"@);
    }
    if name == "l"@ {
        lemma_peek_key(4);
        assert(PEEK_KEYS@[4].0@ == "l"@);
    }
    if name == "L"@ {
        lemma_peek_key(5);
        assert(PEEK_KEYS@[5].0@ == "L"@);
    }
    if name == "ArrowUp"@ {
        lemma_peek_key(6);
        assert(PEEK_KEYS@[6].0@ == "ArrowUp"@);
    }
    if name == "k"@ {
        lemma_peek_key(7);
        assert(PEEK_KEYS@[7].0@ == "k"@);
    }
    if name == "K"@ {
        lemma_peek_key(8);
        assert(PEEK_KEYS@[8].0@ == "K"@);
    }
    if name == "ArrowDown"@ {
        lemma_peek_key(9);
        assert(PEEK_KEYS@[9].0@ == "ArrowDown"@);
    }
    if name == "j"@ {
        lemma_peek_key(10);
        assert(PEEK_KEYS@[10].0@ == "j"@);
    }
    if name == "J"@ {
        lemma_peek_key(11);
        assert(PEEK_KEYS@[11].0@ == "J"@);
    }
    if name == "Space"@ {
        lemma_peek_key(12);
        assert(PEEK_KEYS@[12].0@ == "Space"@);
    }
    if name == "m"@ {
        lemma_peek_key(13);
        assert(PEEK_KEYS@[13].0@ == "m"@);
    }
    if name == "n"@ {
        lemma_peek_key(14);
        assert(PEEK_KEYS@[14].0@ == "n"@);
    }
    if name == "PageDown"@ {
        lemma_peek_key(15);
        assert(PEEK_KEYS@[15].0@ == "PageDown"@);
    }
    if name == "p"@ {
        lemma_peek_key(16);
        assert(PEEK_KEYS@[16].0@ == "p"@);
    }
    if name == "PageUp"@ {
        lemma_peek_key(17);
        assert(PEEK_KEYS@[17].0@ == "PageUp"@);
    }
    if name == "f"@ {
        lemma_peek_key(18);
        assert(PEEK_KEYS@[18].0@ == "f"@);
    }
    if name == "Escape"@ {
        lemma_peek_key(19);
        assert(PEEK_KEYS@[19].0@ == "Escape"@);
    }
    if peek_place(name) < 0 {
        let table = PEEK_KEYS@;
        lemma_peek_places();
        assert forall|j: int| 0 <= j < table.len() implies (#[trigger] table[j]).0@ != name by {
            assert(peek_place(PEEK_KEYS@[j].0@) == j);
        }
        lemma_asked_none(table, name);
    }
}

/// The place of a key among those that mean something while reviewing.
pub open spec fn review_place(name: Seq<char>) -> int {
    if name == "ArrowLeft"@ {
        0
    } else if name == "h"@ {
        1
    } else if name == "ArrowRight"@ {
        2
    } else if name == "l"@ {
        3
    } else if name == "ArrowUp"@ {
        4
    } else if name == "k"@ {
        5
    } else if name == "ArrowDown"@ {
        6
    } else if name == "j"@ {
        7
    } else if name == "PageUp"@ {
        8
    } else if name == "PageDown"@ {
        9
    } else if name == "Home"@ {
        10
    } else if name == "g"@ {
        11
    } else if name == "End"@ {
        12
    } else if name == "G"@ {
        13
    } else if name == "Space"@ {
        14
    } else if name == "y"@ {
        15
    } else if name == "Enter"@ {
        16
    } else if name == "n"@ {
        17
    } else if name == "Escape"@ {
        18
    } else if name == "q"@ {
        19
    } else {
        -1
    }
}

proof fn lemma_review_places()
    ensures
        forall|i: int| 0 <= i < 20 ==> review_place((#[trigger] REVIEW_KEYS@[i]).0@) == i,
{
    reveal_strlit("ArrowLeft");
    reveal_strlit("h");
    reveal_strlit("ArrowRight");
    reveal_strlit("l");
    reveal_strlit("ArrowUp");
    reveal_strlit("k");
    reveal_strlit("ArrowDown");
    reveal_strlit("j");
    reveal_strlit("PageUp");
    reveal_strlit("PageDown");
    reveal_strlit("Home");
    reveal_strlit("g");
    reveal_strlit("End");
    reveal_strlit("G");
    reveal_strlit("Space");
    reveal_strlit("y");
    reveal_strlit("Enter");
    reveal_strlit("n");
    reveal_strlit("Escape");
    reveal_strlit("q");
    assert("ArrowLeft"@.len() == 9 && "ArrowLeft"@[0] == 'A' && "ArrowLeft"@[5] == 'L');
    assert("h"@.len() == 1 && "h"@[0] == 'h');
    assert("ArrowRight"@.len() == 10 && "ArrowRight"@[0] == 'A' && "ArrowRight"@[5] == 'R');
    assert("l"@.len() == 1 && "l"@[0] == 'l');
    assert("ArrowUp"@.len() == 7 && "ArrowUp"@[0] == 'A' && "ArrowUp"@[5] == 'U');
    assert("k"@.len() == 1 && "k"@[0] == 'k');
    assert("ArrowDown"@.len() == 9 && "ArrowDown"@[0] == 'A' && "ArrowDown"@[5] == 'D');
    assert("j"@.len() == 1 && "j"@[0] == 'j');
    assert("PageUp"@.len() == 6 && "PageUp"@[0] == 'P');
    assert("PageDown"@.len() == 8 && "PageDown"@[0] == 'P');
    assert("Home"@.len() == 4 && "Home"@[0] == 'H');
    assert("g"@.len() == 1 && "g"@[0] == 'g');
    assert("End"@.len() == 3 && "End"@[0] == 'E');
    assert("G"@.len() == 1 && "G"@[0] == 'G');
    assert("Space"@.len() == 5 && "Space"@[0] == 'S');
    assert("y"@.len() == 1 && "y"@[0] == 'y');
    assert("Enter"@.len() == 5 && "Enter"@[0] == 'E');
    assert("n"@.len() == 1 && "n"@[0] == 'n');
    assert("Escape"@.len() == 6 && "Escape"@[0] == 'E');
    assert("q"@.len() == 1 && "q"@[0] == 'q');
    assert(review_place("ArrowLeft"@) == 0);
    assert(review_place("h"@) == 1);
    assert(review_place("ArrowRight"@) == 2);
    assert(review_place("l"@) == 3);
    assert(review_place("ArrowUp"@) == 4);
    assert(review_place("k"@) == 5);
    assert(review_place("ArrowDown"@) == 6);
    assert(review_place("j"@) == 7);
    assert(review_place("PageUp"@) == 8);
    assert(review_place("PageDown"@) == 9);
    assert(review_place("Home"@) == 10);
    assert(review_place("g"@) == 11);
    assert(review_place("End"@) == 12);
    assert(review_place("G"@) == 13);
    assert(review_place("Space"@) == 14);
    assert(review_place("y"@) == 15);
    assert(review_place("Enter"@) == 16);
    assert(review_place("n"@) == 17);
    assert(review_place("Escape"@) == 18);
    assert(review_place("q"@) == 19);
    assert forall|i: int| 0 <= i < 20 implies review_place((#[trigger] REVIEW_KEYS@[i]).0@) == i by {
        if i == 0 {
            assert(REVIEW_KEYS@[0].0@ == "ArrowLeft"@);
        } else if i == 1 {
            assert(REVIEW_KEYS@[1].0@ == "h"@);
        } else if i == 2 {
            assert(REVIEW_KEYS@[2].0@ == "ArrowRight"@);
        } else if i == 3 {
            assert(REVIEW_KEYS@[3].0@ == "l"@);
        } else if i == 4 {
            assert(REVIEW_KEYS@[4].0@ == "ArrowUp"@);
        } else if i == 5 {
            assert(REVIEW_KEYS@[5].0@ == "k"@);
        } else if i == 6 {
            assert(REVIEW_KEYS@[6].0@ == "ArrowDown"@);
        } else if i == 7 {
            assert(REVIEW_KEYS@[7].0@ == "j"@);
        } else if i == 8 {
            assert(REVIEW_KEYS@[8].0@ == "PageUp"@);
        } else if i == 9 {
            assert(REVIEW_KEYS@[9].0@ == "PageDown"@);
        } else if i == 10 {
            assert(REVIEW_KEYS@[10].0@ == "Home"@);
        } else if i == 11 {
            assert(REVIEW_KEYS@[11].0@ == "g"@);
        } else if i == 12 {
            assert(REVIEW_KEYS@[12].0@ == "End"@);
        } else if i == 13 {
            assert(REVIEW_KEYS@[13].0@ == "G"@);
        } else if i == 14 {
            assert(REVIEW_KEYS@[14].0@ == "Space"@);
        } else if i == 15 {
            assert(REVIEW_KEYS@[15].0@ == "y"@);
        } else if i == 16 {
            assert(REVIEW_KEYS@[16].0@ == "Enter"@);
        } else if i == 17 {
            assert(REVIEW_KEYS@[17].0@ == "n"@);
        } else if i == 18 {
            assert(REVIEW_KEYS@[18].0@ == "Escape"@);
        } else if i == 19 {
            assert(REVIEW_KEYS@[19].0@ == "q"@);
        }
    }
}

proof fn lemma_review_key(i: int)
    requires
        0 <= i < 20,
    ensures
        asked(REVIEW_KEYS@, REVIEW_KEYS@[i].0@) == Some(REVIEW_KEYS@[i].1),
{
    lemma_review_places();
    let table = REVIEW_KEYS@;
    assert forall|j: int| 0 <= j < i implies (#[trigger] table[j]).0@ != table[i].0@ by {
        assert(review_place(REVIEW_KEYS@[j].0@) == j);
        assert(review_place(REVIEW_KEYS@[i].0@) == i);
    }
    lemma_asked_at(table, i);
}

/// What the keys mean while reviewing; any other key means nothing.
pub proof fn law_review_keys(name: Seq<char>)
    ensures
        name == "ArrowLeft"@ || name == "h"@ ==> asked(REVIEW_KEYS@, name) == Some(Choice::Back),
        name == "ArrowRight"@ || name == "l"@ ==> asked(REVIEW_KEYS@, name) == Some(Choice::On),
        name == "ArrowUp"@ || name == "k"@ ==> asked(REVIEW_KEYS@, name) == Some(Choice::Up),
        name == "ArrowDown"@ || name == "j"@ ==> asked(REVIEW_KEYS@, name) == Some(Choice::Down),
        name == "PageUp"@ ==> asked(REVIEW_KEYS@, name) == Some(Choice::PageUp),
        name == "PageDown"@ ==> asked(REVIEW_KEYS@, name) == Some(Choice::PageDown),
        name == "Home"@ || name == "g"@ ==> asked(REVIEW_KEYS@, name) == Some(Choice::First),
        name == "End"@ || name == "G"@ ==> asked(REVIEW_KEYS@, name) == Some(Choice::Last),
        name == "Space"@ ==> asked(REVIEW_KEYS@, name) == Some(Choice::Keep),
        name == "y"@ || name == "Enter"@ ==> asked(REVIEW_KEYS@, name) == Some(Choice::Confirm),
        name == "n"@ || name == "Escape"@ || name == "q"@ ==> asked(REVIEW_KEYS@, name) == Some(Choice::Leave),
        asked(REVIEW_KEYS@, name) is Some ==> review_place(name) >= 0,
{
    if name == "ArrowLeft"@ {
        lemma_review_key(0);
        assert(REVIEW_KEYS@[0].0@ == "ArrowLeft"@);
    }
    if name == "h"@ {
        lemma_review_key(1);
        assert(REVIEW_KEYS@[1].0@ == "h"@);
    }
    if name == "ArrowRight"@ {
        lemma_review_key(2);
        assert(REVIEW_KEYS@[2].0@ == "ArrowRight"@);
    }
    if name == "l"@ {
        lemma_review_key(3);
        assert(REVIEW_KEYS@[3].0@ == "l"@);
    }
    if name == "ArrowUp"@ {
        lemma_review_key(4);
        assert(REVIEW_KEYS@[4].0@ == "ArrowUp"@);
    }
    if name == "k"@ {
        lemma_review_key(5);
        assert(REVIEW_KEYS@[5].0@ == "k"@);
    }
    if name == "ArrowDown"@ {
        lemma_review_key(6);
        assert(REVIEW_KEYS@[6].0@ == "ArrowDown"@);
    }
    if name == "j"@ {
        lemma_review_key(7);
        assert(REVIEW_KEYS@[7].0@ == "j"@);
    }
    if name == "PageUp"@ {
        lemma_review_key(8);
        assert(REVIEW_KEYS@[8].0@ == "PageUp"@);
    }
    if name == "PageDown"@ {
        lemma_review_key(9);
        assert(REVIEW_KEYS@[9].0@ == "PageDown"@);
    }
    if name == "Home"@ {
        lemma_review_key(10);
        assert(REVIEW_KEYS@[10].0@ == "Home"@);
    }
    if name == "g"@ {
        lemma_review_key(11);
        assert(REVIEW_KEYS@[11].0@ == "g"@);
    }
    if name == "End"@ {
        lemma_review_key(12);
        assert(REVIEW_KEYS@[12].0@ == "End"@);
    }
    if name == "G"@ {
        lemma_review_key(13);
        assert(REVIEW_KEYS@[13].0@ == "G"@);
    }
    if name == "Space"@ {
        lemma_review_key(14);
        assert(REVIEW_KEYS@[14].0@ == "Space"@);
    }
    if name == "y"@ {
        lemma_review_key(15);
        assert(REVIEW_KEYS@[15].0@ == "y"@);
    }
    if name == "Enter"@ {
        lemma_review_key(16);
        assert(REVIEW_KEYS@[16].0@ == "Enter"@);
    }
    if name == "n"@ {
        lemma_review_key(17);
        assert(REVIEW_KEYS@[17].0@ == "n"@);
    }
    if name == "Escape"@ {
        lemma_review_key(18);
        assert(REVIEW_KEYS@[18].0@ == "Escape"@);
    }
    if name == "q"@ {
        lemma_review_key(19);
        assert(REVIEW_KEYS@[19].0@ == "q"@);
    }
    if review_place(name) < 0 {
        let table = REVIEW_KEYS@;
        lemma_review_places();
        assert forall|j: int| 0 <= j < table.len() implies (#[trigger] table[j]).0@ != name by {
            assert(review_place(REVIEW_KEYS@[j].0@) == j);
        }
        lemma_asked_none(table, name);
    }
}

/// A key that was answered has the screen drawn again, and `?` shows or hides the help.
proof fn lemma_keyed(
    s: AppView,
    key: Key,
    name: Seq<char>,
    text: Option<&str>,
    mods: Modifiers,
    cols: int,
)
    requires
        !(s.mode is Move),
        key_text(key) == Some(name),
        !(mods.control && key is Character && name == "c"@),
    ensures
        name == "?"@ ==> s.keyed(true, key, text, mods, cols) == (AppView {
            show_help: !s.show_help,
            ..s
        }.noted(Action::Redraw)),
        name != "?"@ ==> s.keyed(true, key, text, mods, cols) == (match s.answered(
            name,
            mods.shift,
            cols,
        ) {
            Some(t) => t.noted(Action::Redraw),
            None => s,
        }),
{
}

/// The question mark is no other key.
proof fn lemma_question_mark()
    ensures
        browse_place("?"@) < 0,
        peek_place("?"@) < 0,
        review_place("?"@) < 0,
{
    reveal_strlit("?");
    assert("?"@.len() == 1 && "?"@[0] == '?');
    reveal_strlit("ArrowLeft");
    assert("ArrowLeft"@.len() == 9 && "ArrowLeft"@[0] == 'A');
    reveal_strlit("ArrowUp");
    assert("ArrowUp"@.len() == 7 && "ArrowUp"@[0] == 'A');
    reveal_strlit("ArrowRight");
    assert("ArrowRight"@.len() == 10 && "ArrowRight"@[0] == 'A');
    reveal_strlit("ArrowDown");
    assert("ArrowDown"@.len() == 9 && "ArrowDown"@[0] == 'A');
    reveal_strlit("Home");
    assert("Home"@.len() == 4 && "Home"@[0] == 'H');
    reveal_strlit("End");
    assert("End"@.len() == 3 && "End"@[0] == 'E');
    reveal_strlit("PageUp");
    assert("PageUp"@.len() == 6 && "PageUp"@[0] == 'P');
    reveal_strlit("PageDown");
    assert("PageDown"@.len() == 8 && "PageDown"@[0] == 'P');
    reveal_strlit("Space");
    assert("Space"@.len() == 5 && "Space"@[0] == 'S');
    reveal_strlit("Escape");
    assert("Escape"@.len() == 6 && "Escape"@[0] == 'E');
    reveal_strlit("Enter");
    assert("Enter"@.len() == 5 && "Enter"@[0] == 'E');
    reveal_strlit("h");
    assert("h"@.len() == 1 && "h"@[0] == 'h');
    reveal_strlit("H");
    assert("H"@.len() == 1 && "H"@[0] == 'H');
    reveal_strlit("k");
    assert("k"@.len() == 1 && "k"@[0] == 'k');
    reveal_strlit("K");
    assert("K"@.len() == 1 && "K"@[0] == 'K');
    reveal_strlit("l");
    assert("l"@.len() == 1 && "l"@[0] == 'l');
    reveal_strlit("L");
    assert("L"@.len() == 1 && "L"@[0] == 'L');
    reveal_strlit("j");
    assert("j"@.len() == 1 && "j"@[0] == 'j');
    reveal_strlit("J");
    assert("J"@.len() == 1 && "J"@[0] == 'J');
    reveal_strlit("g");
    assert("g"@.len() == 1 && "g"@[0] == 'g');
    reveal_strlit("G");
    assert("G"@.len() == 1 && "G"@[0] == 'G');
    reveal_strlit("f");
    assert("f"@.len() == 1 && "f"@[0] == 'f');
    reveal_strlit("m");
    assert("m"@.len() == 1 && "m"@[0] == 'm');
    reveal_strlit("q");
    assert("q"@.len() == 1 && "q"@[0] == 'q');
    reveal_strlit("n");
    assert("n"@.len() == 1 && "n"@[0] == 'n');
    reveal_strlit("p");
    assert("p"@.len() == 1 && "p"@[0] == 'p');
    reveal_strlit("y");
    assert("y"@.len() == 1 && "y"@[0] == 'y');
}

/// While browsing: the keys for back and on lead to the shot before and behind, those for a page ten
/// shots further, the others to the ends; none leads beyond them. Space changes the mark of the current
/// shot, `f` peeks at it, `m` shows or hides the metadata, and `q` and Escape hide the help or else go
/// to the review. Other keys do nothing.
pub proof fn law_keys_while_browsing(
    s: AppView,
    key: Key,
    name: Seq<char>,
    text: Option<&str>,
    mods: Modifiers,
    cols: int,
)
    requires
        s.valid(),
        s.mode == Mode::Browse,
        key_text(key) == Some(name),
        !(mods.control && key is Character && name == "c"@),
    ensures
        ({
            let r = s.keyed(true, key, text, mods, cols);
            let c = s.cursor as int;
            let back = name == "ArrowLeft"@ || name == "ArrowUp"@ || name == "h"@ || name == "k"@;
            let on = name == "ArrowRight"@ || name == "ArrowDown"@ || name == "l"@ || name == "j"@;
            let moves = back || on || name == "Home"@ || name == "g"@ || name == "End"@ || name
                == "G"@ || name == "PageUp"@ || name == "PageDown"@;
            &&& back ==> r.cursor == if c > 0 { c - 1 } else { 0 }
            &&& on ==> r.cursor == if c + 1 < s.n() { c + 1 } else { c }
            &&& name == "Home"@ || name == "g"@ ==> r.cursor == 0
            &&& name == "End"@ || name == "G"@ ==> r.cursor == s.n() - 1
            &&& name == "PageUp"@ ==> r.cursor == if c > 10 { c - 10 } else { 0 }
            &&& name == "PageDown"@ ==> r.cursor == if c + 10 < s.n() { c + 10 } else { s.n() - 1 }
            &&& back ==> r == s.gone_to(c - 1).noted(Action::Redraw)
            &&& on ==> r == s.gone_to(c + 1).noted(Action::Redraw)
            &&& name == "Home"@ || name == "g"@ ==> r == s.gone_to(0).noted(Action::Redraw)
            &&& name == "End"@ || name == "G"@ ==> r == s.gone_to(s.n() - 1).noted(Action::Redraw)
            &&& name == "PageUp"@ ==> r == s.gone_to(c - 10).noted(Action::Redraw)
            &&& name == "PageDown"@ ==> r == s.gone_to(c + 10).noted(Action::Redraw)
            &&& name == "Space"@ ==> r == s.toggled().noted(Action::Redraw)
            &&& name == "f"@ ==> r == (AppView {
                mode: Mode::Peek,
                actions: s.actions.push(Action::CenterPeek),
                ..s
            }.scheduled().noted(Action::Redraw))
            &&& moves ==> r.mode == Mode::Browse && r.marked == s.marked && r.show_help == s.show_help
                && r.show_meta == s.show_meta && r.actions.last() == Action::Redraw
            &&& name == "Space"@ ==> r.marked == s.marked.update(c, !s.marked[c]) && r.cursor == c
                && r.mode == Mode::Browse && r.actions.contains(Action::Save)
            &&& name == "f"@ ==> r.mode == Mode::Peek && r.cursor == c && r.marked == s.marked
                && r.actions.len() > s.actions.len() && r.actions[s.actions.len() as int]
                == Action::CenterPeek
            &&& name == "m"@ ==> r == (AppView {
                show_meta: !s.show_meta,
                actions: s.actions.push(Action::Redraw),
                ..s
            })
            &&& (name == "q"@ || name == "Escape"@) && s.show_help ==> r == (AppView {
                show_help: false,
                actions: s.actions.push(Action::Redraw),
                ..s
            })
            &&& (name == "q"@ || name == "Escape"@) && !s.show_help ==> r == s.reviewing().noted(
                Action::Redraw,
            )
            &&& name == "?"@ ==> r == (AppView {
                show_help: !s.show_help,
                actions: s.actions.push(Action::Redraw),
                ..s
            })
            &&& browse_place(name) < 0 && name != "?"@ ==> r == s
        }),
{
    reveal(AppView::browsed);
    lemma_keyed(s, key, name, text, mods, cols);
    lemma_question_mark();
    law_browse_keys(name);
    let c = s.cursor as int;
    crate::app::law_going_leads_there(s, c - 1);
    crate::app::law_going_leads_there(s, c + 1);
    crate::app::law_going_leads_there(s, 0);
    crate::app::law_going_leads_there(s, s.n() - 1);
    crate::app::law_going_leads_there(s, c - 10);
    crate::app::law_going_leads_there(s, c + 10);
    let r = s.keyed(true, key, text, mods, cols);
    if name == "Space"@ {
        crate::app::law_marking_changes_one_mark(s, c);
        assert(r.actions[r.actions.len() - 2] == Action::Save);
    }
    if name == "f"@ {
        let p = AppView { mode: Mode::Peek, ..s.noted(Action::CenterPeek) };
        crate::app::lemma_scheduled_keeps(p);
        crate::app::law_schedule_asks_for_what_is_missing(p, s.actions.len() as int);
    }
}

/// While peeking: `n` and PageDown lead to the next shot, `p` and PageUp to the one before, unless it
/// is the last or the first, and the screen stays. The arrows and `hjkl` move the part that is seen
/// that way, fast with Shift. Space marks, `m` shows or hides the metadata, and `f` and Escape go
/// back to browsing.
pub proof fn law_keys_while_peeking(
    s: AppView,
    key: Key,
    name: Seq<char>,
    text: Option<&str>,
    mods: Modifiers,
    cols: int,
)
    requires
        s.valid(),
        s.mode == Mode::Peek,
        key_text(key) == Some(name),
        !(mods.control && key is Character && name == "c"@),
    ensures
        ({
            let r = s.keyed(true, key, text, mods, cols);
            let c = s.cursor as int;
            let panned = |toward: Toward|
                AppView {
                    actions: s.actions.push(Action::Pan { toward, fast: mods.shift }).push(
                        Action::Redraw,
                    ),
                    ..s
                };
            &&& name == "n"@ || name == "PageDown"@ ==> r.cursor == if c + 1 < s.n() { c + 1 } else {
                c
            }
            &&& name == "p"@ || name == "PageUp"@ ==> r.cursor == if c > 0 { c - 1 } else { 0 }
            &&& name == "n"@ || name == "PageDown"@ || name == "p"@ || name == "PageUp"@ ==> r.mode
                == Mode::Peek && r.marked == s.marked
            &&& name == "ArrowLeft"@ || name == "h"@ || name == "H"@ ==> r == panned(Toward::Left)
            &&& name == "ArrowRight"@ || name == "l"@ || name == "L"@ ==> r == panned(Toward::Right)
            &&& name == "ArrowUp"@ || name == "k"@ || name == "K"@ ==> r == panned(Toward::Up)
            &&& name == "ArrowDown"@ || name == "j"@ || name == "J"@ ==> r == panned(Toward::Down)
            &&& name == "Space"@ ==> r.marked == s.marked.update(c, !s.marked[c]) && r.cursor == c
                && r.mode == Mode::Peek && r.actions.contains(Action::Save)
            &&& name == "m"@ ==> r == (AppView {
                show_meta: !s.show_meta,
                actions: s.actions.push(Action::Redraw),
                ..s
            })
            &&& name == "n"@ || name == "PageDown"@ ==> r == s.gone_to(c + 1).noted(Action::Redraw)
            &&& name == "p"@ || name == "PageUp"@ ==> r == s.gone_to(c - 1).noted(Action::Redraw)
            &&& name == "Space"@ ==> r == s.toggled().noted(Action::Redraw)
            &&& name == "f"@ || name == "Escape"@ ==> r.mode == Mode::Browse && r.cursor == c
                && r.marked == s.marked && r == (AppView { mode: Mode::Browse, ..s }.scheduled().noted(
                Action::Redraw,
            ))
            &&& name == "?"@ ==> r == (AppView {
                show_help: !s.show_help,
                actions: s.actions.push(Action::Redraw),
                ..s
            })
            &&& peek_place(name) < 0 && name != "?"@ ==> r == s
        }),
{
    reveal(AppView::peeked);
    lemma_keyed(s, key, name, text, mods, cols);
    lemma_question_mark();
    law_peek_keys(name);
    let c = s.cursor as int;
    crate::app::law_going_leads_there(s, c - 1);
    crate::app::law_going_leads_there(s, c + 1);
    let r = s.keyed(true, key, text, mods, cols);
    if name == "Space"@ {
        crate::app::law_marking_changes_one_mark(s, c);
        assert(r.actions[r.actions.len() - 2] == Action::Save);
    }
    crate::app::lemma_scheduled_keeps(AppView { mode: Mode::Browse, ..s });
}

/// The next shot and then the one before, while peeking, lead back to the same shot, still peeking.
pub proof fn law_peek_on_and_back(
    s: AppView,
    on: Key,
    back: Key,
    text: Option<&str>,
    mods: Modifiers,
    cols: int,
)
    requires
        s.valid(),
        s.mode == Mode::Peek,
        s.cursor + 1 < s.n(),
        key_text(on) == Some("n"@) || key_text(on) == Some("PageDown"@),
        key_text(back) == Some("p"@) || key_text(back) == Some("PageUp"@),
        !mods.control,
    ensures
        ({
            let there = s.keyed(true, on, text, mods, cols);
            let again = there.keyed(true, back, text, mods, cols);
            &&& there.cursor == s.cursor + 1
            &&& again.cursor == s.cursor
            &&& again.mode == Mode::Peek
        }),
{
    law_keys_while_peeking(s, on, key_text(on)->0, text, mods, cols);
    let there = s.keyed(true, on, text, mods, cols);
    reveal(AppView::peeked);
    lemma_keyed(s, on, key_text(on)->0, text, mods, cols);
    lemma_question_mark();
    law_peek_keys(key_text(on)->0);
    let moved = AppView { forward: true, cursor: (s.cursor + 1) as usize, ..s };
    assert(s.gone_to(s.cursor + 1) == moved.scheduled());
    crate::app::lemma_scheduled_valid(moved);
    assert(there.valid());
    law_keys_while_peeking(there, back, key_text(back)->0, text, mods, cols);
}

/// While reviewing: the arrows and `hjkl` move the selection by an item or a row, the keys for a page
/// by three rows, the others to the ends. Space keeps the selected shot or not, `y` and Enter confirm,
/// and `n`, `q` and Escape go back.
pub proof fn law_keys_while_reviewing(
    s: AppView,
    key: Key,
    name: Seq<char>,
    text: Option<&str>,
    mods: Modifiers,
    cols: int,
)
    requires
        s.valid(),
        s.mode == Mode::Review,
        key_text(key) == Some(name),
        !(mods.control && key is Character && name == "c"@),
        0 < s.review.items.len() <= usize::MAX,
        cols >= 1,
    ensures
        ({
            let r = s.keyed(true, key, text, mods, cols);
            let sel = s.review.sel as int;
            let last = s.review.items.len() - 1;
            let moves = name == "ArrowLeft"@ || name == "h"@ || name == "ArrowRight"@ || name == "l"@
                || name == "ArrowUp"@ || name == "k"@ || name == "ArrowDown"@ || name == "j"@ || name
                == "PageUp"@ || name == "PageDown"@ || name == "Home"@ || name == "g"@ || name
                == "End"@ || name == "G"@;
            &&& name == "ArrowLeft"@ || name == "h"@ ==> r.review.sel == if sel > 0 { sel - 1 } else {
                0
            }
            &&& name == "ArrowRight"@ || name == "l"@ ==> r.review.sel == if sel < last { sel + 1 } else {
                last
            }
            &&& name == "ArrowUp"@ || name == "k"@ ==> r.review.sel == if sel > cols { sel - cols } else {
                0
            }
            &&& name == "ArrowDown"@ || name == "j"@ ==> r.review.sel == if sel + cols < last {
                sel + cols
            } else {
                last
            }
            &&& name == "PageUp"@ ==> r.review.sel == if sel > 3 * cols { sel - 3 * cols } else { 0 }
            &&& name == "PageDown"@ ==> r.review.sel == if sel + 3 * cols < last {
                sel + 3 * cols
            } else {
                last
            }
            &&& name == "Home"@ || name == "g"@ ==> r.review.sel == 0
            &&& name == "End"@ || name == "G"@ ==> r.review.sel == last
            &&& moves ==> r == (AppView {
                review: ReviewView {
                    items: s.review.items,
                    keep: s.review.keep,
                    sel: r.review.sel,
                },
                actions: s.actions.push(Action::ShowSelected { fresh: false }).push(Action::Redraw),
                ..s
            })
            &&& name == "Space"@ ==> r == s.kept(sel).noted(Action::Redraw)
            &&& moves ==> r.review.keep == s.review.keep && r.mode == Mode::Review && r.marked
                == s.marked
            &&& name == "Space"@ ==> r.review.keep == s.review.keep.update(sel, !s.review.keep[sel])
                && r.review.sel == sel && r.mode == Mode::Review && r.marked == s.marked
            &&& name == "y"@ || name == "Enter"@ ==> r == s.confirmed().noted(Action::Redraw)
            &&& name == "n"@ || name == "q"@ || name == "Escape"@ ==> r == s.reviewed().noted(
                Action::Redraw,
            ) && r.mode == Mode::Browse
            &&& name == "?"@ ==> r == (AppView {
                show_help: !s.show_help,
                actions: s.actions.push(Action::Redraw),
                ..s
            })
            &&& review_place(name) < 0 && name != "?"@ ==> r == s
        }),
{
    reveal(AppView::chosen);
    lemma_keyed(s, key, name, text, mods, cols);
    lemma_question_mark();
    law_review_keys(name);
    let n = s.review.items.len() as int;
    crate::app::law_selection_moves(s, -1);
    crate::app::law_selection_moves(s, 1);
    crate::app::law_selection_moves(s, -cols);
    crate::app::law_selection_moves(s, cols);
    crate::app::law_selection_moves(s, -3 * cols);
    crate::app::law_selection_moves(s, 3 * cols);
    crate::app::law_selection_moves(s, -n);
    crate::app::law_selection_moves(s, n);
    crate::app::lemma_reviewed_mode(s);
}

/// Control and `c` leave from every screen.
pub proof fn law_control_c_leaves(s: AppView, c: String, text: Option<&str>, mods: Modifiers, cols: int)
    requires
        c@ == "c"@,
        mods.control,
    ensures
        s.keyed(true, Key::Character(c), text, mods, cols) == s.quitting(),
{
}

/// On the move screen, before the move: Enter starts it, Escape leaves once there is nothing to cancel
/// in the typed folder, the arrows and Backspace edit it, and while typing so does whatever is typed,
/// but for control characters and keys with Control or the logo key. Other keys are commands of the
/// text field.
pub proof fn law_keys_on_the_move_screen(
    s: AppView,
    key: Key,
    name: Seq<char>,
    text: Option<&str>,
    mods: Modifiers,
    cols: int,
)
    requires
        s.valid(),
        s.mode == Mode::Move,
        key_text(key) == Some(name),
        !(mods.control && key is Character && name == "c"@),
        !s.moving.running,
    ensures
        ({
            let r = s.keyed(true, key, text, mods, cols);
            let path = s.moving.path;
            let plain = !mods.control && !mods.logo;
            let typing = path.mode == EditMode::Insert;
            let typed = match text {
                Some(t) => printable(t@),
                None => Seq::empty(),
            };
            let edited = |l: Line|
                AppView {
                    moving: MoveView { path: l, ..s.moving },
                    actions: s.actions.push(Action::Redraw),
                    ..s
                };
            &&& key is Named && name == "Enter"@ ==> r == s.starting_move().noted(Action::Redraw)
            &&& key is Named && name == "Escape"@ && !typing && path.pending is None ==> r == (AppView {
                actions: s.actions.push(Action::Exit).push(Action::Redraw),
                ..s
            })
            &&& key is Named && name == "Backspace"@ && typing ==> r == edited(path.backspace())
            &&& key is Named && name == "Backspace"@ && !typing ==> r == edited(
                path.at(
                    if path.pos > 0 {
                        path.pos - 1
                    } else {
                        0
                    },
                ),
            )
            &&& key is Named && name == "ArrowLeft"@ ==> r == edited(
                path.at(
                    if path.pos > 0 {
                        path.pos - 1
                    } else {
                        0
                    },
                ),
            )
            &&& key is Named && name == "ArrowRight"@ && path.pos + 1 < path.text.len() ==> r == edited(
                path.at(path.pos + 1),
            )
            &&& key is Character && typing && plain ==> r == edited(path.insert(typed))
            &&& key is Character && !typing && plain ==> r == edited(path.command(name))
            &&& key is Character && !plain ==> r == edited(path)
            &&& key is Named && name == "Escape"@ && !typing && path.pending is Some ==> r == edited(
                path.awaiting(None),
            )
            &&& key is Named && name == "Escape"@ && typing && (!plain || typed.len() == 0) ==> r
                == edited(path.escape())
            &&& key is Named && name == "ArrowRight"@ && path.pos == path.text.len() && typing ==> r
                == edited(path)
            &&& key is Named && name == "ArrowRight"@ && path.pos + 1 == path.text.len() ==> r
                == edited(
                if typing {
                    path.at(path.pos + 1)
                } else {
                    path
                },
            )
            &&& key is Named && name != "Enter"@ && name != "Escape"@ && name != "Backspace"@ && name
                != "ArrowLeft"@ && name != "ArrowRight"@ ==> r == edited(
                if typing && plain {
                    path.insert(typed)
                } else {
                    path
                },
            )
        }),
{
    reveal(AppView::move_keyed);
    reveal_strlit("Enter");
    reveal_strlit("Escape");
    reveal_strlit("Backspace");
    reveal_strlit("ArrowLeft");
    reveal_strlit("ArrowRight");
    assert("Enter"@.len() == 5 && "Escape"@.len() == 6 && "Backspace"@.len() == 9);
    assert("ArrowLeft"@.len() == 9 && "ArrowRight"@.len() == 10);
    assert("ArrowLeft"@[0] == 'A' && "Backspace"@[0] == 'B');
    let path = s.moving.path;
    if typing_nothing(path, text) {
        let p = path.escape();
        assert(p.insert(Seq::empty()).text =~= p.text) by {
            assert(p.text.take(p.pos) + p.text.skip(p.pos) =~= p.text);
        }
    }
}

/// Whether a key types nothing while typing.
spec fn typing_nothing(path: Line, text: Option<&str>) -> bool {
    path.mode == EditMode::Insert && text_option(text).len() == 0
}

/// While files are moved Escape asks to stop, once the current file is done.
pub proof fn law_escape_stops_the_move(
    s: AppView,
    key: Key,
    name: Seq<char>,
    text: Option<&str>,
    mods: Modifiers,
    cols: int,
)
    requires
        s.valid(),
        s.mode == Mode::Move,
        key_text(key) == Some(name),
        !(mods.control && key is Character && name == "c"@),
        s.moving.running,
    ensures
        ({
            let r = s.keyed(true, key, text, mods, cols);
            &&& key is Named && name == "Escape"@ ==> r.moving.stopping && r.actions == s.actions.push(
                Action::CancelMove,
            ).push(Action::Redraw)
            &&& !(key is Named && name == "Escape"@) ==> r == s.noted(Action::Redraw)
        }),
{
    reveal(AppView::move_keyed);
}

/// Typing leaves out control characters and keeps the others in their order.
pub proof fn law_typed_characters(t: Seq<char>, c: char)
    ensures
        control(c) ==> printable(t.push(c)) == printable(t),
        !control(c) ==> printable(t.push(c)) == printable(t).push(c),
        printable(Seq::empty()) == Seq::<char>::empty(),
{
    assert(t.push(c).drop_last() =~= t);
}

/// What the pointer does: a click peeks there while browsing and chooses an item while reviewing; the
/// wheel pans while peeking and scrolls while reviewing; another size of the window keeps both in
/// range, and has everything else drawn again.
pub proof fn law_pointer(s: AppView)
    ensures
        s.mode == Mode::Browse ==> s.response(Pointer::Pressed) == Response::PeekThere,
        s.mode == Mode::Review ==> s.response(Pointer::Pressed) == Response::ChooseThere,
        s.mode == Mode::Peek || s.mode == Mode::Move ==> s.response(Pointer::Pressed)
            == Response::Redraw,
        s.mode == Mode::Peek ==> s.response(Pointer::Wheel) == Response::Pan && s.response(
            Pointer::Resized,
        ) == Response::Pan,
        s.mode == Mode::Review ==> s.response(Pointer::Wheel) == Response::Scroll && s.response(
            Pointer::Resized,
        ) == Response::Scroll,
        s.mode == Mode::Browse || s.mode == Mode::Move ==> s.response(Pointer::Wheel)
            == Response::Nothing && s.response(Pointer::Resized) == Response::Redraw,
        s.response(Pointer::Released) == Response::Nothing,
        s.mode != Mode::Peek || !s.dragging ==> s.response(Pointer::Moved) == Response::Nothing,
        s.mode == Mode::Peek && s.dragging ==> s.response(Pointer::Moved) == Response::Pan,
        s.pointed(Pointer::Moved) == s && s.pointed(Pointer::Wheel) == s && s.pointed(
            Pointer::Resized,
        ) == s,
        s.pointed(Pointer::Pressed) == (AppView { dragging: s.mode == Mode::Peek, ..s }),
        s.pointed(Pointer::Released) == (AppView { dragging: false, ..s }),
{
}

/// Only keys that are pressed do something, and of them only those that have a text or a name.
pub proof fn law_keys_that_do_nothing(
    s: AppView,
    key: Key,
    text: Option<&str>,
    mods: Modifiers,
    cols: int,
)
    ensures
        s.keyed(false, key, text, mods, cols) == s,
        key is Other ==> s.keyed(true, key, text, mods, cols) == s,
{
}

} // verus!
