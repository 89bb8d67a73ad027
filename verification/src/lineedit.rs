//! A single-line text field with a small subset of vi key bindings.
//!
//! Normal mode: `h` `l` `w` `b` `0` `$` move, `x` deletes, `cw` changes a word, `i` `a` `I` `A` insert.
//! Insert mode: typed text goes in at the cursor, Escape returns to normal mode.
use crate::text::{
    alphanumeric, byte_len, char_width, chars_before, first_char, is_white,
    lemma_boundary, lemma_offset, lemma_offset_ends, lemma_offset_increasing, lemma_offset_next,
    offset, on_boundary, only_char, split_at, whitespace,
};
use vstd::prelude::*;
use vstd::string::*;
use vstd::utf8::*;

verus! {

#[derive(Debug, Clone, Copy, PartialEq, Eq, Structural)]
pub enum Mode {
    Normal,
    Insert,
}

impl Default for Mode {
    fn default() -> (r: Mode)
        ensures
            r == Mode::Normal,
    {
        Mode::Normal
    }
}

#[derive(Debug)]
pub struct LineEdit {
    pub text: String,
    /// Byte offset of the cursor, always on a char boundary. In normal mode it sits on a character,
    /// so it is short of the end unless the text is empty.
    pub caret: usize,
    pub mode: Mode,
    /// First key of a two-key command (`c` of `cw`).
    pub pending: Option<char>,
}

/// A line as its characters, with the cursor counted in characters.
#[verifier::ext_equal]
pub struct Line {
    pub text: Seq<char>,
    pub pos: int,
    pub mode: Mode,
    pub pending: Option<char>,
}

/// vi's word classes: blanks (0), keyword characters (1), and any other punctuation (2).
pub open spec fn class_of(c: char) -> u8 {
    if whitespace(c) {
        0
    } else if alphanumeric(c) || c == '_' {
        1
    } else {
        2
    }
}

/// The first position from `i` on whose character is not of class `k`, or the end.
pub open spec fn run_end_of(t: Seq<char>, i: int, k: u8) -> int
    decreases t.len() - i,
{
    if 0 <= i < t.len() && class_of(t[i]) == k {
        run_end_of(t, i + 1, k)
    } else {
        i
    }
}

/// The last position down from `i` whose preceding character is not of class `k`, or the start.
pub open spec fn run_start_of(t: Seq<char>, i: int, k: u8) -> int
    decreases i,
{
    if 0 < i <= t.len() && class_of(t[i - 1]) == k {
        run_start_of(t, i - 1, k)
    } else {
        i
    }
}

/// The end of the word that `p` is in, or `p` itself on a blank or at the end.
pub open spec fn word_end_of(t: Seq<char>, p: int) -> int {
    if 0 <= p < t.len() && class_of(t[p]) != 0 {
        run_end_of(t, p, class_of(t[p]))
    } else {
        p
    }
}

/// Where `w` goes from `p`: past the word, then past the blanks after it.
pub open spec fn next_word_of(t: Seq<char>, p: int) -> int {
    run_end_of(t, word_end_of(t, p), 0)
}

/// Where `b` goes from `p`: back over blanks, then to the start of the word before them.
pub open spec fn prev_word_of(t: Seq<char>, p: int) -> int {
    let j = run_start_of(t, p, 0);
    if j > 0 {
        run_start_of(t, j, class_of(t[j - 1]))
    } else {
        0
    }
}

/// The end of what `cw` changes at `p`: the word, or a single blank.
pub open spec fn change_end_of(t: Seq<char>, p: int) -> int {
    if 0 <= p < t.len() && class_of(t[p]) == 0 {
        p + 1
    } else {
        word_end_of(t, p)
    }
}

/// The character of a one-character key.
pub open spec fn key_char(key: Seq<char>) -> Option<char> {
    if key.len() == 1 {
        Some(key[0])
    } else {
        None
    }
}

/// The keys that normal mode knows.
pub open spec fn is_command(key: Seq<char>) -> bool {
    match key_char(key) {
        Some(c) => c == 'h' || c == 'l' || c == 'w' || c == 'b' || c == '0' || c == '$' || c == 'x'
            || c == 'i' || c == 'a' || c == 'I' || c == 'A' || c == 'c',
        None => false,
    }
}

impl Line {
    /// The cursor is within the text.
    pub open spec fn valid(self) -> bool {
        0 <= self.pos <= self.text.len()
    }

    /// In normal mode the cursor sits on a character, unless there is none.
    pub open spec fn settled(self) -> bool {
        self.mode == Mode::Normal ==> self.pos < self.text.len() || self.text.len() == 0
    }

    pub open spec fn at(self, pos: int) -> Line {
        Line { text: self.text, pos, mode: self.mode, pending: self.pending }
    }

    pub open spec fn in_mode(self, mode: Mode) -> Line {
        Line { text: self.text, pos: self.pos, mode, pending: self.pending }
    }

    pub open spec fn awaiting(self, pending: Option<char>) -> Line {
        Line { text: self.text, pos: self.pos, mode: self.mode, pending }
    }

    /// The line without the characters from `i` up to `j`.
    pub open spec fn cut(self, i: int, j: int) -> Line {
        Line {
            text: self.text.take(i) + self.text.skip(j),
            pos: self.pos,
            mode: self.mode,
            pending: self.pending,
        }
    }

    pub open spec fn left(self) -> int {
        if self.pos > 0 {
            self.pos - 1
        } else {
            0
        }
    }

    pub open spec fn right(self) -> int {
        if self.pos < self.text.len() {
            self.pos + 1
        } else {
            self.pos
        }
    }

    /// The line with a normal-mode cursor moved back onto the last character.
    pub open spec fn clamped(self) -> Line {
        if self.mode == Mode::Normal && self.pos >= self.text.len() {
            self.at(
                if self.text.len() > 0 {
                    self.text.len() - 1
                } else {
                    0
                },
            )
        } else {
            self
        }
    }

    /// The line after the second key of `c`.
    pub open spec fn change(self, key: Seq<char>) -> Line {
        if key_char(key) == Some('w') {
            self.cut(self.pos, change_end_of(self.text, self.pos)).in_mode(Mode::Insert)
        } else {
            self
        }
    }

    /// The line after a normal-mode key that starts a command.
    pub open spec fn start(self, key: Seq<char>) -> Line {
        match key_char(key) {
            Some('h') => self.at(self.left()),
            Some('l') => self.at(self.right()),
            Some('w') => self.at(next_word_of(self.text, self.pos)),
            Some('b') => self.at(prev_word_of(self.text, self.pos)),
            Some('0') => self.at(0),
            Some('$') => self.at(self.text.len() as int),
            Some('x') => self.cut(self.pos, self.right()),
            Some('i') => self.in_mode(Mode::Insert),
            Some('a') => self.at(self.right()).in_mode(Mode::Insert),
            Some('I') => self.at(0).in_mode(Mode::Insert),
            Some('A') => self.at(self.text.len() as int).in_mode(Mode::Insert),
            Some('c') => self.awaiting(Some('c')),
            _ => self,
        }
    }

    /// The line after a normal-mode key.
    pub open spec fn command(self, key: Seq<char>) -> Line {
        if self.pending == Some('c') {
            self.awaiting(None).change(key)
        } else {
            self.awaiting(None).start(key).clamped()
        }
    }

    /// Whether Escape has something to cancel.
    pub open spec fn escapes(self) -> bool {
        self.mode == Mode::Insert || self.pending is Some
    }

    /// The line after Escape.
    pub open spec fn escape(self) -> Line {
        if self.mode == Mode::Insert {
            self.at(self.left()).in_mode(Mode::Normal)
        } else {
            self.awaiting(None)
        }
    }

    /// The line after typing `s`.
    pub open spec fn insert(self, s: Seq<char>) -> Line {
        Line {
            text: self.text.take(self.pos) + s + self.text.skip(self.pos),
            pos: self.pos + s.len(),
            mode: self.mode,
            pending: self.pending,
        }
    }

    /// The line after Backspace.
    pub open spec fn backspace(self) -> Line {
        self.cut(self.left(), self.pos).at(self.left())
    }
}

proof fn lemma_run_end(t: Seq<char>, i: int, k: u8)
    requires
        0 <= i <= t.len(),
    ensures
        i <= run_end_of(t, i, k) <= t.len(),
        forall|j: int| i <= j < run_end_of(t, i, k) ==> class_of(#[trigger] t[j]) == k,
        run_end_of(t, i, k) < t.len() ==> class_of(t[run_end_of(t, i, k)]) != k,
    decreases t.len() - i,
{
    if i < t.len() && class_of(t[i]) == k {
        lemma_run_end(t, i + 1, k);
    }
}

proof fn lemma_run_start(t: Seq<char>, i: int, k: u8)
    requires
        0 <= i <= t.len(),
    ensures
        0 <= run_start_of(t, i, k) <= i,
        forall|j: int| run_start_of(t, i, k) <= j < i ==> class_of(#[trigger] t[j]) == k,
        run_start_of(t, i, k) > 0 ==> class_of(t[run_start_of(t, i, k) - 1]) != k,
    decreases i,
{
    if i > 0 && class_of(t[i - 1]) == k {
        lemma_run_start(t, i - 1, k);
    }
}

proof fn lemma_motions(t: Seq<char>, p: int)
    requires
        0 <= p <= t.len(),
    ensures
        p <= word_end_of(t, p) <= next_word_of(t, p) <= t.len(),
        0 <= prev_word_of(t, p) <= p,
        p <= change_end_of(t, p) <= t.len(),
{
    if p < t.len() {
        lemma_run_end(t, p, class_of(t[p]));
    }
    lemma_run_end(t, word_end_of(t, p), 0);
    lemma_run_start(t, p, 0);
    let j = run_start_of(t, p, 0);
    if j > 0 {
        lemma_run_start(t, j, class_of(t[j - 1]));
    }
}

/// Places before an edit keep their offsets.
proof fn lemma_same_prefix(t: Seq<char>, u: Seq<char>, k: int)
    requires
        0 <= k <= t.len(),
        k <= u.len(),
        t.take(k) == u.take(k),
    ensures
        offset(t, k) == offset(u, k),
        on_boundary(u, offset(t, k)),
        chars_before(u, offset(t, k)) == k,
{
    lemma_offset(u, k);
}

fn class(c: char) -> (r: u8)
    ensures
        r == class_of(c),
{
    if is_white(c) {
        0
    } else if c.is_alphanumeric() || c == '_' {
        1
    } else {
        2
    }
}

/// Number of bytes of `c`.
fn width(c: char) -> (r: usize)
    ensures
        r == char_width(c),
{
    let u: u32 = c as u32;
    if u < 0x80 {
        1
    } else if u < 0x800 {
        2
    } else if u < 0x10000 {
        3
    } else {
        4
    }
}

impl View for LineEdit {
    type V = Line;

    open spec fn view(&self) -> Line {
        Line {
            text: self.text@,
            pos: chars_before(self.text@, self.caret as int),
            mode: self.mode,
            pending: self.pending,
        }
    }
}

impl Default for LineEdit {
    fn default() -> (r: LineEdit)
        ensures
            r.valid(),
            r@ == (Line { text: Seq::empty(), pos: 0, mode: Mode::Normal, pending: None }),
    {
        let text = String::new();
        proof {
            lemma_offset_ends(text@);
        }
        LineEdit { text, caret: 0, mode: Mode::Normal, pending: None }
    }
}

impl LineEdit {
    /// The cursor is on a char boundary of the text.
    pub open spec fn valid(&self) -> bool {
        on_boundary(self.text@, self.caret as int)
    }

    /// Starts in normal mode with the cursor on the last character.
    pub fn new(text: String) -> (r: LineEdit)
        ensures
            r.valid(),
            r@.settled(),
            r@ == (Line {
                text: text@,
                pos: text@.len() as int,
                mode: Mode::Normal,
                pending: None,
            }).clamped(),
    {
        proof {
            lemma_offset_ends(text@);
        }
        let mut e = LineEdit {
            caret: byte_len(text.as_str()),
            text,
            mode: Mode::Normal,
            pending: None,
        };
        e.clamp();
        e
    }

    fn char_at(&self, i: usize) -> (r: Option<char>)
        requires
            on_boundary(self.text@, i as int),
        ensures
            r == ({
                let k = chars_before(self.text@, i as int);
                if k < self.text@.len() {
                    Some(self.text@[k])
                } else {
                    None
                }
            }),
    {
        proof {
            lemma_boundary(self.text@, i as int);
        }
        first_char(split_at(self.text.as_str(), i).1)
    }

    fn prev_of(&self, i: usize) -> (r: usize)
        requires
            on_boundary(self.text@, i as int),
        ensures
            on_boundary(self.text@, r as int),
            r <= i,
            chars_before(self.text@, r as int) == ({
                let k = chars_before(self.text@, i as int);
                if k > 0 {
                    k - 1
                } else {
                    0
                }
            }),
    {
        let ghost t = self.text@;
        let ghost k = chars_before(t, i as int);
        proof {
            lemma_boundary(t, i as int);
            lemma_offset_ends(t);
            if k > 0 {
                lemma_offset_increasing(t, 0, k);
                lemma_offset_increasing(t, k - 1, k);
                lemma_offset(t, k - 1);
            }
        }
        if i == 0 {
            return 0;
        }
        let mut j: usize = i - 1;
        while !self.text.as_str().is_char_boundary(j)
            invariant
                t == self.text@,
                0 < k <= t.len(),
                offset(t, k - 1) <= j < offset(t, k),
                on_boundary(t, offset(t, k - 1)),
                offset(t, k - 1) >= 0,
            decreases j,
        {
            j -= 1;
        }
        proof {
            let m = chars_before(t, j as int);
            lemma_boundary(t, j as int);
            if m < k - 1 {
                lemma_offset_increasing(t, m, k - 1);
            }
            if m > k {
                lemma_offset_increasing(t, k, m);
            }
        }
        j
    }

    fn next_of(&self, i: usize) -> (r: usize)
        requires
            on_boundary(self.text@, i as int),
        ensures
            on_boundary(self.text@, r as int),
            r >= i,
            chars_before(self.text@, r as int) == ({
                let k = chars_before(self.text@, i as int);
                if k < self.text@.len() {
                    k + 1
                } else {
                    k
                }
            }),
            chars_before(self.text@, i as int) < self.text@.len() ==> r > i,
            r <= encode_utf8(self.text@).len(),
    {
        proof {
            lemma_boundary(self.text@, i as int);
            let k = chars_before(self.text@, i as int);
            if k < self.text@.len() {
                lemma_offset_next(self.text@, k);
                lemma_offset(self.text@, k + 1);
            }
        }
        let n: usize = byte_len(self.text.as_str());
        match self.char_at(i) {
            Some(c) => {
                assert(i + char_width(c) <= n);
                i + width(c)
            },
            None => i,
        }
    }

    /// Keep a normal-mode cursor on a character.
    fn clamp(&mut self)
        requires
            old(self).valid(),
        ensures
            final(self).valid(),
            final(self)@ == old(self)@.clamped(),
            final(self)@.settled(),
    {
        let n: usize = byte_len(self.text.as_str());
        proof {
            let t = self.text@;
            lemma_boundary(t, self.caret as int);
            lemma_offset_ends(t);
            let k = chars_before(t, self.caret as int);
            if k < t.len() {
                lemma_offset_increasing(t, k, t.len() as int);
            }
        }
        if self.mode == Mode::Normal && self.caret >= n {
            self.caret = self.prev_of(n);
        }
    }

    /// End of the run of same-class characters starting at `i`.
    fn run_end(&self, i: usize) -> (r: usize)
        requires
            on_boundary(self.text@, i as int),
        ensures
            on_boundary(self.text@, r as int),
            chars_before(self.text@, r as int) == ({
                let k = chars_before(self.text@, i as int);
                if k < self.text@.len() {
                    run_end_of(self.text@, k, class_of(self.text@[k]))
                } else {
                    k
                }
            }),
    {
        match self.char_at(i) {
            None => i,
            Some(c) => {
                let k: u8 = class(c);
                self.skip_class(i, k)
            },
        }
    }

    /// The first place from `i` on whose character is not of class `k`.
    fn skip_class(&self, i: usize, k: u8) -> (r: usize)
        requires
            on_boundary(self.text@, i as int),
        ensures
            on_boundary(self.text@, r as int),
            chars_before(self.text@, r as int) == run_end_of(
                self.text@,
                chars_before(self.text@, i as int),
                k,
            ),
    {
        let ghost t = self.text@;
        let mut j: usize = i;
        proof {
            lemma_boundary(t, i as int);
        }
        loop
            invariant
                t == self.text@,
                on_boundary(t, j as int),
                0 <= chars_before(t, j as int) <= t.len(),
                run_end_of(t, chars_before(t, j as int), k) == run_end_of(
                    t,
                    chars_before(t, i as int),
                    k,
                ),
            ensures
                on_boundary(t, j as int),
                chars_before(t, j as int) == run_end_of(t, chars_before(t, i as int), k),
            decreases t.len() - chars_before(t, j as int),
        {
            match self.char_at(j) {
                Some(c) => {
                    if class(c) != k {
                        break;
                    }
                    j = self.next_of(j);
                },
                None => {
                    break;
                },
            }
        }
        j
    }

    /// Start of the next word (`w`).
    fn next_word(&self) -> (r: usize)
        requires
            self.valid(),
        ensures
            on_boundary(self.text@, r as int),
            chars_before(self.text@, r as int) == next_word_of(self.text@, self@.pos),
    {
        proof {
            lemma_boundary(self.text@, self.caret as int);
        }
        let mut j: usize = self.caret;
        match self.char_at(j) {
            Some(c) => {
                if class(c) != 0 {
                    j = self.run_end(j);
                }
            },
            None => {},
        }
        self.skip_class(j, 0)
    }

    /// The last place down from `i` whose preceding character is not of class `k`.
    fn skip_class_back(&self, i: usize, k: u8) -> (r: usize)
        requires
            on_boundary(self.text@, i as int),
        ensures
            on_boundary(self.text@, r as int),
            r <= i,
            chars_before(self.text@, r as int) == run_start_of(
                self.text@,
                chars_before(self.text@, i as int),
                k,
            ),
    {
        let ghost t = self.text@;
        let mut j: usize = i;
        proof {
            lemma_boundary(t, i as int);
            lemma_offset_ends(t);
        }
        while j > 0
            invariant
                t == self.text@,
                j <= i,
                on_boundary(t, j as int),
                chars_before(t, 0) == 0,
                0 <= chars_before(t, j as int) <= t.len(),
                run_start_of(t, chars_before(t, j as int), k) == run_start_of(
                    t,
                    chars_before(t, i as int),
                    k,
                ),
            ensures
                on_boundary(t, j as int),
                j <= i,
                chars_before(t, j as int) == run_start_of(t, chars_before(t, i as int), k),
            decreases j,
        {
            proof {
                lemma_boundary(t, j as int);
                lemma_offset_ends(t);
            }
            let p: usize = self.prev_of(j);
            proof {
                lemma_boundary(t, p as int);
            }
            match self.char_at(p) {
                Some(c) => {
                    if class(c) != k {
                        break;
                    }
                    j = p;
                },
                None => {
                    break;
                },
            }
        }
        j
    }

    /// Start of this word, or of the previous one if already there (`b`).
    fn prev_word(&self) -> (r: usize)
        requires
            self.valid(),
        ensures
            on_boundary(self.text@, r as int),
            chars_before(self.text@, r as int) == prev_word_of(self.text@, self@.pos),
    {
        let ghost t = self.text@;
        proof {
            lemma_boundary(t, self.caret as int);
            lemma_offset_ends(t);
        }
        let j: usize = self.skip_class_back(self.caret, 0);
        proof {
            lemma_boundary(t, j as int);
            lemma_run_start(t, self@.pos, 0);
        }
        if j == 0 {
            return 0;
        }
        let p: usize = self.prev_of(j);
        match self.char_at(p) {
            Some(c) => self.skip_class_back(j, class(c)),
            None => 0,
        }
    }

    fn insert_mode(&mut self, caret: usize)
        requires
            on_boundary(old(self).text@, caret as int),
        ensures
            final(self).valid(),
            final(self)@ == old(self)@.at(chars_before(old(self).text@, caret as int)).in_mode(
                Mode::Insert,
            ),
    {
        self.caret = caret;
        self.mode = Mode::Insert;
    }

    /// Take out the text from the byte offset `a` up to `b`. The cursor stays where it was.
    fn remove(&mut self, a: usize, b: usize)
        requires
            on_boundary(old(self).text@, a as int),
            on_boundary(old(self).text@, b as int),
            a <= b,
        ensures
            final(self).text@ == old(self).text@.take(chars_before(old(self).text@, a as int))
                + old(self).text@.skip(chars_before(old(self).text@, b as int)),
            final(self).caret == old(self).caret,
            final(self).mode == old(self).mode,
            final(self).pending == old(self).pending,
            on_boundary(final(self).text@, a as int),
            chars_before(final(self).text@, a as int) == chars_before(old(self).text@, a as int),
    {
        let ghost t = self.text@;
        let head = split_at(self.text.as_str(), a).0;
        let tail = split_at(self.text.as_str(), b).1;
        let mut text = head.to_owned();
        text.append(tail);
        proof {
            let k = chars_before(t, a as int);
            lemma_boundary(t, a as int);
            assert(text@.take(k) =~= t.take(k));
            lemma_same_prefix(t, text@, k);
        }
        self.text = text;
    }

    /// A normal-mode key. Unknown keys are ignored, and cancel a pending `c`.
    pub fn command(&mut self, key: &str)
        requires
            old(self).valid(),
        ensures
            final(self).valid(),
            final(self)@ == old(self)@.command(key@),
            old(self)@.settled() ==> final(self)@.settled(),
    {
        let ghost before = self@;
        let ghost t = self.text@;
        proof {
            lemma_boundary(t, self.caret as int);
            lemma_offset_ends(t);
            lemma_motions(t, self@.pos);
        }
        let typed = only_char(key);
        let pending = self.pending;
        self.pending = None;
        if pending == Some('c') {
            if typed == Some('w') {
                // Like vi, `cw` stops at the end of the word rather than eating the gap after it.
                let caret: usize = self.caret;
                let end: usize = match self.char_at(caret) {
                    Some(c) => {
                        if class(c) == 0 {
                            self.next_of(caret)
                        } else {
                            self.run_end(caret)
                        }
                    },
                    None => caret,
                };
                proof {
                    let p = chars_before(t, caret as int);
                    let q = chars_before(t, end as int);
                    lemma_boundary(t, end as int);
                    if p < q {
                        lemma_offset_increasing(t, p, q);
                    }
                }
                self.remove(caret, end);
                self.mode = Mode::Insert;
            }
            return ;
        }
        match typed {
            Some('h') => {
                self.caret = self.prev_of(self.caret);
            },
            Some('l') => {
                self.caret = self.next_of(self.caret);
            },
            Some('w') => {
                self.caret = self.next_word();
            },
            Some('b') => {
                self.caret = self.prev_word();
            },
            Some('0') => {
                self.caret = 0;
            },
            Some('$') => {
                self.caret = byte_len(self.text.as_str());
            },
            Some('x') => {
                let caret: usize = self.caret;
                let end: usize = self.next_of(caret);
                self.remove(caret, end);
            },
            Some('i') => {
                self.insert_mode(self.caret);
            },
            Some('a') => {
                let end: usize = self.next_of(self.caret);
                self.insert_mode(end);
            },
            Some('I') => {
                self.insert_mode(0);
            },
            Some('A') => {
                let end: usize = byte_len(self.text.as_str());
                self.insert_mode(end);
            },
            Some('c') => {
                self.pending = Some('c');
            },
            _ => {},
        }
        assert(self@ == before.awaiting(None).start(key@));
        self.clamp();
    }

    /// Escape: leave insert mode or drop a half-typed command. False if there was nothing to cancel.
    pub fn escape(&mut self) -> (r: bool)
        requires
            old(self).valid(),
        ensures
            final(self).valid(),
            r == old(self)@.escapes(),
            final(self)@ == old(self)@.escape(),
            final(self)@.settled() || !old(self)@.settled(),
    {
        proof {
            lemma_boundary(self.text@, self.caret as int);
        }
        if self.mode == Mode::Insert {
            // vi steps back onto the last inserted character.
            self.mode = Mode::Normal;
            self.caret = self.prev_of(self.caret);
            true
        } else {
            let pending = self.pending;
            self.pending = None;
            pending.is_some()
        }
    }

    pub fn left(&mut self)
        requires
            old(self).valid(),
        ensures
            final(self).valid(),
            final(self)@ == old(self)@.at(old(self)@.left()),
            old(self)@.settled() ==> final(self)@.settled(),
    {
        proof {
            lemma_boundary(self.text@, self.caret as int);
        }
        self.caret = self.prev_of(self.caret);
    }

    pub fn right(&mut self)
        requires
            old(self).valid(),
        ensures
            final(self).valid(),
            final(self)@ == old(self)@.at(old(self)@.right()).clamped(),
            final(self)@.settled(),
    {
        self.caret = self.next_of(self.caret);
        self.clamp();
    }

    /// Types `s` at the cursor. Meant for insert mode: in normal mode the cursor may end up behind
    /// the last character.
    pub fn insert(&mut self, s: &str)
        requires
            old(self).valid(),
        ensures
            final(self).valid(),
            final(self)@ == old(self)@.insert(s@),
            old(self)@.settled() && (old(self).mode == Mode::Insert || old(self).text@.len() > 0)
                ==> final(self)@.settled(),
    {
        let ghost t = self.text@;
        let ghost k = self@.pos;
        let caret: usize = self.caret;
        let (head, tail) = split_at(self.text.as_str(), caret);
        let mut text = head.to_owned();
        text.append(s);
        text.append(tail);
        let n: usize = byte_len(text.as_str());
        let m: usize = byte_len(s);
        proof {
            lemma_boundary(t, caret as int);
            assert(text@ =~= t.take(k) + s@ + t.skip(k));
            assert(text@.take(k + s@.len()) =~= t.take(k) + s@);
            crate::text::lemma_encode_concat(t.take(k), s@);
            lemma_offset(text@, k + s@.len());
        }
        assert(caret + m <= n);
        self.text = text;
        self.caret = caret + m;
    }

    /// Deletes the character before the cursor. Meant for insert mode.
    pub fn backspace(&mut self)
        requires
            old(self).valid(),
        ensures
            final(self).valid(),
            final(self)@ == old(self)@.backspace(),
            old(self)@.settled() ==> final(self)@.settled(),
    {
        proof {
            lemma_boundary(self.text@, self.caret as int);
        }
        let caret: usize = self.caret;
        let start: usize = self.prev_of(caret);
        self.remove(start, caret);
        self.caret = start;
    }
}

/// Every key leaves the cursor within the text, and in normal mode on a character.
pub proof fn law_command_keeps_cursor(l: Line, key: Seq<char>)
    requires
        l.valid(),
        l.settled(),
    ensures
        l.command(key).valid(),
        l.command(key).settled(),
{
    lemma_motions(l.text, l.pos);
}

/// A key that is no command changes nothing, and drops a command that waits for its second key.
pub proof fn law_unknown_key_cancels(l: Line, key: Seq<char>)
    requires
        l.valid(),
        l.settled(),
        if l.pending == Some('c') {
            key_char(key) != Some('w')
        } else {
            !is_command(key)
        },
    ensures
        l.command(key) == l.awaiting(None),
{
}

/// Moving the cursor changes neither the text nor the mode.
pub proof fn law_motions_keep_text(l: Line, key: Seq<char>)
    requires
        l.valid(),
        l.pending is None,
        key_char(key) matches Some(c) && (c == 'h' || c == 'l' || c == 'w' || c == 'b' || c == '0'
            || c == '$'),
    ensures
        l.command(key) == l.at(l.command(key).pos),
{
}

/// `w` never moves back, and stops on a character that starts a word or, when no word follows, on
/// the last character.
pub proof fn law_next_word(l: Line)
    requires
        l.valid(),
        l.settled(),
        l.mode == Mode::Normal,
        l.pending is None,
    ensures
        ({
            let p = l.command(seq!['w']).pos;
            &&& l.pos <= p
            &&& p + 1 < l.text.len() ==> class_of(l.text[p]) != 0
            &&& 0 < p && p + 1 < l.text.len() ==> class_of(l.text[p - 1]) != class_of(l.text[p])
        }),
{
    let t = l.text;
    let e = word_end_of(t, l.pos);
    assert(key_char(seq!['w']) == Some('w'));
    if l.pos < t.len() {
        lemma_run_end(t, l.pos, class_of(t[l.pos]));
        lemma_run_end(t, e, 0);
        let p = next_word_of(t, l.pos);
        if p < t.len() && p > 0 {
            if p == e {
                assert(class_of(t[l.pos]) != 0);
                assert(class_of(t[p - 1]) == class_of(t[l.pos]));
            } else {
                assert(class_of(t[p - 1]) == 0);
            }
        }
    }
}

/// `b` never moves forward, and stops at the start of the text or of a word.
pub proof fn law_prev_word(l: Line)
    requires
        l.valid(),
        l.settled(),
        l.mode == Mode::Normal,
        l.pending is None,
    ensures
        ({
            let p = l.command(seq!['b']).pos;
            &&& p <= l.pos
            &&& 0 < l.pos ==> p < l.pos
            &&& 0 < p ==> class_of(l.text[p]) != 0 && class_of(l.text[p - 1]) != class_of(l.text[p])
        }),
{
    let t = l.text;
    assert(key_char(seq!['b']) == Some('b'));
    lemma_run_start(t, l.pos, 0);
    let j = run_start_of(t, l.pos, 0);
    if j > 0 {
        lemma_run_start(t, j, class_of(t[j - 1]));
        let p = run_start_of(t, j, class_of(t[j - 1]));
        assert(p <= j - 1);
        assert(class_of(t[p]) == class_of(t[j - 1]));
    }
}

/// `cw` takes out the rest of the word and nothing behind it: what it removes is of one class, and
/// the character after it is not.
pub proof fn law_change_word_stops_at_its_end(l: Line)
    requires
        l.valid(),
        l.pending == Some('c'),
        l.pos < l.text.len(),
        class_of(l.text[l.pos]) != 0,
    ensures
        ({
            let after = l.command(seq!['w']);
            let end = word_end_of(l.text, l.pos);
            &&& after.mode == Mode::Insert
            &&& after.pos == l.pos
            &&& l.pos < end <= l.text.len()
            &&& after.text == l.text.take(l.pos) + l.text.skip(end)
            &&& forall|j: int|
                l.pos <= j < end ==> class_of(#[trigger] l.text[j]) == class_of(l.text[l.pos])
            &&& end < l.text.len() ==> class_of(l.text[end]) != class_of(l.text[l.pos])
        }),
{
    assert(key_char(seq!['w']) == Some('w'));
    lemma_run_end(l.text, l.pos, class_of(l.text[l.pos]));
}

/// `x` takes out the character under the cursor and no other.
pub proof fn law_delete_takes_one_character(l: Line)
    requires
        l.valid(),
        l.mode == Mode::Normal,
        l.pending is None,
        l.pos < l.text.len(),
    ensures
        l.command(seq!['x']).text == l.text.remove(l.pos),
        l.command(seq!['x']).mode == Mode::Normal,
{
    assert(key_char(seq!['x']) == Some('x'));
    assert(l.text.take(l.pos) + l.text.skip(l.pos + 1) =~= l.text.remove(l.pos));
}

/// Backspace takes back a typed character.
pub proof fn law_backspace_undoes_typing(l: Line, c: char)
    requires
        l.valid(),
    ensures
        l.insert(seq![c]).backspace() == l,
{
    let typed = l.insert(seq![c]);
    assert(typed.backspace().text =~= l.text);
}

/// Escape always ends in normal mode; a second Escape then has nothing to cancel.
pub proof fn law_escape_twice(l: Line)
    requires
        l.valid(),
        l.settled(),
        l.mode == Mode::Insert ==> l.pending is None,
    ensures
        l.escape().mode == Mode::Normal,
        l.escape().settled(),
        !l.escape().escapes(),
        !l.escapes() ==> l.escape() == l,
{
}

/// Characters are blanks, parts of words, or marks: letters, digits and `_` make up words, and so do
/// marks among themselves.
pub proof fn law_classes_of_characters(c: char)
    ensures
        whitespace(c) ==> class_of(c) == 0,
        !whitespace(c) && (alphanumeric(c) || c == '_') ==> class_of(c) == 1,
        !whitespace(c) && !alphanumeric(c) && c != '_' ==> class_of(c) == 2,
{
}

/// Whether a word starts at a place: a character that is no blank, behind one of another class.
pub open spec fn starts_word(t: Seq<char>, q: int) -> bool {
    &&& 0 <= q < t.len()
    &&& class_of(t[q]) != 0
    &&& q == 0 || class_of(t[q - 1]) != class_of(t[q])
}

/// `w` goes to the next start of a word, and to the last character where there is none.
pub proof fn law_w_goes_to_the_next_word(l: Line)
    requires
        l.valid(),
        l.settled(),
        l.mode == Mode::Normal,
        l.pending is None,
        l.text.len() > 0,
    ensures
        ({
            let p = l.command(seq!['w']).pos;
            &&& forall|q: int| l.pos < q < p ==> !#[trigger] starts_word(l.text, q)
            &&& (p > l.pos && starts_word(l.text, p)) || (p == l.text.len() - 1 && forall|q: int|
                l.pos < q ==> !#[trigger] starts_word(l.text, q))
        }),
{
    let t = l.text;
    let p0 = l.pos;
    assert(key_char(seq!['w']) == Some('w'));
    let e = word_end_of(t, p0);
    lemma_run_end(t, p0, class_of(t[p0]));
    lemma_run_end(t, e, 0);
    let p = next_word_of(t, p0);
    assert forall|q: int| p0 < q < p implies !#[trigger] starts_word(t, q) by {
        if q < e {
            assert(class_of(t[q]) == class_of(t[p0]));
            assert(class_of(t[q - 1]) == class_of(t[p0]));
        } else {
            assert(class_of(t[q]) == 0);
        }
    }
    if p < t.len() {
        if p == e {
            if class_of(t[p0]) != 0 {
                assert(class_of(t[p - 1]) == class_of(t[p0]));
            }
        } else {
            assert(class_of(t[p - 1]) == 0);
        }
        assert(p > p0);
        assert(starts_word(t, p));
    }
}

/// `b` goes to the last start of a word before the cursor, and to the start of the text where there is
/// none.
pub proof fn law_b_goes_to_the_word_before(l: Line)
    requires
        l.valid(),
        l.settled(),
        l.mode == Mode::Normal,
        l.pending is None,
        l.text.len() > 0,
    ensures
        ({
            let p = l.command(seq!['b']).pos;
            &&& forall|q: int| p < q < l.pos ==> !#[trigger] starts_word(l.text, q)
            &&& p == 0 || (p < l.pos && starts_word(l.text, p))
        }),
{
    let t = l.text;
    assert(key_char(seq!['b']) == Some('b'));
    lemma_run_start(t, l.pos, 0);
    let j = run_start_of(t, l.pos, 0);
    if j > 0 {
        let k = class_of(t[j - 1]);
        lemma_run_start(t, j, k);
        let p = run_start_of(t, j, k);
        assert forall|q: int| p < q < l.pos implies !#[trigger] starts_word(t, q) by {
            if q < j {
                assert(class_of(t[q]) == k);
                assert(class_of(t[q - 1]) == k);
            } else {
                assert(class_of(t[q]) == 0);
            }
        }
        assert(p <= j - 1);
        assert(class_of(t[p]) == k);
    } else {
        assert forall|q: int| 0 < q < l.pos implies !#[trigger] starts_word(t, q) by {
            assert(class_of(t[q]) == 0);
        }
    }
}

/// Where the other keys lead: `h` and `l` by one character, `0` and `$` to the ends of the text; in
/// normal mode the cursor stays on a character.
pub proof fn law_motions_lead_there(l: Line)
    requires
        l.valid(),
        l.settled(),
        l.mode == Mode::Normal,
        l.pending is None,
        l.text.len() > 0,
    ensures
        l.command(seq!['h']) == l.at(
            if l.pos == 0 {
                0
            } else {
                l.pos - 1
            },
        ),
        l.command(seq!['l']) == l.at(
            if l.pos + 1 < l.text.len() {
                l.pos + 1
            } else {
                l.pos
            },
        ),
        l.command(seq!['0']) == l.at(0),
        l.command(seq!['$']) == l.at(l.text.len() - 1),
{
    assert(key_char(seq!['h']) == Some('h'));
    assert(key_char(seq!['l']) == Some('l'));
    assert(key_char(seq!['0']) == Some('0'));
    assert(key_char(seq!['$']) == Some('$'));
}

/// The keys that start typing: `i` before the character under the cursor, `a` behind it, `I` at the
/// start and `A` at the end of the text. The text stays.
pub proof fn law_typing_starts_there(l: Line)
    requires
        l.valid(),
        l.settled(),
        l.mode == Mode::Normal,
        l.pending is None,
    ensures
        l.command(seq!['i']) == l.in_mode(Mode::Insert),
        l.command(seq!['a']) == l.at(
            if l.pos < l.text.len() {
                l.pos + 1
            } else {
                l.pos
            },
        ).in_mode(Mode::Insert),
        l.command(seq!['I']) == l.at(0).in_mode(Mode::Insert),
        l.command(seq!['A']) == l.at(l.text.len() as int).in_mode(Mode::Insert),
        l.command(seq!['c']) == l.awaiting(Some('c')),
{
    assert(key_char(seq!['i']) == Some('i'));
    assert(key_char(seq!['a']) == Some('a'));
    assert(key_char(seq!['I']) == Some('I'));
    assert(key_char(seq!['A']) == Some('A'));
    assert(key_char(seq!['c']) == Some('c'));
}

/// `cw` on a blank takes out that blank alone, and at the end of the text nothing; typing starts
/// where the cursor was.
pub proof fn law_change_on_a_blank(l: Line)
    requires
        l.valid(),
        l.pending == Some('c'),
        l.pos < l.text.len() ==> class_of(l.text[l.pos]) == 0,
    ensures
        ({
            let after = l.command(seq!['w']);
            &&& after.mode == Mode::Insert
            &&& after.pos == l.pos
            &&& after.pending is None
            &&& l.pos < l.text.len() ==> after.text == l.text.remove(l.pos)
            &&& l.pos == l.text.len() ==> after.text == l.text
        }),
{
    assert(key_char(seq!['w']) == Some('w'));
    if l.pos < l.text.len() {
        assert(l.text.take(l.pos) + l.text.skip(l.pos + 1) =~= l.text.remove(l.pos));
    } else {
        assert(l.text.take(l.pos) + l.text.skip(l.pos) =~= l.text);
    }
}

/// What is typed stands before the cursor: the text up to there, what was typed, the rest. Nothing
/// else changes.
pub proof fn law_typing_inserts_at_the_cursor(l: Line, s: Seq<char>, i: int)
    requires
        l.valid(),
        0 <= i < l.text.len() + s.len(),
    ensures
        l.insert(s).text.len() == l.text.len() + s.len(),
        l.insert(s).text[i] == (if i < l.pos {
            l.text[i]
        } else if i < l.pos + s.len() {
            s[i - l.pos]
        } else {
            l.text[i - s.len()]
        }),
        l.insert(s).pos == l.pos + s.len(),
        l.insert(s).mode == l.mode,
        l.insert(s).pending == l.pending,
{
}

/// Backspace takes out the character before the cursor, and at the start of the text nothing.
pub proof fn law_backspace_takes_the_character_before(l: Line)
    requires
        l.valid(),
    ensures
        l.pos > 0 ==> l.backspace().text == l.text.remove(l.pos - 1) && l.backspace().pos == l.pos - 1,
        l.pos == 0 ==> l.backspace() == l,
        l.backspace().mode == l.mode && l.backspace().pending == l.pending,
{
    if l.pos > 0 {
        assert(l.text.take(l.pos - 1) + l.text.skip(l.pos) =~= l.text.remove(l.pos - 1));
    } else {
        assert(l.text.take(0) + l.text.skip(0) =~= l.text);
    }
}

/// Escape has something to cancel while typing and between the two keys of a command. Leaving insert
/// mode steps back onto the character before the cursor; the text stays.
pub proof fn law_escape_steps_back(l: Line)
    requires
        l.valid(),
    ensures
        l.escapes() == (l.mode == Mode::Insert || l.pending is Some),
        l.escape().text == l.text,
        l.mode == Mode::Insert ==> l.escape().pos == (if l.pos > 0 {
            l.pos - 1
        } else {
            0
        }),
        l.mode == Mode::Normal ==> l.escape().pos == l.pos && l.escape().pending is None,
        l.escape().mode == Mode::Normal,
{
}

/// An offered text starts in normal mode on its last character.
pub proof fn law_starts_on_the_last_character(text: Seq<char>)
    ensures
        ({
            let l = Line { text, pos: text.len() as int, mode: Mode::Normal, pending: None }.clamped();
            &&& l.text == text
            &&& l.mode == Mode::Normal
            &&& l.pos == (if text.len() > 0 {
                text.len() - 1
            } else {
                0
            })
        }),
{
}

/// Moving the cursor, changing the mode and waiting for a second key change nothing else; a cut takes
/// out what lies between two places.
pub proof fn law_parts_of_a_line(l: Line, pos: int, mode: Mode, pending: Option<char>, i: int, j: int)
    requires
        0 <= i <= j <= l.text.len(),
    ensures
        l.at(pos) == (Line { text: l.text, pos, mode: l.mode, pending: l.pending }),
        l.in_mode(mode) == (Line { text: l.text, pos: l.pos, mode, pending: l.pending }),
        l.awaiting(pending) == (Line { text: l.text, pos: l.pos, mode: l.mode, pending }),
        l.cut(i, j).text == l.text.subrange(0, i) + l.text.subrange(j, l.text.len() as int),
        l.cut(i, j).pos == l.pos && l.cut(i, j).mode == l.mode && l.cut(i, j).pending == l.pending,
{
    assert(l.text.take(i) =~= l.text.subrange(0, i));
    assert(l.text.skip(j) =~= l.text.subrange(j, l.text.len() as int));
}

/// `x` leaves the cursor where it is, or on the last character where it would be behind it.
pub proof fn law_cursor_after_x(l: Line)
    requires
        l.valid(),
        l.mode == Mode::Normal,
        l.pending is None,
        l.pos < l.text.len(),
    ensures
        l.command(seq!['x']).pos == if l.pos + 1 < l.text.len() {
            l.pos
        } else if l.pos > 0 {
            l.pos - 1
        } else {
            0
        },
        l.command(seq!['x']).pending is None,
{
    assert(key_char(seq!['x']) == Some('x'));
}

/// A line in normal mode has its cursor on a character, the last one if it would be behind it; while
/// typing it may stand behind the last.
pub proof fn law_cursor_stays_on_the_text(l: Line)
    requires
        l.valid(),
    ensures
        l.mode == Mode::Insert ==> l.clamped() == l,
        l.mode == Mode::Normal && l.pos < l.text.len() ==> l.clamped() == l,
        l.mode == Mode::Normal && l.pos == l.text.len() && l.pos > 0 ==> l.clamped() == (Line {
            text: l.text,
            pos: l.pos - 1,
            mode: l.mode,
            pending: l.pending,
        }),
        l.text.len() == 0 ==> l.clamped() == l,
{
}

/// Escape has something to cancel while typing and while a command waits for its second key.
pub proof fn law_what_escape_cancels(l: Line)
    ensures
        l.escapes() <==> l.mode == Mode::Insert || l.pending is Some,
        l.mode == Mode::Normal ==> l.escape() == (Line {
            text: l.text,
            pos: l.pos,
            mode: l.mode,
            pending: None,
        }),
        l.mode == Mode::Insert ==> l.escape() == (Line {
            text: l.text,
            pos: if l.pos > 0 {
                l.pos - 1
            } else {
                0
            },
            mode: Mode::Normal,
            pending: l.pending,
        }),
{
}

/// After a `c`, `w` ends the command; the key of a command is one character.
pub proof fn law_change_is_done(l: Line, key: Seq<char>)
    requires
        l.valid(),
    ensures
        l.command(key).pending is None || l.command(key).pending == Some('c'),
        l.pending == Some('c') ==> l.command(key).pending is None,
        key.len() != 1 ==> !is_command(key) && key_char(key) is None,
        key.len() == 1 ==> key_char(key) == Some(key[0]),
{
}

} // verus!
