//! Reads the in-camera colour profile (film simulation, picture style, ...) from vendor MakerNotes.
//!
//! Tag numbers and value tables follow ExifTool's Panasonic, Canon, FujiFilm, Nikon and Sony modules.
use crate::tags::{ExifData, ExifView, FieldValue, FieldView};
use crate::text::{
    char_lower, char_to_lowercase, char_to_uppercase, char_upper, chars_of, from_utf8_lossy,
    has_prefix, lowercase, same_text, starts_with, text_of, text_view, to_lowercase,
    trim, trim_by, trim_of, utf8_lossy,
};
use vstd::prelude::*;
use vstd::slice::slice_subrange;
use vstd::string::*;

verus! {

/// A directory of tagged values.
#[derive(Clone, Copy)]
pub struct Ifd<'a> {
    pub buf: &'a [u8],
    pub le: bool,
    /// Offsets inside the IFD are relative to this position in `buf`.
    pub base: usize,
    pub start: usize,
}

/// A directory as numbers and bytes.
pub struct IfdView {
    pub buf: Seq<u8>,
    pub le: bool,
    pub base: int,
    pub start: int,
}

impl<'a> View for Ifd<'a> {
    type V = IfdView;

    open spec fn view(&self) -> IfdView {
        IfdView {
            buf: self.buf@,
            le: self.le,
            base: self.base as int,
            start: self.start as int,
        }
    }
}

/// The 16-bit number at `at`.
pub open spec fn u16_in(b: Seq<u8>, le: bool, at: int) -> Option<u16> {
    if 0 <= at && at + 2 <= b.len() {
        Some(
            if le {
                (b[at] + 0x100 * b[at + 1]) as u16
            } else {
                (0x100 * b[at] + b[at + 1]) as u16
            },
        )
    } else {
        None
    }
}

/// The 32-bit number at `at`.
pub open spec fn u32_in(b: Seq<u8>, le: bool, at: int) -> Option<u32> {
    if 0 <= at && at + 4 <= b.len() {
        Some(
            if le {
                (b[at] + 0x100 * b[at + 1] + 0x1_0000 * b[at + 2] + 0x100_0000 * b[at + 3]) as u32
            } else {
                (0x100_0000 * b[at] + 0x1_0000 * b[at + 1] + 0x100 * b[at + 2] + b[at + 3]) as u32
            },
        )
    } else {
        None
    }
}

/// Number of bytes of one value of a type.
pub open spec fn unit_of(kind: u16) -> Option<int> {
    if kind == 1 || kind == 2 || kind == 6 || kind == 7 {
        Some(1)
    } else if kind == 3 || kind == 8 {
        Some(2)
    } else if kind == 4 || kind == 9 || kind == 11 {
        Some(4)
    } else if kind == 5 || kind == 10 || kind == 12 {
        Some(8)
    } else {
        None
    }
}

impl IfdView {
    pub open spec fn u16(self, at: int) -> Option<u16> {
        u16_in(self.buf, self.le, at)
    }

    pub open spec fn u32(self, at: int) -> Option<u32> {
        u32_in(self.buf, self.le, at)
    }

    /// Where the `i`-th entry stands.
    pub open spec fn entry(self, i: int) -> int {
        self.start + 2 + i * 12
    }

    /// The first entry for `tag` from the `i`-th on, before the `n`-th. A damaged entry ends the
    /// search.
    pub open spec fn find(self, tag: u16, i: int, n: int) -> Option<int>
        decreases n - i,
    {
        if i >= n {
            None
        } else {
            match self.u16(self.entry(i)) {
                None => None,
                Some(t) => if t == tag {
                    Some(self.entry(i))
                } else {
                    self.find(tag, i + 1, n)
                },
            }
        }
    }

    /// How many entries are looked at: as many as there are, and no more than 512.
    pub open spec fn entries(self) -> Option<int> {
        match self.u16(self.start) {
            None => None,
            Some(count) => Some(
                if count < 512 {
                    count as int
                } else {
                    512
                },
            ),
        }
    }

    /// Number of bytes of the value of the entry at `e`.
    pub open spec fn size(self, e: int) -> Option<int> {
        match (self.u16(e + 2), self.u32(e + 4)) {
            (Some(kind), Some(count)) => match unit_of(kind) {
                Some(unit) => Some(unit * count),
                None => None,
            },
            _ => None,
        }
    }

    /// Where the value of the entry at `e` stands: in the entry if it has four bytes or fewer.
    pub open spec fn place(self, e: int) -> Option<int> {
        match self.size(e) {
            None => None,
            Some(size) => if size <= 4 {
                Some(e + 8)
            } else {
                match self.u32(e + 8) {
                    Some(at) => Some(self.base + at),
                    None => None,
                }
            },
        }
    }

    /// The bytes of the value of the entry at `e`.
    pub open spec fn bytes(self, e: int) -> Option<Seq<u8>> {
        match (self.size(e), self.place(e)) {
            (Some(size), Some(at)) => if at + size <= self.buf.len() {
                Some(self.buf.subrange(at, at + size))
            } else {
                None
            },
            _ => None,
        }
    }

    /// Raw bytes of the value for `tag`, if present.
    pub open spec fn get(self, tag: u16) -> Option<Seq<u8>> {
        match self.entries() {
            None => None,
            Some(n) => match self.find(tag, 0, n) {
                None => None,
                Some(e) => self.bytes(e),
            },
        }
    }

    /// The 16-bit number at `index` of the value for `tag`.
    pub open spec fn get_u16(self, tag: u16, index: int) -> Option<u16> {
        match self.get(tag) {
            None => None,
            Some(v) => u16_in(v, self.le, 2 * index),
        }
    }
}

fn read_u16(b: &[u8], le: bool, at: usize) -> (r: Option<u16>)
    ensures
        r == u16_in(b@, le, at as int),
{
    if b.len() < 2 || at > b.len() - 2 {
        return None;
    }
    let x: u16 = b[at] as u16;
    let y: u16 = b[at + 1] as u16;
    Some(
        if le {
            x + 0x100 * y
        } else {
            0x100 * x + y
        },
    )
}

fn read_u32(b: &[u8], le: bool, at: usize) -> (r: Option<u32>)
    ensures
        r == u32_in(b@, le, at as int),
{
    if b.len() < 4 || at > b.len() - 4 {
        return None;
    }
    let x: u32 = b[at] as u32;
    let y: u32 = b[at + 1] as u32;
    let z: u32 = b[at + 2] as u32;
    let w: u32 = b[at + 3] as u32;
    Some(
        if le {
            x + 0x100 * y + 0x1_0000 * z + 0x100_0000 * w
        } else {
            0x100_0000 * x + 0x1_0000 * y + 0x100 * z + w
        },
    )
}

impl<'a> Ifd<'a> {
    fn u16(&self, at: usize) -> (r: Option<u16>)
        ensures
            r == self@.u16(at as int),
    {
        read_u16(self.buf, self.le, at)
    }

    fn u32(&self, at: usize) -> (r: Option<u32>)
        ensures
            r == self@.u32(at as int),
    {
        read_u32(self.buf, self.le, at)
    }

    /// The first entry for `tag`.
    fn find(&self, tag: u16) -> (r: Option<usize>)
        ensures
            match r {
                Some(e) => self@.entries() is Some && self@.find(tag, 0, self@.entries()->0)
                    == Some(e as int) && e + 2 <= self.buf@.len(),
                None => self@.entries() is None || self@.find(tag, 0, self@.entries()->0) is None,
            },
    {
        let count: u16 = match self.u16(self.start) {
            Some(c) => c,
            None => {
                return None;
            },
        };
        let n: u16 = if count < 512 {
            count
        } else {
            512
        };
        let len: usize = self.buf.len();
        let mut e: usize = self.start + 2;
        let mut i: u16 = 0;
        while i < n
            invariant
                i <= n <= 512,
                len == self.buf@.len(),
                self@.entries() == Some(n as int),
                e == self@.entry(i as int),
                self@.find(tag, 0, n as int) == self@.find(tag, i as int, n as int),
            decreases n - i,
        {
            match self.u16(e) {
                None => {
                    return None;
                },
                Some(t) => {
                    if t == tag {
                        return Some(e);
                    }
                },
            }
            i += 1;
            match e.checked_add(12) {
                Some(next) => {
                    e = next;
                },
                None => {
                    // No buffer reaches that far, so the next entry cannot be read.
                    assert(self@.u16(self@.entry(i as int)) is None);
                    return None;
                },
            }
        }
        None
    }

    /// Raw bytes of the value for `tag`, if present.
    pub fn get(&self, tag: u16) -> (r: Option<&'a [u8]>)
        ensures
            match r {
                Some(v) => self@.get(tag) == Some(v@),
                None => self@.get(tag) is None,
            },
    {
        let e: usize = match self.find(tag) {
            Some(e) => e,
            None => {
                return None;
            },
        };
        let n: usize = self.buf.len();
        if n - e < 8 {
            return None;
        }
        let unit: u64 = match self.u16(e + 2) {
            Some(kind) => match kind {
                1 | 2 | 6 | 7 => 1,
                3 | 8 => 2,
                4 | 9 | 11 => 4,
                5 | 10 | 12 => 8,
                _ => {
                    return None;
                },
            },
            None => {
                return None;
            },
        };
        let count: u64 = match self.u32(e + 4) {
            Some(c) => c as u64,
            None => {
                return None;
            },
        };
        assert(unit * count <= 8 * 0x1_0000_0000) by (nonlinear_arith)
            requires
                unit <= 8,
                count < 0x1_0000_0000,
        ;
        let size: u64 = unit * count;
        let at: usize = if size <= 4 {
            e + 8
        } else {
            match self.u32(e + 8) {
                Some(off) => match self.base.checked_add(off as usize) {
                    Some(at) => at,
                    None => {
                        return None;
                    },
                },
                None => {
                    return None;
                },
            }
        };
        if at > n || size > (n - at) as u64 {
            return None;
        }
        Some(slice_subrange(self.buf, at, at + size as usize))
    }

    /// The 16-bit number at `index` of the value for `tag`.
    pub fn get_u16(&self, tag: u16, index: usize) -> (r: Option<u16>)
        ensures
            r == self@.get_u16(tag, index as int),
    {
        match self.get(tag) {
            None => None,
            Some(v) => {
                if index > v.len() / 2 {
                    None
                } else {
                    read_u16(v, self.le, 2 * index)
                }
            },
        }
    }
}

/// The text for `code` in a table.
pub open spec fn named(table: Seq<(u16, &'static str)>, code: u16) -> Option<Seq<char>>
    decreases table.len(),
{
    if table.len() == 0 {
        None
    } else if table[0].0 == code {
        Some(table[0].1@)
    } else {
        named(table.drop_first(), code)
    }
}

/// The text for `code` in a table.
fn lookup(table: &[(u16, &'static str)], code: u16) -> (r: Option<&'static str>)
    ensures
        match r {
            Some(s) => named(table@, code) == Some(s@),
            None => named(table@, code) is None,
        },
{
    let mut i: usize = 0;
    assert(table@.skip(0) =~= table@);
    while i < table.len()
        invariant
            i <= table.len(),
            named(table@, code) == named(table@.skip(i as int), code),
        decreases table.len() - i,
    {
        let ghost rest = table@.skip(i as int);
        assert(rest[0] == table@[i as int]);
        if table[i].0 == code {
            return Some(table[i].1);
        }
        assert(rest.drop_first() =~= table@.skip(i + 1));
        i += 1;
    }
    None
}

pub const PANASONIC_FILM_MODES: [(u16, &'static str); 9] = [
    (1, "Standard (color)"),
    (2, "Dynamic (color)"),
    (3, "Nature (color)"),
    (4, "Smooth (color)"),
    (5, "Standard (B&W)"),
    (6, "Dynamic (B&W)"),
    (7, "Smooth (B&W)"),
    (10, "Nostalgic"),
    (11, "Vibrant"),
];

pub const PANASONIC_PHOTO_STYLES: [(u16, &'static str); 14] = [
    (0, "Auto"),
    (1, "Standard or Custom"),
    (2, "Vivid"),
    (3, "Natural"),
    (4, "Monochrome"),
    (5, "Scenery"),
    (6, "Portrait"),
    (8, "Cinelike D"),
    (9, "Cinelike V"),
    (11, "L. Monochrome"),
    (12, "Like709"),
    (15, "L. Monochrome D"),
    (17, "V-Log"),
    (18, "Cinelike D2"),
];

pub const CANON_STYLES: [(u16, &'static str); 21] = [
    (0x01, "Standard"),
    (0x02, "Portrait"),
    (0x03, "High Saturation"),
    (0x04, "Adobe RGB"),
    (0x05, "Low Saturation"),
    (0x06, "CM Set 1"),
    (0x07, "CM Set 2"),
    (0x21, "User Def. 1"),
    (0x22, "User Def. 2"),
    (0x23, "User Def. 3"),
    (0x41, "PC 1"),
    (0x42, "PC 2"),
    (0x43, "PC 3"),
    (0x81, "Standard"),
    (0x82, "Portrait"),
    (0x83, "Landscape"),
    (0x84, "Neutral"),
    (0x85, "Faithful"),
    (0x86, "Monochrome"),
    (0x87, "Auto"),
    (0x88, "Fine Detail"),
];

pub const FUJIFILM_SATURATIONS: [(u16, &'static str); 9] = [
    (0x300, "Monochrome"),
    (0x301, "Monochrome + R Filter"),
    (0x302, "Monochrome + Ye Filter"),
    (0x303, "Monochrome + G Filter"),
    (0x310, "Sepia"),
    (0x500, "Acros"),
    (0x501, "Acros + R Filter"),
    (0x502, "Acros + Ye Filter"),
    (0x503, "Acros + G Filter"),
];

pub const FUJIFILM_FILM_MODES: [(u16, &'static str); 16] = [
    (0x000, "Provia / Standard"),
    (0x100, "Studio Portrait"),
    (0x110, "Studio Portrait Enhanced Saturation"),
    (0x120, "Astia / Soft"),
    (0x130, "Studio Portrait Increased Sharpness"),
    (0x200, "Velvia / Vivid"),
    (0x300, "Studio Portrait Ex"),
    (0x400, "Velvia"),
    (0x500, "Pro Neg. Std"),
    (0x501, "Pro Neg. Hi"),
    (0x600, "Classic Chrome"),
    (0x700, "Eterna"),
    (0x800, "Classic Negative"),
    (0x900, "Eterna Bleach Bypass"),
    (0xa00, "Nostalgic Neg."),
    (0xb00, "Reala Ace"),
];

/// The text for an optional code.
pub open spec fn named_opt(table: Seq<(u16, &'static str)>, code: Option<u16>) -> Option<Seq<char>> {
    match code {
        Some(c) => named(table, c),
        None => None,
    }
}

fn lookup_opt(table: &[(u16, &'static str)], code: Option<u16>) -> (r: Option<&'static str>)
    ensures
        match r {
            Some(s) => named_opt(table@, code) == Some(s@),
            None => named_opt(table@, code) is None,
        },
{
    match code {
        Some(c) => lookup(table, c),
        None => None,
    }
}

/// Older Panasonic bodies (e.g. LX3, GH1) use FilmMode; newer ones use PhotoStyle.
pub open spec fn panasonic_of(ifd: IfdView) -> Option<Seq<char>> {
    match named_opt(PANASONIC_FILM_MODES@, ifd.get_u16(0x42, 0)) {
        Some(film) => Some(film),
        None => named_opt(PANASONIC_PHOTO_STYLES@, ifd.get_u16(0x89, 0)),
    }
}

/// Whether the style is one of the three that the user defines.
pub open spec fn is_user_def(code: u16) -> bool {
    0x21 <= code <= 0x23
}

/// ProcessingInfo (0xa0) holds Canon's PictureStyle at entry 10. For user-defined styles,
/// PictureStyleUserDef (0x4008) holds the style each is based on.
pub open spec fn canon_of(ifd: IfdView) -> Option<Seq<char>> {
    match ifd.get_u16(0xa0, 10) {
        None => None,
        Some(code) => match named(CANON_STYLES@, code) {
            None => None,
            Some(name) => match named_opt(CANON_STYLES@, ifd.get_u16(0x4008, code - 0x21)) {
                Some(base) => if is_user_def(code) {
                    Some(based_on(name, base))
                } else {
                    Some(name)
                },
                None => Some(name),
            },
        },
    }
}

/// "name (base)".
pub open spec fn based_on(name: Seq<char>, base: Seq<char>) -> Seq<char> {
    name + " ("@ + base + ")"@
}

/// Fujifilm's monochrome simulations are recorded in the Saturation tag rather than FilmMode.
pub open spec fn fujifilm_of(ifd: IfdView) -> Option<Seq<char>> {
    match named_opt(FUJIFILM_SATURATIONS@, ifd.get_u16(0x1003, 0)) {
        Some(mono) => Some(mono),
        None => named_opt(FUJIFILM_FILM_MODES@, ifd.get_u16(0x1401, 0)),
    }
}

/// How many bytes come before the first zero.
pub open spec fn before_zero(b: Seq<u8>) -> int
    decreases b.len(),
{
    if b.len() == 0 || b[0] == 0 {
        0
    } else {
        1 + before_zero(b.drop_first())
    }
}

/// The text in a field of bytes: up to the first zero, without blanks around it.
pub open spec fn text_in(b: Seq<u8>) -> Option<Seq<char>> {
    let s = trim_of(utf8_lossy(b.take(before_zero(b))));
    if s.len() > 0 {
        Some(s)
    } else {
        None
    }
}

/// What becomes of the `i`-th character of `s` in title case.
pub open spec fn title_char(s: Seq<char>, i: int) -> Seq<char> {
    if s[i] == ' ' {
        seq![' ']
    } else if i == 0 || s[i - 1] == ' ' {
        char_upper(s[i])
    } else {
        char_lower(s[i])
    }
}

/// The first `n` characters of `s` in title case: words start in upper case and go on in lower case.
pub open spec fn title_of(s: Seq<char>, n: int) -> Seq<char>
    decreases n,
{
    if n <= 0 {
        Seq::empty()
    } else {
        title_of(s, n - 1) + title_char(s, n - 1)
    }
}

/// Whether `b` starts with `p`.
pub open spec fn bytes_start(b: Seq<u8>, p: Seq<u8>) -> bool {
    p.len() <= b.len() && b.take(p.len() as int) == p
}

/// The text in the `n` bytes from `at` on, in title case.
pub open spec fn title_in(b: Seq<u8>, at: int, n: int) -> Option<Seq<char>> {
    if at + n <= b.len() {
        match text_in(b.subrange(at, at + n)) {
            Some(s) => Some(title_of(s, s.len() as int)),
            None => None,
        }
    } else {
        None
    }
}

pub const NIKON_03: [u8; 2] = [0x30, 0x33];

/// Nikon's Picture Control: its name and, where that is another, the one it is based on.
pub open spec fn nikon_of(ifd: IfdView) -> Option<Seq<char>> {
    match ifd.get(0x0023) {
        None => None,
        Some(data) => {
            let at = if bytes_start(data, NIKON_03@) {
                8int
            } else {
                4int
            };
            match title_in(data, at, 20) {
                None => None,
                Some(name) => match title_in(data, at + 20, 20) {
                    Some(base) => if base != name {
                        Some(based_on(name, base))
                    } else {
                        Some(name)
                    },
                    None => Some(name),
                },
            }
        },
    }
}

pub open spec fn sony_of(ifd: IfdView) -> Option<Seq<char>> {
    match ifd.get(0xb020) {
        None => None,
        Some(data) => text_in(data),
    }
}

/// "Panasonic\0"
pub const PANASONIC: [u8; 10] = [0x50, 0x61, 0x6e, 0x61, 0x73, 0x6f, 0x6e, 0x69, 0x63, 0];

/// "FUJIFILM"
pub const FUJIFILM: [u8; 8] = [0x46, 0x55, 0x4a, 0x49, 0x46, 0x49, 0x4c, 0x4d];

/// "Nikon\0\x02"
pub const NIKON: [u8; 7] = [0x4e, 0x69, 0x6b, 0x6f, 0x6e, 0, 2];

/// "SONY DSC "
pub const SONY_DSC: [u8; 9] = [0x53, 0x4f, 0x4e, 0x59, 0x20, 0x44, 0x53, 0x43, 0x20];

/// "SONY CAM "
pub const SONY_CAM: [u8; 9] = [0x53, 0x4f, 0x4e, 0x59, 0x20, 0x43, 0x41, 0x4d, 0x20];

/// The quotes around a displayed text.
pub open spec fn quote() -> spec_fn(char) -> bool {
    |c: char| c == '"'
}

/// The make in lower case, without quotes.
pub open spec fn plain_make(shown: Option<Seq<char>>) -> Seq<char> {
    match shown {
        Some(s) => lowercase(trim_by(s, quote())),
        None => lowercase(trim_by(Seq::empty(), quote())),
    }
}

/// A directory of the TIFF data.
pub open spec fn tiff_ifd(exif: ExifView, start: int) -> IfdView {
    IfdView { buf: exif.buf, le: exif.little_endian, base: 0, start }
}

/// The directory of a Fujifilm note at `mn`: little-endian, with offsets from the note's start.
pub open spec fn fujifilm_ifd(exif: ExifView, note: Seq<u8>, mn: int) -> Option<IfdView> {
    match u32_in(note, true, 8) {
        Some(start) => Some(IfdView { buf: exif.buf, le: true, base: mn, start: mn + start }),
        None => None,
    }
}

/// The directory of a Nikon note at `mn`: an embedded TIFF header follows the 10-byte signature,
/// and offsets are relative to it.
pub open spec fn nikon_ifd(exif: ExifView, note: Seq<u8>, mn: int) -> Option<IfdView> {
    if note.len() < 12 {
        None
    } else {
        let le = note[10] == 0x49 && note[11] == 0x49;
        let base = mn + 10;
        match u32_in(exif.buf, le, base + 4) {
            Some(start) => Some(IfdView { buf: exif.buf, le, base, start: base + start }),
            None => None,
        }
    }
}

/// The camera's colour profile, as its MakerNote `note` at the offset `mn` records it.
pub open spec fn note_profile(exif: ExifView, note: Seq<u8>, mn: int) -> Option<Seq<char>> {
    let make = plain_make(exif.make_shown);
    if bytes_start(note, PANASONIC@) {
        panasonic_of(tiff_ifd(exif, mn + 12))
    } else if bytes_start(note, FUJIFILM@) {
        match fujifilm_ifd(exif, note, mn) {
            Some(ifd) => fujifilm_of(ifd),
            None => None,
        }
    } else if bytes_start(note, NIKON@) {
        match nikon_ifd(exif, note, mn) {
            Some(ifd) => nikon_of(ifd),
            None => None,
        }
    } else if bytes_start(note, SONY_DSC@) || bytes_start(note, SONY_CAM@) {
        sony_of(tiff_ifd(exif, mn + 12))
    } else if starts_with(make, "canon"@) {
        canon_of(tiff_ifd(exif, mn))
    } else if starts_with(make, "sony"@) {
        sony_of(tiff_ifd(exif, mn))
    } else {
        None
    }
}

/// The camera's colour profile.
pub open spec fn color_profile_of(exif: ExifView) -> Option<Seq<char>> {
    match exif.maker_note {
        Some(FieldView::Undefined(note, offset)) => note_profile(exif, note, offset as int),
        _ => None,
    }
}

fn bytes_have_prefix(b: &[u8], p: &[u8]) -> (r: bool)
    ensures
        r == bytes_start(b@, p@),
{
    if p.len() > b.len() {
        return false;
    }
    let mut i: usize = 0;
    while i < p.len()
        invariant
            i <= p@.len() <= b@.len(),
            forall|j: int| 0 <= j < i ==> b@[j] == p@[j],
        decreases p.len() - i,
    {
        if b[i] != p[i] {
            assert(b@.take(p@.len() as int)[i as int] == b@[i as int]);
            return false;
        }
        i += 1;
    }
    assert(b@.take(p@.len() as int) =~= p@);
    true
}

fn with_base(name: &str, base: &str) -> (r: String)
    ensures
        r@ == based_on(name@, base@),
{
    let mut out = name.to_owned();
    out.append(" (");
    out.append(base);
    out.append(")");
    out
}

fn owned(s: Option<&'static str>) -> (r: Option<String>)
    ensures
        text_view(r) == (match s {
            Some(t) => Some(t@),
            None => None,
        }),
{
    match s {
        Some(t) => Some(t.to_owned()),
        None => None,
    }
}

/// The text in a field of bytes.
fn text(bytes: &[u8]) -> (r: Option<String>)
    ensures
        text_view(r) == text_in(bytes@),
{
    let mut end: usize = 0;
    assert(bytes@.skip(0) =~= bytes@);
    while end < bytes.len() && bytes[end] != 0
        invariant
            end <= bytes.len(),
            before_zero(bytes@) == end + before_zero(bytes@.skip(end as int)),
        decreases bytes.len() - end,
    {
        assert(bytes@.skip(end as int)[0] == bytes@[end as int]);
        assert(bytes@.skip(end as int).drop_first() =~= bytes@.skip(end + 1));
        end += 1;
    }
    assert(end < bytes@.len() ==> bytes@.skip(end as int)[0] == bytes@[end as int]);
    assert(bytes@.subrange(0, end as int) =~= bytes@.take(end as int));
    let s = trim(from_utf8_lossy(slice_subrange(bytes, 0, end)).as_str());
    if s.as_str().is_empty() {
        None
    } else {
        Some(s)
    }
}

/// "MY FILM LOOK" -> "My Film Look" (Nikon stores Picture Control names in upper case).
pub fn title_case(s: &str) -> (r: String)
    ensures
        r@ == title_of(s@, s@.len() as int),
{
    let c = chars_of(s);
    let mut out = String::new();
    let mut i: usize = 0;
    while i < c.len()
        invariant
            i <= c.len(),
            c@ == s@,
            out@ == title_of(s@, i as int),
        decreases c.len() - i,
    {
        if c[i] == ' ' {
            out.push(' ');
            assert(out@ =~= title_of(s@, i as int) + seq![' ']);
        } else if i == 0 || c[i - 1] == ' ' {
            out.append(char_to_uppercase(c[i]).as_str());
        } else {
            out.append(char_to_lowercase(c[i]).as_str());
        }
        i += 1;
    }
    out
}

/// The text in the `n` bytes from `at` on, in title case.
fn title(b: &[u8], at: usize, n: usize) -> (r: Option<String>)
    requires
        at + n <= 0xffff,
    ensures
        text_view(r) == title_in(b@, at as int, n as int),
{
    if b.len() < at + n {
        return None;
    }
    match text(slice_subrange(b, at, at + n)) {
        Some(s) => Some(title_case(s.as_str())),
        None => None,
    }
}

pub fn panasonic(ifd: &Ifd) -> (r: Option<String>)
    ensures
        text_view(r) == panasonic_of(ifd@),
{
    match lookup_opt(&PANASONIC_FILM_MODES, ifd.get_u16(0x42, 0)) {
        Some(film) => Some(film.to_owned()),
        None => owned(lookup_opt(&PANASONIC_PHOTO_STYLES, ifd.get_u16(0x89, 0))),
    }
}

pub fn canon_style(code: u16) -> (r: Option<&'static str>)
    ensures
        match r {
            Some(s) => named(CANON_STYLES@, code) == Some(s@),
            None => named(CANON_STYLES@, code) is None,
        },
{
    lookup(&CANON_STYLES, code)
}

pub fn canon(ifd: &Ifd) -> (r: Option<String>)
    ensures
        text_view(r) == canon_of(ifd@),
{
    let code: u16 = match ifd.get_u16(0xa0, 10) {
        Some(c) => c,
        None => {
            return None;
        },
    };
    let name = match canon_style(code) {
        Some(n) => n,
        None => {
            return None;
        },
    };
    if 0x21 <= code && code <= 0x23 {
        match lookup_opt(&CANON_STYLES, ifd.get_u16(0x4008, (code - 0x21) as usize)) {
            Some(base) => {
                return Some(with_base(name, base));
            },
            None => {},
        }
    }
    Some(name.to_owned())
}

pub fn fujifilm(ifd: &Ifd) -> (r: Option<String>)
    ensures
        text_view(r) == fujifilm_of(ifd@),
{
    match lookup_opt(&FUJIFILM_SATURATIONS, ifd.get_u16(0x1003, 0)) {
        Some(mono) => Some(mono.to_owned()),
        None => owned(lookup_opt(&FUJIFILM_FILM_MODES, ifd.get_u16(0x1401, 0))),
    }
}

pub fn nikon(ifd: &Ifd) -> (r: Option<String>)
    ensures
        text_view(r) == nikon_of(ifd@),
{
    let data = match ifd.get(0x0023) {
        Some(d) => d,
        None => {
            return None;
        },
    };
    let at: usize = if bytes_have_prefix(data, &NIKON_03) {
        8
    } else {
        4
    };
    let name = match title(data, at, 20) {
        Some(n) => n,
        None => {
            return None;
        },
    };
    match title(data, at + 20, 20) {
        Some(base) => {
            if !same_text(base.as_str(), name.as_str()) {
                return Some(with_base(name.as_str(), base.as_str()));
            }
        },
        None => {},
    }
    Some(name)
}

pub fn sony(ifd: &Ifd) -> (r: Option<String>)
    ensures
        text_view(r) == sony_of(ifd@),
{
    match ifd.get(0xb020) {
        Some(data) => text(data),
        None => None,
    }
}

/// The make in lower case, without quotes.
fn make_name(shown: &Option<String>) -> (r: String)
    ensures
        r@ == plain_make(text_view(*shown)),
{
    let empty = String::new();
    let s = match shown {
        Some(s) => s,
        None => &empty,
    };
    let c = chars_of(s.as_str());
    let ghost t = s@;
    let ghost q = quote();
    assert(t.len() == 0 ==> t =~= Seq::empty());
    let n: usize = c.len();
    let mut i: usize = 0;
    assert(t.skip(0) =~= t);
    while i < n && c[i] == '"'
        invariant
            i <= n,
            n == t.len(),
            c@ == t,
            q == quote(),
            crate::text::lead(t, q) == i + crate::text::lead(t.skip(i as int), q),
        decreases n - i,
    {
        assert(t.skip(i as int)[0] == t[i as int]);
        assert(t.skip(i as int).drop_first() =~= t.skip(i + 1));
        i += 1;
    }
    let ghost u = t.skip(i as int);
    assert(i < n ==> u[0] == t[i as int]);
    let mut j: usize = n;
    assert(u.take(n - i) =~= u);
    while j > i && c[j - 1] == '"'
        invariant
            i <= j <= n,
            n == t.len(),
            c@ == t,
            q == quote(),
            u == t.skip(i as int),
            crate::text::kept(u, q) == crate::text::kept(u.take(j - i), q),
        decreases j,
    {
        assert(u.take(j - i).last() == t[j - 1]);
        assert(u.take(j - i).drop_last() =~= u.take(j - 1 - i));
        j -= 1;
    }
    assert(j > i ==> u.take(j - i).last() == t[j - 1]);
    assert(t.subrange(i as int, j as int) =~= u.take(j - i));
    assert(t.subrange(i as int, j as int) == trim_by(t, q));
    let plain = text_of(c.as_slice(), i, j);
    to_lowercase(plain.as_str())
}

/// A directory that starts behind the end of its buffer holds nothing.
proof fn lemma_far_ifd(ifd: IfdView)
    requires
        ifd.start + 2 > ifd.buf.len(),
    ensures
        forall|tag: u16| (#[trigger] ifd.get(tag)) is None,
{
}

fn fujifilm_profile(exif: &ExifData, note: &[u8], mn: usize) -> (r: Option<String>)
    ensures
        text_view(r) == (match fujifilm_ifd(exif@, note@, mn as int) {
            Some(ifd) => fujifilm_of(ifd),
            None => None,
        }),
{
    let buf = exif.buf.as_slice();
    let len: usize = buf.len();
    match read_u32(note, true, 8) {
        None => None,
        Some(offset) => match mn.checked_add(offset as usize) {
            Some(start) => fujifilm(&Ifd { buf, le: true, base: mn, start }),
            None => {
                proof {
                    lemma_far_ifd(fujifilm_ifd(exif@, note@, mn as int)->0);
                }
                None
            },
        },
    }
}

fn nikon_profile(exif: &ExifData, note: &[u8], mn: usize) -> (r: Option<String>)
    ensures
        text_view(r) == (match nikon_ifd(exif@, note@, mn as int) {
            Some(ifd) => nikon_of(ifd),
            None => None,
        }),
{
    let buf = exif.buf.as_slice();
    let len: usize = buf.len();
    if note.len() < 12 {
        return None;
    }
    let le = note[10] == 0x49 && note[11] == 0x49;
    if len < 14 || mn > len - 14 {
        return None;
    }
    // An embedded TIFF header follows the 10-byte signature; offsets are relative to it.
    let base: usize = mn + 10;
    match read_u32(buf, le, base + 4) {
        None => None,
        Some(offset) => match base.checked_add(offset as usize) {
            Some(start) => nikon(&Ifd { buf, le, base, start }),
            None => {
                proof {
                    lemma_far_ifd(nikon_ifd(exif@, note@, mn as int)->0);
                }
                None
            },
        },
    }
}

/// The camera's colour profile, e.g. "Classic Chrome", "Nostalgic", "User Def. 3 (PC 3)".
pub fn color_profile(exif: &ExifData) -> (r: Option<String>)
    ensures
        text_view(r) == color_profile_of(exif@),
{
    let (note, offset): (&Vec<u8>, u32) = match &exif.maker_note {
        Some(FieldValue::Undefined(note, offset)) => (note, *offset),
        _ => {
            return None;
        },
    };
    let note = note.as_slice();
    let buf = exif.buf.as_slice();
    let len: usize = buf.len();
    let le = exif.little_endian;
    let mn: usize = offset as usize;
    if bytes_have_prefix(note, &PANASONIC) {
        return match mn.checked_add(12) {
            Some(start) => panasonic(&Ifd { buf, le, base: 0, start }),
            None => {
                proof {
                    lemma_far_ifd(tiff_ifd(exif@, mn + 12));
                }
                None
            },
        };
    }
    if bytes_have_prefix(note, &FUJIFILM) {
        return fujifilm_profile(exif, note, mn);
    }
    if bytes_have_prefix(note, &NIKON) {
        return nikon_profile(exif, note, mn);
    }
    if bytes_have_prefix(note, &SONY_DSC) || bytes_have_prefix(note, &SONY_CAM) {
        return match mn.checked_add(12) {
            Some(start) => sony(&Ifd { buf, le, base: 0, start }),
            None => {
                proof {
                    lemma_far_ifd(tiff_ifd(exif@, mn + 12));
                }
                None
            },
        };
    }
    let make = make_name(&exif.make_shown);
    if has_prefix(make.as_str(), "canon") {
        return canon(&Ifd { buf, le, base: 0, start: mn });
    }
    if has_prefix(make.as_str(), "sony") {
        return sony(&Ifd { buf, le, base: 0, start: mn });
    }
    None
}

proof fn lemma_named_at(table: Seq<(u16, &'static str)>, i: int)
    requires
        0 <= i < table.len(),
        forall|j: int| 0 <= j < i ==> (#[trigger] table[j]).0 != table[i].0,
    ensures
        named(table, table[i].0) == Some(table[i].1@),
    decreases i,
{
    if i > 0 {
        let rest = table.drop_first();
        assert(rest[i - 1] == table[i]);
        assert(table[0].0 != table[i].0);
        assert forall|j: int| 0 <= j < i - 1 implies (#[trigger] rest[j]).0 != rest[i - 1].0 by {
            assert(rest[j] == table[j + 1]);
        }
        lemma_named_at(rest, i - 1);
    }
}

proof fn lemma_named_none(table: Seq<(u16, &'static str)>, code: u16)
    requires
        forall|j: int| 0 <= j < table.len() ==> (#[trigger] table[j]).0 != code,
    ensures
        named(table, code) is None,
    decreases table.len(),
{
    if table.len() > 0 {
        let rest = table.drop_first();
        assert(table[0].0 != code);
        assert forall|j: int| 0 <= j < rest.len() implies (#[trigger] rest[j]).0 != code by {
            assert(rest[j] == table[j + 1]);
        }
        lemma_named_none(rest, code);
    }
}

/// The film modes of older Panasonic bodies, by their codes.
pub proof fn law_panasonic_film_modes(code: u16)
    ensures
        code == 1 ==> named(PANASONIC_FILM_MODES@, code) == Some("Standard (color)"@),
        code == 2 ==> named(PANASONIC_FILM_MODES@, code) == Some("Dynamic (color)"@),
        code == 3 ==> named(PANASONIC_FILM_MODES@, code) == Some("Nature (color)"@),
        code == 4 ==> named(PANASONIC_FILM_MODES@, code) == Some("Smooth (color)"@),
        code == 5 ==> named(PANASONIC_FILM_MODES@, code) == Some("Standard (B&W)"@),
        code == 6 ==> named(PANASONIC_FILM_MODES@, code) == Some("Dynamic (B&W)"@),
        code == 7 ==> named(PANASONIC_FILM_MODES@, code) == Some("Smooth (B&W)"@),
        code == 10 ==> named(PANASONIC_FILM_MODES@, code) == Some("Nostalgic"@),
        code == 11 ==> named(PANASONIC_FILM_MODES@, code) == Some("Vibrant"@),
        !(code == 1 || code == 2 || code == 3 || code == 4 || code == 5 || code == 6 || code == 7 || code == 10 || code == 11) ==> named(PANASONIC_FILM_MODES@, code) is None,
{
    let table = PANASONIC_FILM_MODES@;
    assert(table.len() == 9);
    assert(table[0] == (1u16, "Standard (color)"));
    assert(table[1] == (2u16, "Dynamic (color)"));
    assert(table[2] == (3u16, "Nature (color)"));
    assert(table[3] == (4u16, "Smooth (color)"));
    assert(table[4] == (5u16, "Standard (B&W)"));
    assert(table[5] == (6u16, "Dynamic (B&W)"));
    assert(table[6] == (7u16, "Smooth (B&W)"));
    assert(table[7] == (10u16, "Nostalgic"));
    assert(table[8] == (11u16, "Vibrant"));
    if code == 1 {
        lemma_named_at(table, 0);
    } else if code == 2 {
        lemma_named_at(table, 1);
    } else if code == 3 {
        lemma_named_at(table, 2);
    } else if code == 4 {
        lemma_named_at(table, 3);
    } else if code == 5 {
        lemma_named_at(table, 4);
    } else if code == 6 {
        lemma_named_at(table, 5);
    } else if code == 7 {
        lemma_named_at(table, 6);
    } else if code == 10 {
        lemma_named_at(table, 7);
    } else if code == 11 {
        lemma_named_at(table, 8);
    } else {
        lemma_named_none(table, code);
    }
}

/// The photo styles of newer Panasonic bodies, by their codes.
pub proof fn law_panasonic_photo_styles(code: u16)
    ensures
        code == 0 ==> named(PANASONIC_PHOTO_STYLES@, code) == Some("Auto"@),
        code == 1 ==> named(PANASONIC_PHOTO_STYLES@, code) == Some("Standard or Custom"@),
        code == 2 ==> named(PANASONIC_PHOTO_STYLES@, code) == Some("Vivid"@),
        code == 3 ==> named(PANASONIC_PHOTO_STYLES@, code) == Some("Natural"@),
        code == 4 ==> named(PANASONIC_PHOTO_STYLES@, code) == Some("Monochrome"@),
        code == 5 ==> named(PANASONIC_PHOTO_STYLES@, code) == Some("Scenery"@),
        code == 6 ==> named(PANASONIC_PHOTO_STYLES@, code) == Some("Portrait"@),
        code == 8 ==> named(PANASONIC_PHOTO_STYLES@, code) == Some("Cinelike D"@),
        code == 9 ==> named(PANASONIC_PHOTO_STYLES@, code) == Some("Cinelike V"@),
        code == 11 ==> named(PANASONIC_PHOTO_STYLES@, code) == Some("L. Monochrome"@),
        code == 12 ==> named(PANASONIC_PHOTO_STYLES@, code) == Some("Like709"@),
        code == 15 ==> named(PANASONIC_PHOTO_STYLES@, code) == Some("L. Monochrome D"@),
        code == 17 ==> named(PANASONIC_PHOTO_STYLES@, code) == Some("V-Log"@),
        code == 18 ==> named(PANASONIC_PHOTO_STYLES@, code) == Some("Cinelike D2"@),
        !(code == 0 || code == 1 || code == 2 || code == 3 || code == 4 || code == 5 || code == 6 || code == 8 || code == 9 || code == 11 || code == 12 || code == 15 || code == 17 || code == 18) ==> named(PANASONIC_PHOTO_STYLES@, code) is None,
{
    let table = PANASONIC_PHOTO_STYLES@;
    assert(table.len() == 14);
    assert(table[0] == (0u16, "Auto"));
    assert(table[1] == (1u16, "Standard or Custom"));
    assert(table[2] == (2u16, "Vivid"));
    assert(table[3] == (3u16, "Natural"));
    assert(table[4] == (4u16, "Monochrome"));
    assert(table[5] == (5u16, "Scenery"));
    assert(table[6] == (6u16, "Portrait"));
    assert(table[7] == (8u16, "Cinelike D"));
    assert(table[8] == (9u16, "Cinelike V"));
    assert(table[9] == (11u16, "L. Monochrome"));
    assert(table[10] == (12u16, "Like709"));
    assert(table[11] == (15u16, "L. Monochrome D"));
    assert(table[12] == (17u16, "V-Log"));
    assert(table[13] == (18u16, "Cinelike D2"));
    if code == 0 {
        lemma_named_at(table, 0);
    } else if code == 1 {
        lemma_named_at(table, 1);
    } else if code == 2 {
        lemma_named_at(table, 2);
    } else if code == 3 {
        lemma_named_at(table, 3);
    } else if code == 4 {
        lemma_named_at(table, 4);
    } else if code == 5 {
        lemma_named_at(table, 5);
    } else if code == 6 {
        lemma_named_at(table, 6);
    } else if code == 8 {
        lemma_named_at(table, 7);
    } else if code == 9 {
        lemma_named_at(table, 8);
    } else if code == 11 {
        lemma_named_at(table, 9);
    } else if code == 12 {
        lemma_named_at(table, 10);
    } else if code == 15 {
        lemma_named_at(table, 11);
    } else if code == 17 {
        lemma_named_at(table, 12);
    } else if code == 18 {
        lemma_named_at(table, 13);
    } else {
        lemma_named_none(table, code);
    }
}

/// The picture styles of Canon, by their codes.
pub proof fn law_canon_styles(code: u16)
    ensures
        code == 0x01 ==> named(CANON_STYLES@, code) == Some("Standard"@),
        code == 0x02 ==> named(CANON_STYLES@, code) == Some("Portrait"@),
        code == 0x03 ==> named(CANON_STYLES@, code) == Some("High Saturation"@),
        code == 0x04 ==> named(CANON_STYLES@, code) == Some("Adobe RGB"@),
        code == 0x05 ==> named(CANON_STYLES@, code) == Some("Low Saturation"@),
        code == 0x06 ==> named(CANON_STYLES@, code) == Some("CM Set 1"@),
        code == 0x07 ==> named(CANON_STYLES@, code) == Some("CM Set 2"@),
        code == 0x21 ==> named(CANON_STYLES@, code) == Some("User Def. 1"@),
        code == 0x22 ==> named(CANON_STYLES@, code) == Some("User Def. 2"@),
        code == 0x23 ==> named(CANON_STYLES@, code) == Some("User Def. 3"@),
        code == 0x41 ==> named(CANON_STYLES@, code) == Some("PC 1"@),
        code == 0x42 ==> named(CANON_STYLES@, code) == Some("PC 2"@),
        code == 0x43 ==> named(CANON_STYLES@, code) == Some("PC 3"@),
        code == 0x81 ==> named(CANON_STYLES@, code) == Some("Standard"@),
        code == 0x82 ==> named(CANON_STYLES@, code) == Some("Portrait"@),
        code == 0x83 ==> named(CANON_STYLES@, code) == Some("Landscape"@),
        code == 0x84 ==> named(CANON_STYLES@, code) == Some("Neutral"@),
        code == 0x85 ==> named(CANON_STYLES@, code) == Some("Faithful"@),
        code == 0x86 ==> named(CANON_STYLES@, code) == Some("Monochrome"@),
        code == 0x87 ==> named(CANON_STYLES@, code) == Some("Auto"@),
        code == 0x88 ==> named(CANON_STYLES@, code) == Some("Fine Detail"@),
        !(code == 0x01 || code == 0x02 || code == 0x03 || code == 0x04 || code == 0x05 || code == 0x06 || code == 0x07 || code == 0x21 || code == 0x22 || code == 0x23 || code == 0x41 || code == 0x42 || code == 0x43 || code == 0x81 || code == 0x82 || code == 0x83 || code == 0x84 || code == 0x85 || code == 0x86 || code == 0x87 || code == 0x88) ==> named(CANON_STYLES@, code) is None,
{
    let table = CANON_STYLES@;
    assert(table.len() == 21);
    assert(table[0] == (0x01u16, "Standard"));
    assert(table[1] == (0x02u16, "Portrait"));
    assert(table[2] == (0x03u16, "High Saturation"));
    assert(table[3] == (0x04u16, "Adobe RGB"));
    assert(table[4] == (0x05u16, "Low Saturation"));
    assert(table[5] == (0x06u16, "CM Set 1"));
    assert(table[6] == (0x07u16, "CM Set 2"));
    assert(table[7] == (0x21u16, "User Def. 1"));
    assert(table[8] == (0x22u16, "User Def. 2"));
    assert(table[9] == (0x23u16, "User Def. 3"));
    assert(table[10] == (0x41u16, "PC 1"));
    assert(table[11] == (0x42u16, "PC 2"));
    assert(table[12] == (0x43u16, "PC 3"));
    assert(table[13] == (0x81u16, "Standard"));
    assert(table[14] == (0x82u16, "Portrait"));
    assert(table[15] == (0x83u16, "Landscape"));
    assert(table[16] == (0x84u16, "Neutral"));
    assert(table[17] == (0x85u16, "Faithful"));
    assert(table[18] == (0x86u16, "Monochrome"));
    assert(table[19] == (0x87u16, "Auto"));
    assert(table[20] == (0x88u16, "Fine Detail"));
    if code == 0x01 {
        lemma_named_at(table, 0);
    } else if code == 0x02 {
        lemma_named_at(table, 1);
    } else if code == 0x03 {
        lemma_named_at(table, 2);
    } else if code == 0x04 {
        lemma_named_at(table, 3);
    } else if code == 0x05 {
        lemma_named_at(table, 4);
    } else if code == 0x06 {
        lemma_named_at(table, 5);
    } else if code == 0x07 {
        lemma_named_at(table, 6);
    } else if code == 0x21 {
        lemma_named_at(table, 7);
    } else if code == 0x22 {
        lemma_named_at(table, 8);
    } else if code == 0x23 {
        lemma_named_at(table, 9);
    } else if code == 0x41 {
        lemma_named_at(table, 10);
    } else if code == 0x42 {
        lemma_named_at(table, 11);
    } else if code == 0x43 {
        lemma_named_at(table, 12);
    } else if code == 0x81 {
        lemma_named_at(table, 13);
    } else if code == 0x82 {
        lemma_named_at(table, 14);
    } else if code == 0x83 {
        lemma_named_at(table, 15);
    } else if code == 0x84 {
        lemma_named_at(table, 16);
    } else if code == 0x85 {
        lemma_named_at(table, 17);
    } else if code == 0x86 {
        lemma_named_at(table, 18);
    } else if code == 0x87 {
        lemma_named_at(table, 19);
    } else if code == 0x88 {
        lemma_named_at(table, 20);
    } else {
        lemma_named_none(table, code);
    }
}

/// The monochrome simulations of Fujifilm, by their codes.
pub proof fn law_fujifilm_saturations(code: u16)
    ensures
        code == 0x300 ==> named(FUJIFILM_SATURATIONS@, code) == Some("Monochrome"@),
        code == 0x301 ==> named(FUJIFILM_SATURATIONS@, code) == Some("Monochrome + R Filter"@),
        code == 0x302 ==> named(FUJIFILM_SATURATIONS@, code) == Some("Monochrome + Ye Filter"@),
        code == 0x303 ==> named(FUJIFILM_SATURATIONS@, code) == Some("Monochrome + G Filter"@),
        code == 0x310 ==> named(FUJIFILM_SATURATIONS@, code) == Some("Sepia"@),
        code == 0x500 ==> named(FUJIFILM_SATURATIONS@, code) == Some("Acros"@),
        code == 0x501 ==> named(FUJIFILM_SATURATIONS@, code) == Some("Acros + R Filter"@),
        code == 0x502 ==> named(FUJIFILM_SATURATIONS@, code) == Some("Acros + Ye Filter"@),
        code == 0x503 ==> named(FUJIFILM_SATURATIONS@, code) == Some("Acros + G Filter"@),
        !(code == 0x300 || code == 0x301 || code == 0x302 || code == 0x303 || code == 0x310 || code == 0x500 || code == 0x501 || code == 0x502 || code == 0x503) ==> named(FUJIFILM_SATURATIONS@, code) is None,
{
    let table = FUJIFILM_SATURATIONS@;
    assert(table.len() == 9);
    assert(table[0] == (0x300u16, "Monochrome"));
    assert(table[1] == (0x301u16, "Monochrome + R Filter"));
    assert(table[2] == (0x302u16, "Monochrome + Ye Filter"));
    assert(table[3] == (0x303u16, "Monochrome + G Filter"));
    assert(table[4] == (0x310u16, "Sepia"));
    assert(table[5] == (0x500u16, "Acros"));
    assert(table[6] == (0x501u16, "Acros + R Filter"));
    assert(table[7] == (0x502u16, "Acros + Ye Filter"));
    assert(table[8] == (0x503u16, "Acros + G Filter"));
    if code == 0x300 {
        lemma_named_at(table, 0);
    } else if code == 0x301 {
        lemma_named_at(table, 1);
    } else if code == 0x302 {
        lemma_named_at(table, 2);
    } else if code == 0x303 {
        lemma_named_at(table, 3);
    } else if code == 0x310 {
        lemma_named_at(table, 4);
    } else if code == 0x500 {
        lemma_named_at(table, 5);
    } else if code == 0x501 {
        lemma_named_at(table, 6);
    } else if code == 0x502 {
        lemma_named_at(table, 7);
    } else if code == 0x503 {
        lemma_named_at(table, 8);
    } else {
        lemma_named_none(table, code);
    }
}

/// The film simulations of Fujifilm, by their codes.
pub proof fn law_fujifilm_film_modes(code: u16)
    ensures
        code == 0x000 ==> named(FUJIFILM_FILM_MODES@, code) == Some("Provia / Standard"@),
        code == 0x100 ==> named(FUJIFILM_FILM_MODES@, code) == Some("Studio Portrait"@),
        code == 0x110 ==> named(FUJIFILM_FILM_MODES@, code) == Some("Studio Portrait Enhanced Saturation"@),
        code == 0x120 ==> named(FUJIFILM_FILM_MODES@, code) == Some("Astia / Soft"@),
        code == 0x130 ==> named(FUJIFILM_FILM_MODES@, code) == Some("Studio Portrait Increased Sharpness"@),
        code == 0x200 ==> named(FUJIFILM_FILM_MODES@, code) == Some("Velvia / Vivid"@),
        code == 0x300 ==> named(FUJIFILM_FILM_MODES@, code) == Some("Studio Portrait Ex"@),
        code == 0x400 ==> named(FUJIFILM_FILM_MODES@, code) == Some("Velvia"@),
        code == 0x500 ==> named(FUJIFILM_FILM_MODES@, code) == Some("Pro Neg. Std"@),
        code == 0x501 ==> named(FUJIFILM_FILM_MODES@, code) == Some("Pro Neg. Hi"@),
        code == 0x600 ==> named(FUJIFILM_FILM_MODES@, code) == Some("Classic Chrome"@),
        code == 0x700 ==> named(FUJIFILM_FILM_MODES@, code) == Some("Eterna"@),
        code == 0x800 ==> named(FUJIFILM_FILM_MODES@, code) == Some("Classic Negative"@),
        code == 0x900 ==> named(FUJIFILM_FILM_MODES@, code) == Some("Eterna Bleach Bypass"@),
        code == 0xa00 ==> named(FUJIFILM_FILM_MODES@, code) == Some("Nostalgic Neg."@),
        code == 0xb00 ==> named(FUJIFILM_FILM_MODES@, code) == Some("Reala Ace"@),
        !(code == 0x000 || code == 0x100 || code == 0x110 || code == 0x120 || code == 0x130 || code == 0x200 || code == 0x300 || code == 0x400 || code == 0x500 || code == 0x501 || code == 0x600 || code == 0x700 || code == 0x800 || code == 0x900 || code == 0xa00 || code == 0xb00) ==> named(FUJIFILM_FILM_MODES@, code) is None,
{
    let table = FUJIFILM_FILM_MODES@;
    assert(table.len() == 16);
    assert(table[0] == (0x000u16, "Provia / Standard"));
    assert(table[1] == (0x100u16, "Studio Portrait"));
    assert(table[2] == (0x110u16, "Studio Portrait Enhanced Saturation"));
    assert(table[3] == (0x120u16, "Astia / Soft"));
    assert(table[4] == (0x130u16, "Studio Portrait Increased Sharpness"));
    assert(table[5] == (0x200u16, "Velvia / Vivid"));
    assert(table[6] == (0x300u16, "Studio Portrait Ex"));
    assert(table[7] == (0x400u16, "Velvia"));
    assert(table[8] == (0x500u16, "Pro Neg. Std"));
    assert(table[9] == (0x501u16, "Pro Neg. Hi"));
    assert(table[10] == (0x600u16, "Classic Chrome"));
    assert(table[11] == (0x700u16, "Eterna"));
    assert(table[12] == (0x800u16, "Classic Negative"));
    assert(table[13] == (0x900u16, "Eterna Bleach Bypass"));
    assert(table[14] == (0xa00u16, "Nostalgic Neg."));
    assert(table[15] == (0xb00u16, "Reala Ace"));
    if code == 0x000 {
        lemma_named_at(table, 0);
    } else if code == 0x100 {
        lemma_named_at(table, 1);
    } else if code == 0x110 {
        lemma_named_at(table, 2);
    } else if code == 0x120 {
        lemma_named_at(table, 3);
    } else if code == 0x130 {
        lemma_named_at(table, 4);
    } else if code == 0x200 {
        lemma_named_at(table, 5);
    } else if code == 0x300 {
        lemma_named_at(table, 6);
    } else if code == 0x400 {
        lemma_named_at(table, 7);
    } else if code == 0x500 {
        lemma_named_at(table, 8);
    } else if code == 0x501 {
        lemma_named_at(table, 9);
    } else if code == 0x600 {
        lemma_named_at(table, 10);
    } else if code == 0x700 {
        lemma_named_at(table, 11);
    } else if code == 0x800 {
        lemma_named_at(table, 12);
    } else if code == 0x900 {
        lemma_named_at(table, 13);
    } else if code == 0xa00 {
        lemma_named_at(table, 14);
    } else if code == 0xb00 {
        lemma_named_at(table, 15);
    } else {
        lemma_named_none(table, code);
    }
}

/// Numbers are read byte by byte, the low byte first or last, where there are enough of them.
pub proof fn law_numbers_in_either_order(b: Seq<u8>, at: int)
    ensures
        u16_in(b, true, at) is Some <==> 0 <= at && at + 2 <= b.len(),
        u16_in(b, false, at) is Some <==> 0 <= at && at + 2 <= b.len(),
        u32_in(b, true, at) is Some <==> 0 <= at && at + 4 <= b.len(),
        u32_in(b, false, at) is Some <==> 0 <= at && at + 4 <= b.len(),
        u16_in(b, true, at) matches Some(n) ==> n % 0x100 == b[at] && n / 0x100 == b[at + 1],
        u16_in(b, false, at) matches Some(n) ==> n / 0x100 == b[at] && n % 0x100 == b[at + 1],
        u32_in(b, true, at) matches Some(n) ==> n % 0x100 == b[at] && n / 0x100 % 0x100 == b[at + 1]
            && n / 0x1_0000 % 0x100 == b[at + 2] && n / 0x100_0000 == b[at + 3],
        u32_in(b, false, at) matches Some(n) ==> n / 0x100_0000 == b[at] && n / 0x1_0000 % 0x100
            == b[at + 1] && n / 0x100 % 0x100 == b[at + 2] && n % 0x100 == b[at + 3],
{
}

/// The sizes of the TIFF types: byte, text, short, long, rational, and their signed and floating
/// relatives. Others have none.
pub proof fn law_sizes_of_types(kind: u16)
    ensures
        kind == 1 || kind == 2 ==> unit_of(kind) == Some(1int),
        kind == 3 ==> unit_of(kind) == Some(2int),
        kind == 4 ==> unit_of(kind) == Some(4int),
        kind == 5 ==> unit_of(kind) == Some(8int),
        kind == 6 || kind == 7 ==> unit_of(kind) == Some(1int),
        kind == 8 ==> unit_of(kind) == Some(2int),
        kind == 9 ==> unit_of(kind) == Some(4int),
        kind == 10 ==> unit_of(kind) == Some(8int),
        kind == 11 ==> unit_of(kind) == Some(4int),
        kind == 12 ==> unit_of(kind) == Some(8int),
        kind == 0 || kind > 12 ==> unit_of(kind) is None,
{
}

proof fn lemma_find(ifd: IfdView, tag: u16, i: int, k: int, n: int)
    requires
        0 <= i <= k < n,
        forall|j: int|
            i <= j < k ==> ((#[trigger] ifd.u16(ifd.entry(j))) matches Some(t) && t != tag),
        ifd.u16(ifd.entry(k)) == Some(tag),
    ensures
        ifd.find(tag, i, n) == Some(ifd.entry(k)),
    decreases k - i,
{
    if i < k {
        assert(ifd.u16(ifd.entry(i)) != Some(tag));
        lemma_find(ifd, tag, i + 1, k, n);
    }
}

proof fn lemma_find_none(ifd: IfdView, tag: u16, i: int, n: int)
    requires
        forall|j: int| i <= j < n ==> (#[trigger] ifd.u16(ifd.entry(j))) != Some(tag),
    ensures
        ifd.find(tag, i, n) is None,
    decreases n - i,
{
    if i < n {
        assert(ifd.u16(ifd.entry(i)) != Some(tag));
        lemma_find_none(ifd, tag, i + 1, n);
    }
}

/// A directory is a count and then entries of twelve bytes: tag, type, count, and the value or where
/// it stands. The first entry for a tag among the first 512 gives its value: four bytes or fewer stand
/// in the entry itself, more at an offset from the directory's base.
pub proof fn law_entry_gives_the_value(ifd: IfdView, tag: u16, k: int, count: u16, kind: u16, n: u32)
    requires
        ifd.u16(ifd.start) == Some(count),
        0 <= k < count,
        k < 512,
        forall|j: int|
            0 <= j < k ==> ((#[trigger] ifd.u16(ifd.entry(j))) matches Some(t) && t != tag),
        ifd.u16(ifd.start + 2 + 12 * k) == Some(tag),
        ifd.u16(ifd.start + 2 + 12 * k + 2) == Some(kind),
        ifd.u32(ifd.start + 2 + 12 * k + 4) == Some(n),
    ensures
        ({
            let e = ifd.start + 2 + 12 * k;
            match unit_of(kind) {
                None => ifd.get(tag) is None,
                Some(unit) => {
                    let size = unit * n;
                    &&& size <= 4 && e + 8 + size <= ifd.buf.len() ==> ifd.get(tag) == Some(
                        ifd.buf.subrange(e + 8, e + 8 + size),
                    )
                    &&& size <= 4 && e + 8 + size > ifd.buf.len() ==> ifd.get(tag) is None
                    &&& size > 4 && ifd.u32(e + 8) is None ==> ifd.get(tag) is None
                    &&& size > 4 ==> (ifd.u32(e + 8) matches Some(at) ==> {
                        let from = ifd.base + at;
                        &&& from + size <= ifd.buf.len() ==> ifd.get(tag) == Some(
                            ifd.buf.subrange(from, from + size),
                        )
                        &&& from + size > ifd.buf.len() ==> ifd.get(tag) is None
                    })
                },
            }
        }),
{
    assert(ifd.entry(k) == ifd.start + 2 + 12 * k);
    let most = ifd.entries()->0;
    lemma_find(ifd, tag, 0, k, most);
}

/// A tag that no entry has, has no value.
pub proof fn law_missing_tag_has_no_value(ifd: IfdView, tag: u16)
    requires
        forall|j: int| 0 <= j < 512 ==> (#[trigger] ifd.u16(ifd.entry(j))) != Some(tag),
    ensures
        ifd.get(tag) is None,
        forall|i: int| (#[trigger] ifd.get_u16(tag, i)) is None,
{
    match ifd.entries() {
        Some(n) => {
            lemma_find_none(ifd, tag, 0, n);
        },
        None => {},
    }
}

/// The `i`-th number of a value is made of its two bytes there, in the order of the directory.
pub proof fn law_numbers_of_a_value(ifd: IfdView, tag: u16, v: Seq<u8>, i: int)
    requires
        ifd.get(tag) == Some(v),
        0 <= i,
    ensures
        ifd.get_u16(tag, i) is Some <==> 2 * i + 2 <= v.len(),
        ifd.get_u16(tag, i) matches Some(n) ==> (ifd.le ==> n == v[2 * i] + 256 * v[2 * i + 1]) && (
        !ifd.le ==> n == 256 * v[2 * i] + v[2 * i + 1]),
{
}

/// Older Panasonic bodies record a film mode, which is shown where it has a name; else the photo
/// style is.
pub proof fn law_panasonic(ifd: IfdView, film: u16, style: u16)
    ensures
        ifd.get_u16(0x42, 0) == Some(film) && named(PANASONIC_FILM_MODES@, film) is Some
            ==> panasonic_of(ifd) == named(PANASONIC_FILM_MODES@, film),
        (ifd.get_u16(0x42, 0) is None || named(PANASONIC_FILM_MODES@, ifd.get_u16(0x42, 0)->0) is None)
            ==> (ifd.get_u16(0x89, 0) == Some(style) ==> panasonic_of(ifd) == named(
            PANASONIC_PHOTO_STYLES@,
            style,
        )) && (ifd.get_u16(0x89, 0) is None ==> panasonic_of(ifd) is None),
{
}

/// Fujifilm's monochrome simulations are shown where they have a name; else the film simulation is.
pub proof fn law_fujifilm(ifd: IfdView, mono: u16, film: u16)
    ensures
        ifd.get_u16(0x1003, 0) == Some(mono) && named(FUJIFILM_SATURATIONS@, mono) is Some
            ==> fujifilm_of(ifd) == named(FUJIFILM_SATURATIONS@, mono),
        (ifd.get_u16(0x1003, 0) is None || named(
            FUJIFILM_SATURATIONS@,
            ifd.get_u16(0x1003, 0)->0,
        ) is None) ==> (ifd.get_u16(0x1401, 0) == Some(film) ==> fujifilm_of(ifd) == named(
            FUJIFILM_FILM_MODES@,
            film,
        )) && (ifd.get_u16(0x1401, 0) is None ==> fujifilm_of(ifd) is None),
{
}

/// Each of Canon's three user-defined styles has its own entry among the styles they are based on:
/// the `i`-th style is shown with the name of the `i`-th entry, or alone where that has no name.
pub proof fn law_canon_user_styles(ifd: IfdView, i: int, code: u16)
    requires
        0 <= i < 3,
        ifd.get_u16(0xa0, 10) == Some((0x21 + i) as u16),
    ensures
        ({
            let name = if i == 0 {
                "User Def. 1"@
            } else if i == 1 {
                "User Def. 2"@
            } else {
                "User Def. 3"@
            };
            &&& ifd.get_u16(0x4008, i) == Some(code) ==> (named(CANON_STYLES@, code) matches Some(base)
                ==> canon_of(ifd) == Some(name + " ("@ + base + ")"@))
            &&& ifd.get_u16(0x4008, i) == Some(code) && named(CANON_STYLES@, code) is None ==> canon_of(
                ifd,
            ) == Some(name)
            &&& ifd.get_u16(0x4008, i) is None ==> canon_of(ifd) == Some(name)
        }),
{
    law_canon_styles((0x21 + i) as u16);
}

/// What the other two user-defined styles are based on does not matter.
pub proof fn law_canon_other_entries_do_not_matter(a: IfdView, b: IfdView, i: int)
    requires
        0 <= i < 3,
        a.get_u16(0xa0, 10) == Some((0x21 + i) as u16),
        b.get_u16(0xa0, 10) == Some((0x21 + i) as u16),
        a.get_u16(0x4008, i) == b.get_u16(0x4008, i),
    ensures
        canon_of(a) == canon_of(b),
{
}

/// Canon's other styles are shown by their names, and what has no name is not shown.
pub proof fn law_canon_plain_styles(ifd: IfdView)
    ensures
        ifd.get_u16(0xa0, 10) is None ==> canon_of(ifd) is None,
        ifd.get_u16(0xa0, 10) matches Some(code) ==> code != 0x21 && code != 0x22 && code != 0x23
            ==> canon_of(ifd) == named(CANON_STYLES@, code),
{
}

proof fn lemma_before_zero(b: Seq<u8>, k: int)
    requires
        0 <= k <= b.len(),
        forall|j: int| 0 <= j < k ==> b[j] != 0,
        k < b.len() ==> b[k] == 0,
    ensures
        before_zero(b) == k,
    decreases b.len(),
{
    if k > 0 {
        let rest = b.drop_first();
        assert forall|j: int| 0 <= j < k - 1 implies rest[j] != 0 by {
            assert(rest[j] == b[j + 1]);
        }
        lemma_before_zero(rest, k - 1);
    }
}

/// The text in a field ends before its first zero, and blanks around it are left out; nothing is no
/// text.
pub proof fn law_text_ends_at_zero(b: Seq<u8>, k: int)
    requires
        0 <= k <= b.len(),
        forall|j: int| 0 <= j < k ==> b[j] != 0,
        k < b.len() ==> b[k] == 0,
    ensures
        ({
            let s = trim_of(utf8_lossy(b.take(k)));
            &&& s.len() > 0 ==> text_in(b) == Some(s)
            &&& s.len() == 0 ==> text_in(b) is None
        }),
{
    lemma_before_zero(b, k);
}

/// Title case goes character by character: blanks stay, the first of a word is in upper case, the
/// others are in lower case.
pub proof fn law_title_case(s: Seq<char>, i: int)
    requires
        0 <= i < s.len(),
    ensures
        title_of(s, 0) == Seq::<char>::empty(),
        s[i] == ' ' ==> title_of(s, i + 1) == title_of(s, i).push(' '),
        s[i] != ' ' && (i == 0 || s[i - 1] == ' ') ==> title_of(s, i + 1) == title_of(s, i)
            + char_upper(s[i]),
        s[i] != ' ' && i > 0 && s[i - 1] != ' ' ==> title_of(s, i + 1) == title_of(s, i)
            + char_lower(s[i]),
{
    assert(title_of(s, i) + seq![' '] =~= title_of(s, i).push(' '));
}

/// A text of a Picture Control has its place in the data, and is shown in title case.
pub proof fn law_texts_of_picture_controls(data: Seq<u8>, at: int)
    requires
        0 <= at,
    ensures
        at + 20 > data.len() ==> title_in(data, at, 20) is None,
        at + 20 <= data.len() && text_in(data.subrange(at, at + 20)) is None ==> title_in(
            data,
            at,
            20,
        ) is None,
        at + 20 <= data.len() ==> (text_in(data.subrange(at, at + 20)) matches Some(s) ==> title_in(
            data,
            at,
            20,
        ) == Some(title_of(s, s.len() as int))),
{
}

/// Nikon's Picture Control has its name behind four bytes, in the third version behind eight, and
/// behind the name that of the one it is based on, which is shown where it is another.
pub proof fn law_nikon(ifd: IfdView, data: Seq<u8>)
    requires
        ifd.get(0x23) == Some(data),
    ensures
        ({
            let third = data.len() >= 2 && data[0] == 0x30 && data[1] == 0x33;
            let name = if third {
                title_in(data, 8, 20)
            } else {
                title_in(data, 4, 20)
            };
            let base = if third {
                title_in(data, 28, 20)
            } else {
                title_in(data, 24, 20)
            };
            &&& name is None ==> nikon_of(ifd) is None
            &&& name is Some && (base is None || base == name) ==> nikon_of(ifd) == name
            &&& name is Some && base is Some && base != name ==> nikon_of(ifd) == Some(
                name->0 + " ("@ + base->0 + ")"@,
            )
        }),
{
    let p = NIKON_03@;
    assert(p =~= seq![0x30u8, 0x33]);
    if data.len() >= 2 {
        assert(data.take(2)[0] == data[0] && data.take(2)[1] == data[1]);
        if data[0] == 0x30 && data[1] == 0x33 {
            assert(data.take(2) =~= p);
        }
    }
}

/// Without a Picture Control or a creative style there is none to show.
pub proof fn law_missing_profiles(ifd: IfdView)
    ensures
        ifd.get(0x23) is None ==> nikon_of(ifd) is None,
        ifd.get(0xb020) is None ==> sony_of(ifd) is None,
        ifd.get(0xb020) matches Some(data) ==> sony_of(ifd) == text_in(data),
{
}

/// The quotes around a displayed make are left out, and it is compared in lower case.
pub proof fn law_make_without_quotes(t: Seq<char>)
    requires
        t.len() > 0 ==> t[0] != '"' && t.last() != '"',
    ensures
        plain_make(Some(seq!['"'] + t + seq!['"'])) == lowercase(t),
        plain_make(Some(t)) == lowercase(t),
        plain_make(None) == lowercase(Seq::empty()),
{
    let q = quote();
    let s = seq!['"'] + t + seq!['"'];
    let empty = Seq::<char>::empty();
    assert(s.drop_first() =~= t + seq!['"']);
    let u = t + seq!['"'];
    assert(crate::text::lead(empty, q) == 0 && crate::text::kept(empty, q) == 0);
    assert(trim_by(empty, q) =~= empty);
    if t.len() > 0 {
        assert(u[0] == t[0]);
        assert(crate::text::lead(u, q) == 0);
        assert(crate::text::lead(s, q) == 1);
        assert(s.skip(1) =~= u);
        assert(u.drop_last() =~= t);
        assert(crate::text::kept(t, q) == t.len());
        assert(crate::text::kept(u, q) == t.len());
        assert(u.take(t.len() as int) =~= t);
        assert(t.skip(0) =~= t && t.take(t.len() as int) =~= t);
    } else {
        assert(t =~= empty);
        assert(s =~= seq!['"', '"']);
        assert(u =~= seq!['"']);
        assert(u.drop_first() =~= empty);
        assert(crate::text::lead(u, q) == 1);
        assert(crate::text::lead(s, q) == 2);
        assert(s.skip(2) =~= empty);
        assert(empty.take(0) =~= empty);
    }
}

/// The signature of a note is its first bytes.
proof fn lemma_starts(note: Seq<u8>, p: Seq<u8>)
    ensures
        bytes_start(note, p) <==> p.len() <= note.len() && forall|i: int|
            0 <= i < p.len() ==> #[trigger] note[i] == p[i],
{
    if p.len() <= note.len() {
        let t = note.take(p.len() as int);
        if forall|i: int| 0 <= i < p.len() ==> #[trigger] note[i] == p[i] {
            assert(t =~= p);
        }
        if t == p {
            assert forall|i: int| 0 <= i < p.len() implies #[trigger] note[i] == p[i] by {
                assert(t[i] == note[i]);
            }
        }
    }
}

/// Whether a note starts with the signature of a vendor.
pub open spec fn signed(note: Seq<u8>, signature: Seq<u8>) -> bool {
    note.len() >= signature.len() && forall|i: int|
        0 <= i < signature.len() ==> #[trigger] note[i] == signature[i]
}

/// A note is read as its signature says, and one without a signature as the make does: Canon's and
/// Sony's are plain directories. Panasonic's and Sony's directories stand behind twelve bytes,
/// with offsets into the TIFF data; Fujifilm's stands where the note says, with offsets from the note;
/// Nikon's behind a TIFF header of its own, with offsets from that.
pub proof fn law_notes_of_vendors(exif: ExifView, note: Seq<u8>, offset: u32, at: u32)
    requires
        exif.maker_note == Some(FieldView::Undefined(note, offset)),
    ensures
        ({
            let r = color_profile_of(exif);
            let mn = offset as int;
            let panasonic = signed(note, seq![0x50u8, 0x61, 0x6e, 0x61, 0x73, 0x6f, 0x6e, 0x69, 0x63, 0x00]);
            let fujifilm = signed(note, seq![0x46u8, 0x55, 0x4a, 0x49, 0x46, 0x49, 0x4c, 0x4d]);
            let nikon = signed(note, seq![0x4eu8, 0x69, 0x6b, 0x6f, 0x6e, 0x00, 0x02]);
            let sony = signed(note, seq![0x53u8, 0x4f, 0x4e, 0x59, 0x20, 0x44, 0x53, 0x43, 0x20]) || signed(note, seq![0x53u8, 0x4f, 0x4e, 0x59, 0x20, 0x43, 0x41, 0x4d, 0x20]);
            let make = plain_make(exif.make_shown);
            let plain = IfdView { buf: exif.buf, le: exif.little_endian, base: 0, start: mn };
            let behind = IfdView { buf: exif.buf, le: exif.little_endian, base: 0, start: mn + 12 };
            let own = note.len() >= 12 && note[10] == 0x49 && note[11] == 0x49;
            &&& panasonic ==> r == panasonic_of(behind)
            &&& fujifilm && u32_in(note, true, 8) is None ==> r is None
            &&& fujifilm && u32_in(note, true, 8) == Some(at) ==> r == fujifilm_of(
                (IfdView { buf: exif.buf, le: true, base: mn, start: mn + at }),
            )
            &&& nikon && (note.len() < 12 || u32_in(exif.buf, own, mn + 14) is None) ==> r is None
            &&& nikon && note.len() >= 12 && u32_in(exif.buf, own, mn + 14) == Some(at) ==> r
                == nikon_of(
                (IfdView { buf: exif.buf, le: own, base: mn + 10, start: mn + 10 + at }),
            )
            &&& sony ==> r == sony_of(behind)
            &&& !panasonic && !fujifilm && !nikon && !sony ==> {
                &&& starts_with(make, "canon"@) ==> r == canon_of(plain)
                &&& starts_with(make, "sony"@) ==> r == sony_of(plain)
                &&& !starts_with(make, "canon"@) && !starts_with(make, "sony"@) ==> r is None
            }
        }),
{
    assert(PANASONIC@ =~= seq![0x50u8, 0x61, 0x6e, 0x61, 0x73, 0x6f, 0x6e, 0x69, 0x63, 0x00]);
    assert(FUJIFILM@ =~= seq![0x46u8, 0x55, 0x4a, 0x49, 0x46, 0x49, 0x4c, 0x4d]);
    assert(NIKON@ =~= seq![0x4eu8, 0x69, 0x6b, 0x6f, 0x6e, 0x00, 0x02]);
    assert(SONY_DSC@ =~= seq![0x53u8, 0x4f, 0x4e, 0x59, 0x20, 0x44, 0x53, 0x43, 0x20]);
    assert(SONY_CAM@ =~= seq![0x53u8, 0x4f, 0x4e, 0x59, 0x20, 0x43, 0x41, 0x4d, 0x20]);
    lemma_starts(note, PANASONIC@);
    lemma_starts(note, FUJIFILM@);
    lemma_starts(note, NIKON@);
    lemma_starts(note, SONY_DSC@);
    lemma_starts(note, SONY_CAM@);
    let make = plain_make(exif.make_shown);
    if starts_with(make, "canon"@) && starts_with(make, "sony"@) {
        reveal_strlit("canon");
        reveal_strlit("sony");
        assert("canon"@[0] == 'c' && "sony"@[0] == 's');
        assert(make[0] == 'c');
    }
}

/// A file without a note of bytes has no profile.
pub proof fn law_no_note_no_profile(exif: ExifView)
    ensures
        !(exif.maker_note matches Some(FieldView::Undefined(_, _))) ==> color_profile_of(exif) is None,
{
}

} // verus!
