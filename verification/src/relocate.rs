//! Moving whatever survived the cull into a new, dated folder.
use crate::delete::text_pairs;
use crate::order::{
    bytes_less, bytes_lt, lemma_text_transitive, lemma_text_trichotomy, text_less, text_lt, texts,
};
use crate::paths::{
    components, file_name, file_name_of, is_absolute, join, join_of, lemma_join_components,
    lemma_rest, lies_in, parent, parent_opt, rest_of, same_path, strip_prefix, strip_prefix_of,
    with_file_name, with_file_name_of,
};
use crate::tags::{
    exif_field, field_view, read_field, FieldValue, FieldView, TagGroup, DATE_TIME_ORIGINAL,
};
use crate::text::{
    chars_of, copied, decimal, decimal_of, from_utf8_lossy, replace, replaced, text_of, text_view,
    utf8_lossy,
};
use vstd::prelude::*;
use vstd::slice::slice_subrange;
use vstd::string::*;

verus! {

/// Whether a file stays behind or not: hidden files do, as does what is no regular file.
pub open spec fn is_remaining(name: Seq<u8>, is_file: bool) -> bool {
    is_file && !(name.len() > 0 && name[0] == 0x2e)
}

/// A directory entry: its name as bytes, and whether it is a regular file.
pub struct Entry {
    pub name: Vec<u8>,
    pub is_file: bool,
}

/// Whether the `i`-th entry is one of those to move.
pub open spec fn to_move(entries: Seq<Entry>, i: int) -> bool {
    is_remaining(entries[i].name@, entries[i].is_file)
}

/// Every visible regular file of a directory, by its place in `entries`, in the order of the names.
/// Hidden files (the state file, macOS `._` files) stay behind.
pub fn remaining_files(entries: &Vec<Entry>) -> (r: Vec<usize>)
    ensures
        forall|k: int|
            0 <= k < r@.len() ==> (#[trigger] r@[k]) < entries@.len() && to_move(
                entries@,
                r@[k] as int,
            ),
        forall|i: int|
            0 <= i < entries@.len() && #[trigger] to_move(entries@, i) ==> r@.contains(i as usize),
        forall|a: int, b: int|
            0 <= a < b < r@.len() ==> comes_before(
                entries@,
                #[trigger] r@[a] as int,
                #[trigger] r@[b] as int,
            ),
{
    let mut out: Vec<usize> = Vec::new();
    let mut i: usize = 0;
    while i < entries.len()
        invariant
            i <= entries@.len(),
            forall|k: int|
                0 <= k < out@.len() ==> (#[trigger] out@[k]) < i && to_move(
                    entries@,
                    out@[k] as int,
                ),
            forall|m: int| 0 <= m < i && #[trigger] to_move(entries@, m) ==> out@.contains(m as usize),
            forall|a: int, b: int|
                0 <= a < b < out@.len() ==> comes_before(
                    entries@,
                    #[trigger] out@[a] as int,
                    #[trigger] out@[b] as int,
                ),
        decreases entries.len() - i,
    {
        let e = &entries[i];
        let hidden = e.name.len() > 0 && e.name[0] == 0x2e;
        if !hidden && e.is_file {
            let ghost before = out@;
            let mut at: usize = out.len();
            while at > 0 && bytes_less(e.name.as_slice(), entries[out[at - 1]].name.as_slice())
                invariant
                    at <= out@.len(),
                    out@ == before,
                    i < entries@.len(),
                    *e == entries@[i as int],
                    forall|k: int| 0 <= k < out@.len() ==> (#[trigger] out@[k]) < i,
                    forall|k: int|
                        at <= k < out@.len() ==> bytes_lt(
                            e.name@,
                            entries@[#[trigger] out@[k] as int].name@,
                        ),
                decreases at,
            {
                at -= 1;
            }
            out.insert(at, i);
            proof {
                assert(out@ == before.insert(at as int, i));
                assert forall|m: int| 0 <= m < i + 1 && #[trigger] to_move(entries@, m) implies out@.contains(
                    m as usize,
                ) by {
                    if m < i {
                        let k = choose|k: int| 0 <= k < before.len() && before[k] == m as usize;
                        if k < at {
                            assert(out@[k] == m as usize);
                        } else {
                            assert(out@[k + 1] == m as usize);
                        }
                    } else {
                        assert(out@[at as int] == i);
                    }
                }
                assert forall|a: int, b: int| 0 <= a < b < out@.len() implies comes_before(
                    entries@,
                    #[trigger] out@[a] as int,
                    #[trigger] out@[b] as int,
                ) by {
                    let a0 = if a < at {
                        a
                    } else {
                        a - 1
                    };
                    let b0 = if b < at {
                        b
                    } else {
                        b - 1
                    };
                    if a == at {
                        assert(out@[b] == before[b0]);
                    } else if b == at {
                        assert(out@[a] == before[a]);
                        if a < at - 1 {
                            assert(comes_before(entries@, before[a] as int, before[at - 1] as int));
                        }
                        assert(!bytes_lt(e.name@, entries@[before[at - 1] as int].name@));
                        lemma_before_last(entries@, before[a] as int, before[at - 1] as int, i as int);
                    } else {
                        assert(comes_before(entries@, before[a0] as int, before[b0] as int));
                    }
                }
            }
        }
        i += 1;
    }
    out
}

/// Whether the `a`-th entry comes before the `b`-th: by name, and in the order given for equal ones.
pub open spec fn comes_before(entries: Seq<Entry>, a: int, b: int) -> bool {
    bytes_lt(entries[a].name@, entries[b].name@) || (entries[a].name@ == entries[b].name@ && a < b)
}

proof fn lemma_before_last(entries: Seq<Entry>, a: int, m: int, i: int)
    requires
        a < i,
        m < i,
        a == m || comes_before(entries, a, m),
        !bytes_lt(entries[i].name@, entries[m].name@),
    ensures
        comes_before(entries, a, i),
{
    crate::order::lemma_bytes_trichotomy(entries[m].name@, entries[i].name@);
    if a != m && bytes_lt(entries[a].name@, entries[m].name@) && bytes_lt(
        entries[m].name@,
        entries[i].name@,
    ) {
        crate::order::lemma_bytes_transitive(
            entries[a].name@,
            entries[m].name@,
            entries[i].name@,
        );
    }
}

/// Whether a character of a day is as it should be: digits, with a mark between year, month and day.
pub open spec fn day_char(v: Seq<char>, i: int) -> bool {
    if i == 4 || i == 7 {
        v[i] == ':' || v[i] == '-'
    } else {
        '0' <= v[i] && v[i] <= '9'
    }
}

/// The day of an EXIF date, as `YYYY-MM-DD`. Cameras without a clock write zeros.
pub open spec fn day_of(v: Seq<char>) -> Option<Seq<char>> {
    if v.len() >= 10 && (forall|i: int| 0 <= i < 10 ==> #[trigger] day_char(v, i)) && !(v[0] == '0'
        && v[1] == '0' && v[2] == '0' && v[3] == '0') {
        Some(replaced(v.take(10), ':', '-'))
    } else {
        None
    }
}

/// `2026:09:14 17:02:05` → `2026-09-14`.
pub fn exif_day(v: &str) -> (r: Option<String>)
    ensures
        text_view(r) == day_of(v@),
{
    let c = chars_of(v);
    if c.len() < 10 {
        return None;
    }
    let mut i: usize = 0;
    while i < 10
        invariant
            i <= 10,
            c@ == v@,
            c@.len() >= 10,
            forall|j: int| 0 <= j < i ==> #[trigger] day_char(v@, j),
        decreases 10 - i,
    {
        let ok = if i == 4 || i == 7 {
            c[i] == ':' || c[i] == '-'
        } else {
            '0' <= c[i] && c[i] <= '9'
        };
        if !ok {
            assert(!day_char(v@, i as int));
            return None;
        }
        i += 1;
    }
    if c[0] == '0' && c[1] == '0' && c[2] == '0' && c[3] == '0' {
        return None;
    }
    assert(c@.subrange(0, 10) =~= v@.take(10));
    Some(replace(slice_subrange(c.as_slice(), 0, 10), ':', '-'))
}

/// The day that the picture in the file `bytes` was taken.
pub open spec fn taken_day_of(field: Option<FieldView>) -> Option<Seq<char>> {
    match field {
        Some(FieldView::Ascii(parts)) => if parts.len() > 0 {
            day_of(utf8_lossy(parts[0]))
        } else {
            None
        },
        _ => None,
    }
}

/// The day of a date field.
pub fn field_day(field: &Option<FieldValue>) -> (r: Option<String>)
    ensures
        text_view(r) == taken_day_of(field_view(*field)),
{
    match field {
        Some(FieldValue::Ascii(parts)) => {
            if parts.len() == 0 {
                None
            } else {
                exif_day(from_utf8_lossy(parts[0].as_slice()).as_str())
            }
        },
        _ => None,
    }
}

/// The day that the picture in the file `bytes` was taken.
pub fn taken_day(bytes: &[u8]) -> (r: Option<String>)
    ensures
        text_view(r) == taken_day_of(exif_field(bytes@, TagGroup::Exif, DATE_TIME_ORIGINAL)),
{
    field_day(&read_field(bytes, TagGroup::Exif, DATE_TIME_ORIGINAL))
}

/// The later of two days, where both are known.
pub open spec fn later(a: Option<Seq<char>>, b: Option<Seq<char>>) -> Option<Seq<char>> {
    match (a, b) {
        (Some(x), Some(y)) => if text_lt(y, x) {
            Some(x)
        } else {
            Some(y)
        },
        (Some(x), None) => Some(x),
        (None, y) => y,
    }
}

/// Optional texts.
pub open spec fn days(v: Seq<Option<String>>) -> Seq<Option<Seq<char>>> {
    v.map_values(|d: Option<String>| text_view(d))
}

/// The latest of the known days.
pub open spec fn latest_of(d: Seq<Option<Seq<char>>>) -> Option<Seq<char>>
    decreases d.len(),
{
    if d.len() == 0 {
        None
    } else {
        later(latest_of(d.drop_last()), d.last())
    }
}

fn latest(d: &Vec<Option<String>>) -> (r: Option<String>)
    ensures
        text_view(r) == latest_of(days(d@)),
{
    let mut best: Option<String> = None;
    let ghost all = days(d@);
    let mut i: usize = 0;
    assert(all.take(0) =~= Seq::empty());
    while i < d.len()
        invariant
            i <= d@.len(),
            all == days(d@),
            text_view(best) == latest_of(all.take(i as int)),
        decreases d.len() - i,
    {
        assert(all.take(i + 1).drop_last() =~= all.take(i as int));
        assert(all.take(i + 1).last() == text_view(d@[i as int]));
        let newer = match (&best, &d[i]) {
            (Some(b), Some(x)) => !text_less(x.as_str(), b.as_str()),
            (None, Some(_)) => true,
            (_, None) => false,
        };
        if newer {
            best = copied(&d[i]);
        }
        i += 1;
    }
    assert(all.take(i as int) =~= all);
    best
}

/// The day of a picture: when it was taken, or else when its file was changed.
pub fn picture_day(taken: Option<String>, modified: Option<String>) -> (r: Option<String>)
    ensures
        r == (if taken is Some {
            taken
        } else {
            modified
        }),
{
    match taken {
        Some(d) => Some(d),
        None => modified,
    }
}

/// Day the last picture was taken, as `YYYY-MM-DD`: the latest of the pictures' days, falling back
/// to file modification days, then to today.
pub open spec fn last_taken_of(
    jpegs: Seq<Option<Seq<char>>>,
    files: Seq<Option<Seq<char>>>,
    today: Seq<char>,
) -> Seq<char> {
    match latest_of(jpegs) {
        Some(d) => d,
        None => match latest_of(files) {
            Some(d) => d,
            None => today,
        },
    }
}

/// Day the last picture was taken, as `YYYY-MM-DD`: the latest of the pictures' days, falling back
/// to file modification days, then to today.
pub fn last_taken(jpegs: &Vec<Option<String>>, files: &Vec<Option<String>>, today: &str) -> (r: String)
    ensures
        r@ == last_taken_of(days(jpegs@), days(files@), today@),
{
    match latest(jpegs) {
        Some(d) => d,
        None => match latest(files) {
            Some(d) => d,
            None => today.to_owned(),
        },
    }
}

/// The latest day is one of the days, and none is later.
pub proof fn law_latest_is_the_last_day(d: Seq<Option<Seq<char>>>)
    ensures
        match latest_of(d) {
            Some(x) => d.contains(Some(x)) && forall|i: int|
                0 <= i < d.len() ==> ((#[trigger] d[i]) matches Some(y) ==> !text_lt(x, y)),
            None => forall|i: int| 0 <= i < d.len() ==> (#[trigger] d[i]) is None,
        },
    decreases d.len(),
{
    if d.len() > 0 {
        let r = d.drop_last();
        law_latest_is_the_last_day(r);
        assert(d[d.len() - 1] == d.last());
        let x = latest_of(d);
        let b = latest_of(r);
        if let Some(b) = b {
            let k = choose|k: int| 0 <= k < r.len() && r[k] == Some(b);
            assert(d[k] == Some(b));
        }
        assert forall|i: int| 0 <= i < d.len() implies ((#[trigger] d[i]) matches Some(y)
            ==> x is Some && !text_lt(x->0, y)) by {
            if let Some(y) = d[i] {
                if i < r.len() {
                    assert(r[i] == d[i]);
                    lemma_text_trichotomy(x->0, b->0);
                    lemma_text_transitive(y, b->0, x->0);
                } else {
                    lemma_text_trichotomy(x->0, y);
                }
            }
        }
    }
}

/// The `i`-th path that is tried: the path itself, then `path_1`, `path_2`, …
pub open spec fn candidate(path: Seq<char>, i: nat) -> Seq<char> {
    if i == 0 {
        path
    } else {
        with_file_name_of(path, numbered(path, i))
    }
}

/// The name with a number behind it.
pub open spec fn numbered(path: Seq<char>, i: nat) -> Seq<char> {
    (match file_name_of(path) {
        Some(name) => name,
        None => Seq::empty(),
    }).push('_') + decimal_of(i)
}

/// `taken` may answer `there` for the path `p`.
pub open spec fn may_answer<F: Fn(&str) -> bool>(taken: F, p: Seq<char>, there: bool) -> bool {
    exists|s: &str| s@ == p && #[trigger] call_ensures(taken, (s,), there)
}

/// The last number that is tried.
pub const MAX_NUMBER: u32 = 0x7fff_ffff;

/// `path` if nothing is there yet, otherwise the first free `path_1`, `path_2`, … None if all of
/// them are taken, up to `MAX_NUMBER`.
pub fn unique<F: Fn(&str) -> bool>(path: &str, taken: F) -> (r: Option<String>)
    requires
        forall|s: &str| #[trigger] call_requires(taken, (s,)),
    ensures
        match r {
            Some(p) => exists|i: nat|
                i <= MAX_NUMBER && p@ == #[trigger] candidate(path@, i) && may_answer(
                    taken,
                    candidate(path@, i),
                    false,
                ) && forall|j: nat|
                    j < i ==> may_answer(taken, #[trigger] candidate(path@, j), true),
            None => forall|j: nat|
                j <= MAX_NUMBER ==> may_answer(taken, #[trigger] candidate(path@, j), true),
        },
{
    let there = taken(path);
    if !there {
        let p = path.to_owned();
        assert(p@ == candidate(path@, 0));
        assert(may_answer(taken, path@, false));
        return Some(p);
    }
    assert(may_answer(taken, candidate(path@, 0), true));
    let name = match file_name(path) {
        Some(n) => n,
        None => String::new(),
    };
    assert(name@ =~= (match file_name_of(path@) {
        Some(name) => name,
        None => Seq::empty(),
    }));
    let mut i: u32 = 1;
    while i <= MAX_NUMBER
        invariant
            1 <= i <= MAX_NUMBER + 1,
            forall|s: &str| #[trigger] call_requires(taken, (s,)),
            name@ == (match file_name_of(path@) {
                Some(name) => name,
                None => Seq::empty(),
            }),
            forall|j: nat| j < i ==> may_answer(taken, #[trigger] candidate(path@, j), true),
        decreases MAX_NUMBER + 1 - i,
    {
        let mut numbered = name.clone();
        numbered.push('_');
        numbered.append(decimal(i as u64).as_str());
        let p = with_file_name(path, numbered.as_str());
        assert(p@ == candidate(path@, i as nat));
        let there = taken(p.as_str());
        assert(may_answer(taken, candidate(path@, i as nat), there));
        if !there {
            return Some(p);
        }
        i += 1;
    }
    None
}

/// The home directory, unless it is empty.
pub open spec fn home_of(home: Option<&str>) -> Option<Seq<char>> {
    match home {
        Some(h) => if h@.len() > 0 {
            Some(h@)
        } else {
            None
        },
        None => None,
    }
}

/// The home directory, unless it is empty.
fn usable(home: Option<&str>) -> (r: Option<&str>)
    ensures
        match r {
            Some(h) => home_of(home) == Some(h@) && h@.len() > 0,
            None => home_of(home) is None,
        },
{
    match home {
        Some(h) => {
            if h.is_empty() {
                None
            } else {
                Some(h)
            }
        },
        None => None,
    }
}

/// What a leading `~` stands for.
pub open spec fn expand_of(s: Seq<char>, home: Option<Seq<char>>) -> Seq<char> {
    match home {
        Some(h) => if s == seq!['~'] {
            h
        } else if s.len() > 1 && s[0] == '~' && s[1] == '/' {
            join_of(h, s.skip(2))
        } else {
            s
        },
        None => s,
    }
}

/// Expands a leading `~`.
pub fn expand(s: &str, home: Option<&str>) -> (r: String)
    ensures
        r@ == expand_of(s@, home_of(home)),
{
    let c = chars_of(s);
    match usable(home) {
        Some(h) => {
            if c.len() == 1 && c[0] == '~' {
                assert(s@ =~= seq!['~']);
                h.to_owned()
            } else if c.len() > 1 && c[0] == '~' && c[1] == '/' {
                let rest = text_of(c.as_slice(), 2, c.len());
                assert(rest@ =~= s@.skip(2));
                join(h, rest.as_str())
            } else {
                s.to_owned()
            }
        },
        None => s.to_owned(),
    }
}

/// A path for display, with the home directory as `~`.
pub open spec fn abbreviate_of(path: Seq<char>, home: Option<Seq<char>>) -> Seq<char> {
    match home {
        Some(h) => match strip_prefix_of(path, h) {
            Some(rest) => if rest.len() == 0 {
                seq!['~']
            } else {
                seq!['~', '/'] + rest
            },
            None => path,
        },
        None => path,
    }
}

/// Shortens the home directory back to `~` for display.
pub fn abbreviate(path: &str, home: Option<&str>) -> (r: String)
    ensures
        r@ == abbreviate_of(path@, home_of(home)),
{
    match usable(home) {
        Some(h) => match strip_prefix(path, h) {
            Some(rest) => {
                let mut out = String::new();
                out.push('~');
                if !rest.as_str().is_empty() {
                    out.push('/');
                    out.append(rest.as_str());
                    assert(out@ =~= seq!['~', '/'] + rest@);
                } else {
                    assert(out@ =~= seq!['~']);
                }
                out
            },
            None => path.to_owned(),
        },
        None => path.to_owned(),
    }
}

/// What is displayed is what is meant: expanding a shortened path gives the path again. Left out are
/// paths that are displayed as they are and start with a `~` of their own.
pub proof fn law_expand_undoes_abbreviate(path: Seq<char>, home: Seq<char>)
    requires
        home.len() > 0,
        components(home).len() > 0 || is_absolute(home),
        lies_in(path, home) || !(path.len() > 0 && path[0] == '~'),
    ensures
        same_path(expand_of(abbreviate_of(path, Some(home)), Some(home)), path),
{
    let short = abbreviate_of(path, Some(home));
    if lies_in(path, home) {
        let k = components(home).len() as int;
        let rest = rest_of(path, k);
        lemma_rest(path, k);
        if rest.len() == 0 {
            assert(components(path).take(k) =~= components(path));
        } else {
            assert(short[0] == '~' && short[1] == '/');
            assert(short.skip(2) =~= rest);
            lemma_join_components(home, rest);
            assert(components(home) + components(path).skip(k) =~= components(path));
        }
    } else {
        assert(short == path);
        assert(path.len() > 0 ==> path[0] != '~');
        assert(seq!['~'][0] == '~');
    }
}

/// The folder that the dated one is suggested in: `dest_root` where that is a folder, or else the
/// one that `dir` lies in.
pub fn suggested_root(dest_root: &str, is_dir: bool, dir: &str) -> (r: String)
    ensures
        r@ == (if is_dir {
            dest_root@
        } else {
            match parent_opt(dir@) {
                Some(p) => p,
                None => dir@,
            }
        }),
{
    if is_dir {
        dest_root.to_owned()
    } else {
        match parent(dir) {
            Some(p) => p,
            None => dir.to_owned(),
        }
    }
}

/// The hidden name that a file is copied to first.
pub open spec fn part_name_of(name: Seq<char>) -> Seq<char> {
    seq!['.'] + name + ".cull-part"@
}

/// The hidden name that a file is copied to first.
pub fn part_name(name: &str) -> (r: String)
    ensures
        r@ == part_name_of(name@),
{
    let mut out = String::new();
    out.push('.');
    assert(out@ =~= seq!['.']);
    out.append(name);
    out.append(".cull-part");
    out
}

/// What is to be done next to move a file.
#[derive(Debug, Clone, Copy, PartialEq, Eq, Structural)]
pub enum MoveStep {
    /// Look whether something is at the destination.
    Check,
    /// Rename the file to the destination.
    Direct,
    /// Measure the file.
    Measure,
    /// Copy the file to the hidden name beside the destination.
    Copy,
    /// Open the copy for writing.
    Open,
    /// Give the copy the file's modification time, if that can be done.
    Stamp,
    /// Write the copy through to the disk.
    Sync,
    /// Rename the copy to the destination.
    Publish,
    /// Remove the file.
    RemoveSource,
    /// Remove the copy.
    Discard,
    /// Nothing more.
    Finished,
}

/// Why a step failed.
pub struct StepError {
    /// The destination is on another filesystem.
    pub crosses_devices: bool,
    pub message: String,
}

/// A file on its way. Rename, or copy and delete when the destination is on another filesystem (an
/// SD card, a network share). The copy goes to a hidden temporary name first, so an interrupted
/// move never leaves a truncated file under the real name, and the original is only removed once
/// the copy is complete.
pub struct FileMove {
    pub step: MoveStep,
    /// Length of the file, once it is measured.
    pub size: u64,
    /// Why the file could not be moved.
    pub error: Option<String>,
}

/// A file on its way, as numbers and texts.
#[verifier::ext_equal]
pub struct FileMoveView {
    pub step: MoveStep,
    pub size: nat,
    pub error: Option<Seq<char>>,
}

impl View for FileMove {
    type V = FileMoveView;

    open spec fn view(&self) -> FileMoveView {
        FileMoveView { step: self.step, size: self.size as nat, error: text_view(self.error) }
    }
}

/// A step's answer: a number, or whether the filesystems differ and the error.
pub type StepView = Result<nat, (bool, Seq<char>)>;

pub open spec fn step_view(r: Result<u64, StepError>) -> StepView {
    match r {
        Ok(n) => Ok(n as nat),
        Err(e) => Err((e.crosses_devices, e.message@)),
    }
}

impl FileMoveView {
    pub open spec fn at(self, step: MoveStep) -> FileMoveView {
        FileMoveView { step, size: self.size, error: self.error }
    }

    pub open spec fn failed(self, step: MoveStep, error: Seq<char>) -> FileMoveView {
        FileMoveView { step, size: self.size, error: Some(error) }
    }

    /// The file after its step, where `answer` came of it. `Check` answers 0 where nothing is at
    /// the destination `dst`, `Measure` the length of the file, and `Copy` how many bytes were
    /// copied; the number does not matter otherwise.
    pub open spec fn after(self, answer: StepView, dst: Seq<char>) -> FileMoveView {
        match (self.step, answer) {
            (MoveStep::Check, Ok(n)) => if n == 0 {
                self.at(MoveStep::Direct)
            } else {
                self.failed(MoveStep::Finished, dst + " already exists"@)
            },
            (MoveStep::Check, Err((_, e))) => self.failed(MoveStep::Finished, e),
            (MoveStep::Direct, Ok(_)) => self.at(MoveStep::Finished),
            (MoveStep::Direct, Err((crosses, e))) => if crosses {
                self.at(MoveStep::Measure)
            } else {
                self.failed(MoveStep::Finished, e)
            },
            (MoveStep::Measure, Ok(n)) => FileMoveView {
                step: MoveStep::Copy,
                size: n,
                error: self.error,
            },
            (MoveStep::Copy, Ok(n)) => if n == self.size {
                self.at(MoveStep::Open)
            } else {
                self.failed(MoveStep::Discard, short_copy(n, self.size))
            },
            (MoveStep::Open, Ok(_)) => self.at(MoveStep::Stamp),
            (MoveStep::Stamp, _) => self.at(MoveStep::Sync),
            (MoveStep::Sync, Ok(_)) => self.at(MoveStep::Publish),
            (MoveStep::Publish, Ok(_)) => self.at(MoveStep::RemoveSource),
            (MoveStep::RemoveSource, Ok(_)) => self.at(MoveStep::Finished),
            (MoveStep::RemoveSource, Err((_, e))) => self.failed(MoveStep::Finished, e),
            (MoveStep::Discard, _) => self.at(MoveStep::Finished),
            (MoveStep::Finished, _) => self,
            (_, Err((_, e))) => self.failed(MoveStep::Discard, e),
        }
    }
}

/// The error for a copy that is too short, or too long.
pub open spec fn short_copy(copied: nat, size: nat) -> Seq<char> {
    "copied "@ + decimal_of(copied) + " of "@ + decimal_of(size) + " bytes"@
}

impl FileMove {
    pub fn new() -> (r: FileMove)
        ensures
            r@ == (FileMoveView { step: MoveStep::Check, size: 0, error: None }),
    {
        FileMove { step: MoveStep::Check, size: 0, error: None }
    }

    fn fail(&mut self, step: MoveStep, error: String)
        ensures
            final(self)@ == old(self)@.failed(step, error@),
    {
        self.step = step;
        self.error = Some(error);
    }

    /// Goes on to what is to be done next, where `answer` came of the last step. `dst` is the
    /// destination, for display.
    pub fn advance(&mut self, answer: Result<u64, StepError>, dst: &str)
        ensures
            final(self)@ == old(self)@.after(step_view(answer), dst@),
    {
        match self.step {
            MoveStep::Check => match answer {
                Ok(n) => {
                    if n == 0 {
                        self.step = MoveStep::Direct;
                    } else {
                        let mut e = dst.to_owned();
                        e.append(" already exists");
                        self.fail(MoveStep::Finished, e);
                    }
                },
                Err(e) => {
                    self.fail(MoveStep::Finished, e.message);
                },
            },
            MoveStep::Direct => match answer {
                Ok(_) => {
                    self.step = MoveStep::Finished;
                },
                Err(e) => {
                    if e.crosses_devices {
                        self.step = MoveStep::Measure;
                    } else {
                        self.fail(MoveStep::Finished, e.message);
                    }
                },
            },
            MoveStep::Measure => match answer {
                Ok(n) => {
                    self.size = n;
                    self.step = MoveStep::Copy;
                },
                Err(e) => {
                    self.fail(MoveStep::Discard, e.message);
                },
            },
            MoveStep::Copy => match answer {
                Ok(n) => {
                    if n == self.size {
                        self.step = MoveStep::Open;
                    } else {
                        let mut e = "copied ".to_owned();
                        e.append(decimal(n).as_str());
                        e.append(" of ");
                        e.append(decimal(self.size).as_str());
                        e.append(" bytes");
                        self.fail(MoveStep::Discard, e);
                    }
                },
                Err(e) => {
                    self.fail(MoveStep::Discard, e.message);
                },
            },
            MoveStep::Open => match answer {
                Ok(_) => {
                    self.step = MoveStep::Stamp;
                },
                Err(e) => {
                    self.fail(MoveStep::Discard, e.message);
                },
            },
            MoveStep::Stamp => {
                self.step = MoveStep::Sync;
            },
            MoveStep::Sync => match answer {
                Ok(_) => {
                    self.step = MoveStep::Publish;
                },
                Err(e) => {
                    self.fail(MoveStep::Discard, e.message);
                },
            },
            MoveStep::Publish => match answer {
                Ok(_) => {
                    self.step = MoveStep::RemoveSource;
                },
                Err(e) => {
                    self.fail(MoveStep::Discard, e.message);
                },
            },
            MoveStep::RemoveSource => match answer {
                Ok(_) => {
                    self.step = MoveStep::Finished;
                },
                Err(e) => {
                    self.fail(MoveStep::Finished, e.message);
                },
            },
            MoveStep::Discard => {
                self.step = MoveStep::Finished;
            },
            MoveStep::Finished => {},
        }
    }
}

/// A new move, before its first step.
pub open spec fn fresh_move() -> FileMoveView {
    FileMoveView { step: MoveStep::Check, size: 0, error: None }
}

/// The file after the steps that gave `answers`.
pub open spec fn run_of(answers: Seq<StepView>, dst: Seq<char>) -> FileMoveView
    decreases answers.len(),
{
    if answers.len() == 0 {
        fresh_move()
    } else {
        run_of(answers.drop_last(), dst).after(answers.last(), dst)
    }
}

/// What has been done on the way to a step of the copy: the steps come one after another from the
/// sixth last.
proof fn lemma_copy_so_far(answers: Seq<StepView>, dst: Seq<char>)
    ensures
        ({
            let f = run_of(answers, dst);
            let n = answers.len() as int;
            let s = f.step;
            &&& s is Check ==> n == 0
            &&& (s is Direct || s is Measure || s is Copy || s is Open || s is Stamp || s is Sync
                || s is Publish || s is RemoveSource) ==> f.error is None
            &&& s is Copy ==> n >= 1 && answers[n - 1] == StepView::Ok(f.size)
            &&& s is Open ==> n >= 2 && answers[n - 1] == StepView::Ok(f.size) && answers[n - 2]
                == StepView::Ok(f.size)
            &&& s is Stamp ==> n >= 3 && answers[n - 2] == StepView::Ok(f.size) && answers[n - 3]
                == StepView::Ok(f.size)
            &&& s is Sync ==> n >= 4 && answers[n - 3] == StepView::Ok(f.size) && answers[n - 4]
                == StepView::Ok(f.size)
            &&& s is Publish ==> n >= 5 && answers[n - 1] is Ok && answers[n - 4] == StepView::Ok(
                f.size,
            ) && answers[n - 5] == StepView::Ok(f.size)
            &&& s is RemoveSource ==> n >= 6 && answers[n - 1] is Ok && answers[n - 2] is Ok
                && answers[n - 5] == StepView::Ok(f.size) && answers[n - 6] == StepView::Ok(f.size)
            &&& s is Discard ==> f.error is Some
        }),
    decreases answers.len(),
{
    if answers.len() > 0 {
        let r = answers.drop_last();
        lemma_copy_so_far(r, dst);
        assert(forall|i: int| 0 <= i < r.len() ==> #[trigger] r[i] == answers[i]);
    }
}

/// The original is only removed once the copy is complete: as many bytes were copied as the file
/// has, they were written through to the disk, and the copy has the real name.
#[verifier::spinoff_prover]
#[verifier::rlimit(60)]
pub proof fn law_source_removed_only_after_complete_copy(answers: Seq<StepView>, dst: Seq<char>)
    requires
        run_of(answers, dst).step is RemoveSource,
    ensures
        ({
            let n = answers.len() as int;
            // Measured, copied, opened, stamped, synced, published.
            &&& n >= 6
            &&& run_of(answers.take(n - 6), dst).step is Measure
            &&& answers[n - 6] is Ok
            &&& run_of(answers.take(n - 5), dst).step is Copy
            &&& answers[n - 5] == answers[n - 6]
            &&& run_of(answers.take(n - 2), dst).step is Sync
            &&& answers[n - 2] is Ok
            &&& run_of(answers.take(n - 1), dst).step is Publish
            &&& answers[n - 1] is Ok
        }),
{
    let n = answers.len() as int;
    lemma_copy_so_far(answers, dst);
    lemma_before(answers, dst, n - 1);
    lemma_before(answers, dst, n - 2);
    lemma_before(answers, dst, n - 3);
    lemma_before(answers, dst, n - 4);
    lemma_before(answers, dst, n - 5);
    lemma_before(answers, dst, n - 6);
    assert(answers.take(n) =~= answers);
}

proof fn lemma_before(answers: Seq<StepView>, dst: Seq<char>, i: int)
    requires
        0 <= i < answers.len(),
    ensures
        run_of(answers.take(i + 1), dst) == run_of(answers.take(i), dst).after(answers[i], dst),
{
    assert(answers.take(i + 1).drop_last() =~= answers.take(i));
}

/// An interrupted copy never gets the real name: it is renamed only when it has the length of the
/// file and was written through to the disk.
pub proof fn law_copy_published_only_when_complete(answers: Seq<StepView>, dst: Seq<char>)
    requires
        run_of(answers, dst).step is Publish,
    ensures
        ({
            let n = answers.len() as int;
            // Measured, copied, opened, stamped, synced.
            &&& n >= 5
            &&& run_of(answers.take(n - 5), dst).step is Measure
            &&& answers[n - 5] is Ok
            &&& run_of(answers.take(n - 4), dst).step is Copy
            &&& answers[n - 4] == answers[n - 5]
            &&& run_of(answers.take(n - 1), dst).step is Sync
            &&& answers[n - 1] is Ok
        }),
{
    let n = answers.len() as int;
    lemma_copy_so_far(answers, dst);
    lemma_before(answers, dst, n - 1);
    lemma_before(answers, dst, n - 2);
    lemma_before(answers, dst, n - 3);
    lemma_before(answers, dst, n - 4);
    lemma_before(answers, dst, n - 5);
    assert(answers.take(n) =~= answers);
}

/// A move never overwrites: where something is at the destination, it ends with an error at once.
pub proof fn law_move_never_overwrites(answers: Seq<StepView>, dst: Seq<char>)
    requires
        answers.len() > 0,
        answers[0] matches StepView::Ok(n) && n != 0,
    ensures
        run_of(answers, dst) == fresh_move().failed(
            MoveStep::Finished,
            dst + " already exists"@,
        ),
    decreases answers.len(),
{
    let r = answers.drop_last();
    if r.len() == 0 {
        assert(run_of(r, dst) == fresh_move());
    } else {
        assert(r[0] == answers[0]);
        law_move_never_overwrites(r, dst);
    }
}

/// Every move comes to an end after at most nine steps.
pub proof fn law_move_ends(answers: Seq<StepView>, dst: Seq<char>)
    requires
        answers.len() >= 9,
    ensures
        run_of(answers, dst).step is Finished,
{
    lemma_steps_left(answers, dst);
}

/// How many more steps a move can take.
pub open spec fn steps_left(step: MoveStep) -> nat {
    match step {
        MoveStep::Check => 9,
        MoveStep::Direct => 8,
        MoveStep::Measure => 7,
        MoveStep::Copy => 6,
        MoveStep::Open => 5,
        MoveStep::Stamp => 4,
        MoveStep::Sync => 3,
        MoveStep::Publish => 2,
        MoveStep::RemoveSource => 1,
        MoveStep::Discard => 1,
        MoveStep::Finished => 0,
    }
}

proof fn lemma_steps_left(answers: Seq<StepView>, dst: Seq<char>)
    ensures
        answers.len() + steps_left(run_of(answers, dst).step) <= 9 || run_of(answers, dst).step
            is Finished,
    decreases answers.len(),
{
    if answers.len() > 0 {
        lemma_steps_left(answers.drop_last(), dst);
    }
}

/// What came of moving files.
pub struct Report {
    pub files: usize,
    pub failures: Vec<(String, String)>,
    pub cancelled: bool,
}

/// A report as numbers and texts.
#[verifier::ext_equal]
pub struct ReportView {
    pub files: nat,
    pub failures: Seq<(Seq<char>, Seq<char>)>,
    pub cancelled: bool,
}

impl View for Report {
    type V = ReportView;

    open spec fn view(&self) -> ReportView {
        ReportView {
            files: self.files as nat,
            failures: text_pairs(self.failures@),
            cancelled: self.cancelled,
        }
    }
}

impl Default for Report {
    fn default() -> (r: Report)
        ensures
            r@ == (ReportView { files: 0, failures: Seq::empty(), cancelled: false }),
    {
        let r = Report { files: 0, failures: Vec::new(), cancelled: false };
        assert(r@.failures =~= Seq::empty());
        r
    }
}

pub enum Event {
    /// Files dealt with so far, moved or failed.
    Progress(usize),
    Done(Report),
}

/// The files of a move, one after another.
pub struct Transfer {
    /// The files, for display.
    pub files: Vec<String>,
    /// Files dealt with so far, moved or failed.
    pub done: usize,
    pub report: Report,
}

/// A transfer as numbers and texts.
#[verifier::ext_equal]
pub struct TransferView {
    pub files: Seq<Seq<char>>,
    pub done: nat,
    pub report: ReportView,
}

impl View for Transfer {
    type V = TransferView;

    open spec fn view(&self) -> TransferView {
        TransferView { files: texts(self.files@), done: self.done as nat, report: self.report@ }
    }
}

impl TransferView {
    /// Every file dealt with was moved or failed, and none is dealt with after a stop.
    pub open spec fn valid(self) -> bool {
        &&& self.done <= self.files.len()
        &&& self.report.files + self.report.failures.len() == self.done
        &&& self.report.cancelled ==> self.done < self.files.len()
    }

    /// Whether a file is left to move, and nobody asked to stop.
    pub open spec fn goes_on(self, stop: bool) -> bool {
        self.done < self.files.len() && !stop
    }

    /// The transfer after asking for the next file.
    pub open spec fn asked(self, stop: bool) -> TransferView {
        if self.done < self.files.len() && stop {
            TransferView {
                files: self.files,
                done: self.done,
                report: ReportView {
                    files: self.report.files,
                    failures: self.report.failures,
                    cancelled: true,
                },
            }
        } else {
            self
        }
    }

    /// The transfer after the next file was moved, or failed with `error`.
    pub open spec fn recorded(self, error: Option<Seq<char>>) -> TransferView {
        TransferView {
            files: self.files,
            done: self.done + 1,
            report: match error {
                None => ReportView {
                    files: self.report.files + 1,
                    failures: self.report.failures,
                    cancelled: self.report.cancelled,
                },
                Some(e) => ReportView {
                    files: self.report.files,
                    failures: self.report.failures.push((self.files[self.done as int], e)),
                    cancelled: self.report.cancelled,
                },
            },
        }
    }
}

impl Transfer {
    /// A transfer of `files`, before the first.
    pub fn new(files: Vec<String>) -> (r: Transfer)
        ensures
            r@ == (TransferView {
                files: texts(files@),
                done: 0,
                report: ReportView { files: 0, failures: Seq::empty(), cancelled: false },
            }),
            r@.valid(),
    {
        Transfer { files, done: 0, report: Report::default() }
    }

    /// The next file to move, by its place. None when all are dealt with, or `stop` asks to stop,
    /// which the report then says.
    pub fn next(&mut self, stop: bool) -> (r: Option<usize>)
        requires
            old(self)@.valid(),
        ensures
            final(self)@ == old(self)@.asked(stop),
            final(self)@.valid(),
            match r {
                Some(i) => old(self)@.goes_on(stop) && i == old(self)@.done,
                None => !old(self)@.goes_on(stop),
            },
    {
        if self.done >= self.files.len() {
            return None;
        }
        if stop {
            self.report.cancelled = true;
            return None;
        }
        Some(self.done)
    }

    /// Notes what came of the next file. Returns how many are dealt with.
    pub fn record(&mut self, result: Result<(), String>) -> (r: usize)
        requires
            old(self)@.valid(),
            old(self)@.done < old(self)@.files.len(),
            !old(self)@.report.cancelled,
        ensures
            final(self)@ == old(self)@.recorded(
                match result {
                    Ok(_) => None,
                    Err(e) => Some(e@),
                },
            ),
            final(self)@.valid(),
            r == final(self)@.done,
    {
        let ghost before = self.report@;
        let n: usize = self.files.len();
        assert(self.done < n);
        match result {
            Ok(()) => {
                self.report.files += 1;
            },
            Err(e) => {
                let failure = (self.files[self.done].clone(), e);
                self.report.failures.push(failure);
                assert(text_pairs(self.report.failures@) =~= before.failures.push(
                    (texts(self.files@)[self.done as int], e@),
                ));
            },
        }
        self.done += 1;
        self.done
    }
}

/// The report where the folder `dest` could not be created.
pub fn refused(dest: String, e: String) -> (r: Report)
    ensures
        r@ == (ReportView { files: 0, failures: seq![(dest@, e@)], cancelled: false }),
{
    let mut failures: Vec<(String, String)> = Vec::new();
    let failure = (dest, e);
    failures.push(failure);
    let r = Report { files: 0, failures, cancelled: false };
    assert(r@.failures =~= seq![(dest@, e@)]);
    r
}

/// Whether a character is a digit.
pub open spec fn is_digit(c: char) -> bool {
    '0' <= c && c <= '9'
}

/// A date gives its day: a text that starts with four digits, a mark, two digits, a mark and two
/// digits, and whose year is not 0000, gives those ten characters with dashes for the marks,
/// whatever stands behind them. Every other text gives no day.
pub proof fn law_date_gives_its_day(v: Seq<char>)
    ensures
        ({
            let dated = v.len() >= 10 && is_digit(v[0]) && is_digit(v[1]) && is_digit(v[2])
                && is_digit(v[3]) && (v[4] == ':' || v[4] == '-') && is_digit(v[5]) && is_digit(v[6])
                && (v[7] == ':' || v[7] == '-') && is_digit(v[8]) && is_digit(v[9]);
            let undated = v[0] == '0' && v[1] == '0' && v[2] == '0' && v[3] == '0';
            &&& dated && !undated ==> day_of(v) == Some(
                seq![v[0], v[1], v[2], v[3], '-', v[5], v[6], '-', v[8], v[9]],
            )
            &&& !dated || undated ==> day_of(v) is None
        }),
{
    if v.len() >= 10 {
        let t = v.take(10);
        assert(forall|i: int| 0 <= i < 10 ==> t[i] == v[i]);
        if is_digit(v[0]) && is_digit(v[1]) && is_digit(v[2]) && is_digit(v[3]) && (v[4] == ':'
            || v[4] == '-') && is_digit(v[5]) && is_digit(v[6]) && (v[7] == ':' || v[7] == '-')
            && is_digit(v[8]) && is_digit(v[9]) {
            assert forall|i: int| 0 <= i < 10 implies #[trigger] day_char(v, i) by {
                if i == 0 {
                } else if i == 1 {
                } else if i == 2 {
                } else if i == 3 {
                } else if i == 4 {
                } else if i == 5 {
                } else if i == 6 {
                } else if i == 7 {
                } else if i == 8 {
                } else {
                }
            }
            assert(replaced(t, ':', '-') =~= seq![
                v[0],
                v[1],
                v[2],
                v[3],
                if v[4] == ':' { '-' } else { v[4] },
                v[5],
                v[6],
                if v[7] == ':' { '-' } else { v[7] },
                v[8],
                v[9],
            ]);
        } else {
            assert(!(day_char(v, 0) && day_char(v, 1) && day_char(v, 2) && day_char(v, 3)
                && day_char(v, 4) && day_char(v, 5) && day_char(v, 6) && day_char(v, 7) && day_char(
                v,
                8,
            ) && day_char(v, 9)));
        }
    }
}

/// The day as numbers: a year from 1 to 9999, a month and a day of two digits each, written with
/// colons and anything behind them, are that day with dashes.
pub proof fn law_every_day_of_the_calendar(year: nat, month: nat, day: nat, rest: Seq<char>)
    requires
        1 <= year <= 9999,
        1 <= month <= 12,
        1 <= day <= 31,
    ensures
        day_of(
            padded(year, 4) + seq![':'] + padded(month, 2) + seq![':'] + padded(day, 2) + rest,
        ) == Some(padded(year, 4) + seq!['-'] + padded(month, 2) + seq!['-'] + padded(day, 2)),
{
    reveal_with_fuel(padded, 5);
    let v = padded(year, 4) + seq![':'] + padded(month, 2) + seq![':'] + padded(day, 2) + rest;
    let d = padded(year, 4) + seq!['-'] + padded(month, 2) + seq!['-'] + padded(day, 2);
    assert(padded(year, 4).len() == 4 && padded(month, 2).len() == 2 && padded(day, 2).len() == 2);
    law_date_gives_its_day(v);
    assert(year == 1000 * (year / 10 / 10 / 10 % 10) + 100 * (year / 10 / 10 % 10) + 10 * (year / 10
        % 10) + year % 10);
    assert(d =~= seq![v[0], v[1], v[2], v[3], '-', v[5], v[6], '-', v[8], v[9]]);
}

/// A number in `n` digits, with zeros before it.
pub open spec fn padded(k: nat, n: nat) -> Seq<char>
    decreases n,
{
    if n == 0 {
        Seq::empty()
    } else {
        padded(k / 10, (n - 1) as nat).push(('0' as u32 + k % 10) as char)
    }
}

/// The date of a picture is the first text of its field.
pub proof fn law_taken_day_is_the_fields_day(parts: Seq<Seq<u8>>)
    ensures
        parts.len() > 0 ==> taken_day_of(Some(FieldView::Ascii(parts))) == day_of(
            utf8_lossy(parts[0]),
        ),
        parts.len() == 0 ==> taken_day_of(Some(FieldView::Ascii(parts))) is None,
        taken_day_of(None) is None,
{
}

/// The day of the last picture: one of the pictures' days where one is known, and none of theirs is
/// later; else so with the files' days; else today.
pub proof fn law_last_taken_prefers_pictures(
    jpegs: Seq<Option<Seq<char>>>,
    files: Seq<Option<Seq<char>>>,
    today: Seq<char>,
)
    ensures
        ({
            let day = last_taken_of(jpegs, files, today);
            let some_picture = exists|i: int| 0 <= i < jpegs.len() && (#[trigger] jpegs[i]) is Some;
            let some_file = exists|i: int| 0 <= i < files.len() && (#[trigger] files[i]) is Some;
            &&& some_picture ==> jpegs.contains(Some(day)) && forall|i: int|
                0 <= i < jpegs.len() ==> ((#[trigger] jpegs[i]) matches Some(d) ==> !text_lt(day, d))
            &&& !some_picture && some_file ==> files.contains(Some(day)) && forall|i: int|
                0 <= i < files.len() ==> ((#[trigger] files[i]) matches Some(d) ==> !text_lt(day, d))
            &&& !some_picture && !some_file ==> day == today
        }),
{
    law_latest_is_the_last_day(jpegs);
    law_latest_is_the_last_day(files);
}

/// Only what is visible and a regular file is moved: names that start with a dot stay behind, whatever
/// they are.
pub proof fn law_hidden_files_stay(name: Seq<u8>)
    ensures
        name.len() > 0 && name[0] == 46 ==> !is_remaining(name, true) && !is_remaining(name, false),
        name.len() > 0 && name[0] != 46 ==> is_remaining(name, true),
        !is_remaining(name, false),
{
}

/// The paths that are tried for a free folder are all different: the path itself, and in the same
/// folder its name with an underscore and the numbers from 1 on.
pub proof fn law_numbered_names(path: Seq<char>, name: Seq<char>, i: nat)
    requires
        file_name_of(path) == Some(name),
        i > 0,
    ensures
        candidate(path, 0) == path,
        candidate(path, i) == with_file_name_of(path, name + "_"@ + decimal_of(i)),
{
    reveal_strlit("_");
    assert(name.push('_') =~= name + "_"@);
}

/// A leading `~` stands for the home directory, alone or before a `/`, and for nothing else; without
/// a home directory it stands for itself.
pub proof fn law_tilde(s: Seq<char>, home: Seq<char>)
    ensures
        expand_of(seq!['~'], Some(home)) == home,
        expand_of(seq!['~', '/'] + s, Some(home)) == join_of(home, s),
        s.len() > 0 && s[0] != '~' ==> expand_of(s, Some(home)) == s,
        s.len() > 1 && s[1] != '/' ==> expand_of(s, Some(home)) == s,
        s.len() == 0 ==> expand_of(s, Some(home)) == s,
        expand_of(s, None) == s,
        abbreviate_of(s, None) == s,
{
    assert((seq!['~', '/'] + s).skip(2) =~= s);
    assert(seq!['~'][0] == '~');
    assert((seq!['~', '/'] + s)[1] == '/');
    assert(s.len() > 1 ==> s != seq!['~']) by {
        assert(seq!['~'].len() == 1);
    }
}

/// What is displayed for a path in the home directory is a `~` and the rest; any other path is
/// displayed as it is.
pub proof fn law_home_is_shown_as_tilde(path: Seq<char>, home: Seq<char>)
    requires
        home.len() > 0,
        components(home).len() > 0 || is_absolute(home),
    ensures
        lies_in(path, home) ==> abbreviate_of(path, Some(home)).len() > 0 && abbreviate_of(
            path,
            Some(home),
        )[0] == '~',
        lies_in(path, home) && components(path).len() == components(home).len() ==> abbreviate_of(
            path,
            Some(home),
        ) == seq!['~'],
        !lies_in(path, home) ==> abbreviate_of(path, Some(home)) == path,
{
    if lies_in(path, home) {
        lemma_rest(path, components(home).len() as int);
    }
}

/// A copy goes to a hidden name of its own: it starts with a dot, ends in `.cull-part`, and two
/// files never share one.
pub proof fn law_part_names(a: Seq<char>, b: Seq<char>)
    ensures
        part_name_of(a)[0] == '.',
        part_name_of(a) == "."@ + a + ".cull-part"@,
        part_name_of(a) == part_name_of(b) ==> a == b,
{
    reveal_strlit(".");
    reveal_strlit(".cull-part");
    assert(part_name_of(a) =~= "."@ + a + ".cull-part"@);
    if part_name_of(a) == part_name_of(b) {
        assert(part_name_of(a).len() == part_name_of(b).len());
        assert(part_name_of(a).subrange(1, 1 + a.len() as int) =~= a);
        assert(part_name_of(b).subrange(1, 1 + b.len() as int) =~= b);
    }
}

/// On one filesystem a move is a look and a rename; across filesystems it is a copy that is opened,
/// stamped, written through, renamed, and only then the file removed. Nothing goes wrong then.
pub proof fn law_moves_that_go_well(dst: Seq<char>, size: nat, x: nat, why: Seq<char>)
    ensures
        ({
            let ok = StepView::Ok(x);
            let none = StepView::Ok(0);
            let len = StepView::Ok(size);
            let crossing = StepView::Err((true, why));
            let steps = |a: Seq<StepView>| run_of(a, dst).step;
            &&& run_of(Seq::empty(), dst).step == MoveStep::Check
            &&& steps(seq![none]) == MoveStep::Direct
            &&& steps(seq![none, ok]) == MoveStep::Finished
            &&& run_of(seq![none, ok], dst).error is None
            &&& steps(seq![none, crossing]) == MoveStep::Measure
            &&& steps(seq![none, crossing, len]) == MoveStep::Copy
            &&& steps(seq![none, crossing, len, len]) == MoveStep::Open
            &&& steps(seq![none, crossing, len, len, ok]) == MoveStep::Stamp
            &&& steps(seq![none, crossing, len, len, ok, ok]) == MoveStep::Sync
            &&& steps(seq![none, crossing, len, len, ok, ok, ok]) == MoveStep::Publish
            &&& steps(seq![none, crossing, len, len, ok, ok, ok, ok]) == MoveStep::RemoveSource
            &&& steps(seq![none, crossing, len, len, ok, ok, ok, ok, ok]) == MoveStep::Finished
            &&& run_of(seq![none, crossing, len, len, ok, ok, ok, ok, ok], dst).error is None
        }),
{
    let ok = StepView::Ok(x);
    let none = StepView::Ok(0);
    let len = StepView::Ok(size);
    let crossing = StepView::Err((true, why));
    let a = Seq::<StepView>::empty();
    lemma_run_push(a, none, dst);
    assert(a.push(none) =~= seq![none]);
    let b = seq![none];
    lemma_run_push(b, ok, dst);
    assert(b.push(ok) =~= seq![none, ok]);
    lemma_run_push(b, crossing, dst);
    assert(b.push(crossing) =~= seq![none, crossing]);
    let c = seq![none, crossing];
    lemma_run_push(c, len, dst);
    assert(c.push(len) =~= seq![none, crossing, len]);
    let d = seq![none, crossing, len];
    lemma_run_push(d, len, dst);
    assert(d.push(len) =~= seq![none, crossing, len, len]);
    let e = seq![none, crossing, len, len];
    lemma_run_push(e, ok, dst);
    assert(e.push(ok) =~= seq![none, crossing, len, len, ok]);
    let f = seq![none, crossing, len, len, ok];
    lemma_run_push(f, ok, dst);
    assert(f.push(ok) =~= seq![none, crossing, len, len, ok, ok]);
    let g = seq![none, crossing, len, len, ok, ok];
    lemma_run_push(g, ok, dst);
    assert(g.push(ok) =~= seq![none, crossing, len, len, ok, ok, ok]);
    let h = seq![none, crossing, len, len, ok, ok, ok];
    lemma_run_push(h, ok, dst);
    assert(h.push(ok) =~= seq![none, crossing, len, len, ok, ok, ok, ok]);
    let i = seq![none, crossing, len, len, ok, ok, ok, ok];
    lemma_run_push(i, ok, dst);
    assert(i.push(ok) =~= seq![none, crossing, len, len, ok, ok, ok, ok, ok]);
}

proof fn lemma_run_push(answers: Seq<StepView>, next: StepView, dst: Seq<char>)
    ensures
        run_of(answers.push(next), dst) == run_of(answers, dst).after(next, dst),
{
    assert(answers.push(next).drop_last() =~= answers);
}

/// What goes wrong is reported as it is: an error of the look or of the rename ends the move, one on
/// the way to the complete copy has the copy discarded first, and one of removing the file ends it.
/// The file is then left where it is.
pub proof fn law_errors_are_reported(
    f: FileMoveView,
    crosses: bool,
    e: Seq<char>,
    dst: Seq<char>,
    n: nat,
)
    requires
        f.error is None,
    ensures
        ({
            let g = f.after(StepView::Err((crosses, e)), dst);
            &&& f.step == MoveStep::Check || f.step == MoveStep::RemoveSource || (f.step
                == MoveStep::Direct && !crosses) ==> g.step == MoveStep::Finished && g.error == Some(
                e,
            )
            &&& f.step == MoveStep::Measure || f.step == MoveStep::Copy || f.step == MoveStep::Open
                || f.step == MoveStep::Sync || f.step == MoveStep::Publish ==> g.step
                == MoveStep::Discard && g.error == Some(e)
            &&& f.step == MoveStep::Stamp ==> g.step == MoveStep::Sync && g.error is None
        }),
        f.step == MoveStep::Copy && n != f.size ==> ({
            let g = f.after(StepView::Ok(n), dst);
            g.step == MoveStep::Discard && g.error == Some(
                "copied "@ + decimal_of(n) + " of "@ + decimal_of(f.size) + " bytes"@,
            )
        }),
        f.step == MoveStep::Check && n > 0 ==> f.after(StepView::Ok(n), dst).error == Some(
            dst + " already exists"@,
        ),
        f.step == MoveStep::Discard ==> f.after(StepView::Err((crosses, e)), dst).step
            == MoveStep::Finished,
{
}

/// A transfer deals with its files one after another, from the first: every one counts as moved or is
/// among the failures with its own error, and it stops only when asked to while files are left.
pub proof fn law_transfer_counts_each_file(t: TransferView, error: Option<Seq<char>>)
    requires
        t.done < t.files.len(),
    ensures
        t.recorded(error).done == t.done + 1,
        t.recorded(error).files == t.files,
        error is None ==> t.recorded(error).report.files == t.report.files + 1 && t.recorded(
            error,
        ).report.failures == t.report.failures,
        error matches Some(e) ==> t.recorded(error).report.files == t.report.files && t.recorded(
            error,
        ).report.failures == t.report.failures.push((t.files[t.done as int], e)),
        t.recorded(error).report.cancelled == t.report.cancelled,
        t.goes_on(false) && !t.goes_on(true),
        t.asked(true).report.cancelled,
        t.asked(true).done == t.done && t.asked(true).report.files == t.report.files && t.asked(
            true,
        ).report.failures == t.report.failures,
        t.asked(false) == t,
{
}

/// What a directory's file is called is kept behind the `~` for the home directory, and nothing else
/// of the path.
pub proof fn law_files_at_home(home: Seq<char>, name: Seq<char>)
    requires
        home.len() > 0,
        components(home).len() > 0 || is_absolute(home),
        name.len() > 0,
        !name.contains('/'),
        name != "."@,
    ensures
        abbreviate_of(join_of(home, name), Some(home)) == seq!['~', '/'] + name,
        expand_of(abbreviate_of(join_of(home, name), Some(home)), Some(home)) == join_of(home, name),
{
    crate::paths::law_file_in_a_directory(home, name);
    law_tilde(name, home);
}

/// Only a text can be a date.
pub proof fn law_only_texts_are_dates(bytes: Seq<u8>, at: u32, n: Option<u32>)
    ensures
        taken_day_of(Some(FieldView::Undefined(bytes, at))) is None,
        taken_day_of(Some(FieldView::Other(n))) is None,
{
}

/// Entries are moved in the order of their names, equal ones in the order they were listed.
pub proof fn law_order_of_the_move(entries: Seq<Entry>, a: int, b: int)
    ensures
        bytes_lt(entries[a].name@, entries[b].name@) ==> comes_before(entries, a, b),
        bytes_lt(entries[b].name@, entries[a].name@) ==> !comes_before(entries, a, b),
        entries[a].name@ == entries[b].name@ ==> (comes_before(entries, a, b) <==> a < b),
{
    crate::order::lemma_bytes_trichotomy(entries[a].name@, entries[b].name@);
}

/// A file that was found in the way, or that failed, keeps its error until the end.
pub proof fn law_errors_are_kept(f: FileMoveView, answer: StepView, dst: Seq<char>, n: nat)
    ensures
        f.step == MoveStep::Check && n > 0 ==> f.after(StepView::Ok(n), dst).step == MoveStep::Finished,
        f.step == MoveStep::Discard ==> f.after(answer, dst).step == MoveStep::Finished && f.after(
            answer,
            dst,
        ).error == f.error,
        f.step == MoveStep::Finished ==> f.after(answer, dst) == f,
        f.step == MoveStep::Measure ==> f.after(StepView::Ok(n), dst).size == n,
        f.step != MoveStep::Measure ==> f.after(answer, dst).size == f.size,
{
}

/// An answer is taken as it came: a number, or the error and whether the filesystems differ.
pub proof fn law_answers_as_they_came(n: u64, e: StepError)
    ensures
        step_view(Ok(n)) == StepView::Ok(n as nat),
        step_view(Err(e)) == StepView::Err((e.crosses_devices, e.message@)),
{
}

/// An empty home directory is none.
pub proof fn law_home_directory(h: &str)
    ensures
        home_of(None) is None,
        h@.len() == 0 ==> home_of(Some(h)) is None,
        h@.len() > 0 ==> home_of(Some(h)) == Some(h@),
{
}

/// Entries are moved by what they are: visible regular files.
pub proof fn law_entries_to_move(entries: Seq<Entry>, i: int)
    requires
        0 <= i < entries.len(),
    ensures
        !entries[i].is_file ==> !to_move(entries, i),
        entries[i].name@.len() > 0 && entries[i].name@[0] == 46 ==> !to_move(entries, i),
        entries[i].is_file && entries[i].name@.len() > 0 && entries[i].name@[0] != 46 ==> to_move(
            entries,
            i,
        ),
{
}

/// With every file dealt with a transfer ends, and asking it to stop changes nothing any more.
pub proof fn law_transfer_ends(t: TransferView, stop: bool)
    requires
        t.valid(),
        t.done == t.files.len(),
    ensures
        !t.goes_on(stop),
        t.asked(stop) == t,
        t.report.files + t.report.failures.len() == t.files.len(),
        !t.report.cancelled,
{
}

/// Numbers are tried as far as they are counted.
pub proof fn law_numbers_tried()
    ensures
        MAX_NUMBER == 0x7fff_ffff,
{
}

} // verus!
