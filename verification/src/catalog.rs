//! Groups the files of a directory that share a basename into shots.
use crate::order::{
    increasing, insert_sorted, lemma_sort_push, lemma_sorted_is_sort, lemma_text_order_total,
    lemma_text_transitive, lemma_text_trichotomy, text_less, text_le, text_lt, text_order, texts,
};
use crate::paths::{join, join_of};
use crate::text::{chars_of, same_text, text_of};
use vstd::prelude::*;
use vstd::relations::*;
use vstd::seq_lib::*;
use vstd::string::*;

verus! {

/// What a file is to its shot.
#[derive(Debug, Clone, Copy, PartialEq, Eq, Structural)]
pub enum Kind {
    Jpeg,
    Raw,
    Sidecar,
}

pub const JPEG_EXTS: [&'static str; 2] = ["jpg", "jpeg"];

pub const RAW_EXTS: [&'static str; 23] = [
    "arw", "cr2", "cr3", "crw", "nef", "nrw", "raf", "orf", "rw2", "dng", "pef", "srw", "3fr",
    "iiq", "rwl", "x3f", "erf", "kdc", "mef", "mos", "mrw", "sr2", "srf",
];

pub const SIDECAR_EXTS: [&'static str; 1] = ["xmp"];

/// One shot: a displayable JPEG plus every other file that shares its basename.
#[derive(Debug, Clone, PartialEq, Eq)]
pub struct Shot {
    pub stem: String,
    pub jpeg: String,
    pub raws: Vec<String>,
    pub sidecars: Vec<String>,
}

/// A shot as texts.
#[verifier::ext_equal]
pub struct ShotView {
    pub stem: Seq<char>,
    pub jpeg: Seq<char>,
    pub raws: Seq<Seq<char>>,
    pub sidecars: Seq<Seq<char>>,
}

#[derive(Debug)]
pub struct Catalog {
    pub shots: Vec<Shot>,
    /// RAW files with no matching JPEG. They can't be displayed, so they are never touched.
    pub orphan_raws: Vec<String>,
}

/// A catalog as texts.
#[verifier::ext_equal]
pub struct CatalogView {
    pub shots: Seq<ShotView>,
    pub orphan_raws: Seq<Seq<char>>,
}

struct Group {
    stem: String,
    jpegs: Vec<String>,
    raws: Vec<String>,
    sidecars: Vec<String>,
}

impl View for Shot {
    type V = ShotView;

    open spec fn view(&self) -> ShotView {
        ShotView {
            stem: self.stem@,
            jpeg: self.jpeg@,
            raws: texts(self.raws@),
            sidecars: texts(self.sidecars@),
        }
    }
}

impl View for Catalog {
    type V = CatalogView;

    open spec fn view(&self) -> CatalogView {
        CatalogView { shots: shot_views(self.shots@), orphan_raws: texts(self.orphan_raws@) }
    }
}

/// The shots of a list, as texts.
pub open spec fn shot_views(shots: Seq<Shot>) -> Seq<ShotView> {
    shots.map_values(|s: Shot| s@)
}

/// The stems of shots.
pub open spec fn stems(shots: Seq<ShotView>) -> Seq<Seq<char>> {
    shots.map_values(|s: ShotView| s.stem)
}

/// The shots come in the order of their stems, and no two have the same stem.
#[verifier::opaque]
pub open spec fn ordered_shots(shots: Seq<ShotView>) -> bool {
    increasing(stems(shots))
}

impl ShotView {
    /// Every file of the shot: the JPEG, the RAWs, then the sidecars.
    pub open spec fn files(self) -> Seq<Seq<char>> {
        seq![self.jpeg] + self.raws + self.sidecars
    }
}

/// The files of the shots, one after another.
pub open spec fn all_files(shots: Seq<ShotView>) -> Seq<Seq<char>>
    decreases shots.len(),
{
    if shots.len() == 0 {
        Seq::empty()
    } else {
        all_files(shots.drop_last()) + shots.last().files()
    }
}

impl CatalogView {
    /// Every file of the catalog: those of the shots, then the RAWs without a JPEG.
    pub open spec fn files(self) -> Seq<Seq<char>> {
        all_files(self.shots) + self.orphan_raws
    }
}

/// `c` in lower case, where it is a letter of ASCII.
pub open spec fn ascii_lower(c: char) -> char {
    if 'A' <= c && c <= 'Z' {
        ((c as u8 + 32) as u8) as char
    } else {
        c
    }
}

/// Whether `ext` is one of `list`, but for the case of ASCII letters.
pub open spec fn ext_among(list: Seq<&str>, ext: Seq<char>) -> bool {
    exists|i: int|
        0 <= i < list.len() && (#[trigger] list[i])@ == ext.map_values(|c: char| ascii_lower(c))
}

/// What a file with the extension `ext` is to its shot.
pub open spec fn classify_of(ext: Seq<char>) -> Option<Kind> {
    if ext_among(JPEG_EXTS@, ext) {
        Some(Kind::Jpeg)
    } else if ext_among(RAW_EXTS@, ext) {
        Some(Kind::Raw)
    } else if ext_among(SIDECAR_EXTS@, ext) {
        Some(Kind::Sidecar)
    } else {
        None
    }
}

/// The place of the last `.`.
pub open spec fn last_dot(s: Seq<char>) -> Option<int>
    decreases s.len(),
{
    if s.len() == 0 {
        None
    } else if s.last() == '.' {
        Some(s.len() - 1)
    } else {
        last_dot(s.drop_last())
    }
}

/// What stands before and behind the last `.`.
pub open spec fn split_dot(s: Seq<char>) -> Option<(Seq<char>, Seq<char>)> {
    match last_dot(s) {
        Some(i) => Some((s.take(i), s.skip(i + 1))),
        None => None,
    }
}

/// What stands before the last `.`, or the whole where there is none.
pub open spec fn before_dot(s: Seq<char>) -> Seq<char> {
    match last_dot(s) {
        Some(i) => s.take(i),
        None => s,
    }
}

/// Whether `stem` ends in an extension of an image, as in the `X.ARW` of `X.ARW.xmp`.
pub open spec fn has_image_ext(stem: Seq<char>) -> bool {
    match split_dot(stem) {
        Some((_, ext)) => classify_of(ext) == Some(Kind::Jpeg) || classify_of(ext) == Some(
            Kind::Raw,
        ),
        None => false,
    }
}

/// The stem and kind of a file name. Sidecars may be named `X.xmp` or `X.ARW.xmp`.
pub open spec fn split_name_of(name: Seq<char>) -> Option<(Seq<char>, Kind)> {
    match split_dot(name) {
        None => None,
        Some((stem, ext)) => match classify_of(ext) {
            None => None,
            Some(kind) => if kind == Kind::Sidecar && has_image_ext(stem) {
                Some((before_dot(stem), kind))
            } else if stem.len() == 0 {
                None
            } else {
                Some((stem, kind))
            },
        },
    }
}

/// Whether the name is hidden, as macOS's AppleDouble `._DSC0001.JPG` on SD cards.
pub open spec fn is_hidden(name: Seq<char>) -> bool {
    name.len() > 0 && name[0] == '.'
}

/// The stem and kind of a file that belongs in a catalog.
pub open spec fn listed_as(name: Seq<char>) -> Option<(Seq<char>, Kind)> {
    if is_hidden(name) {
        None
    } else {
        split_name_of(name)
    }
}

/// The path in `dir` of a file of the given stem and kind.
pub open spec fn member_path(dir: Seq<char>, stem: Seq<char>, kind: Kind) -> spec_fn(
    Seq<char>,
) -> Option<Seq<char>> {
    |name: Seq<char>|
        if listed_as(name) == Some((stem, kind)) {
            Some(join_of(dir, name))
        } else {
            None
        }
}

/// The sorted paths of the files of the given stem and kind.
pub open spec fn paths_of(
    dir: Seq<char>,
    names: Seq<Seq<char>>,
    stem: Seq<char>,
    kind: Kind,
) -> Seq<Seq<char>> {
    names.filter_map(member_path(dir, stem, kind)).sort_by(text_order())
}

/// The stems of the listed files, each once and in order.
pub open spec fn stems_of(names: Seq<Seq<char>>) -> Seq<Seq<char>>
    decreases names.len(),
{
    if names.len() == 0 {
        Seq::empty()
    } else {
        let stems = stems_of(names.drop_last());
        match listed_as(names.last()) {
            Some((stem, _)) => if stems.contains(stem) {
                stems
            } else {
                stems.push(stem).sort_by(text_order())
            },
            None => stems,
        }
    }
}

/// The shot of a stem: the first JPEG is shown, and duplicate JPEGs (e.g. both .JPG and .jpeg) go
/// with the sidecars.
pub open spec fn shot_of(dir: Seq<char>, names: Seq<Seq<char>>, stem: Seq<char>) -> ShotView {
    let jpegs = paths_of(dir, names, stem, Kind::Jpeg);
    ShotView {
        stem,
        jpeg: jpegs[0],
        raws: paths_of(dir, names, stem, Kind::Raw),
        sidecars: jpegs.skip(1) + paths_of(dir, names, stem, Kind::Sidecar),
    }
}

/// Whether there is a JPEG of the stem.
pub open spec fn has_jpeg(dir: Seq<char>, names: Seq<Seq<char>>, stem: Seq<char>) -> bool {
    paths_of(dir, names, stem, Kind::Jpeg).len() > 0
}

/// The shots of those stems that have a JPEG.
pub open spec fn shots_among(
    dir: Seq<char>,
    names: Seq<Seq<char>>,
    stems: Seq<Seq<char>>,
) -> Seq<ShotView>
    decreases stems.len(),
{
    if stems.len() == 0 {
        Seq::empty()
    } else {
        let before = shots_among(dir, names, stems.drop_last());
        if has_jpeg(dir, names, stems.last()) {
            before.push(shot_of(dir, names, stems.last()))
        } else {
            before
        }
    }
}

/// The RAWs of those stems that have no JPEG.
pub open spec fn orphans_among(
    dir: Seq<char>,
    names: Seq<Seq<char>>,
    stems: Seq<Seq<char>>,
) -> Seq<Seq<char>>
    decreases stems.len(),
{
    if stems.len() == 0 {
        Seq::empty()
    } else {
        let before = orphans_among(dir, names, stems.drop_last());
        if has_jpeg(dir, names, stems.last()) {
            before
        } else {
            before + paths_of(dir, names, stems.last(), Kind::Raw)
        }
    }
}

/// The catalog of the files `names` of `dir`.
pub open spec fn catalog_of(dir: Seq<char>, names: Seq<Seq<char>>) -> CatalogView {
    CatalogView {
        shots: shots_among(dir, names, stems_of(names)),
        orphan_raws: orphans_among(dir, names, stems_of(names)),
    }
}

impl Shot {
    /// Every file that should be removed when this shot is culled.
    pub fn files(&self) -> (r: Vec<String>)
        ensures
            texts(r@) == self@.files(),
    {
        let mut out: Vec<String> = Vec::new();
        out.push(self.jpeg.clone());
        append_clones(&mut out, &self.raws);
        append_clones(&mut out, &self.sidecars);
        assert(texts(out@) =~= self@.files());
        out
    }

    pub fn has_raw(&self) -> (r: bool)
        ensures
            r == (self@.raws.len() > 0),
    {
        self.raws.len() > 0
    }
}

/// Appends copies of `more` to `out`.
fn append_clones(out: &mut Vec<String>, more: &Vec<String>)
    ensures
        texts(final(out)@) == texts(old(out)@) + texts(more@),
{
    let ghost before = texts(out@);
    let mut i: usize = 0;
    while i < more.len()
        invariant
            i <= more.len(),
            texts(out@) == before + texts(more@).take(i as int),
        decreases more.len() - i,
    {
        let ghost prev = texts(out@);
        let file = more[i].clone();
        out.push(file);
        assert(texts(out@) =~= prev.push(file@));
        assert(texts(more@).take(i + 1) =~= texts(more@).take(i as int).push(file@));
        i += 1;
    }
    assert(texts(more@).take(i as int) =~= texts(more@));
}

/// `ext` in lower case, where its characters are letters of ASCII.
fn lower(ext: &[char]) -> (r: String)
    ensures
        r@ == ext@.map_values(|c: char| ascii_lower(c)),
{
    let mut out = String::new();
    let mut i: usize = 0;
    while i < ext.len()
        invariant
            i <= ext.len(),
            out@ == ext@.take(i as int).map_values(|c: char| ascii_lower(c)),
        decreases ext.len() - i,
    {
        let c = ext[i];
        let d: char = if 'A' <= c && c <= 'Z' {
            (c as u8 + 32) as char
        } else {
            c
        };
        out.push(d);
        assert(out@ =~= ext@.take(i + 1).map_values(|c: char| ascii_lower(c)));
        i += 1;
    }
    assert(ext@.take(i as int) =~= ext@);
    out
}

fn among(list: &[&str], ext: &str) -> (r: bool)
    ensures
        r == (exists|i: int| 0 <= i < list@.len() && (#[trigger] list@[i])@ == ext@),
{
    let mut i: usize = 0;
    while i < list.len()
        invariant
            i <= list.len(),
            forall|j: int| 0 <= j < i ==> (#[trigger] list@[j])@ != ext@,
        decreases list.len() - i,
    {
        if same_text(list[i], ext) {
            return true;
        }
        i += 1;
    }
    false
}

/// What a file with the extension `ext` is to its shot.
pub fn classify(ext: &str) -> (r: Option<Kind>)
    ensures
        r == classify_of(ext@),
{
    classify_chars(chars_of(ext).as_slice())
}

fn classify_chars(ext: &[char]) -> (r: Option<Kind>)
    ensures
        r == classify_of(ext@),
{
    let ext = lower(ext);
    if among(&JPEG_EXTS, ext.as_str()) {
        Some(Kind::Jpeg)
    } else if among(&RAW_EXTS, ext.as_str()) {
        Some(Kind::Raw)
    } else if among(&SIDECAR_EXTS, ext.as_str()) {
        Some(Kind::Sidecar)
    } else {
        None
    }
}

/// The place of the last `.` before `end`.
fn find_dot(name: &[char], end: usize) -> (r: Option<usize>)
    requires
        end <= name.len(),
    ensures
        match r {
            Some(i) => i < end && last_dot(name@.take(end as int)) == Some(i as int),
            None => last_dot(name@.take(end as int)) is None,
        },
{
    let mut i: usize = end;
    while i > 0
        invariant
            i <= end <= name.len(),
            last_dot(name@.take(i as int)) == last_dot(name@.take(end as int)),
        decreases i,
    {
        assert(name@.take(i as int).drop_last() =~= name@.take(i - 1));
        i -= 1;
        if name[i] == '.' {
            return Some(i);
        }
    }
    None
}

/// Splits a file name into (stem, kind). Sidecars may be named `X.xmp` or `X.ARW.xmp`.
fn split_name(name: &[char]) -> (r: Option<(String, Kind)>)
    ensures
        match r {
            Some((stem, kind)) => split_name_of(name@) == Some((stem@, kind)),
            None => split_name_of(name@) is None,
        },
{
    assert(name@.take(name@.len() as int) =~= name@);
    let dot: usize = match find_dot(name, name.len()) {
        Some(i) => i,
        None => {
            return None;
        },
    };
    let ext = vstd::slice::slice_subrange(name, dot + 1, name.len());
    assert(ext@ =~= name@.skip(dot + 1));
    let kind = match classify_chars(ext) {
        Some(k) => k,
        None => {
            return None;
        },
    };
    let ghost stem = name@.take(dot as int);
    assert(name@.subrange(0, dot as int) =~= stem);
    if kind == Kind::Sidecar {
        match find_dot(name, dot) {
            Some(inner) => {
                let inner_ext = vstd::slice::slice_subrange(name, inner + 1, dot);
                assert(inner_ext@ =~= stem.skip(inner + 1));
                assert(name@.subrange(0, inner as int) =~= stem.take(inner as int));
                match classify_chars(inner_ext) {
                    Some(Kind::Jpeg) | Some(Kind::Raw) => {
                        return Some((text_of(name, 0, inner), kind));
                    },
                    _ => {},
                }
            },
            None => {},
        }
    }
    if dot == 0 {
        return None;
    }
    Some((text_of(name, 0, dot), kind))
}

/// The stems of the groups.
spec fn group_stems(groups: Seq<Group>) -> Seq<Seq<char>> {
    groups.map_values(|g: Group| g.stem@)
}

/// The group holds the files of its stem.
spec fn group_matches(g: Group, dir: Seq<char>, names: Seq<Seq<char>>) -> bool {
    &&& texts(g.jpegs@) == paths_of(dir, names, g.stem@, Kind::Jpeg)
    &&& texts(g.raws@) == paths_of(dir, names, g.stem@, Kind::Raw)
    &&& texts(g.sidecars@) == paths_of(dir, names, g.stem@, Kind::Sidecar)
}

/// The groups hold the listed files.
spec fn groups_match(groups: Seq<Group>, dir: Seq<char>, names: Seq<Seq<char>>) -> bool {
    &&& group_stems(groups) == stems_of(names)
    &&& forall|i: int| 0 <= i < groups.len() ==> group_matches(#[trigger] groups[i], dir, names)
}

proof fn lemma_paths_push(
    dir: Seq<char>,
    names: Seq<Seq<char>>,
    name: Seq<char>,
    stem: Seq<char>,
    kind: Kind,
)
    ensures
        paths_of(dir, names.push(name), stem, kind) == (if listed_as(name) == Some((stem, kind)) {
            paths_of(dir, names, stem, kind).push(join_of(dir, name)).sort_by(text_order())
        } else {
            paths_of(dir, names, stem, kind)
        }),
{
    let f = member_path(dir, stem, kind);
    let s = names.filter_map(f);
    assert(names.push(name).drop_last() =~= names);
    if listed_as(name) == Some((stem, kind)) {
        assert(names.push(name).filter_map(f) =~= s.push(join_of(dir, name)));
        lemma_sort_push(s, join_of(dir, name));
    } else {
        assert(names.push(name).filter_map(f) =~= s);
    }
}

/// A sorted list of different texts is increasing.
proof fn lemma_distinct_sorted(s: Seq<Seq<char>>)
    requires
        s.no_duplicates(),
        sorted_by(s, text_order()),
    ensures
        increasing(s),
{
    assert forall|i: int, j: int| 0 <= i < j < s.len() implies text_lt(
        #[trigger] s[i],
        #[trigger] s[j],
    ) by {
        assert(text_order()(s[i], s[j]));
        lemma_text_trichotomy(s[i], s[j]);
    }
}

/// An increasing list is sorted and without duplicates.
proof fn lemma_increasing(s: Seq<Seq<char>>)
    requires
        increasing(s),
    ensures
        s.no_duplicates(),
        sorted_by(s, text_order()),
{
    assert forall|i: int, j: int| 0 <= i < j < s.len() implies #[trigger] text_order()(s[i], s[j])
        && s[i] != s[j] by {
        lemma_text_trichotomy(s[i], s[j]);
    }
    assert(s.no_duplicates()) by {
        assert forall|i: int, j: int| 0 <= i < s.len() && 0 <= j < s.len() && i != j implies s[i]
            != s[j] by {
            if i < j {
                assert(text_order()(s[i], s[j]));
            } else {
                assert(text_order()(s[j], s[i]));
            }
        }
    }
}

/// Putting a new text in its place is sorting the list with it.
proof fn lemma_insert_is_sort(s: Seq<Seq<char>>, i: int, x: Seq<char>)
    requires
        increasing(s),
        0 <= i <= s.len(),
        forall|j: int| 0 <= j < i ==> text_lt(#[trigger] s[j], x),
        forall|j: int| i <= j < s.len() ==> text_lt(x, #[trigger] s[j]),
    ensures
        s.insert(i, x) == s.push(x).sort_by(text_order()),
        increasing(s.insert(i, x)),
{
    broadcast use group_to_multiset_ensures;

    let after = s.insert(i, x);
    assert forall|a: int, b: int| 0 <= a < b < after.len() implies text_lt(
        #[trigger] after[a],
        #[trigger] after[b],
    ) by {
        let a0 = if a < i {
            a
        } else {
            a - 1
        };
        let b0 = if b < i {
            b
        } else {
            b - 1
        };
        if a == i {
            assert(text_lt(x, s[b0]));
        } else if b == i {
            assert(text_lt(s[a0], x));
        } else {
            assert(text_lt(s[a0], s[b0]));
        }
    }
    lemma_increasing(after);
    assert(after.remove(i) =~= s);
    assert(after.to_multiset().remove(x) =~= s.to_multiset());
    assert(after.to_multiset() =~= s.push(x).to_multiset());
    lemma_sorted_is_sort(after, s.push(x));
}

/// The stems come in increasing order, and are those of the listed files.
pub proof fn lemma_stems(names: Seq<Seq<char>>)
    ensures
        increasing(stems_of(names)),
        forall|stem: Seq<char>| #[trigger]
            stems_of(names).contains(stem) <==> exists|i: int|
                0 <= i < names.len() && (listed_as(#[trigger] names[i]) matches Some((s, _))
                    && s == stem),
    decreases names.len(),
{
    if names.len() > 0 {
        let rest = names.drop_last();
        let stems = stems_of(rest);
        lemma_stems(rest);
        assert forall|stem: Seq<char>|
            (exists|i: int|
                0 <= i < names.len() && (listed_as(#[trigger] names[i]) matches Some((s, _)) && s
                    == stem)) <==> (stems.contains(stem) || (listed_as(
                names.last(),
            ) matches Some((s, _)) && s == stem)) by {
            if stems.contains(stem) {
                let i = choose|i: int|
                    0 <= i < rest.len() && (listed_as(#[trigger] rest[i]) matches Some((s, _)) && s
                        == stem);
                assert(names[i] == rest[i]);
            }
            if exists|i: int|
                0 <= i < names.len() && (listed_as(#[trigger] names[i]) matches Some((s, _)) && s
                    == stem) {
                let i = choose|i: int|
                    0 <= i < names.len() && (listed_as(#[trigger] names[i]) matches Some((s, _))
                        && s == stem);
                if i < rest.len() {
                    assert(rest[i] == names[i]);
                }
            }
        }
        match listed_as(names.last()) {
            Some((stem, _)) => {
                if !stems.contains(stem) {
                    broadcast use group_to_multiset_ensures;

                    let more = stems.push(stem);
                    lemma_text_order_total();
                    more.lemma_sort_by_ensures(text_order());
                    lemma_increasing(stems);
                    let sorted = more.sort_by(text_order());
                    assert(more.no_duplicates());
                    more.lemma_multiset_has_no_duplicates();
                    sorted.lemma_multiset_has_no_duplicates_conv();
                    lemma_distinct_sorted(sorted);
                    assert forall|t: Seq<char>| #[trigger] sorted.contains(t) <==> (stems.contains(t)
                        || t == stem) by {
                        assert(sorted.contains(t) <==> more.to_multiset().count(t) > 0);
                        assert(more.contains(t) <==> more.to_multiset().count(t) > 0);
                        if stems.contains(t) {
                            let i = choose|i: int| 0 <= i < stems.len() && stems[i] == t;
                            assert(more[i] == t);
                        }
                        if t == stem {
                            assert(more[stems.len() as int] == t);
                        }
                    }
                }
            },
            None => {},
        }
    }
}

/// A stem that is not among the stems has no files.
proof fn lemma_unlisted_empty(
    dir: Seq<char>,
    names: Seq<Seq<char>>,
    stem: Seq<char>,
    kind: Kind,
)
    requires
        !stems_of(names).contains(stem),
    ensures
        paths_of(dir, names, stem, kind) == Seq::<Seq<char>>::empty(),
    decreases names.len(),
{
    lemma_stems(names);
    let f = member_path(dir, stem, kind);
    if names.len() == 0 {
        lemma_sorted_is_sort(Seq::empty(), Seq::empty());
    } else {
        let rest = names.drop_last();
        lemma_stems(rest);
        if stems_of(rest).contains(stem) {
            let i = choose|i: int|
                0 <= i < rest.len() && (listed_as(#[trigger] rest[i]) matches Some((s, _)) && s
                    == stem);
            assert(names[i] == rest[i]);
            assert(false);
        }
        lemma_unlisted_empty(dir, rest, stem, kind);
        assert(names =~= rest.push(names.last()));
        lemma_paths_push(dir, rest, names.last(), stem, kind);
        if listed_as(names.last()) == Some((stem, kind)) {
            assert(listed_as(names[names.len() - 1]) matches Some((s, _)) && s == stem);
            assert(false);
        }
    }
}

/// The place of a stem among groups in increasing order: its group, or where it would go.
fn find_group(groups: &Vec<Group>, stem: &str) -> (r: (bool, usize))
    requires
        increasing(group_stems(groups@)),
    ensures
        r.1 <= groups@.len(),
        r.0 ==> r.1 < groups@.len() && groups@[r.1 as int].stem@ == stem@,
        !r.0 ==> {
            &&& forall|j: int| 0 <= j < r.1 ==> text_lt(#[trigger] group_stems(groups@)[j], stem@)
            &&& forall|j: int|
                r.1 <= j < groups@.len() ==> text_lt(stem@, #[trigger] group_stems(groups@)[j])
        },
{
    let ghost stems = group_stems(groups@);
    let mut lo: usize = 0;
    let mut hi: usize = groups.len();
    while lo < hi
        invariant
            lo <= hi <= groups@.len(),
            stems == group_stems(groups@),
            increasing(stems),
            forall|j: int| 0 <= j < lo ==> text_lt(#[trigger] stems[j], stem@),
            forall|j: int| hi <= j < stems.len() ==> text_lt(stem@, #[trigger] stems[j]),
        decreases hi - lo,
    {
        let mid: usize = lo + (hi - lo) / 2;
        assert(stems[mid as int] == groups@[mid as int].stem@);
        if text_less(groups[mid].stem.as_str(), stem) {
            proof {
                assert forall|j: int| 0 <= j < mid + 1 implies text_lt(#[trigger] stems[j], stem@) by {
                    if j < mid {
                        lemma_text_transitive(stems[j], stems[mid as int], stem@);
                    }
                }
            }
            lo = mid + 1;
        } else if text_less(stem, groups[mid].stem.as_str()) {
            proof {
                assert forall|j: int| mid <= j < stems.len() implies text_lt(
                    stem@,
                    #[trigger] stems[j],
                ) by {
                    if mid < j {
                        lemma_text_transitive(stem@, stems[mid as int], stems[j]);
                    }
                }
            }
            hi = mid;
        } else {
            proof {
                lemma_text_trichotomy(stems[mid as int], stem@);
            }
            return (true, mid);
        }
    }
    (false, lo)
}

/// Adds the file `name` of the given stem and kind.
fn add_file(
    groups: &mut Vec<Group>,
    dir: &str,
    name: &str,
    stem: String,
    kind: Kind,
    Ghost(names): Ghost<Seq<Seq<char>>>,
)
    requires
        groups_match(old(groups)@, dir@, names),
        listed_as(name@) == Some((stem@, kind)),
    ensures
        groups_match(final(groups)@, dir@, names.push(name@)),
{
    let ghost before = groups@;
    let ghost st = stem@;
    let ghost more = names.push(name@);
    proof {
        lemma_stems(names);
        assert(more.drop_last() =~= names);
        assert forall|s: Seq<char>, k: Kind| (s, k) != (st, kind) implies #[trigger] paths_of(
            dir@,
            more,
            s,
            k,
        ) == paths_of(dir@, names, s, k) by {
            lemma_paths_push(dir@, names, name@, s, k);
        }
        lemma_paths_push(dir@, names, name@, st, kind);
    }
    let (found, at) = find_group(groups, stem.as_str());
    if !found {
        proof {
            if stems_of(names).contains(st) {
                let j = choose|j: int| 0 <= j < stems_of(names).len() && stems_of(names)[j] == st;
                lemma_text_trichotomy(st, st);
                assert(group_stems(before)[j] == st);
                assert(false);
            }
            lemma_unlisted_empty(dir@, names, st, Kind::Jpeg);
            lemma_unlisted_empty(dir@, names, st, Kind::Raw);
            lemma_unlisted_empty(dir@, names, st, Kind::Sidecar);
            lemma_insert_is_sort(stems_of(names), at as int, st);
        }
        let group = Group { stem, jpegs: Vec::new(), raws: Vec::new(), sidecars: Vec::new() };
        groups.insert(at, group);
        proof {
            assert(group_stems(groups@) =~= group_stems(before).insert(at as int, st));
            assert(texts(group.jpegs@) =~= Seq::<Seq<char>>::empty());
        }
    }
    assert(group_stems(groups@) == stems_of(more)) by {
        if found {
            assert(group_stems(before)[at as int] == st);
            assert(stems_of(names).contains(st));
        }
    }
    let ghost mid = groups@;
    assert(mid[at as int].stem@ == st);
    assert(forall|i: int| 0 <= i < mid.len() ==> group_matches(#[trigger] mid[i], dir@, names));
    assert forall|i: int| 0 <= i < mid.len() && i != at implies (#[trigger] mid[i]).stem@ != st by {
        lemma_stems(more);
        lemma_increasing(group_stems(mid));
        assert(group_stems(mid)[i] == mid[i].stem@);
        assert(group_stems(mid)[at as int] == mid[at as int].stem@);
    }
    let path = join(dir, name);
    proof {
        lemma_text_order_total();
        names.filter_map(member_path(dir@, st, kind)).lemma_sort_by_ensures(text_order());
    }
    match kind {
        Kind::Jpeg => {
            insert_sorted(&mut groups[at].jpegs, path);
        },
        Kind::Raw => {
            insert_sorted(&mut groups[at].raws, path);
        },
        Kind::Sidecar => {
            insert_sorted(&mut groups[at].sidecars, path);
        },
    }
    proof {
        assert(group_stems(groups@) =~= group_stems(mid));
        assert forall|i: int| 0 <= i < groups@.len() implies group_matches(
            #[trigger] groups@[i],
            dir@,
            more,
        ) by {
            assert(group_matches(mid[i], dir@, names));
            if i != at {
                assert(groups@[i] == mid[i]);
                assert(mid[i].stem@ != st);
            }
        }
    }
}

impl Default for Catalog {
    fn default() -> (r: Catalog)
        ensures
            r@ == (CatalogView { shots: Seq::empty(), orphan_raws: Seq::empty() }),
    {
        let r = Catalog { shots: Vec::new(), orphan_raws: Vec::new() };
        assert(r@.shots =~= Seq::empty());
        assert(r@.orphan_raws =~= Seq::empty());
        r
    }
}

impl Catalog {
    /// Groups the files `names` of `dir` into shots.
    pub fn from_names(dir: &str, names: Vec<String>) -> (r: Catalog)
        ensures
            r@ == catalog_of(dir@, texts(names@)),
            ordered_shots(r@.shots),
    {
        let ghost all = texts(names@);
        let mut groups: Vec<Group> = Vec::new();
        let mut i: usize = 0;
        assert(group_stems(groups@) =~= Seq::<Seq<char>>::empty());
        assert(all.take(0) =~= Seq::<Seq<char>>::empty());
        while i < names.len()
            invariant
                i <= names.len(),
                all == texts(names@),
                groups_match(groups@, dir@, all.take(i as int)),
            decreases names.len() - i,
        {
            let ghost seen = all.take(i as int);
            let name = names[i].as_str();
            assert(all.take(i + 1) =~= seen.push(name@));
            let chars = chars_of(name);
            let mut listed: Option<(String, Kind)> = None;
            // Skip hidden files, including macOS AppleDouble `._DSC0001.JPG` files on SD cards.
            if chars.len() == 0 || chars[0] != '.' {
                listed = split_name(chars.as_slice());
            }
            match listed {
                Some((stem, kind)) => {
                    add_file(&mut groups, dir, name, stem, kind, Ghost(seen));
                },
                None => {
                    proof {
                        assert(listed_as(name@) is None);
                        assert(seen.push(name@).drop_last() =~= seen);
                        assert forall|s: Seq<char>, k: Kind| #[trigger]
                            paths_of(dir@, seen.push(name@), s, k) == paths_of(dir@, seen, s, k) by {
                            lemma_paths_push(dir@, seen, name@, s, k);
                        }
                        assert forall|j: int| 0 <= j < groups@.len() implies group_matches(
                            #[trigger] groups@[j],
                            dir@,
                            seen.push(name@),
                        ) by {
                            assert(group_matches(groups@[j], dir@, seen));
                        }
                    }
                },
            }
            i += 1;
        }
        assert(all.take(i as int) =~= all);
        proof {
            law_shots_ordered_by_stem(dir@, all);
        }
        collect(groups, dir, Ghost(all))
    }
}

/// Turns the groups into the catalog.
fn collect(groups: Vec<Group>, dir: &str, Ghost(names): Ghost<Seq<Seq<char>>>) -> (r: Catalog)
    requires
        groups_match(groups@, dir@, names),
    ensures
        r@ == catalog_of(dir@, names),
{
    let ghost stems = stems_of(names);
    let mut shots: Vec<Shot> = Vec::new();
    let mut orphan_raws: Vec<String> = Vec::new();
    let mut i: usize = 0;
    assert(shot_views(shots@) =~= Seq::<ShotView>::empty());
    assert(texts(orphan_raws@) =~= Seq::<Seq<char>>::empty());
    while i < groups.len()
        invariant
            i <= groups.len(),
            groups_match(groups@, dir@, names),
            stems == stems_of(names),
            shot_views(shots@) == shots_among(dir@, names, stems.take(i as int)),
            texts(orphan_raws@) == orphans_among(dir@, names, stems.take(i as int)),
        decreases groups.len() - i,
    {
        let g = &groups[i];
        let ghost before = shots@;
        let ghost stem = g.stem@;
        assert(group_stems(groups@)[i as int] == stem);
        assert(group_matches(groups@[i as int], dir@, names));
        assert(stems.take(i + 1).drop_last() =~= stems.take(i as int));
        assert(stems.take(i + 1).last() == stem);
        if g.jpegs.len() == 0 {
            assert(texts(g.jpegs@).len() == 0);
            append_clones(&mut orphan_raws, &g.raws);
        } else {
            assert(texts(g.jpegs@).len() > 0);
            let mut raws: Vec<String> = Vec::new();
            append_clones(&mut raws, &g.raws);
            // Any duplicate JPEGs (e.g. both .JPG and .jpeg) go with the shot too.
            let mut sidecars: Vec<String> = Vec::new();
            append_clones(&mut sidecars, &g.jpegs);
            let jpeg = sidecars.remove(0);
            assert(jpeg@ == texts(g.jpegs@)[0]) by {
                assert(texts(g.jpegs@) =~= Seq::<Seq<char>>::empty() + texts(g.jpegs@));
            }
            assert(texts(sidecars@) =~= texts(g.jpegs@).skip(1));
            append_clones(&mut sidecars, &g.sidecars);
            let shot = Shot { stem: g.stem.clone(), jpeg, raws, sidecars };
            proof {
                assert(shot@ =~= shot_of(dir@, names, stem));
            }
            shots.push(shot);
            assert(shot_views(shots@) =~= shot_views(before).push(shot@));
        }
        i += 1;
    }
    assert(stems.take(i as int) =~= stems);
    Catalog { shots, orphan_raws }
}

/// The paths of a stem and kind are those of the files listed so.
proof fn lemma_paths_contain(
    dir: Seq<char>,
    names: Seq<Seq<char>>,
    stem: Seq<char>,
    kind: Kind,
    path: Seq<char>,
)
    ensures
        paths_of(dir, names, stem, kind).contains(path) <==> exists|i: int|
            0 <= i < names.len() && listed_as(#[trigger] names[i]) == Some((stem, kind)) && path
                == join_of(dir, names[i]),
{
    broadcast use group_to_multiset_ensures;

    let f = member_path(dir, stem, kind);
    let s = names.filter_map(f);
    lemma_text_order_total();
    s.lemma_sort_by_ensures(text_order());
    assert(paths_of(dir, names, stem, kind).contains(path) <==> s.to_multiset().count(path) > 0);
    assert(s.contains(path) <==> s.to_multiset().count(path) > 0);
    if s.contains(path) {
        names.lemma_filter_map_contains(f, path);
        let t = choose|t: Seq<char>| #[trigger] names.contains(t) && f(t) == Some(path);
        let i = choose|i: int| 0 <= i < names.len() && names[i] == t;
        assert(listed_as(names[i]) == Some((stem, kind)) && path == join_of(dir, names[i]));
    }
    if exists|i: int|
        0 <= i < names.len() && listed_as(#[trigger] names[i]) == Some((stem, kind)) && path
            == join_of(dir, names[i]) {
        let i = choose|i: int|
            0 <= i < names.len() && listed_as(#[trigger] names[i]) == Some((stem, kind)) && path
                == join_of(dir, names[i]);
        lemma_filter_map_remove(names, i, f);
        assert(s.to_multiset().count(path) > 0);
    }
}

/// The files of a stem's shot are the listed files of that stem.
proof fn lemma_shot_files(dir: Seq<char>, names: Seq<Seq<char>>, stem: Seq<char>, path: Seq<char>)
    requires
        has_jpeg(dir, names, stem),
    ensures
        shot_of(dir, names, stem).files().contains(path) <==> exists|i: int|
            0 <= i < names.len() && (listed_as(#[trigger] names[i]) matches Some((s, _)) && s
                == stem) && path == join_of(dir, names[i]),
{
    let shot = shot_of(dir, names, stem);
    let jpegs = paths_of(dir, names, stem, Kind::Jpeg);
    let raws = paths_of(dir, names, stem, Kind::Raw);
    let cars = paths_of(dir, names, stem, Kind::Sidecar);
    lemma_paths_contain(dir, names, stem, Kind::Jpeg, path);
    lemma_paths_contain(dir, names, stem, Kind::Raw, path);
    lemma_paths_contain(dir, names, stem, Kind::Sidecar, path);
    let files = shot.files();
    assert(files.contains(path) <==> jpegs.contains(path) || raws.contains(path) || cars.contains(
        path,
    )) by {
        let r = raws.len() as int;
        let j = jpegs.len() as int;
        if jpegs.contains(path) {
            let k = choose|k: int| 0 <= k < j && jpegs[k] == path;
            if k == 0 {
                assert(files[0] == path);
            } else {
                assert(files[1 + r + k - 1] == path);
            }
        }
        if raws.contains(path) {
            let k = choose|k: int| 0 <= k < r && raws[k] == path;
            assert(files[1 + k] == path);
        }
        if cars.contains(path) {
            let k = choose|k: int| 0 <= k < cars.len() && cars[k] == path;
            assert(files[1 + r + j - 1 + k] == path);
        }
        if files.contains(path) {
            let k = choose|k: int| 0 <= k < files.len() && files[k] == path;
            if k == 0 {
                assert(jpegs[0] == path);
            } else if k < 1 + r {
                assert(raws[k - 1] == path);
            } else if k < r + j {
                assert(jpegs[k - r] == path);
            } else {
                assert(cars[k - r - j] == path);
            }
        }
    }
    if exists|i: int|
        0 <= i < names.len() && (listed_as(#[trigger] names[i]) matches Some((s, _)) && s == stem)
            && path == join_of(dir, names[i]) {
        let i = choose|i: int|
            0 <= i < names.len() && (listed_as(#[trigger] names[i]) matches Some((s, _)) && s
                == stem) && path == join_of(dir, names[i]);
        match listed_as(names[i])->0 {
            (_, Kind::Jpeg) => {
                assert(listed_as(names[i]) == Some((stem, Kind::Jpeg)));
            },
            (_, Kind::Raw) => {
                assert(listed_as(names[i]) == Some((stem, Kind::Raw)));
            },
            (_, Kind::Sidecar) => {
                assert(listed_as(names[i]) == Some((stem, Kind::Sidecar)));
            },
        }
    }
}

/// Where each shot comes from, and that none is missing.
proof fn lemma_shots_among(dir: Seq<char>, names: Seq<Seq<char>>, stems: Seq<Seq<char>>)
    requires
        increasing(stems),
    ensures
        ({
            let shots = shots_among(dir, names, stems);
            &&& forall|i: int|
                0 <= i < shots.len() ==> {
                    &&& stems.contains((#[trigger] shots[i]).stem)
                    &&& has_jpeg(dir, names, shots[i].stem)
                    &&& shots[i] == shot_of(dir, names, shots[i].stem)
                }
            &&& forall|k: int|
                0 <= k < stems.len() && has_jpeg(dir, names, #[trigger] stems[k])
                    ==> exists|i: int| 0 <= i < shots.len() && (#[trigger] shots[i]).stem == stems[k]
            &&& forall|i: int, j: int|
                0 <= i < j < shots.len() ==> text_lt(
                    (#[trigger] shots[i]).stem,
                    (#[trigger] shots[j]).stem,
                )
        }),
    decreases stems.len(),
{
    if stems.len() > 0 {
        let rest = stems.drop_last();
        let last = stems.last();
        assert(increasing(rest)) by {
            assert forall|i: int, j: int| 0 <= i < j < rest.len() implies text_lt(
                #[trigger] rest[i],
                #[trigger] rest[j],
            ) by {
                assert(text_lt(stems[i], stems[j]));
            }
        }
        lemma_shots_among(dir, names, rest);
        let before = shots_among(dir, names, rest);
        let shots = shots_among(dir, names, stems);
        assert forall|i: int| 0 <= i < before.len() implies stems.contains((#[trigger] before[i]).stem)
            && text_lt(before[i].stem, last) by {
            let k = choose|k: int| 0 <= k < rest.len() && rest[k] == before[i].stem;
            assert(stems[k] == before[i].stem);
            assert(text_lt(stems[k], stems[stems.len() - 1]));
        }
        assert(stems[stems.len() - 1] == last);
        assert forall|k: int|
            0 <= k < stems.len() && has_jpeg(dir, names, #[trigger] stems[k]) implies exists|i: int|
            0 <= i < shots.len() && (#[trigger] shots[i]).stem == stems[k] by {
            if k < rest.len() {
                assert(rest[k] == stems[k]);
                let i = choose|i: int|
                    0 <= i < before.len() && (#[trigger] before[i]).stem == rest[k];
                assert(shots[i].stem == stems[k]);
            } else {
                assert(shots[before.len() as int].stem == stems[k]);
            }
        }
    }
}

/// Where each orphan comes from.
proof fn lemma_orphans_among(
    dir: Seq<char>,
    names: Seq<Seq<char>>,
    stems: Seq<Seq<char>>,
    path: Seq<char>,
)
    ensures
        orphans_among(dir, names, stems).contains(path) <==> exists|k: int|
            0 <= k < stems.len() && !has_jpeg(dir, names, #[trigger] stems[k]) && paths_of(
                dir,
                names,
                stems[k],
                Kind::Raw,
            ).contains(path),
    decreases stems.len(),
{
    if stems.len() > 0 {
        let rest = stems.drop_last();
        let last = stems.last();
        lemma_orphans_among(dir, names, rest, path);
        let before = orphans_among(dir, names, rest);
        let more = paths_of(dir, names, last, Kind::Raw);
        let all = orphans_among(dir, names, stems);
        if all.contains(path) {
            let i = choose|i: int| 0 <= i < all.len() && all[i] == path;
            if i < before.len() {
                assert(before[i] == path);
                let k = choose|k: int|
                    0 <= k < rest.len() && !has_jpeg(dir, names, #[trigger] rest[k]) && paths_of(
                        dir,
                        names,
                        rest[k],
                        Kind::Raw,
                    ).contains(path);
                assert(stems[k] == rest[k]);
            } else {
                assert(more[i - before.len()] == path);
                assert(stems[stems.len() - 1] == last);
            }
        }
        if exists|k: int|
            0 <= k < stems.len() && !has_jpeg(dir, names, #[trigger] stems[k]) && paths_of(
                dir,
                names,
                stems[k],
                Kind::Raw,
            ).contains(path) {
            let k = choose|k: int|
                0 <= k < stems.len() && !has_jpeg(dir, names, #[trigger] stems[k]) && paths_of(
                    dir,
                    names,
                    stems[k],
                    Kind::Raw,
                ).contains(path);
            if k < rest.len() {
                assert(rest[k] == stems[k]);
                let i = choose|i: int| 0 <= i < before.len() && before[i] == path;
                assert(all[i] == path);
            } else {
                let i = choose|i: int| 0 <= i < more.len() && more[i] == path;
                assert(all[before.len() + i] == path);
            }
        }
    }
}

/// The shots come in the order of their stems, and no two have the same stem.
pub proof fn law_shots_ordered_by_stem(dir: Seq<char>, names: Seq<Seq<char>>)
    ensures
        ordered_shots(catalog_of(dir, names).shots),
{
    reveal(ordered_shots);
    let shots = catalog_of(dir, names).shots;
    lemma_stems(names);
    lemma_shots_among(dir, names, stems_of(names));
    assert forall|i: int, j: int| 0 <= i < j < stems(shots).len() implies text_lt(
        #[trigger] stems(shots)[i],
        #[trigger] stems(shots)[j],
    ) by {
        assert(text_lt(shots[i].stem, shots[j].stem));
    }
}

/// Files are paired by basename: the files of a shot are the listed files of its stem, all of them
/// and no others.
pub proof fn law_shot_holds_its_basename(
    dir: Seq<char>,
    names: Seq<Seq<char>>,
    i: int,
    path: Seq<char>,
)
    requires
        0 <= i < catalog_of(dir, names).shots.len(),
    ensures
        catalog_of(dir, names).shots[i].files().contains(path) <==> exists|k: int|
            0 <= k < names.len() && (listed_as(#[trigger] names[k]) matches Some((s, _)) && s
                == catalog_of(dir, names).shots[i].stem) && path == join_of(dir, names[k]),
{
    lemma_stems(names);
    lemma_shots_among(dir, names, stems_of(names));
    let shot = catalog_of(dir, names).shots[i];
    lemma_shot_files(dir, names, shot.stem, path);
}

/// Every listed JPEG is in a shot, so that it is shown or goes with one that is.
pub proof fn law_every_jpeg_has_a_shot(dir: Seq<char>, names: Seq<Seq<char>>, k: int)
    requires
        0 <= k < names.len(),
        listed_as(names[k]) matches Some((_, kind)) && kind == Kind::Jpeg,
    ensures
        exists|i: int|
            0 <= i < catalog_of(dir, names).shots.len() && (#[trigger] catalog_of(
                dir,
                names,
            ).shots[i]).files().contains(join_of(dir, names[k])),
{
    let stem = (listed_as(names[k])->0).0;
    let path = join_of(dir, names[k]);
    lemma_stems(names);
    lemma_shots_among(dir, names, stems_of(names));
    assert(listed_as(names[k]) == Some((stem, Kind::Jpeg)));
    lemma_paths_contain(dir, names, stem, Kind::Jpeg, path);
    let j = choose|j: int|
        0 <= j < paths_of(dir, names, stem, Kind::Jpeg).len() && paths_of(
            dir,
            names,
            stem,
            Kind::Jpeg,
        )[j] == path;
    assert(has_jpeg(dir, names, stem));
    assert(stems_of(names).contains(stem));
    let m = choose|m: int| 0 <= m < stems_of(names).len() && stems_of(names)[m] == stem;
    let shots = catalog_of(dir, names).shots;
    let i = choose|i: int| 0 <= i < shots.len() && (#[trigger] shots[i]).stem == stems_of(names)[m];
    lemma_shot_files(dir, names, stem, path);
    assert(shots[i].files().contains(path));
}

/// A RAW with no JPEG is never touched: it is in no shot. Names are taken to be file names, which
/// are not absolute paths.
pub proof fn law_orphans_in_no_shot(dir: Seq<char>, names: Seq<Seq<char>>, path: Seq<char>, i: int)
    requires
        forall|k: int| 0 <= k < names.len() ==> !crate::paths::is_absolute(#[trigger] names[k]),
        catalog_of(dir, names).orphan_raws.contains(path),
        0 <= i < catalog_of(dir, names).shots.len(),
    ensures
        !catalog_of(dir, names).shots[i].files().contains(path),
{
    let stems = stems_of(names);
    lemma_stems(names);
    lemma_shots_among(dir, names, stems);
    lemma_orphans_among(dir, names, stems, path);
    let shot = catalog_of(dir, names).shots[i];
    let k = choose|k: int|
        0 <= k < stems.len() && !has_jpeg(dir, names, #[trigger] stems[k]) && paths_of(
            dir,
            names,
            stems[k],
            Kind::Raw,
        ).contains(path);
    lemma_paths_contain(dir, names, stems[k], Kind::Raw, path);
    let a = choose|a: int|
        0 <= a < names.len() && listed_as(#[trigger] names[a]) == Some((stems[k], Kind::Raw))
            && path == join_of(dir, names[a]);
    lemma_shot_files(dir, names, shot.stem, path);
    if shot.files().contains(path) {
        let b = choose|b: int|
            0 <= b < names.len() && (listed_as(#[trigger] names[b]) matches Some((s, _)) && s
                == shot.stem) && path == join_of(dir, names[b]);
        lemma_join_injective(dir, names[a], names[b]);
        assert(stems[k] == shot.stem);
    }
}

/// Different file names of one directory have different paths.
pub proof fn lemma_join_injective(dir: Seq<char>, a: Seq<char>, b: Seq<char>)
    requires
        !crate::paths::is_absolute(a),
        !crate::paths::is_absolute(b),
        join_of(dir, a) == join_of(dir, b),
    ensures
        a == b,
{
    let n: int = if dir.len() == 0 || dir.last() == '/' {
        dir.len() as int
    } else {
        dir.len() as int + 1
    };
    assert(join_of(dir, a).skip(n) =~= a);
    assert(join_of(dir, b).skip(n) =~= b);
}

/// Every listed RAW without a JPEG of its stem is reported as an orphan.
pub proof fn law_raw_without_jpeg_is_orphan(dir: Seq<char>, names: Seq<Seq<char>>, k: int)
    requires
        0 <= k < names.len(),
        listed_as(names[k]) matches Some((stem, kind)) && kind == Kind::Raw && !has_jpeg(
            dir,
            names,
            stem,
        ),
    ensures
        catalog_of(dir, names).orphan_raws.contains(join_of(dir, names[k])),
{
    let stem = (listed_as(names[k])->0).0;
    let path = join_of(dir, names[k]);
    let stems = stems_of(names);
    lemma_stems(names);
    assert(listed_as(names[k]) == Some((stem, Kind::Raw)));
    assert(stems.contains(stem));
    let m = choose|m: int| 0 <= m < stems.len() && stems[m] == stem;
    lemma_paths_contain(dir, names, stem, Kind::Raw, path);
    lemma_orphans_among(dir, names, stems, path);
    assert(!has_jpeg(dir, names, stems[m]));
}

/// Whether a file belongs in the catalog of a directory: it is a JPEG or a RAW, or a sidecar of a
/// stem that has a JPEG.
pub open spec fn belongs(dir: Seq<char>, names: Seq<Seq<char>>, name: Seq<char>) -> bool {
    match listed_as(name) {
        Some((stem, kind)) => kind != Kind::Sidecar || has_jpeg(dir, names, stem),
        None => false,
    }
}

/// Every file that belongs in a catalog occurs in it exactly once, in one shot or among the RAWs
/// without a JPEG, and any other does not occur. The names are those of a directory: no two are the
/// same, and none is an absolute path.
pub proof fn law_every_file_once(dir: Seq<char>, names: Seq<Seq<char>>, k: int)
    requires
        names.no_duplicates(),
        forall|i: int| 0 <= i < names.len() ==> !crate::paths::is_absolute(#[trigger] names[i]),
        0 <= k < names.len(),
    ensures
        catalog_of(dir, names).files().to_multiset().count(join_of(dir, names[k])) == if belongs(
            dir,
            names,
            names[k],
        ) {
            1nat
        } else {
            0
        },
{
    let stems = stems_of(names);
    let path = join_of(dir, names[k]);
    lemma_stems(names);
    lemma_catalog_count(dir, names, stems, k);
    lemma_multiset_commutative(
        all_files(catalog_of(dir, names).shots),
        catalog_of(dir, names).orphan_raws,
    );
    if let Some((stem, kind)) = listed_as(names[k]) {
        assert(stems.contains(stem));
        if kind == Kind::Jpeg {
            lemma_paths_contain(dir, names, stem, Kind::Jpeg, path);
            assert(paths_of(dir, names, stem, Kind::Jpeg).contains(path));
        }
    }
}

/// A catalog holds no file but those of the directory.
pub proof fn law_no_other_file(dir: Seq<char>, names: Seq<Seq<char>>, path: Seq<char>)
    requires
        catalog_of(dir, names).files().contains(path),
    ensures
        exists|k: int|
            0 <= k < names.len() && belongs(dir, names, #[trigger] names[k]) && path == join_of(
                dir,
                names[k],
            ),
{
    let c = catalog_of(dir, names);
    let stems = stems_of(names);
    let at = choose|at: int| 0 <= at < c.files().len() && c.files()[at] == path;
    lemma_stems(names);
    if at < all_files(c.shots).len() {
        assert(all_files(c.shots).contains(path));
        lemma_in_a_shot(c.shots, path);
        let i = choose|i: int| 0 <= i < c.shots.len() && (#[trigger] c.shots[i]).files().contains(path);
        lemma_shots_among(dir, names, stems);
        law_shot_holds_its_basename(dir, names, i, path);
        let k = choose|k: int|
            0 <= k < names.len() && (listed_as(#[trigger] names[k]) matches Some((s, _)) && s
                == c.shots[i].stem) && path == join_of(dir, names[k]);
        assert(belongs(dir, names, names[k]));
    } else {
        assert(c.orphan_raws[at - all_files(c.shots).len()] == path);
        lemma_orphans_among(dir, names, stems, path);
        let m = choose|m: int|
            0 <= m < stems.len() && !has_jpeg(dir, names, #[trigger] stems[m]) && paths_of(
                dir,
                names,
                stems[m],
                Kind::Raw,
            ).contains(path);
        lemma_paths_contain(dir, names, stems[m], Kind::Raw, path);
        let k = choose|k: int|
            0 <= k < names.len() && listed_as(#[trigger] names[k]) == Some((stems[m], Kind::Raw))
                && path == join_of(dir, names[k]);
        assert(belongs(dir, names, names[k]));
    }
}

proof fn lemma_in_a_shot(shots: Seq<ShotView>, path: Seq<char>)
    requires
        all_files(shots).contains(path),
    ensures
        exists|i: int| 0 <= i < shots.len() && (#[trigger] shots[i]).files().contains(path),
    decreases shots.len(),
{
    if shots.len() > 0 {
        let rest = shots.drop_last();
        let at = choose|at: int| 0 <= at < all_files(shots).len() && all_files(shots)[at] == path;
        if at < all_files(rest).len() {
            assert(all_files(rest)[at] == path);
            lemma_in_a_shot(rest, path);
            let i = choose|i: int| 0 <= i < rest.len() && (#[trigger] rest[i]).files().contains(path);
            assert(shots[i] == rest[i]);
        } else {
            assert(shots.last().files()[at - all_files(rest).len()] == path);
            assert(shots[shots.len() - 1] == shots.last());
        }
    }
}

/// One, if it holds.
spec fn one_if(b: bool) -> nat {
    if b {
        1
    } else {
        0
    }
}

/// The path of a file occurs once among those of its stem and kind, and not among others.
proof fn lemma_paths_count(
    dir: Seq<char>,
    names: Seq<Seq<char>>,
    k: int,
    stem: Seq<char>,
    kind: Kind,
)
    requires
        names.no_duplicates(),
        forall|i: int| 0 <= i < names.len() ==> !crate::paths::is_absolute(#[trigger] names[i]),
        0 <= k < names.len(),
    ensures
        paths_of(dir, names, stem, kind).to_multiset().count(join_of(dir, names[k])) == one_if(
            listed_as(names[k]) == Some((stem, kind)),
        ),
{
    broadcast use group_to_multiset_ensures;

    let f = member_path(dir, stem, kind);
    let path = join_of(dir, names[k]);
    let rest = names.remove(k);
    lemma_text_order_total();
    names.filter_map(f).lemma_sort_by_ensures(text_order());
    lemma_filter_map_remove(names, k, f);
    if rest.filter_map(f).contains(path) {
        rest.lemma_filter_map_contains(f, path);
        let t = choose|t: Seq<char>| #[trigger] rest.contains(t) && f(t) == Some(path);
        let i = choose|i: int| 0 <= i < rest.len() && rest[i] == t;
        let j = if i < k {
            i
        } else {
            i + 1
        };
        assert(names[j] == t);
        lemma_join_injective(dir, names[j], names[k]);
    }
    assert(rest.filter_map(f).to_multiset().count(path) == 0);
}

/// The path of a file occurs once among the files of its stem's shot.
proof fn lemma_shot_count(dir: Seq<char>, names: Seq<Seq<char>>, k: int, stem: Seq<char>)
    requires
        names.no_duplicates(),
        forall|i: int| 0 <= i < names.len() ==> !crate::paths::is_absolute(#[trigger] names[i]),
        0 <= k < names.len(),
        has_jpeg(dir, names, stem),
    ensures
        shot_of(dir, names, stem).files().to_multiset().count(join_of(dir, names[k])) == one_if(
            listed_as(names[k]) matches Some((s, _)) && s == stem,
        ),
{
    broadcast use group_to_multiset_ensures;

    let shot = shot_of(dir, names, stem);
    let jpegs = paths_of(dir, names, stem, Kind::Jpeg);
    let raws = paths_of(dir, names, stem, Kind::Raw);
    let cars = paths_of(dir, names, stem, Kind::Sidecar);
    lemma_paths_count(dir, names, k, stem, Kind::Jpeg);
    lemma_paths_count(dir, names, k, stem, Kind::Raw);
    lemma_paths_count(dir, names, k, stem, Kind::Sidecar);
    let first = seq![jpegs[0]];
    assert(first + jpegs.skip(1) =~= jpegs);
    lemma_multiset_commutative(first, jpegs.skip(1));
    lemma_multiset_commutative(first, raws);
    lemma_multiset_commutative(first + raws, jpegs.skip(1) + cars);
    lemma_multiset_commutative(jpegs.skip(1), cars);
    assert(shot.files() =~= first + raws + (jpegs.skip(1) + cars));
}

/// How often the path of a file occurs in what becomes of some stems.
proof fn lemma_catalog_count(dir: Seq<char>, names: Seq<Seq<char>>, stems: Seq<Seq<char>>, k: int)
    requires
        names.no_duplicates(),
        forall|i: int| 0 <= i < names.len() ==> !crate::paths::is_absolute(#[trigger] names[i]),
        0 <= k < names.len(),
        increasing(stems),
    ensures
        all_files(shots_among(dir, names, stems)).to_multiset().count(join_of(dir, names[k]))
            + orphans_among(dir, names, stems).to_multiset().count(join_of(dir, names[k])) == one_if(
            listed_as(names[k]) matches Some((s, kind)) && stems.contains(s) && (has_jpeg(
                dir,
                names,
                s,
            ) || kind == Kind::Raw),
        ),
    decreases stems.len(),
{
    broadcast use group_to_multiset_ensures;

    if stems.len() > 0 {
        let rest = stems.drop_last();
        let last = stems.last();
        assert(increasing(rest)) by {
            assert forall|i: int, j: int| 0 <= i < j < rest.len() implies text_lt(
                #[trigger] rest[i],
                #[trigger] rest[j],
            ) by {
                assert(text_lt(stems[i], stems[j]));
            }
        }
        lemma_catalog_count(dir, names, rest, k);
        let shots = shots_among(dir, names, stems);
        if has_jpeg(dir, names, last) {
            lemma_shot_count(dir, names, k, last);
            let before = shots_among(dir, names, rest);
            assert(shots.drop_last() =~= before);
            lemma_multiset_commutative(all_files(before), shot_of(dir, names, last).files());
        } else {
            lemma_paths_count(dir, names, k, last, Kind::Raw);
            lemma_multiset_commutative(
                orphans_among(dir, names, rest),
                paths_of(dir, names, last, Kind::Raw),
            );
        }
        assert forall|s: Seq<char>| #[trigger] stems.contains(s) == (rest.contains(s) || s == last) by {
            if rest.contains(s) {
                let i = choose|i: int| 0 <= i < rest.len() && rest[i] == s;
                assert(stems[i] == s);
            }
            assert(stems[stems.len() - 1] == last);
            if stems.contains(s) && s != last {
                let i = choose|i: int| 0 <= i < stems.len() && stems[i] == s;
                assert(rest[i] == s);
            }
        }
        assert(!rest.contains(last)) by {
            if rest.contains(last) {
                let i = choose|i: int| 0 <= i < rest.len() && rest[i] == last;
                assert(text_lt(stems[i], stems[stems.len() - 1]));
                lemma_text_trichotomy(last, last);
            }
        }
    }
}

/// `c` in upper case, where it is a letter of ASCII.
pub open spec fn ascii_upper(c: char) -> char {
    if 'a' <= c && c <= 'z' {
        ((c as u8 - 32) as u8) as char
    } else {
        c
    }
}

/// The case of ASCII letters in an extension does not matter: two that differ in it alone are of one
/// kind, such as an extension and the same in upper case.
pub proof fn law_extension_case_ignored(a: Seq<char>, b: Seq<char>)
    requires
        a.map_values(|c: char| ascii_lower(c)) == b.map_values(|c: char| ascii_lower(c)),
    ensures
        classify_of(a) == classify_of(b),
        classify_of(a.map_values(|c: char| ascii_upper(c))) == classify_of(a),
{
    let upper = a.map_values(|c: char| ascii_upper(c));
    assert(upper.map_values(|c: char| ascii_lower(c)) =~= a.map_values(|c: char| ascii_lower(c)));
}

/// An extension is of the kind whose list it stands in, and of none if it is in no list: no
/// extension is in two of them.
pub proof fn law_kind_is_by_list(ext: Seq<char>)
    ensures
        classify_of(ext) == Some(Kind::Jpeg) <==> ext_among(JPEG_EXTS@, ext),
        classify_of(ext) == Some(Kind::Raw) <==> ext_among(RAW_EXTS@, ext),
        classify_of(ext) == Some(Kind::Sidecar) <==> ext_among(SIDECAR_EXTS@, ext),
        classify_of(ext) is None <==> !ext_among(JPEG_EXTS@, ext) && !ext_among(RAW_EXTS@, ext)
            && !ext_among(SIDECAR_EXTS@, ext),
{
    let low = ext.map_values(|c: char| ascii_lower(c));
    lemma_lists();
    if ext_among(JPEG_EXTS@, ext) {
        let i = choose|i: int| 0 <= i < JPEG_EXTS@.len() && (#[trigger] JPEG_EXTS@[i])@ == low;
        assert(low[0] == 'j');
        assert(JPEG_EXTS@[i]@[0] == 'j');
    }
    if ext_among(SIDECAR_EXTS@, ext) {
        let i = choose|i: int|
            0 <= i < SIDECAR_EXTS@.len() && (#[trigger] SIDECAR_EXTS@[i])@ == low;
        assert(low[0] == 'x' && low[1] == 'm');
    }
    if ext_among(RAW_EXTS@, ext) {
        let i = choose|i: int| 0 <= i < RAW_EXTS@.len() && (#[trigger] RAW_EXTS@[i])@ == low;
        assert(low[0] != 'j' && !(low[0] == 'x' && low[1] == 'm'));
    }
}

/// No RAW extension starts with a `j` or with `xm`, as those of the other lists do.
proof fn lemma_lists()
    ensures
        forall|i: int| 0 <= i < JPEG_EXTS@.len() ==> (#[trigger] JPEG_EXTS@[i])@[0] == 'j',
        forall|i: int|
            0 <= i < SIDECAR_EXTS@.len() ==> (#[trigger] SIDECAR_EXTS@[i])@[0] == 'x'
                && SIDECAR_EXTS@[i]@[1] == 'm',
        forall|i: int|
            0 <= i < RAW_EXTS@.len() ==> (#[trigger] RAW_EXTS@[i])@[0] != 'j' && !(RAW_EXTS@[i]@[0]
                == 'x' && RAW_EXTS@[i]@[1] == 'm'),
{
    reveal_strlit("jpg");
    reveal_strlit("jpeg");
    reveal_strlit("xmp");
    reveal_strlit("arw");
    reveal_strlit("cr2");
    reveal_strlit("cr3");
    reveal_strlit("crw");
    reveal_strlit("nef");
    reveal_strlit("nrw");
    reveal_strlit("raf");
    reveal_strlit("orf");
    reveal_strlit("rw2");
    reveal_strlit("dng");
    reveal_strlit("pef");
    reveal_strlit("srw");
    reveal_strlit("3fr");
    reveal_strlit("iiq");
    reveal_strlit("rwl");
    reveal_strlit("x3f");
    reveal_strlit("erf");
    reveal_strlit("kdc");
    reveal_strlit("mef");
    reveal_strlit("mos");
    reveal_strlit("mrw");
    reveal_strlit("sr2");
    reveal_strlit("srf");
    assert forall|i: int| 0 <= i < RAW_EXTS@.len() implies (#[trigger] RAW_EXTS@[i])@[0] != 'j' && !(
    RAW_EXTS@[i]@[0] == 'x' && RAW_EXTS@[i]@[1] == 'm') by {
        if i == 0 {
            assert(RAW_EXTS@[i]@ == "arw"@);
        } else if i == 1 {
            assert(RAW_EXTS@[i]@ == "cr2"@);
        } else if i == 2 {
            assert(RAW_EXTS@[i]@ == "cr3"@);
        } else if i == 3 {
            assert(RAW_EXTS@[i]@ == "crw"@);
        } else if i == 4 {
            assert(RAW_EXTS@[i]@ == "nef"@);
        } else if i == 5 {
            assert(RAW_EXTS@[i]@ == "nrw"@);
        } else if i == 6 {
            assert(RAW_EXTS@[i]@ == "raf"@);
        } else if i == 7 {
            assert(RAW_EXTS@[i]@ == "orf"@);
        } else if i == 8 {
            assert(RAW_EXTS@[i]@ == "rw2"@);
        } else if i == 9 {
            assert(RAW_EXTS@[i]@ == "dng"@);
        } else if i == 10 {
            assert(RAW_EXTS@[i]@ == "pef"@);
        } else if i == 11 {
            assert(RAW_EXTS@[i]@ == "srw"@);
        } else if i == 12 {
            assert(RAW_EXTS@[i]@ == "3fr"@);
        } else if i == 13 {
            assert(RAW_EXTS@[i]@ == "iiq"@);
        } else if i == 14 {
            assert(RAW_EXTS@[i]@ == "rwl"@);
        } else if i == 15 {
            assert(RAW_EXTS@[i]@ == "x3f"@);
        } else if i == 16 {
            assert(RAW_EXTS@[i]@ == "erf"@);
        } else if i == 17 {
            assert(RAW_EXTS@[i]@ == "kdc"@);
        } else if i == 18 {
            assert(RAW_EXTS@[i]@ == "mef"@);
        } else if i == 19 {
            assert(RAW_EXTS@[i]@ == "mos"@);
        } else if i == 20 {
            assert(RAW_EXTS@[i]@ == "mrw"@);
        } else if i == 21 {
            assert(RAW_EXTS@[i]@ == "sr2"@);
        } else if i == 22 {
            assert(RAW_EXTS@[i]@ == "srf"@);
        }
    }
}

/// Hidden files are in no catalog.
pub proof fn law_hidden_files_ignored(dir: Seq<char>, names: Seq<Seq<char>>, name: Seq<char>)
    requires
        is_hidden(name),
    ensures
        catalog_of(dir, names.push(name)) == catalog_of(dir, names),
{
    let more = names.push(name);
    assert(more.drop_last() =~= names);
    assert forall|s: Seq<char>, k: Kind| #[trigger] paths_of(dir, more, s, k) == paths_of(
        dir,
        names,
        s,
        k,
    ) by {
        lemma_paths_push(dir, names, name, s, k);
    }
    lemma_same_paths(dir, more, names, stems_of(names));
}

proof fn lemma_same_paths(
    dir: Seq<char>,
    a: Seq<Seq<char>>,
    b: Seq<Seq<char>>,
    stems: Seq<Seq<char>>,
)
    requires
        forall|s: Seq<char>, k: Kind| #[trigger] paths_of(dir, a, s, k) == paths_of(dir, b, s, k),
    ensures
        shots_among(dir, a, stems) == shots_among(dir, b, stems),
        orphans_among(dir, a, stems) == orphans_among(dir, b, stems),
    decreases stems.len(),
{
    if stems.len() > 0 {
        lemma_same_paths(dir, a, b, stems.drop_last());
        let s = stems.last();
        assert(paths_of(dir, a, s, Kind::Jpeg) == paths_of(dir, b, s, Kind::Jpeg));
        assert(shot_of(dir, a, s) == shot_of(dir, b, s));
    }
}

/// The order in which a directory lists its files does not matter.
pub proof fn law_listing_order_irrelevant(
    dir: Seq<char>,
    a: Seq<Seq<char>>,
    b: Seq<Seq<char>>,
)
    requires
        a.to_multiset() == b.to_multiset(),
    ensures
        catalog_of(dir, a) == catalog_of(dir, b),
{
    broadcast use group_to_multiset_ensures;

    assert forall|s: Seq<char>, k: Kind| #[trigger] paths_of(dir, a, s, k) == paths_of(
        dir,
        b,
        s,
        k,
    ) by {
        let f = member_path(dir, s, k);
        lemma_filter_map_multiset(a, b, f);
        lemma_text_order_total();
        a.filter_map(f).lemma_sort_by_ensures(text_order());
        lemma_sorted_is_sort(a.filter_map(f).sort_by(text_order()), b.filter_map(f));
    }
    lemma_stems(a);
    lemma_stems(b);
    let p = stems_of(a);
    let q = stems_of(b);
    assert forall|x: Seq<char>| p.contains(x) == q.contains(x) by {
        if p.contains(x) {
            let i = choose|i: int|
                0 <= i < a.len() && (listed_as(#[trigger] a[i]) matches Some((s, _)) && s == x);
            assert(a.contains(a[i]));
            assert(b.to_multiset().count(a[i]) > 0);
            assert(b.contains(a[i]));
            let j = choose|j: int| 0 <= j < b.len() && b[j] == a[i];
            assert(listed_as(b[j]) matches Some((s, _)) && s == x);
        }
        if q.contains(x) {
            let i = choose|i: int|
                0 <= i < b.len() && (listed_as(#[trigger] b[i]) matches Some((s, _)) && s == x);
            assert(b.contains(b[i]));
            assert(a.to_multiset().count(b[i]) > 0);
            assert(a.contains(b[i]));
            let j = choose|j: int| 0 <= j < a.len() && a[j] == b[i];
            assert(listed_as(a[j]) matches Some((s, _)) && s == x);
        }
    }
    lemma_increasing(p);
    lemma_increasing(q);
    p.lemma_multiset_has_no_duplicates();
    q.lemma_multiset_has_no_duplicates();
    assert(p.to_multiset() =~= q.to_multiset()) by {
        assert forall|x: Seq<char>| p.to_multiset().count(x) == q.to_multiset().count(x) by {
            assert(p.contains(x) == q.contains(x));
            assert(p.contains(x) <==> p.to_multiset().count(x) > 0);
            assert(q.contains(x) <==> q.to_multiset().count(x) > 0);
            if p.contains(x) {
                assert(p.to_multiset().contains(x));
                assert(q.to_multiset().contains(x));
            }
        }
    }
    lemma_text_order_total();
    lemma_sorted_unique(p, q, text_order());
    lemma_same_paths(dir, a, b, p);
}

/// Picking from the same members gives the same members.
proof fn lemma_filter_map_multiset(
    a: Seq<Seq<char>>,
    b: Seq<Seq<char>>,
    f: spec_fn(Seq<char>) -> Option<Seq<char>>,
)
    requires
        a.to_multiset() == b.to_multiset(),
    ensures
        a.filter_map(f).to_multiset() == b.filter_map(f).to_multiset(),
    decreases a.len(),
{
    broadcast use group_to_multiset_ensures;

    assert(a.len() == a.to_multiset().len());
    assert(b.len() == b.to_multiset().len());
    if a.len() == 0 {
        assert(a =~= b);
    } else {
        let x = a.last();
        let rest = a.drop_last();
        assert(a =~= rest.push(x));
        assert(a.contains(x));
        assert(b.to_multiset().count(x) > 0);
        assert(b.contains(x));
        let i = choose|i: int| 0 <= i < b.len() && b[i] == x;
        let others = b.remove(i);
        assert(others.to_multiset() =~= b.to_multiset().remove(x));
        assert(rest.to_multiset() =~= a.to_multiset().remove(x));
        lemma_filter_map_multiset(rest, others, f);
        lemma_filter_map_remove(b, i, f);
        match f(x) {
            Some(y) => {
                assert(a.filter_map(f) =~= rest.filter_map(f).push(y));
            },
            None => {},
        }
    }
}

proof fn lemma_filter_map_remove(
    b: Seq<Seq<char>>,
    i: int,
    f: spec_fn(Seq<char>) -> Option<Seq<char>>,
)
    requires
        0 <= i < b.len(),
    ensures
        b.filter_map(f).to_multiset() == (match f(b[i]) {
            Some(y) => b.remove(i).filter_map(f).to_multiset().insert(y),
            None => b.remove(i).filter_map(f).to_multiset(),
        }),
    decreases b.len(),
{
    broadcast use group_to_multiset_ensures;

    let x = b.last();
    let rest = b.drop_last();
    if i == b.len() - 1 {
        assert(b.remove(i) =~= rest);
        match f(x) {
            Some(y) => {
                assert(b.filter_map(f) =~= rest.filter_map(f).push(y));
            },
            None => {},
        }
    } else {
        lemma_filter_map_remove(rest, i, f);
        let less = b.remove(i);
        assert(less.drop_last() =~= rest.remove(i));
        assert(less.last() == x);
        match f(x) {
            Some(y) => {
                assert(b.filter_map(f) =~= rest.filter_map(f).push(y));
                assert(less.filter_map(f) =~= rest.remove(i).filter_map(f).push(y));
                match f(b[i]) {
                    Some(z) => {
                        assert(rest.remove(i).filter_map(f).to_multiset().insert(z).insert(y)
                            =~= rest.remove(i).filter_map(f).to_multiset().insert(y).insert(z));
                    },
                    None => {},
                }
            },
            None => {},
        }
    }
}

/// The extensions of the three kinds, in any case of their letters; others are of no kind.
pub proof fn law_kinds_of_extensions(ext: Seq<char>)
    ensures
        ({
            let low = ext.map_values(|c: char| ascii_lower(c));
            let jpeg = low == "jpg"@ || low == "jpeg"@;
            let raw = low == "arw"@ || low == "cr2"@ || low == "cr3"@ || low == "crw"@ || low == "nef"@ || low == "nrw"@ || low == "raf"@ || low == "orf"@ || low == "rw2"@ || low == "dng"@ || low == "pef"@ || low == "srw"@ || low == "3fr"@ || low == "iiq"@ || low == "rwl"@ || low == "x3f"@ || low == "erf"@ || low == "kdc"@ || low == "mef"@ || low == "mos"@ || low == "mrw"@ || low == "sr2"@ || low == "srf"@;
            let sidecar = low == "xmp"@;
            &&& jpeg ==> classify_of(ext) == Some(Kind::Jpeg)
            &&& raw ==> classify_of(ext) == Some(Kind::Raw)
            &&& sidecar ==> classify_of(ext) == Some(Kind::Sidecar)
            &&& !jpeg && !raw && !sidecar ==> classify_of(ext) is None
        }),
{
    law_kind_is_by_list(ext);
    let low = ext.map_values(|c: char| ascii_lower(c));
    assert(JPEG_EXTS@.len() == 2 && JPEG_EXTS@[0]@ == "jpg"@ && JPEG_EXTS@[1]@ == "jpeg"@);
    assert(SIDECAR_EXTS@.len() == 1 && SIDECAR_EXTS@[0]@ == "xmp"@);
    assert(RAW_EXTS@.len() == 23);
    assert(RAW_EXTS@[0]@ == "arw"@);
    assert(RAW_EXTS@[1]@ == "cr2"@);
    assert(RAW_EXTS@[2]@ == "cr3"@);
    assert(RAW_EXTS@[3]@ == "crw"@);
    assert(RAW_EXTS@[4]@ == "nef"@);
    assert(RAW_EXTS@[5]@ == "nrw"@);
    assert(RAW_EXTS@[6]@ == "raf"@);
    assert(RAW_EXTS@[7]@ == "orf"@);
    assert(RAW_EXTS@[8]@ == "rw2"@);
    assert(RAW_EXTS@[9]@ == "dng"@);
    assert(RAW_EXTS@[10]@ == "pef"@);
    assert(RAW_EXTS@[11]@ == "srw"@);
    assert(RAW_EXTS@[12]@ == "3fr"@);
    assert(RAW_EXTS@[13]@ == "iiq"@);
    assert(RAW_EXTS@[14]@ == "rwl"@);
    assert(RAW_EXTS@[15]@ == "x3f"@);
    assert(RAW_EXTS@[16]@ == "erf"@);
    assert(RAW_EXTS@[17]@ == "kdc"@);
    assert(RAW_EXTS@[18]@ == "mef"@);
    assert(RAW_EXTS@[19]@ == "mos"@);
    assert(RAW_EXTS@[20]@ == "mrw"@);
    assert(RAW_EXTS@[21]@ == "sr2"@);
    assert(RAW_EXTS@[22]@ == "srf"@);
    let raw = low == "arw"@ || low == "cr2"@ || low == "cr3"@ || low == "crw"@ || low == "nef"@ || low == "nrw"@ || low == "raf"@ || low == "orf"@ || low == "rw2"@ || low == "dng"@ || low == "pef"@ || low == "srw"@ || low == "3fr"@ || low == "iiq"@ || low == "rwl"@ || low == "x3f"@ || low == "erf"@ || low == "kdc"@ || low == "mef"@ || low == "mos"@ || low == "mrw"@ || low == "sr2"@ || low == "srf"@;
    assert(ext_among(RAW_EXTS@, ext) ==> raw) by {
        if ext_among(RAW_EXTS@, ext) {
            let i = choose|i: int| 0 <= i < RAW_EXTS@.len() && (#[trigger] RAW_EXTS@[i])@ == low;
            if i == 0 {
                assert(low == "arw"@);
            } else if i == 1 {
                assert(low == "cr2"@);
            } else if i == 2 {
                assert(low == "cr3"@);
            } else if i == 3 {
                assert(low == "crw"@);
            } else if i == 4 {
                assert(low == "nef"@);
            } else if i == 5 {
                assert(low == "nrw"@);
            } else if i == 6 {
                assert(low == "raf"@);
            } else if i == 7 {
                assert(low == "orf"@);
            } else if i == 8 {
                assert(low == "rw2"@);
            } else if i == 9 {
                assert(low == "dng"@);
            } else if i == 10 {
                assert(low == "pef"@);
            } else if i == 11 {
                assert(low == "srw"@);
            } else if i == 12 {
                assert(low == "3fr"@);
            } else if i == 13 {
                assert(low == "iiq"@);
            } else if i == 14 {
                assert(low == "rwl"@);
            } else if i == 15 {
                assert(low == "x3f"@);
            } else if i == 16 {
                assert(low == "erf"@);
            } else if i == 17 {
                assert(low == "kdc"@);
            } else if i == 18 {
                assert(low == "mef"@);
            } else if i == 19 {
                assert(low == "mos"@);
            } else if i == 20 {
                assert(low == "mrw"@);
            } else if i == 21 {
                assert(low == "sr2"@);
            } else if i == 22 {
                assert(low == "srf"@);
            }
        }
    }
}

/// Only the letters of ASCII have a lower case here, 32 further on.
pub proof fn law_lower_case(c: char)
    ensures
        'A' <= c && c <= 'Z' ==> ascii_lower(c) as u32 == c as u32 + 32,
        !('A' <= c && c <= 'Z') ==> ascii_lower(c) == c,
{
}

/// The last dot is the one before a text without dots.
pub proof fn lemma_last_dot(a: Seq<char>, b: Seq<char>)
    requires
        !b.contains('.'),
    ensures
        last_dot(a.push('.') + b) == Some(a.len() as int),
        (a.push('.') + b).take(a.len() as int) == a,
        (a.push('.') + b).skip(a.len() as int + 1) == b,
    decreases b.len(),
{
    let t = a.push('.') + b;
    assert(t.take(a.len() as int) =~= a);
    assert(t.skip(a.len() as int + 1) =~= b);
    if b.len() == 0 {
        assert(t.last() == '.');
    } else {
        let r = b.drop_last();
        assert(b[b.len() - 1] != '.') by {
            if b[b.len() - 1] == '.' {
                assert(b.contains('.'));
            }
        }
        assert(!r.contains('.')) by {
            if r.contains('.') {
                let k = choose|k: int| 0 <= k < r.len() && r[k] == '.';
                assert(b[k] == '.');
            }
        }
        lemma_last_dot(a, r);
        assert(t.drop_last() =~= a.push('.') + r);
        assert(t.last() == b.last());
    }
}

proof fn lemma_no_dot(t: Seq<char>)
    requires
        !t.contains('.'),
    ensures
        last_dot(t) is None,
    decreases t.len(),
{
    if t.len() > 0 {
        let r = t.drop_last();
        assert(t[t.len() - 1] != '.') by {
            if t[t.len() - 1] == '.' {
                assert(t.contains('.'));
            }
        }
        assert(!r.contains('.')) by {
            if r.contains('.') {
                let k = choose|k: int| 0 <= k < r.len() && r[k] == '.';
                assert(t[k] == '.');
            }
        }
        lemma_no_dot(r);
    }
}

/// The extension of a name is behind its last dot.
pub proof fn law_last_dot_parts_the_name(a: Seq<char>, b: Seq<char>)
    requires
        !b.contains('.'),
    ensures
        split_dot(a.push('.') + b) == Some((a, b)),
        before_dot(a.push('.') + b) == a,
        split_dot(b) is None,
        before_dot(b) == b,
{
    lemma_last_dot(a, b);
    lemma_no_dot(b);
}

/// A file's stem is what stands before its extension, and its kind is that of the extension: a JPEG
/// and the RAW of the same stem go together. Without a stem or with an extension of no kind, a file is
/// of no shot.
pub proof fn law_stem_and_kind(stem: Seq<char>, ext: Seq<char>)
    requires
        !ext.contains('.'),
    ensures
        ({
            let name = stem.push('.') + ext;
            let kind = classify_of(ext);
            &&& kind is None ==> split_name_of(name) is None
            &&& kind == Some(Kind::Jpeg) || kind == Some(Kind::Raw) ==> split_name_of(name)
                == if stem.len() > 0 {
                Some((stem, kind->0))
            } else {
                None
            }
            &&& split_name_of(ext) is None
        }),
{
    lemma_last_dot(stem, ext);
    lemma_no_dot(ext);
}

/// A sidecar goes with the stem that it names, or with that of the image that it names.
pub proof fn law_stem_of_a_sidecar(stem: Seq<char>, inner: Seq<char>, ext: Seq<char>)
    requires
        !ext.contains('.'),
        !inner.contains('.'),
        classify_of(ext) == Some(Kind::Sidecar),
    ensures
        inner.len() > 0 ==> split_name_of(inner.push('.') + ext) == Some((inner, Kind::Sidecar)),
        classify_of(inner) == Some(Kind::Jpeg) || classify_of(inner) == Some(Kind::Raw)
            ==> split_name_of((stem.push('.') + inner).push('.') + ext) == Some((stem, Kind::Sidecar)),
        !(classify_of(inner) == Some(Kind::Jpeg) || classify_of(inner) == Some(Kind::Raw))
            ==> split_name_of((stem.push('.') + inner).push('.') + ext) == Some(
            (stem.push('.') + inner, Kind::Sidecar),
        ),
{
    lemma_last_dot(inner, ext);
    lemma_last_dot(stem, inner);
    lemma_last_dot(stem.push('.') + inner, ext);
    lemma_no_dot(inner);
}

/// A name is listed unless it starts with a dot.
pub proof fn law_listed_names(name: Seq<char>)
    ensures
        name.len() > 0 && name[0] == '.' ==> listed_as(name) is None,
        name.len() > 0 && name[0] != '.' ==> listed_as(name) == split_name_of(name),
{
}

/// A shot shows the first of its JPEGs; its RAWs are the RAWs of its stem, in order, and its other
/// files are the further JPEGs and the sidecars.
pub proof fn law_parts_of_a_shot(dir: Seq<char>, names: Seq<Seq<char>>, i: int, path: Seq<char>)
    requires
        0 <= i < catalog_of(dir, names).shots.len(),
    ensures
        ({
            let shot = catalog_of(dir, names).shots[i];
            &&& exists|k: int|
                0 <= k < names.len() && listed_as(#[trigger] names[k]) == Some(
                    (shot.stem, Kind::Jpeg),
                ) && shot.jpeg == join_of(dir, names[k])
            &&& forall|k: int|
                0 <= k < names.len() && listed_as(#[trigger] names[k]) == Some(
                    (shot.stem, Kind::Jpeg),
                ) ==> text_le(shot.jpeg, join_of(dir, names[k]))
            &&& shot.raws.contains(path) <==> exists|k: int|
                0 <= k < names.len() && listed_as(#[trigger] names[k]) == Some(
                    (shot.stem, Kind::Raw),
                ) && path == join_of(dir, names[k])
            &&& forall|a: int, b: int|
                0 <= a < b < shot.raws.len() ==> text_le(
                    #[trigger] shot.raws[a],
                    #[trigger] shot.raws[b],
                )
            &&& shot.sidecars.contains(path) ==> exists|k: int|
                0 <= k < names.len() && (listed_as(#[trigger] names[k]) == Some(
                    (shot.stem, Kind::Sidecar),
                ) || listed_as(names[k]) == Some((shot.stem, Kind::Jpeg))) && path == join_of(
                    dir,
                    names[k],
                )
        }),
{
    lemma_stems(names);
    lemma_shots_among(dir, names, stems_of(names));
    lemma_text_order_total();
    let shot = catalog_of(dir, names).shots[i];
    let stem = shot.stem;
    let jpegs = paths_of(dir, names, stem, Kind::Jpeg);
    let raws = paths_of(dir, names, stem, Kind::Raw);
    let cars = paths_of(dir, names, stem, Kind::Sidecar);
    names.filter_map(member_path(dir, stem, Kind::Jpeg)).lemma_sort_by_ensures(text_order());
    names.filter_map(member_path(dir, stem, Kind::Raw)).lemma_sort_by_ensures(text_order());
    assert(jpegs.contains(jpegs[0]));
    lemma_paths_contain(dir, names, stem, Kind::Jpeg, jpegs[0]);
    lemma_paths_contain(dir, names, stem, Kind::Raw, path);
    lemma_paths_contain(dir, names, stem, Kind::Jpeg, path);
    lemma_paths_contain(dir, names, stem, Kind::Sidecar, path);
    assert forall|k: int|
        0 <= k < names.len() && listed_as(#[trigger] names[k]) == Some((stem, Kind::Jpeg)) implies text_le(
        shot.jpeg,
        join_of(dir, names[k]),
    ) by {
        let p = join_of(dir, names[k]);
        lemma_paths_contain(dir, names, stem, Kind::Jpeg, p);
        let j = choose|j: int| 0 <= j < jpegs.len() && jpegs[j] == p;
        let r = text_order();
        if j == 0 {
            lemma_text_trichotomy(p, p);
        } else {
            assert(r(jpegs[0], jpegs[j]));
        }
    }
    assert forall|a: int, b: int| 0 <= a < b < raws.len() implies text_le(
        #[trigger] raws[a],
        #[trigger] raws[b],
    ) by {
        let r = text_order();
        assert(r(raws[a], raws[b]));
    }
    if shot.sidecars.contains(path) {
        let j = choose|j: int| 0 <= j < shot.sidecars.len() && shot.sidecars[j] == path;
        if j < jpegs.len() - 1 {
            assert(jpegs[j + 1] == path);
            assert(jpegs.contains(path));
        } else {
            assert(cars[j - (jpegs.len() - 1)] == path);
            assert(cars.contains(path));
        }
    }
}

/// The files of a shot are its JPEG, its RAWs and its sidecars, in this order.
pub proof fn law_files_of_a_shot(s: ShotView, k: int)
    requires
        0 <= k < s.files().len(),
    ensures
        s.files().len() == 1 + s.raws.len() + s.sidecars.len(),
        k == 0 ==> s.files()[k] == s.jpeg,
        1 <= k <= s.raws.len() ==> s.files()[k] == s.raws[k - 1],
        k > s.raws.len() ==> s.files()[k] == s.sidecars[k - 1 - s.raws.len()],
{
}

} // verus!
