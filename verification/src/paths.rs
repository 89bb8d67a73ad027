//! Paths as text, with `/` between the components.
use crate::order::texts;
use crate::text::{chars_of, same_text, text_view};
use vstd::prelude::*;
use vstd::string::*;

verus! {

/// Whether the path starts at the root.
pub open spec fn is_absolute(p: Seq<char>) -> bool {
    p.len() > 0 && p[0] == '/'
}

/// `name` inside `dir`. An absolute `name` stands for itself.
pub open spec fn join_of(dir: Seq<char>, name: Seq<char>) -> Seq<char> {
    if is_absolute(name) {
        name
    } else if dir.len() == 0 || dir.last() == '/' {
        dir + name
    } else {
        dir.push('/') + name
    }
}

/// `name` inside `dir`. An absolute `name` stands for itself.
pub fn join(dir: &str, name: &str) -> (r: String)
    ensures
        r@ == join_of(dir@, name@),
{
    let n = chars_of(name);
    if n.len() > 0 && n[0] == '/' {
        return name.to_owned();
    }
    let d = chars_of(dir);
    let mut out = dir.to_owned();
    if d.len() > 0 && d[d.len() - 1] != '/' {
        out.push('/');
    }
    out.append(name);
    out
}

/// The stretches of a text between slashes.
pub open spec fn split(p: Seq<char>) -> Seq<Seq<char>>
    decreases p.len(),
{
    if p.len() == 0 {
        seq![Seq::empty()]
    } else {
        let before = split(p.drop_last());
        if p.last() == '/' {
            before.push(Seq::empty())
        } else {
            before.drop_last().push(before.last().push(p.last()))
        }
    }
}

/// The text with the given stretches between slashes.
pub open spec fn unsplit(s: Seq<Seq<char>>) -> Seq<char>
    decreases s.len(),
{
    if s.len() == 0 {
        Seq::empty()
    } else if s.len() == 1 {
        s[0]
    } else {
        unsplit(s.drop_last()).push('/') + s.last()
    }
}

/// Whether the `i`-th stretch is a component. Repeated slashes and `.` add nothing to a path, but
/// for a `.` that it starts with.
pub open spec fn is_component(s: Seq<Seq<char>>, i: int) -> bool {
    s[i].len() > 0 && (i == 0 || s[i] != "."@)
}

/// The components from the `i`-th stretch on.
pub open spec fn components_from(s: Seq<Seq<char>>, i: int) -> Seq<Seq<char>>
    decreases s.len() - i,
{
    if i < 0 || i >= s.len() {
        Seq::empty()
    } else if is_component(s, i) {
        seq![s[i]] + components_from(s, i + 1)
    } else {
        components_from(s, i + 1)
    }
}

/// The components of a path. Two paths with the same ones, absolute or not, are the same path.
pub open spec fn components(p: Seq<char>) -> Seq<Seq<char>> {
    components_from(split(p), 0)
}

/// Whether two texts name the same path.
pub open spec fn same_path(a: Seq<char>, b: Seq<char>) -> bool {
    is_absolute(a) == is_absolute(b) && components(a) == components(b)
}

/// The first stretch from the `i`-th on that is a component.
pub open spec fn next_component(s: Seq<Seq<char>>, i: int) -> int
    decreases s.len() - i,
{
    if 0 <= i < s.len() && !is_component(s, i) {
        next_component(s, i + 1)
    } else {
        i
    }
}

/// The stretch behind the last component before the `n`-th stretch.
pub open spec fn components_end(s: Seq<Seq<char>>, n: int) -> int
    decreases n,
{
    if 0 < n <= s.len() && !is_component(s, n - 1) {
        components_end(s, n - 1)
    } else {
        n
    }
}

/// The stretch at which the components behind the first `k` start.
pub open spec fn behind(s: Seq<Seq<char>>, i: int, k: int) -> int
    decreases k,
{
    let j = next_component(s, i);
    if k <= 0 {
        j
    } else {
        behind(s, j + 1, k - 1)
    }
}

/// The text of the stretches from the `i`-th up to the `j`-th.
pub open spec fn stretch(s: Seq<Seq<char>>, i: int, j: int) -> Seq<char> {
    if i < j {
        unsplit(s.subrange(i, j))
    } else {
        Seq::empty()
    }
}

/// The last component, where it is a name.
pub open spec fn file_name_of(p: Seq<char>) -> Option<Seq<char>> {
    let s = split(p);
    let n = components_end(s, s.len() as int);
    if n > 0 && s[n - 1] != ".."@ && s[n - 1] != "."@ {
        Some(s[n - 1])
    } else {
        None
    }
}

/// The path without its last component.
pub open spec fn parent_of(p: Seq<char>) -> Seq<char> {
    let s = split(p);
    let n = components_end(s, components_end(s, s.len() as int) - 1);
    if n > 0 {
        unsplit(s.take(n))
    } else if is_absolute(p) {
        seq!['/']
    } else {
        Seq::empty()
    }
}

/// The path without its last component, where it has one.
pub open spec fn parent_opt(p: Seq<char>) -> Option<Seq<char>> {
    if components_end(split(p), split(p).len() as int) > 0 {
        Some(parent_of(p))
    } else {
        None
    }
}

/// The path with another last component.
pub open spec fn with_file_name_of(p: Seq<char>, name: Seq<char>) -> Seq<char> {
    if file_name_of(p) is Some {
        join_of(parent_of(p), name)
    } else {
        join_of(p, name)
    }
}

/// Whether `base` is one of the directories that `p` lies in, or `p` itself.
pub open spec fn lies_in(p: Seq<char>, base: Seq<char>) -> bool {
    let a = components(p);
    let b = components(base);
    is_absolute(p) == is_absolute(base) && b.len() <= a.len() && a.take(b.len() as int) == b
}

/// The part of `p` behind its first `k` components.
pub open spec fn rest_of(p: Seq<char>, k: int) -> Seq<char> {
    let s = split(p);
    stretch(s, behind(s, 0, k), components_end(s, s.len() as int))
}

/// The part of `p` inside `base`.
pub open spec fn strip_prefix_of(p: Seq<char>, base: Seq<char>) -> Option<Seq<char>> {
    if lies_in(p, base) {
        Some(rest_of(p, components(base).len() as int))
    } else {
        None
    }
}

proof fn lemma_split_nonempty(p: Seq<char>)
    ensures
        split(p).len() > 0,
    decreases p.len(),
{
    if p.len() > 0 {
        lemma_split_nonempty(p.drop_last());
    }
}

/// No stretch holds a slash.
proof fn lemma_split_no_slash(p: Seq<char>, i: int)
    requires
        0 <= i < split(p).len(),
    ensures
        !split(p)[i].contains('/'),
    decreases p.len(),
{
    lemma_split_nonempty(p);
    if p.len() > 0 {
        let before = split(p.drop_last());
        lemma_split_nonempty(p.drop_last());
        if i < before.len() {
            lemma_split_no_slash(p.drop_last(), i);
        }
        if p.last() != '/' && i == before.len() - 1 {
            let t = before.last().push(p.last());
            if t.contains('/') {
                let k = choose|k: int| 0 <= k < t.len() && t[k] == '/';
                assert(before[i][k] == '/');
            }
        }
    }
}

/// A slash separates the stretches before it from those behind it.
proof fn lemma_split_join(u: Seq<char>, v: Seq<char>)
    ensures
        split(u.push('/') + v) == split(u) + split(v),
    decreases v.len(),
{
    lemma_split_nonempty(u);
    lemma_split_nonempty(v);
    let p = u.push('/') + v;
    if v.len() == 0 {
        assert(p.drop_last() =~= u);
        assert(split(v) =~= seq![Seq::<char>::empty()]);
        assert(split(p) =~= split(u) + split(v));
    } else {
        let w = v.drop_last();
        lemma_split_nonempty(w);
        lemma_split_join(u, w);
        assert(p.drop_last() =~= u.push('/') + w);
        assert(split(p) =~= split(u) + split(v));
    }
}

/// A text without a slash is one stretch.
proof fn lemma_split_one(t: Seq<char>)
    requires
        !t.contains('/'),
    ensures
        split(t) == seq![t],
    decreases t.len(),
{
    if t.len() > 0 {
        let r = t.drop_last();
        assert(t[t.len() - 1] == t.last());
        assert(!r.contains('/')) by {
            if r.contains('/') {
                let k = choose|k: int| 0 <= k < r.len() && r[k] == '/';
                assert(t[k] == '/');
            }
        }
        lemma_split_one(r);
        assert(t =~= r.push(t.last()));
        assert(split(t) =~= seq![t]);
    } else {
        assert(t =~= Seq::empty());
    }
}

/// Stretches without slashes come apart as they were put together.
proof fn lemma_split_unsplit(s: Seq<Seq<char>>)
    requires
        s.len() > 0,
        forall|i: int| 0 <= i < s.len() ==> !(#[trigger] s[i]).contains('/'),
    ensures
        split(unsplit(s)) == s,
    decreases s.len(),
{
    if s.len() == 1 {
        lemma_split_one(s[0]);
        assert(s =~= seq![s[0]]);
    } else {
        let r = s.drop_last();
        lemma_split_unsplit(r);
        lemma_split_join(unsplit(r), s.last());
        lemma_split_one(s[s.len() - 1]);
        assert(split(unsplit(s)) =~= s);
    }
}

proof fn lemma_next_component(s: Seq<Seq<char>>, i: int)
    requires
        0 <= i <= s.len(),
    ensures
        i <= next_component(s, i) <= s.len(),
        next_component(s, i) < s.len() ==> is_component(s, next_component(s, i)),
        components_from(s, i) == components_from(s, next_component(s, i)),
    decreases s.len() - i,
{
    if i < s.len() && !is_component(s, i) {
        lemma_next_component(s, i + 1);
    }
}

proof fn lemma_components_end(s: Seq<Seq<char>>, n: int)
    requires
        0 <= n <= s.len(),
    ensures
        0 <= components_end(s, n) <= n,
        components_end(s, n) > 0 ==> is_component(s, components_end(s, n) - 1),
        forall|i: int| components_end(s, n) <= i < n ==> !#[trigger] is_component(s, i),
    decreases n,
{
    if n > 0 && !is_component(s, n - 1) {
        lemma_components_end(s, n - 1);
    }
}

/// Where the components behind the first `k` start, and which they are.
proof fn lemma_behind(s: Seq<Seq<char>>, i: int, k: int)
    requires
        0 <= i <= s.len(),
        0 <= k <= components_from(s, i).len(),
    ensures
        i <= behind(s, i, k) <= s.len(),
        behind(s, i, k) < s.len() ==> is_component(s, behind(s, i, k)),
        components_from(s, behind(s, i, k)) == components_from(s, i).skip(k),
    decreases k,
{
    let j = next_component(s, i);
    lemma_next_component(s, i);
    if k > 0 {
        assert(j < s.len());
        assert(components_from(s, j) =~= seq![s[j]] + components_from(s, j + 1));
        lemma_behind(s, j + 1, k - 1);
        assert(components_from(s, i).skip(k) =~= components_from(s, j + 1).skip(k - 1));
    } else {
        assert(components_from(s, i).skip(0) =~= components_from(s, i));
    }
}

/// Without components behind it, an end makes no difference.
proof fn lemma_components_cut(s: Seq<Seq<char>>, i: int, n: int)
    requires
        0 <= i <= n <= s.len(),
        forall|j: int| n <= j < s.len() ==> !#[trigger] is_component(s, j),
    ensures
        components_from(s.take(n), i) == components_from(s, i),
    decreases s.len() - i,
{
    if i < n {
        lemma_components_cut(s, i + 1, n);
        assert(is_component(s.take(n), i) == is_component(s, i));
    } else {
        lemma_no_components(s, i);
    }
}

proof fn lemma_no_components(s: Seq<Seq<char>>, i: int)
    requires
        0 <= i <= s.len(),
        forall|j: int| i <= j < s.len() ==> !#[trigger] is_component(s, j),
    ensures
        components_from(s, i) == Seq::<Seq<char>>::empty(),
    decreases s.len() - i,
{
    if i < s.len() {
        lemma_no_components(s, i + 1);
    }
}

/// The components of two lists of stretches, the second not starting with `.`.
proof fn lemma_components_concat(a: Seq<Seq<char>>, b: Seq<Seq<char>>, i: int)
    requires
        a.len() > 0,
        b.len() == 0 || b[0] != "."@,
        0 <= i <= a.len(),
    ensures
        components_from(a + b, i) == components_from(a, i) + components_from(b, 0),
    decreases a.len() - i,
{
    let s = a + b;
    if i < a.len() {
        lemma_components_concat(a, b, i + 1);
        assert(s[i] == a[i]);
        assert(is_component(s, i) == is_component(a, i));
        assert(components_from(s, i) =~= components_from(a, i) + components_from(b, 0));
    } else {
        lemma_components_shift(a, b, 0);
        assert(components_from(s, i) =~= components_from(a, i) + components_from(b, 0));
    }
}

proof fn lemma_components_shift(a: Seq<Seq<char>>, b: Seq<Seq<char>>, j: int)
    requires
        a.len() > 0,
        b.len() == 0 || b[0] != "."@,
        0 <= j <= b.len(),
    ensures
        components_from(a + b, a.len() + j) == components_from(b, j),
    decreases b.len() - j,
{
    let s = a + b;
    if j < b.len() {
        lemma_components_shift(a, b, j + 1);
        assert(s[a.len() + j] == b[j]);
        assert(is_component(s, a.len() + j) == is_component(b, j));
    }
}

/// A path starts with a slash exactly when its first stretch is empty and there is another.
proof fn lemma_absolute_split(p: Seq<char>)
    ensures
        is_absolute(p) <==> split(p).len() > 1 && split(p)[0].len() == 0,
        p.len() > 0 && !is_absolute(p) ==> split(p)[0].len() > 0,
    decreases p.len(),
{
    lemma_split_nonempty(p);
    if p.len() > 0 {
        let r = p.drop_last();
        lemma_split_nonempty(r);
        lemma_absolute_split(r);
        if r.len() == 0 {
            assert(split(r) =~= seq![Seq::<char>::empty()]);
            assert(p[0] == p.last());
        } else {
            assert(p[0] == r[0]);
        }
    }
}

/// Joining puts components behind one another.
pub proof fn lemma_join_components(dir: Seq<char>, name: Seq<char>)
    requires
        dir.len() > 0,
        name.len() > 0,
        !is_absolute(name),
        split(name)[0] != "."@,
    ensures
        components(join_of(dir, name)) == components(dir) + components(name),
        is_absolute(join_of(dir, name)) == is_absolute(dir),
{
    lemma_split_nonempty(name);
    lemma_split_nonempty(dir);
    if dir.last() == '/' {
        let d = dir.drop_last();
        assert(dir =~= d.push('/'));
        lemma_split_nonempty(d);
        assert(dir + name =~= d.push('/') + name);
        lemma_split_join(d, name);
        lemma_components_concat(split(d), split(name), 0);
        lemma_split_join(d, Seq::empty());
        assert(d.push('/') + Seq::<char>::empty() =~= dir);
        let e: Seq<Seq<char>> = seq![Seq::<char>::empty()];
        assert(split(Seq::<char>::empty()) =~= e);
        assert("."@.len() == 1) by {
            reveal_strlit(".");
        }
        lemma_components_concat(split(d), e, 0);
        assert(components_from(e, 0) =~= Seq::<Seq<char>>::empty()) by {
            lemma_no_components(e, 0);
        }
        assert(components(dir) =~= components_from(split(d), 0));
    } else {
        lemma_split_join(dir, name);
        lemma_components_concat(split(dir), split(name), 0);
    }
}

/// The part of a path behind its first components has the other components, and starts with one.
pub proof fn lemma_rest(p: Seq<char>, k: int)
    requires
        0 <= k <= components(p).len(),
        k > 0 || is_absolute(p),
    ensures
        components(rest_of(p, k)) == components(p).skip(k),
        rest_of(p, k).len() == 0 <==> components(p).len() == k,
        !is_absolute(rest_of(p, k)),
        rest_of(p, k).len() > 0 ==> split(rest_of(p, k))[0] != "."@,
{
    let s = split(p);
    lemma_split_nonempty(p);
    lemma_absolute_split(p);
    let n = s.len() as int;
    let e = components_end(s, n);
    let b = behind(s, 0, k);
    lemma_components_end(s, n);
    lemma_behind(s, 0, k);
    assert(b >= 1) by {
        lemma_next_component(s, 0);
        if k > 0 {
            lemma_behind_beyond(s, 0, k);
        } else {
            assert(!is_component(s, 0));
        }
    }
    if b < e {
        let t = s.subrange(b, e);
        assert forall|i: int| 0 <= i < t.len() implies !(#[trigger] t[i]).contains('/') by {
            lemma_split_no_slash(p, b + i);
        }
        lemma_split_unsplit(t);
        let rest = unsplit(t);
        assert(t[0] == s[b]);
        assert(is_component(s, b));
        assert(t[0].len() > 0 && t[0] != "."@);
        lemma_absolute_split(rest);
        lemma_first_stretch(t);
        // The components of `t` are those of `s` from `b` up to `e`.
        let u = s.take(e);
        lemma_components_cut(s, b, e);
        assert(u =~= u.take(b) + t);
        lemma_components_shift(u.take(b), t, 0);
        assert(components(rest) == components_from(s, b));
        assert(components_from(s, b).len() > 0);
    } else {
        if b < n {
            assert(is_component(s, b));
        }
        lemma_no_components(s, b);
        let empty = Seq::<char>::empty();
        let one: Seq<Seq<char>> = seq![empty];
        assert(split(empty) =~= one);
        lemma_no_components(one, 0);
    }
}

proof fn lemma_behind_beyond(s: Seq<Seq<char>>, i: int, k: int)
    requires
        0 <= i <= s.len(),
        0 < k <= components_from(s, i).len(),
    ensures
        behind(s, i, k) > i,
{
    lemma_next_component(s, i);
    let j = next_component(s, i);
    assert(j < s.len());
    assert(components_from(s, j) =~= seq![s[j]] + components_from(s, j + 1));
    lemma_behind(s, j + 1, k - 1);
}

/// A text made of stretches starts with the first.
proof fn lemma_first_stretch(t: Seq<Seq<char>>)
    requires
        t.len() > 0,
        t[0].len() > 0,
    ensures
        unsplit(t).len() > 0,
    decreases t.len(),
{
    if t.len() > 1 {
        lemma_first_stretch(t.drop_last());
    }
}

/// The stretches of a text between slashes.
fn split_path(p: &str) -> (r: Vec<String>)
    ensures
        texts(r@) == split(p@),
{
    let c = chars_of(p);
    let mut out: Vec<String> = Vec::new();
    let mut cur = String::new();
    let ghost t = p@;
    let mut i: usize = 0;
    assert(t.take(0) =~= Seq::<char>::empty());
    assert(texts(out@).push(cur@) =~= split(t.take(0)));
    while i < c.len()
        invariant
            i <= c.len(),
            c@ == t,
            texts(out@).push(cur@) == split(t.take(i as int)),
        decreases c.len() - i,
    {
        let ghost before = texts(out@);
        assert(t.take(i + 1).drop_last() =~= t.take(i as int));
        assert(before.push(cur@).last() == cur@);
        assert(before.push(cur@).drop_last() =~= before);
        if c[i] == '/' {
            let ghost word = cur@;
            out.push(cur);
            cur = String::new();
            assert(texts(out@) =~= before.push(word));
            assert(cur@ =~= Seq::<char>::empty());
        } else {
            cur.push(c[i]);
        }
        i += 1;
    }
    assert(t.take(i as int) =~= t);
    let ghost before = texts(out@);
    out.push(cur);
    assert(texts(out@) =~= before.push(cur@));
    out
}

/// Whether the `i`-th stretch is a component.
fn component(s: &Vec<String>, i: usize) -> (r: bool)
    requires
        i < s@.len(),
    ensures
        r == is_component(texts(s@), i as int),
{
    let t = s[i].as_str();
    !t.is_empty() && (i == 0 || !same_text(t, "."))
}

fn find_end(s: &Vec<String>, n: usize) -> (r: usize)
    requires
        n <= s@.len(),
    ensures
        r == components_end(texts(s@), n as int),
        r <= n,
{
    let mut e: usize = n;
    while e > 0 && !component(s, e - 1)
        invariant
            e <= n <= s@.len(),
            components_end(texts(s@), n as int) == components_end(texts(s@), e as int),
        decreases e,
    {
        e -= 1;
    }
    e
}

fn find_next(s: &Vec<String>, i: usize) -> (r: usize)
    requires
        i <= s@.len(),
    ensures
        r == next_component(texts(s@), i as int),
        i <= r <= s@.len(),
        components_from(texts(s@), i as int) == components_from(texts(s@), r as int),
        r < s@.len() ==> is_component(texts(s@), r as int),
{
    let mut j: usize = i;
    proof {
        lemma_next_component(texts(s@), i as int);
    }
    while j < s.len() && !component(s, j)
        invariant
            i <= j <= s@.len(),
            next_component(texts(s@), i as int) == next_component(texts(s@), j as int),
        decreases s.len() - j,
    {
        j += 1;
    }
    j
}

/// The text of the stretches from the `i`-th up to the `j`-th.
fn put_together(s: &Vec<String>, i: usize, j: usize) -> (r: String)
    requires
        i <= s@.len(),
        j <= s@.len(),
    ensures
        r@ == stretch(texts(s@), i as int, j as int),
{
    let mut out = String::new();
    if i >= j {
        return out;
    }
    let ghost t = texts(s@);
    out.append(s[i].as_str());
    let mut k: usize = i + 1;
    assert(out@ =~= t[i as int]);
    assert(t.subrange(i as int, k as int) =~= seq![t[i as int]]);
    while k < j
        invariant
            i < k <= j <= s@.len(),
            t == texts(s@),
            out@ == unsplit(t.subrange(i as int, k as int)),
        decreases j - k,
    {
        out.push('/');
        out.append(s[k].as_str());
        assert(t.subrange(i as int, k + 1).drop_last() =~= t.subrange(i as int, k as int));
        k += 1;
    }
    out
}

/// The last component, where it is a name.
pub fn file_name(p: &str) -> (r: Option<String>)
    ensures
        text_view(r) == file_name_of(p@),
{
    let s = split_path(p);
    let ghost t = texts(s@);
    let n: usize = find_end(&s, s.len());
    if n > 0 {
        assert(t[n - 1] == s@[n - 1]@);
        if !same_text(s[n - 1].as_str(), "..") && !same_text(s[n - 1].as_str(), ".") {
            return Some(s[n - 1].clone());
        }
    }
    None
}

/// The path without its last component, where it has one.
pub fn parent(p: &str) -> (r: Option<String>)
    ensures
        text_view(r) == parent_opt(p@),
{
    let s = split_path(p);
    let ghost t = texts(s@);
    let n: usize = find_end(&s, s.len());
    if n == 0 {
        return None;
    }
    let e: usize = find_end(&s, n - 1);
    proof {
        lemma_absolute_split(p@);
        assert(t[0] == s@[0]@);
    }
    let dir = if e > 0 {
        assert(t.subrange(0, e as int) =~= t.take(e as int));
        put_together(&s, 0, e)
    } else if s.len() > 1 && s[0].as_str().is_empty() {
        let mut root = String::new();
        root.push('/');
        assert(root@ =~= seq!['/']);
        root
    } else {
        String::new()
    };
    assert(e == 0 && !is_absolute(p@) ==> dir@ =~= Seq::empty());
    Some(dir)
}

/// The path with another last component.
pub fn with_file_name(p: &str, name: &str) -> (r: String)
    ensures
        r@ == with_file_name_of(p@, name@),
{
    let old = file_name(p);
    if old.is_none() {
        return join(p, name);
    }
    match parent(p) {
        Some(dir) => join(dir.as_str(), name),
        None => join(p, name),
    }
}


/// The part of `p` inside `base`, where it lies in it.
pub fn strip_prefix(p: &str, base: &str) -> (r: Option<String>)
    requires
        base@.len() > 0,
    ensures
        text_view(r) == strip_prefix_of(p@, base@),
{
    let s = split_path(p);
    let b = split_path(base);
    let ghost ps = texts(s@);
    let ghost bs = texts(b@);
    proof {
        lemma_absolute_split(p@);
        lemma_absolute_split(base@);
        assert(ps[0] == s@[0]@) by {
            lemma_split_nonempty(p@);
        }
        assert(bs[0] == b@[0]@) by {
            lemma_split_nonempty(base@);
        }
    }
    let p_abs = s.len() > 1 && s[0].as_str().is_empty();
    let b_abs = b.len() > 1 && b[0].as_str().is_empty();
    if p_abs != b_abs {
        return None;
    }
    let ghost pc = components(p@);
    let ghost bc = components(base@);
    let ghost mut k: int = 0;
    let mut i: usize = find_next(&s, 0);
    let mut j: usize = find_next(&b, 0);
    assert(pc.skip(0) =~= pc);
    assert(bc.skip(0) =~= bc);
    while j < b.len()
        invariant
            is_absolute(p@) == is_absolute(base@),
            ps == texts(s@),
            bs == texts(b@),
            ps == split(p@),
            bs == split(base@),
            pc == components(p@),
            bc == components(base@),
            i <= ps.len(),
            j <= bs.len(),
            0 <= k <= pc.len(),
            k <= bc.len(),
            i < ps.len() ==> is_component(ps, i as int),
            j < bs.len() ==> is_component(bs, j as int),
            components_from(ps, i as int) == pc.skip(k),
            components_from(bs, j as int) == bc.skip(k),
            forall|m: int| 0 <= m < k ==> pc[m] == bc[m],
            behind(ps, i as int, bc.len() - k) == behind(ps, 0, bc.len() as int),
        decreases b.len() - j,
    {
        let ghost pr = components_from(ps, i as int);
        let ghost br = components_from(bs, j as int);
        assert(br == seq![bs[j as int]] + components_from(bs, j + 1));
        assert(br[0] == bs[j as int] && br.len() == bc.len() - k);
        assert(bc[k] == br[0]);
        if i >= s.len() {
            assert(pc.len() == k);
            return None;
        }
        assert(pr == seq![ps[i as int]] + components_from(ps, i + 1));
        assert(pr[0] == ps[i as int] && pc[k] == pr[0]);
        assert(ps[i as int] == s@[i as int]@ && bs[j as int] == b@[j as int]@);
        if !same_text(s[i].as_str(), b[j].as_str()) {
            proof {
                if lies_in(p@, base@) {
                    assert(pc.take(bc.len() as int)[k] == bc[k]);
                }
            }
            return None;
        }
        proof {
            assert(pc.skip(k + 1) =~= pr.drop_first());
            assert(bc.skip(k + 1) =~= br.drop_first());
            assert(pr.drop_first() =~= components_from(ps, i + 1));
            assert(br.drop_first() =~= components_from(bs, j + 1));
            lemma_next_component(ps, i as int);
            lemma_behind_step(ps, i as int, bc.len() - k);
            k = k + 1;
        }
        i = find_next(&s, i + 1);
        j = find_next(&b, j + 1);
    }
    proof {
        assert(bc.skip(k).len() == 0);
        assert(k == bc.len());
        assert(pc.take(k) =~= bc);
        lemma_next_component(ps, i as int);
    }
    let e: usize = find_end(&s, s.len());
    Some(put_together(&s, i, e))
}

/// Going past a component, one fewer is left to pass.
proof fn lemma_behind_step(s: Seq<Seq<char>>, i: int, k: int)
    requires
        0 <= i < s.len(),
        is_component(s, i),
        k > 0,
    ensures
        behind(s, i, k) == behind(s, next_component(s, i + 1), k - 1),
{
    assert(next_component(s, i) == i);
    lemma_next_component(s, i + 1);
    let j = next_component(s, i + 1);
    assert(next_component(s, j) == j);
    assert(behind(s, i, k) == behind(s, i + 1, k - 1));
    if k > 1 {
        assert(behind(s, i + 1, k - 1) == behind(s, j + 1, k - 2));
        assert(behind(s, j, k - 1) == behind(s, j + 1, k - 2));
    }
}

/// A name in a directory is put behind a slash, unless there is one already or no directory; an
/// absolute name stands for itself.
pub proof fn law_join(dir: Seq<char>, name: Seq<char>)
    ensures
        name.len() > 0 && name[0] == '/' ==> join_of(dir, name) == name,
        !(name.len() > 0 && name[0] == '/') && (dir.len() == 0 || dir.last() == '/') ==> join_of(
            dir,
            name,
        ) == dir + name,
        !(name.len() > 0 && name[0] == '/') && dir.len() > 0 && dir.last() != '/' ==> join_of(dir, name)
            == dir + seq!['/'] + name,
{
    assert(dir + seq!['/'] =~= dir.push('/'));
}

/// A path is its stretches with slashes between them, and no stretch holds a slash.
pub proof fn law_stretches_make_the_path(p: Seq<char>)
    ensures
        split(p).len() > 0,
        unsplit(split(p)) == p,
        forall|i: int| 0 <= i < split(p).len() ==> !(#[trigger] split(p)[i]).contains('/'),
{
    lemma_unsplit_split(p);
    assert forall|i: int| 0 <= i < split(p).len() implies !(#[trigger] split(p)[i]).contains('/') by {
        lemma_split_no_slash(p, i);
    }
}

proof fn lemma_unsplit_split(p: Seq<char>)
    ensures
        split(p).len() > 0,
        unsplit(split(p)) == p,
    decreases p.len(),
{
    lemma_split_nonempty(p);
    if p.len() == 0 {
        assert(unsplit(split(p)) =~= p);
    } else {
        let r = p.drop_last();
        let before = split(r);
        lemma_unsplit_split(r);
        assert(p =~= r.push(p.last()));
        let s = split(p);
        if p.last() == '/' {
            assert(s.drop_last() =~= before);
            assert(unsplit(s) =~= p);
        } else {
            assert(s.drop_last() =~= before.drop_last());
            if before.len() == 1 {
                assert(unsplit(s) =~= p);
            } else {
                assert(unsplit(s) =~= p);
            }
        }
    }
}

/// Empty stretches add no component, and a `.` only where a path starts with it; any other stretch
/// is one.
pub proof fn law_components_of_stretches(s: Seq<Seq<char>>, i: int)
    requires
        0 <= i < s.len(),
    ensures
        s[i].len() == 0 ==> components_from(s, i) == components_from(s, i + 1),
        i > 0 && s[i] == "."@ ==> components_from(s, i) == components_from(s, i + 1),
        s[i].len() > 0 && (i == 0 || s[i] != "."@) ==> components_from(s, i) == seq![s[i]]
            + components_from(s, i + 1),
        components_from(s, s.len() as int) == Seq::<Seq<char>>::empty(),
{
}

/// The components from a stretch on, where the last one is a component.
proof fn lemma_last_component(s: Seq<Seq<char>>, i: int)
    requires
        0 <= i < s.len(),
        is_component(s, s.len() - 1),
    ensures
        components_from(s, i).len() > 0,
        i < s.len() - 1 && is_component(s, i) ==> components_from(s, i).len() > 1,
    decreases s.len() - i,
{
    if i < s.len() - 1 {
        lemma_last_component(s, i + 1);
    }
}

/// The stretches of a name in a directory are those of the directory, but for an empty one at its
/// end, and the name.
proof fn lemma_join_split(dir: Seq<char>, name: Seq<char>) -> (a: Seq<Seq<char>>)
    requires
        dir.len() > 0,
        name.len() > 0,
        !name.contains('/'),
    ensures
        a.len() > 0,
        split(join_of(dir, name)) == a.push(name),
        components_from(a, 0) == components(dir),
        !is_absolute(name),
{
    assert(name[0] != '/') by {
        if name[0] == '/' {
            assert(name.contains('/'));
        }
    }
    lemma_split_one(name);
    if dir.last() == '/' {
        let d = dir.drop_last();
        let empty = Seq::<char>::empty();
        assert(dir =~= d.push('/') + empty);
        assert(dir + name =~= d.push('/') + name);
        lemma_split_nonempty(d);
        lemma_split_join(d, name);
        lemma_split_join(d, empty);
        assert(split(empty) =~= seq![empty]);
        let a = split(d);
        assert(a + seq![name] =~= a.push(name));
        assert(split(dir) =~= a.push(empty));
        assert(split(dir).take(a.len() as int) =~= a);
        assert forall|j: int| a.len() <= j < split(dir).len() implies !#[trigger] is_component(
            split(dir),
            j,
        ) by {}
        lemma_components_cut(split(dir), 0, a.len() as int);
        a
    } else {
        lemma_split_nonempty(dir);
        lemma_split_join(dir, name);
        let a = split(dir);
        assert(a + seq![name] =~= a.push(name));
        a
    }
}

/// A file in a directory has one component more than the directory: its name.
pub proof fn law_file_in_a_directory(dir: Seq<char>, name: Seq<char>)
    requires
        dir.len() > 0,
        name.len() > 0,
        !name.contains('/'),
        name != "."@,
    ensures
        components(join_of(dir, name)) == components(dir).push(name),
        is_absolute(join_of(dir, name)) == is_absolute(dir),
        name != ".."@ ==> file_name_of(join_of(dir, name)) == Some(name),
        name == ".."@ ==> file_name_of(join_of(dir, name)) is None,
        lies_in(join_of(dir, name), dir),
        strip_prefix_of(join_of(dir, name), dir) is Some,
        components(dir).len() > 0 || is_absolute(dir) ==> strip_prefix_of(join_of(dir, name), dir)
            == Some(name),
{
    let a = lemma_join_split(dir, name);
    let p = join_of(dir, name);
    let s = split(p);
    let n = s.len() as int;
    lemma_split_one(name);
    lemma_join_components(dir, name);
    let one = split(name);
    assert(one =~= seq![name]);
    assert(components_from(one, 1) =~= Seq::<Seq<char>>::empty());
    assert(components(name) =~= seq![name]);
    assert(components(p) =~= components(dir).push(name));
    assert(s[n - 1] == name);
    assert(is_component(s, n - 1));
    assert(components_end(s, n) == n);
    assert(components(p).take(components(dir).len() as int) =~= components(dir));
    let k = components(dir).len() as int;
    if k > 0 || is_absolute(dir) {
        lemma_behind(s, 0, k);
        let b = behind(s, 0, k);
        assert(components(p).skip(k) =~= seq![name]);
        assert(components_from(s, b).len() == 1);
        assert(b < n);
        lemma_last_component(s, b);
        assert(b == n - 1);
        assert(s.subrange(b, n) =~= seq![name]);
        assert(unsplit(seq![name]) == name);
    }
}

/// What a file lies in is its parent: the directory itself.
pub proof fn law_parent_of_a_file(dir: Seq<char>, name: Seq<char>, other: Seq<char>)
    requires
        dir.len() > 0,
        name.len() > 0,
        !name.contains('/'),
        name != "."@,
        name != ".."@,
        other.len() > 0,
        !other.contains('/'),
        other != "."@,
    ensures
        same_path(parent_of(join_of(dir, name)), dir),
        parent_opt(join_of(dir, name)) == Some(parent_of(join_of(dir, name))),
        same_path(with_file_name_of(join_of(dir, name), other), join_of(dir, other)),
{
    let a = lemma_join_split(dir, name);
    let p = join_of(dir, name);
    let s = split(p);
    let n = s.len() as int;
    law_file_in_a_directory(dir, name);
    law_file_in_a_directory(dir, other);
    assert(s[n - 1] == name);
    assert(is_component(s, n - 1));
    assert(components_end(s, n) == n);
    lemma_components_end(s, n - 1);
    let m = components_end(s, n - 1);
    assert(s.take(n - 1) =~= a);
    let t = s.take(m);
    let q = parent_of(p);
    assert(a.take(m) =~= t);
    assert forall|j: int| m <= j < a.len() implies !#[trigger] is_component(a, j) by {
        assert(!is_component(s, j));
    }
    lemma_components_cut(a, 0, m);
    lemma_absolute_split(p);
    lemma_absolute_split(dir);
    if m > 0 {
        assert forall|i: int| 0 <= i < t.len() implies !(#[trigger] t[i]).contains('/') by {
            lemma_split_no_slash(p, i);
        }
        lemma_split_unsplit(t);
        lemma_absolute_split(q);
        assert(split(q) == t);
        assert(components(q) == components(dir));
        assert(is_component(s, m - 1));
        assert(t[0] == s[0]);
        assert(t[m - 1].len() > 0);
        if q.len() == 0 {
            assert(split(q) =~= seq![Seq::<char>::empty()]);
        }
    } else {
        lemma_no_components(a, 0);
        assert(!is_component(s, 0));
        assert(s[0].len() == 0);
        let root = seq!['/'];
        let empty = Seq::<char>::empty();
        assert(root =~= empty.push('/') + empty);
        lemma_split_join(empty, empty);
        assert(split(empty) =~= seq![empty]);
        assert(split(root) =~= seq![empty, empty]);
        lemma_no_components(split(root), 0);
        assert(q =~= root);
    }
    assert(q.len() > 0);
    law_file_in_a_directory(q, other);
}

/// What is left of a path inside a directory leads there from it, and there is nothing left only of
/// the directory itself. A path is inside if its first components are those of the directory.
pub proof fn law_part_inside(p: Seq<char>, base: Seq<char>)
    requires
        base.len() > 0,
        components(base).len() > 0 || is_absolute(base),
    ensures
        strip_prefix_of(p, base) is Some <==> is_absolute(p) == is_absolute(base) && components(
            base,
        ).len() <= components(p).len() && forall|i: int|
            0 <= i < components(base).len() ==> #[trigger] components(p)[i] == components(base)[i],
        strip_prefix_of(p, base) matches Some(rest) ==> {
            &&& !is_absolute(rest)
            &&& rest.len() > 0 ==> same_path(join_of(base, rest), p)
            &&& rest.len() == 0 ==> same_path(base, p)
        },
        strip_prefix_of(base, base) == Some(Seq::<char>::empty()),
{
    let a = components(p);
    let b = components(base);
    let k = b.len() as int;
    if k <= a.len() {
        if forall|i: int| 0 <= i < k ==> #[trigger] a[i] == b[i] {
            assert(a.take(k) =~= b);
        }
        if a.take(k) == b {
            assert forall|i: int| 0 <= i < k implies #[trigger] a[i] == b[i] by {
                assert(a.take(k)[i] == a[i]);
            }
        }
    }
    assert(b.take(k) =~= b);
    lemma_rest(base, k);
    assert(rest_of(base, k) =~= Seq::<char>::empty());
    if lies_in(p, base) {
        lemma_rest(p, k);
        let rest = rest_of(p, k);
        if rest.len() > 0 {
            lemma_join_components(base, rest);
            assert(b + a.skip(k) =~= a);
        } else {
            assert(a.take(k) =~= a);
        }
    }
}

} // verus!
