//! The order of texts: by their UTF-8 bytes, as `str` orders them.
use crate::text::lemma_encode_injective;
use vstd::prelude::*;
use vstd::relations::*;
use vstd::seq_lib::*;
use vstd::string::*;
use vstd::utf8::*;

verus! {

/// Whether `a` comes before `b`, the first byte that differs deciding.
pub open spec fn bytes_lt(a: Seq<u8>, b: Seq<u8>) -> bool
    decreases b.len(),
{
    if b.len() == 0 {
        false
    } else if a.len() == 0 {
        true
    } else if a[0] != b[0] {
        a[0] < b[0]
    } else {
        bytes_lt(a.drop_first(), b.drop_first())
    }
}

/// Whether the text `a` comes before `b`.
pub open spec fn text_lt(a: Seq<char>, b: Seq<char>) -> bool {
    bytes_lt(encode_utf8(a), encode_utf8(b))
}

/// Whether the text `a` does not come after `b`.
pub open spec fn text_le(a: Seq<char>, b: Seq<char>) -> bool {
    !text_lt(b, a)
}

/// `text_le` as a relation.
pub open spec fn text_order() -> spec_fn(Seq<char>, Seq<char>) -> bool {
    |a: Seq<char>, b: Seq<char>| text_le(a, b)
}

/// The texts of a list of strings.
pub open spec fn texts(v: Seq<String>) -> Seq<Seq<char>> {
    v.map_values(|s: String| s@)
}

/// Each text comes before all later ones.
pub open spec fn increasing(s: Seq<Seq<char>>) -> bool {
    forall|i: int, j: int| 0 <= i < j < s.len() ==> text_lt(#[trigger] s[i], #[trigger] s[j])
}

pub proof fn lemma_bytes_trichotomy(a: Seq<u8>, b: Seq<u8>)
    ensures
        !(bytes_lt(a, b) && bytes_lt(b, a)),
        bytes_lt(a, b) || bytes_lt(b, a) || a == b,
        a == b ==> !bytes_lt(a, b),
    decreases b.len(),
{
    if a.len() == 0 || b.len() == 0 {
        if a.len() == 0 && b.len() == 0 {
            assert(a =~= b);
        }
    } else if a[0] == b[0] {
        lemma_bytes_trichotomy(a.drop_first(), b.drop_first());
        if a.drop_first() == b.drop_first() {
            assert(a =~= seq![a[0]] + a.drop_first());
            assert(b =~= seq![b[0]] + b.drop_first());
        }
    }
}

pub proof fn lemma_bytes_transitive(a: Seq<u8>, b: Seq<u8>, c: Seq<u8>)
    requires
        bytes_lt(a, b),
        bytes_lt(b, c),
    ensures
        bytes_lt(a, c),
    decreases c.len(),
{
    if a.len() > 0 && b.len() > 0 && c.len() > 0 && a[0] == b[0] && b[0] == c[0] {
        lemma_bytes_transitive(a.drop_first(), b.drop_first(), c.drop_first());
    }
}

/// Of two texts, exactly one of these holds: the first is before, after, or equal to the second.
pub proof fn lemma_text_trichotomy(a: Seq<char>, b: Seq<char>)
    ensures
        !(text_lt(a, b) && text_lt(b, a)),
        text_lt(a, b) || text_lt(b, a) || a == b,
        a == b ==> !text_lt(a, b),
{
    lemma_bytes_trichotomy(encode_utf8(a), encode_utf8(b));
    if encode_utf8(a) == encode_utf8(b) {
        lemma_encode_injective(a, b);
    }
}

/// The order of texts is transitive.
pub proof fn lemma_text_transitive(a: Seq<char>, b: Seq<char>, c: Seq<char>)
    ensures
        text_lt(a, b) && text_lt(b, c) ==> text_lt(a, c),
        text_lt(a, b) && text_le(b, c) ==> text_lt(a, c),
        text_le(a, b) && text_lt(b, c) ==> text_lt(a, c),
        text_le(a, b) && text_le(b, c) ==> text_le(a, c),
{
    lemma_text_trichotomy(a, b);
    lemma_text_trichotomy(b, c);
    lemma_text_trichotomy(a, c);
    if text_lt(a, b) && text_lt(b, c) {
        lemma_bytes_transitive(encode_utf8(a), encode_utf8(b), encode_utf8(c));
    }
    if text_lt(c, a) && text_lt(a, b) {
        lemma_bytes_transitive(encode_utf8(c), encode_utf8(a), encode_utf8(b));
    }
    if text_lt(b, c) && text_lt(c, a) {
        lemma_bytes_transitive(encode_utf8(b), encode_utf8(c), encode_utf8(a));
    }
}

/// The order of texts is total.
pub proof fn lemma_text_order_total()
    ensures
        total_ordering(text_order()),
{
    let r = text_order();
    assert forall|a: Seq<char>| #[trigger] r(a, a) by {
        lemma_text_trichotomy(a, a);
    }
    assert forall|a: Seq<char>, b: Seq<char>| #[trigger] r(a, b) && #[trigger] r(b, a) implies a
        == b by {
        lemma_text_trichotomy(a, b);
    }
    assert forall|a: Seq<char>, b: Seq<char>, c: Seq<char>|
        #[trigger] r(a, b) && #[trigger] r(b, c) implies r(a, c) by {
        lemma_text_transitive(a, b, c);
    }
    assert forall|a: Seq<char>, b: Seq<char>| #[trigger] r(a, b) || r(b, a) by {
        lemma_text_trichotomy(a, b);
    }
}

/// What is sorted and has the same members is what sorting gives.
pub proof fn lemma_sorted_is_sort(sorted: Seq<Seq<char>>, s: Seq<Seq<char>>)
    requires
        sorted_by(sorted, text_order()),
        sorted.to_multiset() == s.to_multiset(),
    ensures
        sorted == s.sort_by(text_order()),
{
    lemma_text_order_total();
    s.lemma_sort_by_ensures(text_order());
    lemma_sorted_unique(sorted, s.sort_by(text_order()), text_order());
}

/// Sorting a sorted list with one more member is sorting the whole.
pub proof fn lemma_sort_push(s: Seq<Seq<char>>, x: Seq<char>)
    ensures
        s.sort_by(text_order()).push(x).sort_by(text_order()) == s.push(x).sort_by(text_order()),
{
    broadcast use group_to_multiset_ensures;

    lemma_text_order_total();
    s.lemma_sort_by_ensures(text_order());
    let a = s.sort_by(text_order()).push(x);
    a.lemma_sort_by_ensures(text_order());
    assert(a.to_multiset() == s.push(x).to_multiset());
    lemma_sorted_is_sort(a.sort_by(text_order()), s.push(x));
}

/// Whether `a` comes before `b`.
pub fn text_less(a: &str, b: &str) -> (r: bool)
    ensures
        r == text_lt(a@, b@),
{
    bytes_less(a.as_bytes(), b.as_bytes())
}

/// Whether `x` comes before `y`, the first byte that differs deciding.
pub fn bytes_less(x: &[u8], y: &[u8]) -> (r: bool)
    ensures
        r == bytes_lt(x@, y@),
{
    let mut i: usize = 0;
    assert(x@.skip(0) =~= x@);
    assert(y@.skip(0) =~= y@);
    while i < x.len() && i < y.len()
        invariant
            i <= x@.len(),
            i <= y@.len(),
            bytes_lt(x@, y@) == bytes_lt(x@.skip(i as int), y@.skip(i as int)),
        decreases x.len() - i,
    {
        let ghost p = x@.skip(i as int);
        let ghost q = y@.skip(i as int);
        assert(p[0] == x@[i as int]);
        assert(q[0] == y@[i as int]);
        if x[i] != y[i] {
            return x[i] < y[i];
        }
        assert(p.drop_first() =~= x@.skip(i + 1));
        assert(q.drop_first() =~= y@.skip(i + 1));
        i += 1;
    }
    i < y.len()
}

/// Puts `s` in its place in a sorted list.
pub fn insert_sorted(v: &mut Vec<String>, s: String)
    requires
        sorted_by(texts(old(v)@), text_order()),
    ensures
        texts(final(v)@) == texts(old(v)@).push(s@).sort_by(text_order()),
        sorted_by(texts(final(v)@), text_order()),
{
    let ghost before = texts(v@);
    let ghost x = s@;
    let mut i: usize = v.len();
    while i > 0 && text_less(s.as_str(), v[i - 1].as_str())
        invariant
            i <= v.len(),
            x == s@,
            before == texts(v@),
            sorted_by(before, text_order()),
            forall|j: int| i <= j < before.len() ==> text_lt(x, #[trigger] before[j]),
        decreases i,
    {
        assert(before[i - 1] == v@[i - 1]@);
        i -= 1;
    }
    v.insert(i, s);
    proof {
        broadcast use group_to_multiset_ensures;

        let after = texts(v@);
        assert(after =~= before.insert(i as int, x));
        assert(after.remove(i as int) =~= before);
        assert(after.to_multiset().remove(x) =~= before.to_multiset());
        assert(after.to_multiset() =~= before.push(x).to_multiset());
        assert forall|a: int, b: int| 0 <= a < b < after.len() implies #[trigger] text_order()(
            after[a],
            after[b],
        ) by {
            if i > 0 {
                assert(before[i - 1] == old(v)@[i - 1]@);
            }
            if a == i {
                assert(text_lt(x, before[b - 1]));
                lemma_text_trichotomy(x, before[b - 1]);
            } else if b == i {
                assert(text_le(before[i - 1], x));
                if a < i - 1 {
                    assert(text_order()(before[a], before[i - 1]));
                    lemma_text_transitive(before[a], before[i - 1], x);
                }
            } else {
                let a0 = if a < i {
                    a
                } else {
                    a - 1
                };
                let b0 = if b < i {
                    b
                } else {
                    b - 1
                };
                assert(text_order()(before[a0], before[b0]));
            }
        }
        lemma_sorted_is_sort(after, before.push(x));
    }
}

/// The first byte that differs decides, and what ends first comes first.
pub proof fn law_first_difference_decides(a: Seq<u8>, b: Seq<u8>, k: int)
    requires
        0 <= k <= a.len(),
        k <= b.len(),
        forall|i: int| 0 <= i < k ==> a[i] == b[i],
    ensures
        k < a.len() && k < b.len() && a[k] < b[k] ==> bytes_lt(a, b),
        k < a.len() && k < b.len() && a[k] > b[k] ==> !bytes_lt(a, b),
        k == a.len() && k < b.len() ==> bytes_lt(a, b),
        k == b.len() ==> !bytes_lt(a, b),
    decreases k,
{
    if k > 0 {
        let x = a.drop_first();
        let y = b.drop_first();
        assert forall|i: int| 0 <= i < k - 1 implies x[i] == y[i] by {
            assert(a[i + 1] == b[i + 1]);
        }
        assert(a[0] == b[0]);
        law_first_difference_decides(x, y, k - 1);
    }
}

/// Texts are ordered as their UTF-8 bytes are, and a text stays before those that come after it.
pub proof fn law_texts_are_ordered_by_their_bytes(a: Seq<char>, b: Seq<char>)
    ensures
        text_lt(a, b) <==> bytes_lt(encode_utf8(a), encode_utf8(b)),
        text_le(a, b) <==> text_lt(a, b) || a == b,
{
    lemma_text_trichotomy(a, b);
}

} // verus!
