//! Strings as sequences of characters and of bytes.
use vstd::prelude::*;
use vstd::string::*;
use vstd::utf8::*;

verus! {

/// An optional text.
pub open spec fn text_view(v: Option<String>) -> Option<Seq<char>> {
    match v {
        Some(s) => Some(s@),
        None => None,
    }
}

/// Unicode's white space.
pub open spec fn whitespace(c: char) -> bool {
    let u = c as u32;
    9 <= u <= 13 || u == 0x20 || u == 0x85 || u == 0xa0 || u == 0x1680 || 0x2000 <= u <= 0x200a || u
        == 0x2028 || u == 0x2029 || u == 0x202f || u == 0x205f || u == 0x3000
}

/// Unicode's control characters.
pub open spec fn control(c: char) -> bool {
    let u = c as u32;
    u <= 0x1f || 0x7f <= u <= 0x9f
}

/// What `char::is_alphanumeric` answers.
pub uninterp spec fn alphanumeric(c: char) -> bool;

/// What `str::to_lowercase` answers, as characters.
pub uninterp spec fn lowercase(s: Seq<char>) -> Seq<char>;

/// What `str::to_uppercase` answers, as characters.
pub uninterp spec fn uppercase(s: Seq<char>) -> Seq<char>;

/// What `String::from_utf8_lossy` answers, as characters.
pub uninterp spec fn utf8_lossy(bytes: Seq<u8>) -> Seq<char>;

/// `char::is_alphanumeric`: whether the character is a letter or a number in Unicode's sense. The
/// answer depends on the character alone.
pub assume_specification[ char::is_alphanumeric ](c: char) -> (r: bool)
    ensures
        r == alphanumeric(c),
;

/// What `char::to_uppercase` answers.
pub uninterp spec fn char_upper(c: char) -> Seq<char>;

/// What `char::to_lowercase` answers.
pub uninterp spec fn char_lower(c: char) -> Seq<char>;

/// `char::to_uppercase`: the character in upper case, which may be several characters. It depends
/// on the character alone.
#[verifier::external_body]
pub(crate) fn char_to_uppercase(c: char) -> (r: String)
    ensures
        r@ == char_upper(c),
{
    c.to_uppercase().to_string()
}

/// `char::to_lowercase`: the character in lower case, which may be several characters. It depends
/// on the character alone.
#[verifier::external_body]
pub(crate) fn char_to_lowercase(c: char) -> (r: String)
    ensures
        r@ == char_lower(c),
{
    c.to_lowercase().to_string()
}

/// `String::push`: appends the character to the end of the string.
pub assume_specification[ String::push ](s: &mut String, c: char)
    ensures
        final(s)@ == old(s)@.push(c),
;

/// `str::to_lowercase`: the text in lower case by Unicode's rules, which look at the text alone.
#[verifier::external_body]
pub(crate) fn to_lowercase(s: &str) -> (r: String)
    ensures
        r@ == lowercase(s@),
{
    s.to_lowercase()
}

/// `str::to_uppercase`: the text in upper case by Unicode's rules, which look at the text alone.
#[verifier::external_body]
pub(crate) fn to_uppercase(s: &str) -> (r: String)
    ensures
        r@ == uppercase(s@),
{
    s.to_uppercase()
}

/// `String::from_utf8_lossy`: the text that the bytes encode. Bytes that are not UTF-8 come out as
/// replacement characters, by rules that look at the bytes alone; valid UTF-8 is decoded as it is.
#[verifier::external_body]
pub(crate) fn from_utf8_lossy(bytes: &[u8]) -> (r: String)
    ensures
        r@ == utf8_lossy(bytes@),
        valid_utf8(bytes@) ==> r@ == decode_utf8(bytes@),
{
    String::from_utf8_lossy(bytes).into_owned()
}

/// Whether the character is white space.
pub fn is_white(c: char) -> (r: bool)
    ensures
        r == whitespace(c),
{
    let u: u32 = c as u32;
    (9 <= u && u <= 13) || u == 0x20 || u == 0x85 || u == 0xa0 || u == 0x1680 || (0x2000 <= u && u
        <= 0x200a) || u == 0x2028 || u == 0x2029 || u == 0x202f || u == 0x205f || u == 0x3000
}

/// Whether the character is a control character.
pub fn is_ctrl(c: char) -> (r: bool)
    ensures
        r == control(c),
{
    let u: u32 = c as u32;
    u <= 0x1f || (0x7f <= u && u <= 0x9f)
}

/// Encoding keeps concatenation.
pub proof fn lemma_encode_concat(a: Seq<char>, b: Seq<char>)
    ensures
        encode_utf8(a + b) == encode_utf8(a) + encode_utf8(b),
    decreases a.len(),
{
    if a.len() == 0 {
        assert(a + b =~= b);
        assert(encode_utf8(a) + encode_utf8(b) =~= encode_utf8(b));
    } else {
        assert((a + b).drop_first() =~= a.drop_first() + b);
        lemma_encode_concat(a.drop_first(), b);
        assert(encode_utf8(a + b) =~= encode_utf8(a) + encode_utf8(b));
    }
}

/// Two texts with the same bytes are the same text.
pub proof fn lemma_encode_injective(a: Seq<char>, b: Seq<char>)
    requires
        encode_utf8(a) == encode_utf8(b),
    ensures
        a == b,
{
    encode_utf8_decode_utf8(a);
    encode_utf8_decode_utf8(b);
}

/// Byte offset of the `k`-th character of `t`.
pub open spec fn offset(t: Seq<char>, k: int) -> int {
    encode_utf8(t.take(k)).len() as int
}

/// Number of characters of `t` before the byte offset `b`.
pub open spec fn chars_before(t: Seq<char>, b: int) -> int {
    decode_utf8(encode_utf8(t).subrange(0, b)).len() as int
}

/// Whether the byte offset `b` of `t` lies between two characters, or at an end.
pub open spec fn on_boundary(t: Seq<char>, b: int) -> bool {
    is_char_boundary(encode_utf8(t), b)
}

/// Number of bytes that UTF-8 takes for `c`.
pub open spec fn char_width(c: char) -> int {
    encode_scalar(c as u32).len() as int
}

proof fn lemma_offset_is_boundary(t: Seq<char>, k: int)
    requires
        0 <= k <= t.len(),
    ensures
        on_boundary(t, offset(t, k)),
        0 <= offset(t, k) <= encode_utf8(t).len(),
    decreases k,
{
    encode_utf8_valid_utf8(t);
    if k == 0 {
        assert(t.take(0) =~= Seq::<char>::empty());
    } else {
        let bytes = encode_utf8(t);
        encode_utf8_first_scalar(t);
        assert(pop_first_scalar(bytes) =~= encode_utf8(t.drop_first()));
        lemma_offset_is_boundary(t.drop_first(), k - 1);
        assert(t.take(k).drop_first() =~= t.drop_first().take(k - 1));
        assert(t.take(k)[0] == t[0]);
    }
}

/// Character positions and byte offsets name the same places.
pub proof fn lemma_offset(t: Seq<char>, k: int)
    requires
        0 <= k <= t.len(),
    ensures
        on_boundary(t, offset(t, k)),
        0 <= offset(t, k) <= encode_utf8(t).len(),
        chars_before(t, offset(t, k)) == k,
        encode_utf8(t).subrange(0, offset(t, k)) == encode_utf8(t.take(k)),
        encode_utf8(t).subrange(offset(t, k), encode_utf8(t).len() as int) == encode_utf8(t.skip(k)),
{
    lemma_offset_is_boundary(t, k);
    assert(t =~= t.take(k) + t.skip(k));
    lemma_encode_concat(t.take(k), t.skip(k));
    let b = encode_utf8(t);
    assert(b.subrange(0, offset(t, k)) =~= encode_utf8(t.take(k)));
    assert(b.subrange(offset(t, k), b.len() as int) =~= encode_utf8(t.skip(k)));
    encode_utf8_decode_utf8(t.take(k));
}

/// Every boundary is the offset of a character position.
pub proof fn lemma_boundary(t: Seq<char>, b: int)
    requires
        on_boundary(t, b),
    ensures
        0 <= chars_before(t, b) <= t.len(),
        offset(t, chars_before(t, b)) == b,
        0 <= b <= encode_utf8(t).len(),
{
    let bytes = encode_utf8(t);
    encode_utf8_valid_utf8(t);
    encode_utf8_decode_utf8(t);
    valid_utf8_split(bytes, b);
    decode_utf8_split(bytes, b);
    let first = decode_utf8(bytes.subrange(0, b));
    let k = chars_before(t, b);
    assert(first =~= t.take(k));
    decode_utf8_encode_utf8(bytes.subrange(0, b));
    assert(0 <= b <= bytes.len());
}

/// The next position is one character further.
pub proof fn lemma_offset_next(t: Seq<char>, k: int)
    requires
        0 <= k < t.len(),
    ensures
        offset(t, k + 1) == offset(t, k) + char_width(t[k]),
        1 <= char_width(t[k]) <= 4,
{
    assert(t.take(k + 1) =~= t.take(k) + seq![t[k]]);
    lemma_encode_concat(t.take(k), seq![t[k]]);
    assert(seq![t[k]].drop_first() =~= Seq::<char>::empty());
    assert(encode_utf8(seq![t[k]]) =~= encode_scalar(t[k] as u32) + encode_utf8(
        seq![t[k]].drop_first(),
    ));
    char_is_scalar(t[k]);
}

/// Offsets grow with the position.
pub proof fn lemma_offset_increasing(t: Seq<char>, j: int, k: int)
    requires
        0 <= j < k <= t.len(),
    ensures
        offset(t, j) < offset(t, k),
    decreases k - j,
{
    lemma_offset_next(t, k - 1);
    if j < k - 1 {
        lemma_offset_increasing(t, j, k - 1);
    }
}

/// The two ends of a text.
pub proof fn lemma_offset_ends(t: Seq<char>)
    ensures
        offset(t, 0) == 0,
        offset(t, t.len() as int) == encode_utf8(t).len(),
        chars_before(t, 0) == 0,
        chars_before(t, encode_utf8(t).len() as int) == t.len(),
        on_boundary(t, 0),
        on_boundary(t, encode_utf8(t).len() as int),
{
    assert(t.take(0) =~= Seq::<char>::empty());
    assert(t.take(t.len() as int) =~= t);
    lemma_offset(t, 0);
    lemma_offset(t, t.len() as int);
}

/// Number of bytes of `s`.
pub fn byte_len(s: &str) -> (r: usize)
    ensures
        r == encode_utf8(s@).len(),
{
    s.as_bytes().len()
}

/// The two parts of `s` around the byte offset `i`.
pub fn split_at(s: &str, i: usize) -> (r: (&str, &str))
    requires
        on_boundary(s@, i as int),
    ensures
        r.0@ == s@.take(chars_before(s@, i as int)),
        r.1@ == s@.skip(chars_before(s@, i as int)),
{
    let (a, b) = s.split_at(i);
    proof {
        let k = chars_before(s@, i as int);
        lemma_boundary(s@, i as int);
        lemma_offset(s@, k);
        lemma_encode_injective(a@, s@.take(k));
        lemma_encode_injective(b@, s@.skip(k));
    }
    (a, b)
}

/// The first character of `s`.
pub fn first_char(s: &str) -> (r: Option<char>)
    ensures
        r == (if s@.len() > 0 { Some(s@[0]) } else { None }),
{
    s.chars().next()
}

/// The characters of `s`, in order.
pub fn chars_of(s: &str) -> (r: Vec<char>)
    ensures
        r@ == s@,
{
    let mut out: Vec<char> = Vec::new();
    for c in it: s.chars()
        invariant
            out@ == s@.take(it.index() as int),
            it.seq() == s@,
    {
        out.push(c);
        assert(s@.take(it.index() + 1) =~= s@.take(it.index() as int).push(c));
    }
    assert(s@.take(s@.len() as int) =~= s@);
    out
}

/// The text of the characters `c[i..j]`.
pub fn text_of(c: &[char], i: usize, j: usize) -> (r: String)
    requires
        i <= j <= c.len(),
    ensures
        r@ == c@.subrange(i as int, j as int),
{
    let mut out = String::new();
    let mut k: usize = i;
    while k < j
        invariant
            i <= k <= j <= c.len(),
            out@ == c@.subrange(i as int, k as int),
        decreases j - k,
    {
        out.push(c[k]);
        assert(c@.subrange(i as int, k + 1) =~= c@.subrange(i as int, k as int).push(c@[k as int]));
        k += 1;
    }
    out
}

/// The only character of `s`, where it has exactly one.
pub fn only_char(s: &str) -> (r: Option<char>)
    ensures
        r == (if s@.len() == 1 { Some(s@[0]) } else { None }),
{
    let c = chars_of(s);
    if c.len() == 1 {
        Some(c[0])
    } else {
        None
    }
}

/// Whether two texts are equal.
pub fn same_text(a: &str, b: &str) -> (r: bool)
    ensures
        r == (a@ == b@),
{
    let x = a.as_bytes();
    let y = b.as_bytes();
    proof {
        if x@ == y@ {
            lemma_encode_injective(a@, b@);
        }
    }
    if x.len() != y.len() {
        return false;
    }
    let n: usize = x.len();
    let mut i: usize = 0;
    while i < n
        invariant
            0 <= i <= n,
            n == x@.len(),
            n == y@.len(),
            x@ == a.spec_bytes(),
            y@ == b.spec_bytes(),
            x@.take(i as int) == y@.take(i as int),
        decreases n - i,
    {
        if x[i] != y[i] {
            assert(x@[i as int] != y@[i as int]);
            return false;
        }
        assert(x@.take(i + 1) =~= x@.take(i as int).push(x@[i as int]));
        assert(y@.take(i + 1) =~= y@.take(i as int).push(y@[i as int]));
        i += 1;
    }
    assert(x@ =~= x@.take(n as int));
    assert(y@ =~= y@.take(n as int));
    true
}

/// Whether `t` starts with `p`.
pub open spec fn starts_with(t: Seq<char>, p: Seq<char>) -> bool {
    p.len() <= t.len() && t.take(p.len() as int) == p
}

/// Whether `t` starts with `p`.
pub fn has_prefix(t: &str, p: &str) -> (r: bool)
    ensures
        r == starts_with(t@, p@),
{
    let a = chars_of(t);
    let b = chars_of(p);
    if b.len() > a.len() {
        return false;
    }
    let mut i: usize = 0;
    while i < b.len()
        invariant
            i <= b@.len() <= a@.len(),
            a@ == t@,
            b@ == p@,
            forall|j: int| 0 <= j < i ==> a@[j] == b@[j],
        decreases b.len() - i,
    {
        if a[i] != b[i] {
            assert(t@.take(p@.len() as int)[i as int] == a@[i as int]);
            return false;
        }
        i += 1;
    }
    assert(t@.take(p@.len() as int) =~= p@);
    true
}

/// How many characters at the start of `t` are one of `what`.
pub open spec fn lead(t: Seq<char>, what: spec_fn(char) -> bool) -> int
    decreases t.len(),
{
    if t.len() > 0 && what(t[0]) {
        1 + lead(t.drop_first(), what)
    } else {
        0
    }
}

/// How many characters are left when those of `what` at the end of `t` are taken off.
pub open spec fn kept(t: Seq<char>, what: spec_fn(char) -> bool) -> int
    decreases t.len(),
{
    if t.len() > 0 && what(t.last()) {
        kept(t.drop_last(), what)
    } else {
        t.len() as int
    }
}

/// `t` without the characters of `what` at its two ends.
pub open spec fn trim_by(t: Seq<char>, what: spec_fn(char) -> bool) -> Seq<char> {
    let u = t.skip(lead(t, what));
    u.take(kept(u, what))
}

/// Being white space.
pub open spec fn blank() -> spec_fn(char) -> bool {
    |c: char| whitespace(c)
}

/// `t` without white space at its two ends.
pub open spec fn trim_of(t: Seq<char>) -> Seq<char> {
    trim_by(t, blank())
}

/// `s` without white space at its two ends.
pub fn trim(s: &str) -> (r: String)
    ensures
        r@ == trim_of(s@),
{
    let c = chars_of(s);
    let ghost t = s@;
    let n: usize = c.len();
    let mut i: usize = 0;
    assert(t.skip(0) =~= t);
    while i < n && is_white(c[i])
        invariant
            i <= n,
            n == t.len(),
            c@ == t,
            lead(t, blank()) == i + lead(t.skip(i as int), blank()),
        decreases n - i,
    {
        assert(t.skip(i as int)[0] == t[i as int]);
        assert(t.skip(i as int).drop_first() =~= t.skip(i + 1));
        i += 1;
    }
    let ghost u = t.skip(i as int);
    assert(i < n ==> u[0] == t[i as int]);
    assert(lead(t, blank()) == i);
    let mut j: usize = n;
    assert(u.take(n - i) =~= u);
    while j > i && is_white(c[j - 1])
        invariant
            i <= j <= n,
            n == t.len(),
            c@ == t,
            u == t.skip(i as int),
            kept(u, blank()) == kept(u.take(j - i), blank()),
        decreases j,
    {
        assert(u.take(j - i).last() == t[j - 1]);
        assert(u.take(j - i).drop_last() =~= u.take(j - 1 - i));
        j -= 1;
    }
    assert(j > i ==> u.take(j - i).last() == t[j - 1]);
    assert(kept(u, blank()) == j - i);
    assert(t.subrange(i as int, j as int) =~= u.take(j - i));
    text_of(c.as_slice(), i, j)
}

/// `t` with every `a` turned into `b`.
pub open spec fn replaced(t: Seq<char>, a: char, b: char) -> Seq<char> {
    t.map_values(
        |c: char|
            if c == a {
                b
            } else {
                c
            },
    )
}

/// The text of `c` with every `a` turned into `b`.
pub fn replace(c: &[char], a: char, b: char) -> (r: String)
    ensures
        r@ == replaced(c@, a, b),
{
    let mut out = String::new();
    let mut i: usize = 0;
    while i < c.len()
        invariant
            i <= c.len(),
            out@ == replaced(c@.take(i as int), a, b),
        decreases c.len() - i,
    {
        let d: char = if c[i] == a {
            b
        } else {
            c[i]
        };
        out.push(d);
        assert(out@ =~= replaced(c@.take(i + 1), a, b));
        i += 1;
    }
    assert(c@.take(i as int) =~= c@);
    out
}

/// The digit `d`.
pub open spec fn digit_of(d: nat) -> char {
    ((48 + d) as u8) as char
}

/// `n` in decimal notation.
pub open spec fn decimal_of(n: nat) -> Seq<char>
    decreases n,
{
    if n < 10 {
        seq![digit_of(n)]
    } else {
        decimal_of(n / 10).push(digit_of(n % 10))
    }
}

/// `n` in decimal notation.
pub fn decimal(n: u64) -> (r: String)
    ensures
        r@ == decimal_of(n as nat),
    decreases n,
{
    let d: u8 = (n % 10) as u8;
    let mut out = if n < 10 {
        String::new()
    } else {
        decimal(n / 10)
    };
    out.push((48 + d) as char);
    assert(n < 10 ==> out@ =~= seq![digit_of(n as nat)]);
    out
}

/// A copy of an optional text.
pub fn copied(s: &Option<String>) -> (r: Option<String>)
    ensures
        text_view(r) == text_view(*s),
{
    match s {
        Some(t) => Some(t.clone()),
        None => None,
    }
}

/// The number that digits stand for.
pub open spec fn number_of(s: Seq<char>) -> nat
    decreases s.len(),
{
    if s.len() == 0 {
        0
    } else {
        10 * number_of(s.drop_last()) + (s.last() as u32 - '0' as u32) as nat
    }
}

/// Decimal notation can be read back: it is made of digits, starts with no zero but for zero itself,
/// and stands for the number. So different numbers look different.
pub proof fn law_decimal_reads_back(n: nat)
    ensures
        number_of(decimal_of(n)) == n,
        decimal_of(n).len() >= 1,
        forall|i: int|
            0 <= i < decimal_of(n).len() ==> '0' <= #[trigger] decimal_of(n)[i] && decimal_of(n)[i]
                <= '9',
        n > 0 ==> decimal_of(n)[0] != '0',
        n == 0 ==> decimal_of(n) == seq!['0'],
    decreases n,
{
    let s = decimal_of(n);
    if n < 10 {
        assert(s.drop_last() =~= Seq::<char>::empty());
        assert(number_of(s.drop_last()) == 0);
    } else {
        law_decimal_reads_back(n / 10);
        assert(s.drop_last() =~= decimal_of(n / 10));
        assert(s[0] == decimal_of(n / 10)[0]);
    }
}

/// Trimming takes off blanks and nothing else: what is left is a stretch of the text, only blanks
/// stood before and behind it, and it neither starts nor ends with one.
pub proof fn law_trim_takes_off_the_blanks(t: Seq<char>)
    ensures
        exists|a: int, b: int|
            {
                &&& 0 <= a <= b <= t.len()
                &&& trim_of(t) == #[trigger] t.subrange(a, b)
                &&& forall|i: int| 0 <= i < a || b <= i < t.len() ==> whitespace(#[trigger] t[i])
            },
        trim_of(t).len() > 0 ==> !whitespace(trim_of(t)[0]) && !whitespace(trim_of(t).last()),
{
    let w = blank();
    lemma_lead(t, w);
    let a = lead(t, w);
    let u = t.skip(a);
    lemma_kept(u, w);
    let k = kept(u, w);
    let b = a + k;
    assert(trim_of(t) =~= t.subrange(a, b));
    assert forall|i: int| 0 <= i < a || b <= i < t.len() implies whitespace(#[trigger] t[i]) by {
        if i < a {
            assert(w(t[i]));
        } else {
            assert(w(u[i - a]));
        }
    }
    if k > 0 {
        assert(!w(t[a])) by {
            assert(a < t.len());
        }
        assert(!w(u[k - 1]));
        assert(trim_of(t)[0] == t[a]);
        assert(trim_of(t).last() == u[k - 1]);
    }
}

proof fn lemma_lead(t: Seq<char>, what: spec_fn(char) -> bool)
    ensures
        0 <= lead(t, what) <= t.len(),
        forall|i: int| 0 <= i < lead(t, what) ==> what(#[trigger] t[i]),
        lead(t, what) < t.len() ==> !what(t[lead(t, what)]),
    decreases t.len(),
{
    if t.len() > 0 && what(t[0]) {
        let rest = t.drop_first();
        lemma_lead(rest, what);
        assert forall|i: int| 0 <= i < lead(t, what) implies what(#[trigger] t[i]) by {
            if i > 0 {
                assert(rest[i - 1] == t[i]);
            }
        }
    }
}

proof fn lemma_kept(t: Seq<char>, what: spec_fn(char) -> bool)
    ensures
        0 <= kept(t, what) <= t.len(),
        forall|i: int| kept(t, what) <= i < t.len() ==> what(#[trigger] t[i]),
        kept(t, what) > 0 ==> !what(t[kept(t, what) - 1]),
    decreases t.len(),
{
    if t.len() > 0 && what(t.last()) {
        let rest = t.drop_last();
        lemma_kept(rest, what);
        assert forall|i: int| kept(t, what) <= i < t.len() implies what(#[trigger] t[i]) by {
            if i < rest.len() {
                assert(rest[i] == t[i]);
            }
        }
    }
}

/// Replacing a character changes it wherever it stands, and nothing else.
pub proof fn law_replace_changes_one_character(t: Seq<char>, a: char, b: char, i: int)
    requires
        0 <= i < t.len(),
    ensures
        replaced(t, a, b).len() == t.len(),
        t[i] == a ==> replaced(t, a, b)[i] == b,
        t[i] != a ==> replaced(t, a, b)[i] == t[i],
{
}

/// What counts as blank: Unicode's white space.
pub proof fn law_white_space(c: char)
    ensures
        c == ' ' || c == '\t' || c == '\n' || c == '\r' || c == '\u{b}' || c == '\u{c}' || c
            == '\u{85}' || c == '\u{a0}' || c == '\u{1680}' || c == '\u{2028}' || c == '\u{2029}' || c
            == '\u{202f}' || c == '\u{205f}' || c == '\u{3000}' || ('\u{2000}' <= c && c <= '\u{200a}')
            <==> whitespace(c),
        c < ' ' || ('\u{7f}' <= c && c <= '\u{9f}') <==> control(c),
{
}

/// A text starts with what can be completed to it.
pub proof fn law_prefixes(p: Seq<char>, rest: Seq<char>, t: Seq<char>)
    ensures
        starts_with(p + rest, p),
        starts_with(t, p) ==> t == p + t.skip(p.len() as int),
{
    assert((p + rest).take(p.len() as int) =~= p);
    if starts_with(t, p) {
        assert(t =~= t.take(p.len() as int) + t.skip(p.len() as int));
    }
}

} // verus!
