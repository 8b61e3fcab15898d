//! Byte-level view of UTF-8 text, shared by the scanners of the crate.
//!
//! A `&str` is modelled by its UTF-8 bytes (`s.spec_bytes()`), a `String`
//! by `encode_utf8(s@)`; the two agree on every string.

use vstd::prelude::*;
use vstd::utf8::*;
use vstd::string::*;
use vstd::std_specs::iter::IteratorSpec;

verus! {

broadcast use vstd::utf8::group_utf8_lib;

/// The UTF-8 bytes of a character sequence.
pub open spec fn utf8(s: Seq<char>) -> Seq<u8> {
    encode_utf8(s)
}

/// `i` lies on a character boundary of `b`: it is an end point or its byte
/// does not continue a multi-byte character.
pub open spec fn at_boundary(b: Seq<u8>, i: int) -> bool {
    0 <= i <= b.len() && (i == b.len() || !is_continuation_byte(b[i]))
}

/// An ASCII byte.
pub open spec fn is_ascii_byte(c: u8) -> bool {
    c < 0x80
}

/// Encoding distributes over concatenation.
pub proof fn lemma_utf8_concat(a: Seq<char>, b: Seq<char>)
    ensures
        utf8(a + b) == utf8(a) + utf8(b),
    decreases a.len(),
{
    if a.len() == 0 {
        assert(a + b =~= b);
        assert(utf8(a) =~= Seq::<u8>::empty());
        assert(utf8(a) + utf8(b) =~= utf8(b));
    } else {
        lemma_utf8_concat(a.drop_first(), b);
        assert((a + b).drop_first() =~= a.drop_first() + b);
        assert((a + b)[0] == a[0]);
        assert(utf8(a + b) == encode_scalar((a + b)[0] as u32) + utf8((a + b).drop_first()));
        assert(utf8(a) == encode_scalar(a[0] as u32) + utf8(a.drop_first()));
        assert(utf8(a + b) =~= utf8(a) + utf8(b));
    }
}

/// Two character sequences with equal encodings are equal.
pub proof fn lemma_utf8_injective(a: Seq<char>, b: Seq<char>)
    requires
        utf8(a) == utf8(b),
    ensures
        a == b,
{
    assert(decode_utf8(encode_utf8(a)) == a);
    assert(decode_utf8(encode_utf8(b)) == b);
}

/// The bytes of a `str` are valid UTF-8, and every position whose byte
/// starts a character is a boundary.
pub proof fn lemma_boundary(b: Seq<u8>, i: int)
    requires
        valid_utf8(b),
        at_boundary(b, i),
    ensures
        is_char_boundary(b, i),
{
    is_char_boundary_start_end_of_seq(b);
    if i < b.len() {
        is_char_boundary_iff_not_is_continuation_byte(b, i);
    }
}

/// The bytes of a string slice are valid UTF-8.
pub proof fn lemma_str_valid(s: &str)
    ensures
        valid_utf8(s.spec_bytes()),
{
}

/// A non-empty valid sequence starts with a leading byte.
pub proof fn lemma_first_not_continuation(b: Seq<u8>)
    requires
        valid_utf8(b),
        b.len() > 0,
    ensures
        !is_continuation_byte(b[0]),
{
    reveal_with_fuel(valid_utf8, 1);
}

/// Both ends of a valid sequence are boundaries.
pub proof fn lemma_ends_at_boundary(b: Seq<u8>)
    requires
        valid_utf8(b),
    ensures
        at_boundary(b, 0),
        at_boundary(b, b.len() as int),
{
    if b.len() > 0 {
        lemma_first_not_continuation(b);
    }
}

/// The byte after an ASCII byte starts a character (or is the end).
pub proof fn lemma_after_ascii(b: Seq<u8>, i: int)
    requires
        valid_utf8(b),
        0 <= i < b.len(),
        is_ascii_byte(b[i]),
    ensures
        at_boundary(b, i + 1),
{
    is_char_boundary_iff_not_is_continuation_byte(b, i);
    valid_utf8_split(b, i);
    let c = b.subrange(i, b.len() as int);
    assert(c[0] == b[i]);
    reveal_with_fuel(valid_utf8, 1);
    assert(valid_first_scalar(c));
    assert(length_of_first_scalar(c) == 1);
    let d = pop_first_scalar(c);
    assert(valid_utf8(d));
    if i + 1 < b.len() {
        assert(d.len() > 0);
        lemma_first_not_continuation(d);
        assert(d[0] == b[i + 1]);
    }
}

/// Compares two byte slices element by element.
pub fn bytes_eq(a: &[u8], b: &[u8]) -> (r: bool)
    ensures
        r == (a@ == b@),
{
    if a.len() != b.len() {
        return false;
    }
    let mut i: usize = 0;
    while i < a.len()
        invariant
            a@.len() == b@.len(),
            i <= a@.len(),
            forall|j: int| 0 <= j < i ==> a@[j] == b@[j],
        decreases a@.len() - i,
    {
        if a[i] != b[i] {
            return false;
        }
        i = i + 1;
    }
    assert(a@ =~= b@);
    true
}

/// String equality, decided on the UTF-8 bytes of both strings.
pub fn str_eq(a: &str, b: &str) -> (r: bool)
    ensures
        r == (a@ == b@),
{
    let r = bytes_eq(a.as_bytes(), b.as_bytes());
    proof {
        if a.spec_bytes() == b.spec_bytes() {
            lemma_utf8_injective(a@, b@);
        }
    }
    r
}

/// The part of `s` between two byte positions that lie on character boundaries.
pub fn sub_str<'a>(s: &'a str, start: usize, end: usize) -> (r: &'a str)
    requires
        start <= end,
        at_boundary(s.spec_bytes(), start as int),
        at_boundary(s.spec_bytes(), end as int),
    ensures
        r.spec_bytes() == s.spec_bytes().subrange(start as int, end as int),
{
    let ghost b = s.spec_bytes();
    proof {
        lemma_boundary(b, start as int);
    }
    let (_, tail) = s.split_at(start);
    let ghost t = tail.spec_bytes();
    proof {
        assert(t =~= b.subrange(start as int, b.len() as int));
        if end < b.len() {
            assert(t[end - start] == b[end as int]);
        }
        lemma_boundary(t, (end - start) as int);
    }
    let (mid, _) = tail.split_at(end - start);
    proof {
        assert(mid.spec_bytes() =~= b.subrange(start as int, end as int));
    }
    mid
}

/// The characters of a string slice, in order.
pub fn chars_of(s: &str) -> (v: Vec<char>)
    ensures
        v@ == s@,
{
    let mut v: Vec<char> = Vec::new();
    for c in it: s.chars()
        invariant
            v@ == it.seq().take(it.index() as int),
            it.seq() == s@,
    {
        v.push(c);
    }
    v
}

/// `char::is_whitespace`: the Unicode `White_Space` property.
pub open spec fn is_ws(c: char) -> bool {
    ||| c == ' '
    ||| ('\t' <= c && c <= '\r')
    ||| c == '\u{85}'
    ||| c == '\u{a0}'
    ||| c == '\u{1680}'
    ||| ('\u{2000}' <= c && c <= '\u{200a}')
    ||| c == '\u{2028}'
    ||| c == '\u{2029}'
    ||| c == '\u{202f}'
    ||| c == '\u{205f}'
    ||| c == '\u{3000}'
}

/// Decides [`is_ws`].
pub fn char_is_ws(c: char) -> (r: bool)
    ensures
        r == is_ws(c),
{
    c == ' ' || ('\t' <= c && c <= '\r') || c == '\u{85}' || c == '\u{a0}' || c == '\u{1680}'
        || ('\u{2000}' <= c && c <= '\u{200a}') || c == '\u{2028}' || c == '\u{2029}'
        || c == '\u{202f}' || c == '\u{205f}' || c == '\u{3000}'
}

/// `str::trim`: the text without leading and trailing whitespace.
pub open spec fn trim_chars(x: Seq<char>) -> Seq<char>
    decreases x.len(),
{
    if x.len() > 0 && is_ws(x[0]) {
        trim_chars(x.drop_first())
    } else if x.len() > 0 && is_ws(x[x.len() - 1]) {
        trim_chars(x.drop_last())
    } else {
        x
    }
}

/// Trimming never lengthens a text; a text equal to its trimmed form has no
/// whitespace at either end.
pub proof fn lemma_trim_len(x: Seq<char>)
    ensures
        trim_chars(x).len() <= x.len(),
        trim_chars(x) == x && x.len() > 0 ==> !is_ws(x[0]) && !is_ws(x[x.len() - 1]),
    decreases x.len(),
{
    if x.len() > 0 && is_ws(x[0]) {
        lemma_trim_len(x.drop_first());
    } else if x.len() > 0 && is_ws(x[x.len() - 1]) {
        lemma_trim_len(x.drop_last());
    }
}

/// Removes leading and trailing whitespace.
pub fn trim(s: &str) -> (r: &str)
    ensures
        r@ == trim_chars(s@),
{
    let v = chars_of(s);
    let n = v.len();
    let mut i: usize = 0;
    proof {
        assert(s@.subrange(0, n as int) =~= s@);
    }
    while i < n && char_is_ws(v[i])
        invariant
            v@ == s@,
            n == v@.len(),
            i <= n,
            trim_chars(s@) == trim_chars(s@.subrange(i as int, n as int)),
        decreases n - i,
    {
        proof {
            let x = s@.subrange(i as int, n as int);
            assert(x.drop_first() =~= s@.subrange(i + 1, n as int));
        }
        i = i + 1;
    }
    let mut j: usize = n;
    while j > i && char_is_ws(v[j - 1])
        invariant
            v@ == s@,
            n == v@.len(),
            i <= j <= n,
            i < n ==> !is_ws(s@[i as int]),
            trim_chars(s@) == trim_chars(s@.subrange(i as int, j as int)),
        decreases j - i,
    {
        proof {
            let x = s@.subrange(i as int, j as int);
            assert(x.drop_last() =~= s@.subrange(i as int, j - 1));
            if j - 1 > i {
                assert(x[0] == s@[i as int]);
            }
        }
        j = j - 1;
    }
    proof {
        let x = s@.subrange(i as int, j as int);
        if j > i {
            assert(x[0] == s@[i as int]);
            assert(x[x.len() - 1] == s@[j - 1]);
        }
    }
    s.substring_char(i, j)
}

/// The pieces of `s` between occurrences of `sep` (always at least one).
pub open spec fn split_chars(s: Seq<char>, sep: char) -> Seq<Seq<char>>
    decreases s.len(),
{
    if s.len() == 0 {
        seq![seq![]]
    } else {
        let init = split_chars(s.drop_last(), sep);
        let c = s[s.len() - 1];
        if c == sep {
            init.push(seq![])
        } else {
            init.update(init.len() - 1, init[init.len() - 1].push(c))
        }
    }
}

pub proof fn lemma_split_nonempty(s: Seq<char>, sep: char)
    ensures
        split_chars(s, sep).len() >= 1,
    decreases s.len(),
{
    if s.len() > 0 {
        lemma_split_nonempty(s.drop_last(), sep);
    }
}

/// `s` starts with `p`.
pub open spec fn is_prefix(p: Seq<char>, s: Seq<char>) -> bool {
    p.len() <= s.len() && s.take(p.len() as int) == p
}

/// Decides [`is_prefix`] on the characters of two slices.
pub fn has_prefix(s: &[char], p: &[char]) -> (r: bool)
    ensures
        r == is_prefix(p@, s@),
{
    if p.len() > s.len() {
        return false;
    }
    let mut i: usize = 0;
    while i < p.len()
        invariant
            p@.len() <= s@.len(),
            i <= p@.len(),
            forall|j: int| 0 <= j < i ==> s@[j] == p@[j],
        decreases p@.len() - i,
    {
        if s[i] != p[i] {
            proof {
                assert(s@.take(p@.len() as int)[i as int] != p@[i as int]);
            }
            return false;
        }
        i = i + 1;
    }
    proof {
        assert(s@.take(p@.len() as int) =~= p@);
    }
    true
}

/// An owned copy of a string slice.
pub fn owned(s: &str) -> (r: String)
    ensures
        r@ == s@,
        utf8(r@) == s.spec_bytes(),
{
    s.to_owned()
}

/// Appends `tail` to `acc`.
pub fn push_str(acc: &mut String, tail: &str)
    ensures
        final(acc)@ == old(acc)@ + tail@,
        utf8(final(acc)@) == utf8(old(acc)@) + tail.spec_bytes(),
{
    proof {
        lemma_utf8_concat(acc@, tail@);
    }
    acc.append(tail);
}


/// `s` without its prefix `p`, when it starts with `p`.
pub fn strip_prefix<'a>(s: &'a str, p: &str) -> (r: Option<&'a str>)
    ensures
        is_prefix(p@, s@) ==> (r matches Some(t) && t@ == s@.skip(p@.len() as int)),
        !is_prefix(p@, s@) ==> r is None,
{
    let cs = chars_of(s);
    let ps = chars_of(p);
    if !has_prefix(cs.as_slice(), ps.as_slice()) {
        return None;
    }
    let ghost rest = s@.skip(p@.len() as int);
    proof {
        assert(s@ =~= p@ + rest);
        lemma_utf8_concat(p@, rest);
        lemma_str_valid(s);
        if utf8(rest).len() > 0 {
            vstd::utf8::encode_utf8_valid_utf8(rest);
            lemma_first_not_continuation(utf8(rest));
            assert(s.spec_bytes()[utf8(p@).len() as int] == utf8(rest)[0]);
        }
        lemma_ends_at_boundary(s.spec_bytes());
    }
    let n = p.as_bytes().len();
    let t = sub_str(s, n, s.as_bytes().len());
    proof {
        assert(t.spec_bytes() =~= utf8(rest));
        lemma_utf8_injective(t@, rest);
    }
    Some(t)
}

/// `dir` joined with the relative path `name`, as `PathBuf::push` joins:
/// a `/` goes between them unless `dir` is empty or already ends with one.
pub open spec fn joined(dir: Seq<char>, name: Seq<char>) -> Seq<char> {
    if dir.len() == 0 {
        name
    } else if dir.last() == '/' {
        dir + name
    } else {
        dir + "/"@ + name
    }
}

/// Joins the relative path `name` onto `dir`.
pub fn join_path(dir: &str, name: &str) -> (r: String)
    requires
        name@.len() == 0 || name@[0] != '/',
    ensures
        r@ == joined(dir@, name@),
{
    let cs = chars_of(dir);
    let mut out = owned(dir);
    if cs.len() > 0 && cs[cs.len() - 1] != '/' {
        push_str(&mut out, "/");
    }
    push_str(&mut out, name);
    out
}

/// A character takes at least one byte.
pub proof fn lemma_chars_le_bytes(cs: Seq<char>)
    ensures
        cs.len() <= utf8(cs).len(),
    decreases cs.len(),
{
    if cs.len() > 0 {
        lemma_chars_le_bytes(cs.drop_first());
        assert(vstd::utf8::encode_scalar(cs[0] as u32).len() >= 1);
    }
}



} // verus!
