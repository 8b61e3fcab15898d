//! Parsers for the scalar values of the configuration format: colors,
//! anchors, layers, alignments, outputs and poll intervals.

use vstd::prelude::*;
use vstd::string::{StringSliceAdditionalSpecFns, StrSliceExecFns};
use core::time::Duration;
use crate::config::types::{
    no_anchor, transparent_color, AlignX, AlignY, Anchor, ColAlign, Color, Layer, Output, RowAlign,
};
use crate::text::{chars_of, is_ws, owned, str_eq, trim, trim_chars, split_chars, lemma_split_nonempty};
use crate::number::{all_digits, digits_value, is_digit, parse_u64, spec_parse_u64, unsigned_part};

verus! {

// ---------------------------------------------------------------- colors

/// The value of an ASCII hex digit, or -1.
pub open spec fn hex_value(c: u8) -> int {
    if 0x30 <= c <= 0x39 {
        c - 0x30
    } else if 0x61 <= c <= 0x66 {
        c - 0x61 + 10
    } else if 0x41 <= c <= 0x46 {
        c - 0x41 + 10
    } else {
        -1
    }
}

/// The input without one leading `#`.
pub open spec fn hex_body(b: Seq<u8>) -> Seq<u8> {
    if b.len() > 0 && b[0] == 0x23u8 { b.drop_first() } else { b }
}

/// The byte written by the two hex digits at `k` and `k + 1`.
pub open spec fn hex_pair(h: Seq<u8>, k: int) -> u8 {
    (hex_value(h[k]) * 16 + hex_value(h[k + 1])) as u8
}

/// `RRGGBB` or `RRGGBBAA`, optionally after a `#`; alpha defaults to `ff`.
pub open spec fn spec_hex_color(b: Seq<u8>) -> Option<Color> {
    let h = hex_body(b);
    if !(forall|i: int| 0 <= i < h.len() ==> hex_value(#[trigger] h[i]) >= 0) {
        None
    } else if h.len() == 6 {
        Some(Color { r: hex_pair(h, 0), g: hex_pair(h, 2), b: hex_pair(h, 4), a: 0xff })
    } else if h.len() == 8 {
        Some(Color { r: hex_pair(h, 0), g: hex_pair(h, 2), b: hex_pair(h, 4), a: hex_pair(h, 6) })
    } else {
        None
    }
}

/// Exactly the hex bodies of six or eight hex digits (after an optional
/// `#`) are colors; the digits are read two by two as red, green, blue and
/// alpha (`ff` when left out).
pub proof fn law_color_accepts(b: Seq<u8>)
    ensures
        (spec_hex_color(b) is Some) == ((hex_body(b).len() == 6 || hex_body(b).len() == 8)
            && forall|i: int| 0 <= i < hex_body(b).len() ==> hex_value(#[trigger] hex_body(b)[i]) >= 0),
{
}

/// The hex digit for `d` (0 to 15), lower or upper case.
pub open spec fn hex_digit_of(d: int, upper: bool) -> u8 {
    if d < 10 { (0x30 + d) as u8 } else if upper { (0x41 + d - 10) as u8 } else { (0x61 + d - 10) as u8 }
}

/// The byte `x` as two hex digits, as `{:02x}` (or `{:02X}`) writes it.
pub open spec fn hex_of(x: u8, upper: bool) -> Seq<u8> {
    seq![hex_digit_of((x / 16) as int, upper), hex_digit_of((x % 16) as int, upper)]
}

proof fn lemma_hex_digit_value(d: int, upper: bool)
    requires
        0 <= d < 16,
    ensures
        hex_value(hex_digit_of(d, upper)) == d,
{
}

/// Writing a color's bytes as hex digits and reading them back gives the
/// color: eight digits give all four bytes, six digits after `#` give the
/// color with alpha `ff`, in lower or upper case.
pub proof fn law_color_hex_round_trip(r: u8, g: u8, bl: u8, a: u8, upper: bool)
    ensures
        spec_hex_color(hex_of(r, upper) + hex_of(g, upper) + hex_of(bl, upper) + hex_of(a, upper))
            == Some(Color { r, g, b: bl, a }),
        spec_hex_color(seq![0x23u8] + hex_of(r, upper) + hex_of(g, upper) + hex_of(bl, upper))
            == Some(Color { r, g, b: bl, a: 0xffu8 }),
{
    let h8 = hex_of(r, upper) + hex_of(g, upper) + hex_of(bl, upper) + hex_of(a, upper);
    let h6 = hex_of(r, upper) + hex_of(g, upper) + hex_of(bl, upper);
    let p6 = seq![0x23u8] + h6;
    assert forall|x: u8| #[trigger] hex_of(x, upper).len() == 2
        && hex_value(hex_of(x, upper)[0]) * 16 + hex_value(hex_of(x, upper)[1]) == x as int by {
        lemma_hex_digit_value((x / 16) as int, upper);
        lemma_hex_digit_value((x % 16) as int, upper);
    }
    assert(hex_body(h8) == h8) by {
        lemma_hex_digit_value((r / 16) as int, upper);
    }
    assert(hex_body(p6) =~= h6);
    assert forall|i: int| 0 <= i < h8.len() implies hex_value(#[trigger] h8[i]) >= 0 by {
        let x = if i < 2 { r } else if i < 4 { g } else if i < 6 { bl } else { a };
        lemma_hex_digit_value((x / 16) as int, upper);
        lemma_hex_digit_value((x % 16) as int, upper);
        assert(h8[i] == hex_of(x, upper)[i % 2]);
    }
    assert forall|i: int| 0 <= i < h6.len() implies hex_value(#[trigger] h6[i]) >= 0 by {
        assert(h6[i] == h8[i]);
    }
    assert(hex_pair(h8, 0) == r);
    assert(hex_pair(h8, 2) == g);
    assert(hex_pair(h8, 4) == bl);
    assert(hex_pair(h8, 6) == a);
    assert(hex_pair(h6, 0) == r);
    assert(hex_pair(h6, 2) == g);
    assert(hex_pair(h6, 4) == bl);
}

fn hex_digit(c: u8) -> (r: Option<u8>)
    ensures
        hex_value(c) >= 0 ==> r == Some(hex_value(c) as u8),
        hex_value(c) < 0 ==> r is None,
{
    if 0x30 <= c && c <= 0x39 {
        Some(c - 0x30)
    } else if 0x61 <= c && c <= 0x66 {
        Some(c - 0x61 + 10)
    } else if 0x41 <= c && c <= 0x46 {
        Some(c - 0x41 + 10)
    } else {
        None
    }
}

fn pair_at(h: &[u8], start: usize, k: usize) -> (r: u8)
    requires
        start + k + 1 < h@.len(),
        hex_value(h@[start + k]) >= 0,
        hex_value(h@[start + k + 1]) >= 0,
    ensures
        r == hex_pair(h@.skip(start as int), k as int),
{
    let len = h.len();
    let hi = hex_digit(h[start + k]).unwrap();
    let lo = hex_digit(h[start + k + 1]).unwrap();
    proof {
        let t = h@.skip(start as int);
        assert(t[k as int] == h@[start + k]);
        assert(t[k + 1] == h@[start + k + 1]);
    }
    hi * 16 + lo
}

/// Parses `transparent`, `RRGGBB`, `RRGGBBAA`, the last two with an optional `#`.
pub fn parse_color(input: &str) -> (r: Option<Color>)
    ensures
        input@ == "transparent"@ ==> r == Some(transparent_color()),
        input@ != "transparent"@ ==> r == spec_hex_color(input.spec_bytes()),
{
    if str_eq(input, "transparent") {
        return Some(Color::transparent());
    }
    let b = input.as_bytes();
    let start: usize = if b.len() > 0 && b[0] == 0x23u8 { 1 } else { 0 };
    let ghost h = hex_body(b@);
    proof {
        assert(h =~= b@.skip(start as int));
    }
    let mut i = start;
    while i < b.len()
        invariant
            start <= i <= b@.len(),
            b@ == input.spec_bytes(),
            input@ != "transparent"@,
            h == hex_body(input.spec_bytes()),
            h == b@.skip(start as int),
            forall|j: int| start <= j < i ==> hex_value(#[trigger] b@[j]) >= 0,
        decreases b@.len() - i,
    {
        if hex_digit(b[i]).is_none() {
            proof {
                assert(h[i - start] == b@[i as int]);
            }
            return None;
        }
        i = i + 1;
    }
    proof {
        assert forall|j: int| 0 <= j < h.len() implies hex_value(#[trigger] h[j]) >= 0 by {
            assert(h[j] == b@[start + j]);
        }
    }
    let n = b.len() - start;
    if n == 6 {
        Some(Color { r: pair_at(b, start, 0), g: pair_at(b, start, 2), b: pair_at(b, start, 4), a: 0xff })
    } else if n == 8 {
        Some(Color {
            r: pair_at(b, start, 0),
            g: pair_at(b, start, 2),
            b: pair_at(b, start, 4),
            a: pair_at(b, start, 6),
        })
    } else {
        None
    }
}

// --------------------------------------------------------------- anchors

#[derive(Debug)]
pub enum AnchorError {
    Unknown(String),
}

/// Sets the edge that a word names, if it names one.
pub open spec fn anchor_with(a: Anchor, word: Seq<char>) -> Option<Anchor> {
    if word == "t"@ || word == "top"@ {
        Some(Anchor { top: true, ..a })
    } else if word == "b"@ || word == "bottom"@ {
        Some(Anchor { bottom: true, ..a })
    } else if word == "l"@ || word == "left"@ {
        Some(Anchor { left: true, ..a })
    } else if word == "r"@ || word == "right"@ {
        Some(Anchor { right: true, ..a })
    } else {
        None
    }
}

/// Folds the `|`-separated pieces from the left: blank pieces are skipped,
/// every other piece (trimmed) must name an edge; the first one that does
/// not is the error.
pub open spec fn anchor_of_pieces(ps: Seq<Seq<char>>) -> Result<Anchor, Seq<char>>
    decreases ps.len(),
{
    if ps.len() == 0 {
        Ok(no_anchor())
    } else {
        match anchor_of_pieces(ps.drop_last()) {
            Err(e) => Err(e),
            Ok(a) => {
                let w = trim_chars(ps[ps.len() - 1]);
                if w.len() == 0 {
                    Ok(a)
                } else {
                    match anchor_with(a, w) {
                        Some(a2) => Ok(a2),
                        None => Err(w),
                    }
                }
            },
        }
    }
}

pub open spec fn spec_parse_anchor(s: Seq<char>) -> Result<Anchor, Seq<char>> {
    anchor_of_pieces(split_chars(s, '|'))
}

/// A word that names an edge: `t`/`top`, `b`/`bottom`, `l`/`left`,
/// `r`/`right`.
pub open spec fn edge_word(w: Seq<char>) -> bool {
    w == "t"@ || w == "top"@ || w == "b"@ || w == "bottom"@ || w == "l"@ || w == "left"@ || w == "r"@ || w == "right"@
}

/// Some piece, trimmed, is `w1` or `w2`.
pub open spec fn some_piece(ps: Seq<Seq<char>>, w1: Seq<char>, w2: Seq<char>) -> bool {
    exists|k: int| 0 <= k < ps.len() && (trim_chars(#[trigger] ps[k]) == w1 || trim_chars(ps[k]) == w2)
}

/// Every piece, trimmed, is blank or names an edge.
pub open spec fn all_edges(ps: Seq<Seq<char>>) -> bool {
    forall|k: int| 0 <= k < ps.len() ==> trim_chars(#[trigger] ps[k]).len() == 0 || edge_word(trim_chars(ps[k]))
}

proof fn lemma_edge_words_differ()
    ensures
        "t"@ != "b"@, "t"@ != "l"@, "t"@ != "r"@, "b"@ != "l"@, "b"@ != "r"@, "l"@ != "r"@,
        "top"@ != "bottom"@, "top"@ != "left"@, "top"@ != "right"@, "bottom"@ != "left"@, "bottom"@ != "right"@,
        "left"@ != "right"@,
        "t"@.len() == 1, "b"@.len() == 1, "l"@.len() == 1, "r"@.len() == 1,
        "top"@.len() == 3, "bottom"@.len() == 6, "left"@.len() == 4, "right"@.len() == 5,
{
    reveal_strlit("t");
    reveal_strlit("b");
    reveal_strlit("l");
    reveal_strlit("r");
    reveal_strlit("top");
    reveal_strlit("bottom");
    reveal_strlit("left");
    reveal_strlit("right");
    assert("t"@[0] != "b"@[0]);
    assert("t"@[0] != "l"@[0]);
    assert("t"@[0] != "r"@[0]);
    assert("b"@[0] != "l"@[0]);
    assert("b"@[0] != "r"@[0]);
    assert("l"@[0] != "r"@[0]);
    assert("top"@.len() != "bottom"@.len());
    assert("top"@.len() != "left"@.len());
    assert("top"@.len() != "right"@.len());
}

proof fn lemma_anchor_pieces(ps: Seq<Seq<char>>)
    ensures
        (anchor_of_pieces(ps) is Ok) == all_edges(ps),
        anchor_of_pieces(ps) matches Ok(a) ==> {
            &&& a.top == some_piece(ps, "t"@, "top"@)
            &&& a.bottom == some_piece(ps, "b"@, "bottom"@)
            &&& a.left == some_piece(ps, "l"@, "left"@)
            &&& a.right == some_piece(ps, "r"@, "right"@)
        },
        anchor_of_pieces(ps) matches Err(w) ==> exists|k: int| 0 <= k < ps.len() && trim_chars(#[trigger] ps[k]) == w
            && w.len() > 0 && !edge_word(w) && all_edges(ps.take(k)),
    decreases ps.len(),
{
    lemma_edge_words_differ();
    if ps.len() > 0 {
        let d = ps.drop_last();
        lemma_anchor_pieces(d);
        let w = trim_chars(ps[ps.len() - 1]);
        assert forall|k: int| 0 <= k < d.len() implies #[trigger] d[k] == ps[k] by {}
        assert(all_edges(ps) == (all_edges(d) && (w.len() == 0 || edge_word(w)))) by {
            if all_edges(ps) {
                assert forall|k: int| 0 <= k < d.len() implies trim_chars(#[trigger] d[k]).len() == 0 || edge_word(trim_chars(d[k])) by {
                    assert(d[k] == ps[k]);
                }
            }
            if all_edges(d) && (w.len() == 0 || edge_word(w)) {
                assert forall|k: int| 0 <= k < ps.len() implies trim_chars(#[trigger] ps[k]).len() == 0 || edge_word(trim_chars(ps[k])) by {
                    if k < d.len() { assert(d[k] == ps[k]); }
                }
            }
        }
        assert forall|w1: Seq<char>, w2: Seq<char>| #[trigger] some_piece(ps, w1, w2) == (some_piece(d, w1, w2) || w == w1 || w == w2) by {
            if some_piece(ps, w1, w2) {
                let k = choose|k: int| 0 <= k < ps.len() && (trim_chars(#[trigger] ps[k]) == w1 || trim_chars(ps[k]) == w2);
                if k < d.len() { assert(d[k] == ps[k]); }
            }
            if some_piece(d, w1, w2) {
                let k = choose|k: int| 0 <= k < d.len() && (trim_chars(#[trigger] d[k]) == w1 || trim_chars(d[k]) == w2);
                assert(ps[k] == d[k]);
            }
        }
        match anchor_of_pieces(d) {
            Err(e) => {
                let k = choose|k: int| 0 <= k < d.len() && trim_chars(#[trigger] d[k]) == e && e.len() > 0 && !edge_word(e) && all_edges(d.take(k));
                assert(ps[k] == d[k]);
                assert(d.take(k) =~= ps.take(k));
                assert(!(trim_chars(d[k]).len() == 0 || edge_word(trim_chars(d[k]))));
            },
            Ok(a) => {
                if w.len() > 0 && !edge_word(w) {
                    assert(ps.take(ps.len() - 1) =~= d);
                }
            },
        }
    }
}

/// An anchor is the set of edges its `|`-separated words name: the text
/// is accepted exactly when every word (trimmed, blank ones skipped) is
/// `t`/`top`, `b`/`bottom`, `l`/`left` or `r`/`right`, and then an edge is
/// set exactly when some word names it; otherwise the first word that
/// names no edge is the error. So the empty text gives no edge.
pub proof fn law_anchor_is_its_edge_words(s: Seq<char>)
    ensures
        ({
            let ps = split_chars(s, '|');
            &&& (spec_parse_anchor(s) is Ok) == all_edges(ps)
            &&& spec_parse_anchor(s) matches Ok(a) ==> {
                &&& a.top == some_piece(ps, "t"@, "top"@)
                &&& a.bottom == some_piece(ps, "b"@, "bottom"@)
                &&& a.left == some_piece(ps, "l"@, "left"@)
                &&& a.right == some_piece(ps, "r"@, "right"@)
            }
            &&& spec_parse_anchor(s) matches Err(w) ==> exists|k: int| 0 <= k < ps.len() && trim_chars(#[trigger] ps[k]) == w
                && w.len() > 0 && !edge_word(w) && all_edges(ps.take(k))
        }),
{
    lemma_anchor_pieces(split_chars(s, '|'));
}

fn anchor_step(a: Anchor, piece: &str) -> (r: Result<Anchor, AnchorError>)
    ensures
        ({
            let w = trim_chars(piece@);
            if w.len() == 0 {
                r == Ok::<Anchor, AnchorError>(a)
            } else {
                match anchor_with(a, w) {
                    Some(a2) => r == Ok::<Anchor, AnchorError>(a2),
                    None => r matches Err(AnchorError::Unknown(m)) && m@ == w,
                }
            }
        }),
{
    let w = trim(piece);
    if w.unicode_len() == 0 {
        return Ok(a);
    }
    if str_eq(w, "t") || str_eq(w, "top") {
        Ok(Anchor { top: true, ..a })
    } else if str_eq(w, "b") || str_eq(w, "bottom") {
        Ok(Anchor { bottom: true, ..a })
    } else if str_eq(w, "l") || str_eq(w, "left") {
        Ok(Anchor { left: true, ..a })
    } else if str_eq(w, "r") || str_eq(w, "right") {
        Ok(Anchor { right: true, ..a })
    } else {
        Err(AnchorError::Unknown(owned(w)))
    }
}

/// Parses `t | l | r`-style edge lists (`top`, `bottom`, `left`, `right`
/// or their first letters, separated by `|`).
pub fn parse_anchor(input: &str) -> (r: Result<Anchor, AnchorError>)
    ensures
        match spec_parse_anchor(input@) {
            Ok(a) => r == Ok::<Anchor, AnchorError>(a),
            Err(w) => r matches Err(AnchorError::Unknown(m)) && m@ == w,
        },
{
    let v = chars_of(input);
    let n = v.len();
    let mut a = Anchor { top: false, bottom: false, left: false, right: false };
    let mut start: usize = 0;
    let mut i: usize = 0;
    proof {
        assert(input@.take(0) =~= Seq::<char>::empty());
        assert(split_chars(input@.take(0), '|').drop_last() =~= Seq::<Seq<char>>::empty());
    }
    while i < n
        invariant
            v@ == input@,
            n == v@.len(),
            start <= i <= n,
            split_chars(input@.take(i as int), '|').len() >= 1,
            split_chars(input@.take(i as int), '|').last() == input@.subrange(start as int, i as int),
            anchor_of_pieces(split_chars(input@.take(i as int), '|').drop_last()) == Ok::<Anchor, Seq<char>>(a),
        decreases n - i,
    {
        let ghost prev = split_chars(input@.take(i as int), '|');
        proof {
            assert(input@.take(i + 1).drop_last() =~= input@.take(i as int));
            assert(input@.take(i + 1)[i as int] == input@[i as int]);
            lemma_split_nonempty(input@.take(i + 1), '|');
        }
        if v[i] == '|' {
            let piece = input.substring_char(start, i);
            match anchor_step(a, piece) {
                Ok(a2) => {
                    proof {
                        let next = split_chars(input@.take(i + 1), '|');
                        assert(next == prev.push(seq![]));
                        assert(next.drop_last() =~= prev);
                        assert(prev.drop_last() + seq![prev.last()] =~= prev);
                        assert(prev =~= prev.drop_last().push(prev.last()));
                        assert(input@.subrange(i + 1, i + 1) =~= Seq::<char>::empty());
                    }
                    a = a2;
                    start = i + 1;
                },
                Err(e) => {
                    proof {
                        assert(prev =~= prev.drop_last().push(prev.last()));
                        assert(input@.take(i as int) =~= input@.take(i + 1).drop_last());
                        lemma_split_at_sep(input@, i as int, '|');
                        lemma_fold_err_sticks(prev, split_chars(input@.skip(i + 1), '|'));
                    }
                    return Err(e);
                },
            }
        } else {
            proof {
                let next = split_chars(input@.take(i + 1), '|');
                assert(next.drop_last() =~= prev.drop_last());
                assert(next.last() =~= input@.subrange(start as int, i + 1));
            }
        }
        i = i + 1;
    }
    proof {
        assert(input@.take(n as int) =~= input@);
        let ps = split_chars(input@, '|');
        assert(ps =~= ps.drop_last().push(ps.last()));
    }
    let piece = input.substring_char(start, n);
    anchor_step(a, piece)
}

/// Once the fold over a list of pieces fails, appending pieces keeps the error.
proof fn lemma_fold_err_sticks(a: Seq<Seq<char>>, c: Seq<Seq<char>>)
    requires
        anchor_of_pieces(a) is Err,
    ensures
        anchor_of_pieces(a + c) == anchor_of_pieces(a),
    decreases c.len(),
{
    if c.len() == 0 {
        assert(a + c =~= a);
    } else {
        lemma_fold_err_sticks(a, c.drop_last());
        assert((a + c).drop_last() =~= a + c.drop_last());
    }
}

/// Splitting at a separator: the pieces before it, then the pieces after it.
proof fn lemma_split_at_sep(s: Seq<char>, m: int, sep: char)
    requires
        0 <= m < s.len(),
        s[m] == sep,
    ensures
        split_chars(s, sep) == split_chars(s.take(m), sep) + split_chars(s.skip(m + 1), sep),
    decreases s.len(),
{
    let a = split_chars(s.take(m), sep);
    let u = s.skip(m + 1);
    if s.len() == m + 1 {
        assert(s.drop_last() =~= s.take(m));
        assert(u =~= Seq::<char>::empty());
        assert(split_chars(s, sep) =~= a + split_chars(u, sep));
    } else {
        let t = s.drop_last();
        assert(t.take(m) =~= s.take(m));
        assert(t[m] == s[m]);
        lemma_split_at_sep(t, m, sep);
        assert(t.skip(m + 1) =~= u.drop_last());
        assert(u[u.len() - 1] == s[s.len() - 1]);
        let pu = split_chars(u.drop_last(), sep);
        lemma_split_nonempty(u.drop_last(), sep);
        if s[s.len() - 1] == sep {
            assert(split_chars(s, sep) =~= a + split_chars(u, sep));
        } else {
            assert(split_chars(s, sep) =~= a + split_chars(u, sep));
        }
    }
}

// ---------------------------------------------------- single-word values

pub open spec fn spec_parse_layer(s: Seq<char>) -> Option<Layer> {
    if s == "top"@ {
        Some(Layer::Top)
    } else if s == "bottom"@ {
        Some(Layer::Bottom)
    } else if s == "background"@ {
        Some(Layer::Background)
    } else if s == "overlay"@ {
        Some(Layer::Overlay)
    } else {
        None
    }
}

pub fn parse_layer(s: &str) -> (r: Option<Layer>)
    ensures
        r == spec_parse_layer(s@),
{
    if str_eq(s, "top") {
        Some(Layer::Top)
    } else if str_eq(s, "bottom") {
        Some(Layer::Bottom)
    } else if str_eq(s, "background") {
        Some(Layer::Background)
    } else if str_eq(s, "overlay") {
        Some(Layer::Overlay)
    } else {
        None
    }
}

/// `l`/`left`, `c`/`center`, `r`/`right` as 0, 1, 2.
pub open spec fn horizontal_word(s: Seq<char>) -> Option<u8> {
    if s == "l"@ || s == "left"@ {
        Some(0)
    } else if s == "c"@ || s == "center"@ {
        Some(1)
    } else if s == "r"@ || s == "right"@ {
        Some(2)
    } else {
        None
    }
}

/// `t`/`top`, `c`/`center`, `b`/`bottom` as 0, 1, 2.
pub open spec fn vertical_word(s: Seq<char>) -> Option<u8> {
    if s == "t"@ || s == "top"@ {
        Some(0)
    } else if s == "c"@ || s == "center"@ {
        Some(1)
    } else if s == "b"@ || s == "bottom"@ {
        Some(2)
    } else {
        None
    }
}

fn horizontal(s: &str) -> (r: Option<u8>)
    ensures
        r == horizontal_word(s@),
{
    if str_eq(s, "l") || str_eq(s, "left") {
        Some(0)
    } else if str_eq(s, "c") || str_eq(s, "center") {
        Some(1)
    } else if str_eq(s, "r") || str_eq(s, "right") {
        Some(2)
    } else {
        None
    }
}

fn vertical(s: &str) -> (r: Option<u8>)
    ensures
        r == vertical_word(s@),
{
    if str_eq(s, "t") || str_eq(s, "top") {
        Some(0)
    } else if str_eq(s, "c") || str_eq(s, "center") {
        Some(1)
    } else if str_eq(s, "b") || str_eq(s, "bottom") {
        Some(2)
    } else {
        None
    }
}

pub open spec fn spec_align_x(s: Seq<char>) -> Option<AlignX> {
    match horizontal_word(s) {
        Some(0) => Some(AlignX::Left),
        Some(1) => Some(AlignX::Center),
        Some(_) => Some(AlignX::Right),
        None => None,
    }
}

pub fn parse_align_x(s: &str) -> (r: Option<AlignX>)
    ensures
        r == spec_align_x(s@),
{
    match horizontal(s) {
        Some(0) => Some(AlignX::Left),
        Some(1) => Some(AlignX::Center),
        Some(_) => Some(AlignX::Right),
        None => None,
    }
}

pub open spec fn spec_align_y(s: Seq<char>) -> Option<AlignY> {
    match vertical_word(s) {
        Some(0) => Some(AlignY::Top),
        Some(1) => Some(AlignY::Center),
        Some(_) => Some(AlignY::Bottom),
        None => None,
    }
}

pub fn parse_align_y(s: &str) -> (r: Option<AlignY>)
    ensures
        r == spec_align_y(s@),
{
    match vertical(s) {
        Some(0) => Some(AlignY::Top),
        Some(1) => Some(AlignY::Center),
        Some(_) => Some(AlignY::Bottom),
        None => None,
    }
}

pub open spec fn spec_row_align(s: Seq<char>) -> Option<RowAlign> {
    match vertical_word(s) {
        Some(0) => Some(RowAlign::Top),
        Some(1) => Some(RowAlign::Center),
        Some(_) => Some(RowAlign::Bottom),
        None => None,
    }
}

pub fn parse_row_align(s: &str) -> (r: Option<RowAlign>)
    ensures
        r == spec_row_align(s@),
{
    match vertical(s) {
        Some(0) => Some(RowAlign::Top),
        Some(1) => Some(RowAlign::Center),
        Some(_) => Some(RowAlign::Bottom),
        None => None,
    }
}

pub open spec fn spec_col_align(s: Seq<char>) -> Option<ColAlign> {
    match horizontal_word(s) {
        Some(0) => Some(ColAlign::Left),
        Some(1) => Some(ColAlign::Center),
        Some(_) => Some(ColAlign::Right),
        None => None,
    }
}

pub fn parse_col_align(s: &str) -> (r: Option<ColAlign>)
    ensures
        r == spec_col_align(s@),
{
    match horizontal(s) {
        Some(0) => Some(ColAlign::Left),
        Some(1) => Some(ColAlign::Center),
        Some(_) => Some(ColAlign::Right),
        None => None,
    }
}

/// `o` is the output the word `s` names: `last` the last output used,
/// `active` the active one, any other word the monitor of that name.
pub open spec fn output_named(o: Output, s: Seq<char>) -> bool {
    if s == "last"@ {
        o == Output::Last
    } else if s == "active"@ {
        o == Output::Active
    } else {
        o matches Output::Specific(name) && name@ == s
    }
}

/// `last`, `active`, or the name of a specific monitor.
pub fn parse_output(s: &str) -> (r: Output)
    ensures
        output_named(r, s@),
{
    if str_eq(s, "last") {
        Output::Last
    } else if str_eq(s, "active") {
        Output::Active
    } else {
        Output::Specific(owned(s))
    }
}

// -------------------------------------------------------------- intervals

/// The duration `Duration::from_millis(ms)` stands for.
pub uninterp spec fn duration_of_millis(ms: u64) -> Duration;

/// `Duration::from_millis` builds the duration of `ms` milliseconds; the
/// contract only ties the result to its argument.
pub assume_specification[ core::time::Duration::from_millis ](millis: u64) -> (d: Duration)
    ensures
        d == duration_of_millis(millis),
;

/// The number, and the milliseconds per unit, of `<n>ms`, `<n>s`, `<n>m`, `<n>h`.
pub open spec fn interval_unit(t: Seq<char>) -> Option<(Seq<char>, u64)> {
    let n = t.len();
    if n >= 2 && t[n - 2] == 'm' && t[n - 1] == 's' {
        Some((t.take(n - 2), 1))
    } else if n >= 1 && t[n - 1] == 's' {
        Some((t.take(n - 1), 1000))
    } else if n >= 1 && t[n - 1] == 'm' {
        Some((t.take(n - 1), 60_000))
    } else if n >= 1 && t[n - 1] == 'h' {
        Some((t.take(n - 1), 3_600_000))
    } else {
        None
    }
}

/// The interval in milliseconds, the product saturating at `u64::MAX`.
pub open spec fn spec_interval_ms(s: Seq<char>) -> Option<u64> {
    match interval_unit(trim_chars(s)) {
        None => None,
        Some((num, mult)) => match spec_parse_u64(trim_chars(num)) {
            None => None,
            Some(v) => Some(if v * mult > u64::MAX { u64::MAX } else { (v * mult) as u64 }),
        },
    }
}

/// The interval in milliseconds, as [`parse_interval`] reads it.
pub fn parse_interval_ms(s: &str) -> (r: Option<u64>)
    ensures
        r == spec_interval_ms(s@),
{
    let t = trim(s);
    let v = chars_of(t);
    let n = v.len();
    let (cut, mult): (usize, u64) = if n >= 2 && v[n - 2] == 'm' && v[n - 1] == 's' {
        (n - 2, 1)
    } else if n >= 1 && v[n - 1] == 's' {
        (n - 1, 1000)
    } else if n >= 1 && v[n - 1] == 'm' {
        (n - 1, 60_000)
    } else if n >= 1 && v[n - 1] == 'h' {
        (n - 1, 3_600_000)
    } else {
        return None;
    };
    let num = t.substring_char(0, cut);
    proof {
        assert(num@ =~= t@.take(cut as int));
    }
    let val = match parse_u64(trim(num)) {
        Some(x) => x,
        None => return None,
    };
    match val.checked_mul(mult) {
        Some(p) => Some(p),
        None => Some(u64::MAX),
    }
}

/// Parses `500ms`, `1s`, `2m`, `1h` (surrounding whitespace allowed).
pub fn parse_interval(s: &str) -> (r: Option<Duration>)
    ensures
        match spec_interval_ms(s@) {
            Some(ms) => r == Some(duration_of_millis(ms)),
            None => r is None,
        },
{
    match parse_interval_ms(s) {
        Some(ms) => Some(Duration::from_millis(ms)),
        None => None,
    }
}


/// Each horizontal alignment word names its own side, for a text's
/// `align_x` and for a column's `align` alike: `l`/`left` is left,
/// `c`/`center` is the centre, `r`/`right` is right, and no other word is
/// an alignment.
pub proof fn law_horizontal_words(s: Seq<char>)
    ensures
        (spec_align_x(s) == Some(AlignX::Left)) <==> (s == "l"@ || s == "left"@),
        (spec_align_x(s) == Some(AlignX::Center)) <==> (s == "c"@ || s == "center"@),
        (spec_align_x(s) == Some(AlignX::Right)) <==> (s == "r"@ || s == "right"@),
        (spec_col_align(s) == Some(ColAlign::Left)) <==> (s == "l"@ || s == "left"@),
        (spec_col_align(s) == Some(ColAlign::Center)) <==> (s == "c"@ || s == "center"@),
        (spec_col_align(s) == Some(ColAlign::Right)) <==> (s == "r"@ || s == "right"@),
        (spec_align_x(s) is None) == (spec_col_align(s) is None),
{
    reveal_strlit("l");
    reveal_strlit("left");
    reveal_strlit("c");
    reveal_strlit("center");
    reveal_strlit("r");
    reveal_strlit("right");
    assert("l"@ != "left"@) by { assert("l"@.len() != "left"@.len()); }
    assert("l"@ != "c"@) by { assert("l"@[0] != "c"@[0]); }
    assert("l"@ != "center"@) by { assert("l"@.len() != "center"@.len()); }
    assert("l"@ != "r"@) by { assert("l"@[0] != "r"@[0]); }
    assert("l"@ != "right"@) by { assert("l"@.len() != "right"@.len()); }
    assert("left"@ != "c"@) by { assert("left"@.len() != "c"@.len()); }
    assert("left"@ != "center"@) by { assert("left"@.len() != "center"@.len()); }
    assert("left"@ != "r"@) by { assert("left"@.len() != "r"@.len()); }
    assert("left"@ != "right"@) by { assert("left"@.len() != "right"@.len()); }
    assert("c"@ != "center"@) by { assert("c"@.len() != "center"@.len()); }
    assert("c"@ != "r"@) by { assert("c"@[0] != "r"@[0]); }
    assert("c"@ != "right"@) by { assert("c"@.len() != "right"@.len()); }
    assert("center"@ != "r"@) by { assert("center"@.len() != "r"@.len()); }
    assert("center"@ != "right"@) by { assert("center"@.len() != "right"@.len()); }
    assert("r"@ != "right"@) by { assert("r"@.len() != "right"@.len()); }
}

/// Each vertical alignment word names its own side, for `align_y` and for
/// a row's `align` alike: `t`/`top` is the top, `c`/`center` the centre,
/// `b`/`bottom` the bottom, and no other word is an alignment.
pub proof fn law_vertical_words(s: Seq<char>)
    ensures
        (spec_align_y(s) == Some(AlignY::Top)) <==> (s == "t"@ || s == "top"@),
        (spec_align_y(s) == Some(AlignY::Center)) <==> (s == "c"@ || s == "center"@),
        (spec_align_y(s) == Some(AlignY::Bottom)) <==> (s == "b"@ || s == "bottom"@),
        (spec_row_align(s) == Some(RowAlign::Top)) <==> (s == "t"@ || s == "top"@),
        (spec_row_align(s) == Some(RowAlign::Center)) <==> (s == "c"@ || s == "center"@),
        (spec_row_align(s) == Some(RowAlign::Bottom)) <==> (s == "b"@ || s == "bottom"@),
        (spec_align_y(s) is None) == (spec_row_align(s) is None),
{
    reveal_strlit("t");
    reveal_strlit("top");
    reveal_strlit("c");
    reveal_strlit("center");
    reveal_strlit("b");
    reveal_strlit("bottom");
    assert("t"@ != "top"@) by { assert("t"@.len() != "top"@.len()); }
    assert("t"@ != "c"@) by { assert("t"@[0] != "c"@[0]); }
    assert("t"@ != "center"@) by { assert("t"@.len() != "center"@.len()); }
    assert("t"@ != "b"@) by { assert("t"@[0] != "b"@[0]); }
    assert("t"@ != "bottom"@) by { assert("t"@.len() != "bottom"@.len()); }
    assert("top"@ != "c"@) by { assert("top"@.len() != "c"@.len()); }
    assert("top"@ != "center"@) by { assert("top"@.len() != "center"@.len()); }
    assert("top"@ != "b"@) by { assert("top"@.len() != "b"@.len()); }
    assert("top"@ != "bottom"@) by { assert("top"@.len() != "bottom"@.len()); }
    assert("c"@ != "center"@) by { assert("c"@.len() != "center"@.len()); }
    assert("c"@ != "b"@) by { assert("c"@[0] != "b"@[0]); }
    assert("c"@ != "bottom"@) by { assert("c"@.len() != "bottom"@.len()); }
    assert("center"@ != "b"@) by { assert("center"@.len() != "b"@.len()); }
    assert("center"@ != "bottom"@) by { assert("center"@[0] != "bottom"@[0]); }
    assert("b"@ != "bottom"@) by { assert("b"@.len() != "bottom"@.len()); }
}

/// Each layer word names its own layer, and no other word is a layer.
pub proof fn law_layer_words(s: Seq<char>)
    ensures
        (spec_parse_layer(s) == Some(Layer::Top)) <==> s == "top"@,
        (spec_parse_layer(s) == Some(Layer::Bottom)) <==> s == "bottom"@,
        (spec_parse_layer(s) == Some(Layer::Background)) <==> s == "background"@,
        (spec_parse_layer(s) == Some(Layer::Overlay)) <==> s == "overlay"@,
{
    reveal_strlit("top");
    reveal_strlit("bottom");
    reveal_strlit("background");
    reveal_strlit("overlay");
    assert("top"@ != "bottom"@) by { assert("top"@.len() != "bottom"@.len()); }
    assert("top"@ != "background"@) by { assert("top"@.len() != "background"@.len()); }
    assert("top"@ != "overlay"@) by { assert("top"@.len() != "overlay"@.len()); }
    assert("bottom"@ != "background"@) by { assert("bottom"@.len() != "background"@.len()); }
    assert("bottom"@ != "overlay"@) by { assert("bottom"@.len() != "overlay"@.len()); }
    assert("background"@ != "overlay"@) by { assert("background"@.len() != "overlay"@.len()); }
}


proof fn lemma_digit_not_ws(c: char)
    requires
        is_digit(c),
    ensures
        !is_ws(c),
{
}

/// An interval is a whole number followed by its unit: `<n>ms` is `n`
/// milliseconds, `<n>s` is `n` seconds, `<n>m` is `n` minutes and `<n>h` is
/// `n` hours, in milliseconds (at most `u64::MAX`).
pub proof fn law_interval_units(d: Seq<char>)
    requires
        d.len() > 0,
        all_digits(d),
        digits_value(d) <= u64::MAX,
    ensures
        spec_interval_ms(d + "ms"@) == Some(digits_value(d) as u64),
        spec_interval_ms(d + "s"@) == Some(if digits_value(d) * 1000 > u64::MAX { u64::MAX } else { (digits_value(d) * 1000) as u64 }),
        spec_interval_ms(d + "m"@) == Some(if digits_value(d) * 60000 > u64::MAX { u64::MAX } else { (digits_value(d) * 60000) as u64 }),
        spec_interval_ms(d + "h"@) == Some(if digits_value(d) * 3600000 > u64::MAX { u64::MAX } else { (digits_value(d) * 3600000) as u64 }),
{
    reveal_strlit("ms");
    reveal_strlit("s");
    reveal_strlit("m");
    reveal_strlit("h");
    let n = d.len();
    assert(is_digit(d[0]) && is_digit(d[n - 1]));
    lemma_digit_not_ws(d[0]);
    lemma_digit_not_ws(d[n - 1]);
    assert(trim_chars(d) == d);
    assert(d[0] != '+');
    assert(unsigned_part(d, '+') == d);
    let ms = d + "ms"@;
    assert(ms[0] == d[0] && ms[ms.len() - 1] == 's');
    assert(trim_chars(ms) == ms);
    assert(ms.take(ms.len() - 2) =~= d);
    assert(ms[ms.len() - 2] == 'm');
    assert(interval_unit(ms) == Some((d, 1u64)));
    assert(spec_parse_u64(d) == Some(digits_value(d) as u64));
    let s1 = d + "s"@;
    assert(s1[0] == d[0] && s1[s1.len() - 1] == 's' && s1[s1.len() - 2] == d[n - 1]);
    assert(trim_chars(s1) == s1);
    assert(s1.take(s1.len() - 1) =~= d);
    let m1 = d + "m"@;
    assert(m1[0] == d[0] && m1[m1.len() - 1] == 'm' && m1[m1.len() - 2] == d[n - 1]);
    assert(trim_chars(m1) == m1);
    assert(m1.take(m1.len() - 1) =~= d);
    let h1 = d + "h"@;
    assert(h1[0] == d[0] && h1[h1.len() - 1] == 'h' && h1[h1.len() - 2] == d[n - 1]);
    assert(trim_chars(h1) == h1);
    assert(h1.take(h1.len() - 1) =~= d);
}

} // verus!
