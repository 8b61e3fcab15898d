//! Splitting of a configuration string into literal text and `${...}`
//! expression blocks.

use vstd::prelude::*;
use crate::text::{at_boundary, sub_str, lemma_ends_at_boundary, lemma_after_ascii, lemma_str_valid};
use vstd::string::StringSliceAdditionalSpecFns;

verus! {

/// A piece of an interpolated string: literal text, or the text between
/// `${` and the matching `}` together with its byte offset in the input.
#[derive(Debug, Clone, PartialEq)]
pub enum Segment<'a> {
    Literal(&'a str),
    Expr { text: &'a str, offset: usize },
}

#[derive(Debug, Clone)]
pub struct InterpError {
    pub kind: InterpErrorKind,
    pub offset: usize,
}

#[derive(Debug, Clone, Copy, PartialEq, Eq, Structural)]
pub enum InterpErrorKind {
    Unterminated,
    Nested,
}

/// A segment as a byte range of the input: `(is_expr, start, end)`.
pub type SegRange = (bool, int, int);

/// `${` starts at byte `i`.
pub open spec fn opens_at(b: Seq<u8>, i: int) -> bool {
    0 <= i && i + 1 < b.len() && b[i] == 0x24u8 && b[i + 1] == 0x7bu8
}

/// Scanning an expression body from byte `i` at brace depth `depth`: the
/// position of the `}` that closes it, or the error met first
/// (`Unterminated` when the input ends, `Nested` with the offset of an inner `${`).
pub open spec fn find_close(b: Seq<u8>, i: int, depth: nat) -> Result<int, (InterpErrorKind, int)>
    decreases b.len() - i,
{
    if i < 0 || i >= b.len() {
        Err((InterpErrorKind::Unterminated, i))
    } else if opens_at(b, i) {
        Err((InterpErrorKind::Nested, i))
    } else if b[i] == 0x7bu8 {
        find_close(b, i + 1, depth + 1)
    } else if b[i] == 0x7du8 && depth == 0 {
        Ok(i)
    } else if b[i] == 0x7du8 {
        find_close(b, i + 1, (depth - 1) as nat)
    } else {
        find_close(b, i + 1, depth)
    }
}

/// The literal segment `[start, end)` if it is not empty.
pub open spec fn lit_piece(start: int, end: int) -> Seq<SegRange> {
    if start < end { seq![(false, start, end)] } else { seq![] }
}

/// Prepends `pre` to a successful result; an error stays as it is.
pub open spec fn prepend(pre: Seq<SegRange>, r: Result<Seq<SegRange>, (InterpErrorKind, int)>) -> Result<Seq<SegRange>, (InterpErrorKind, int)> {
    match r {
        Ok(rest) => Ok(pre + rest),
        Err(e) => Err(e),
    }
}

/// The segments of `b` from byte `i` on, where the pending literal text
/// started at `lit`.
pub open spec fn scan(b: Seq<u8>, lit: int, i: int) -> Result<Seq<SegRange>, (InterpErrorKind, int)>
    decreases b.len() - i, 1int,
{
    if i < 0 || i >= b.len() {
        Ok(lit_piece(lit, b.len() as int))
    } else if opens_at(b, i) {
        match find_close(b, i + 2, 0) {
            Err((InterpErrorKind::Unterminated, _)) => Err((InterpErrorKind::Unterminated, i)),
            Err(e) => Err(e),
            Ok(c) => if i + 2 <= c < b.len() {
                prepend(lit_piece(lit, i) + seq![(true, i + 2, c)], scan(b, c + 1, c + 1))
            } else {
                Err((InterpErrorKind::Unterminated, i))
            },
        }
    } else {
        scan(b, lit, i + 1)
    }
}

/// The segments of the whole input.
pub open spec fn spec_segments(b: Seq<u8>) -> Result<Seq<SegRange>, (InterpErrorKind, int)> {
    scan(b, 0, 0)
}

/// A segment of the result matches its byte range in the input.
pub open spec fn seg_matches(s: Segment, r: SegRange, b: Seq<u8>) -> bool {
    0 <= r.1 <= r.2 <= b.len() && match s {
        Segment::Literal(t) => !r.0 && t.spec_bytes() == b.subrange(r.1, r.2),
        Segment::Expr { text, offset } => r.0 && text.spec_bytes() == b.subrange(r.1, r.2)
            && offset == r.1,
    }
}

proof fn lemma_find_close_bounds(b: Seq<u8>, i: int, depth: nat)
    ensures
        find_close(b, i, depth) matches Ok(c) ==> i <= c < b.len() && b[c] == 0x7du8,
    decreases b.len() - i,
{
    if 0 <= i < b.len() && !opens_at(b, i) {
        if b[i] == 0x7bu8 {
            lemma_find_close_bounds(b, i + 1, depth + 1);
        } else if b[i] == 0x7du8 && depth == 0 {
        } else if b[i] == 0x7du8 {
            lemma_find_close_bounds(b, i + 1, (depth - 1) as nat);
        } else {
            lemma_find_close_bounds(b, i + 1, depth);
        }
    }
}

/// The bytes of the input that a segment stands for: a literal its own
/// text, an expression its text with the surrounding `${` and `}`.
pub open spec fn covered(r: SegRange) -> (int, int) {
    if r.0 { (r.1 - 2, r.2 + 1) } else { (r.1, r.2) }
}

/// The segments cover the bytes `[from, to)` one after the other, without gap
/// or overlap.
pub open spec fn tiles(rs: Seq<SegRange>, from: int, to: int) -> bool
    decreases rs.len(),
{
    if rs.len() == 0 {
        from == to
    } else {
        covered(rs[0]).0 == from && covered(rs[0]).0 <= covered(rs[0]).1
            && tiles(rs.drop_first(), covered(rs[0]).1, to)
    }
}

proof fn lemma_tiles_concat(a: Seq<SegRange>, c: Seq<SegRange>, from: int, mid: int, to: int)
    requires
        tiles(a, from, mid),
        tiles(c, mid, to),
    ensures
        tiles(a + c, from, to),
    decreases a.len(),
{
    if a.len() == 0 {
        assert(a + c =~= c);
    } else {
        lemma_tiles_concat(a.drop_first(), c, covered(a[0]).1, mid, to);
        assert((a + c).drop_first() =~= a.drop_first() + c);
        assert((a + c)[0] == a[0]);
    }
}

proof fn lemma_scan_tiles(b: Seq<u8>, lit: int, i: int)
    requires
        0 <= lit <= i <= b.len(),
    ensures
        scan(b, lit, i) matches Ok(rs) ==> tiles(rs, lit, b.len() as int),
    decreases b.len() - i,
{
    reveal_with_fuel(tiles, 2);
    if i >= b.len() {
        let p = lit_piece(lit, b.len() as int);
        if lit < b.len() {
            assert(p.drop_first() =~= Seq::<SegRange>::empty());
        }
    } else if opens_at(b, i) {
        lemma_find_close_bounds(b, i + 2, 0);
        match find_close(b, i + 2, 0) {
            Ok(c) => {
                if i + 2 <= c < b.len() {
                    lemma_scan_tiles(b, c + 1, c + 1);
                    if let Ok(rest) = scan(b, c + 1, c + 1) {
                        let e = seq![(true, i + 2, c)];
                        assert(e.drop_first() =~= Seq::<SegRange>::empty());
                        assert(tiles(e, i, c + 1));
                        let p = lit_piece(lit, i);
                        if lit < i {
                            assert(p.drop_first() =~= Seq::<SegRange>::empty());
                        }
                        assert(tiles(p, lit, i));
                        lemma_tiles_concat(e, rest, i, c + 1, b.len() as int);
                        lemma_tiles_concat(p, e + rest, lit, i, b.len() as int);
                        assert(p + e + rest =~= p + (e + rest));
                    }
                }
            },
            Err(_) => {},
        }
    } else {
        lemma_scan_tiles(b, lit, i + 1);
    }
}

/// The segments of an input partition it: read in order, literal texts
/// and `${text}` blocks give back every byte of the input exactly once.
pub proof fn law_segments_partition_input(b: Seq<u8>)
    ensures
        spec_segments(b) matches Ok(rs) ==> tiles(rs, 0, b.len() as int),
{
    lemma_scan_tiles(b, 0, 0);
}

/// The brace depth reached from byte `s` to byte `i`: one more for each
/// `{`, one less for each `}`.
pub open spec fn depth_between(b: Seq<u8>, s: int, i: int) -> int
    decreases i - s,
{
    if i <= s {
        0
    } else {
        let d = depth_between(b, s, i - 1);
        if b[i - 1] == 0x7bu8 { d + 1 } else if b[i - 1] == 0x7du8 { d - 1 } else { d }
    }
}

/// The bytes `[s, e)` hold balanced braces: the depth never drops below
/// zero and ends at zero.
pub open spec fn balanced(b: Seq<u8>, s: int, e: int) -> bool {
    &&& depth_between(b, s, e) == 0
    &&& forall|m: int| s <= m <= e ==> #[trigger] depth_between(b, s, m) >= 0
}

/// How the segments split the input: no literal is empty, no two literals
/// follow each other, and each expression stands between `${` and a `}`,
/// holds no `${` and has balanced braces.
pub open spec fn well_split(b: Seq<u8>, rs: Seq<SegRange>) -> bool {
    &&& forall|k: int| 0 <= k < rs.len() && !(#[trigger] rs[k]).0 ==> rs[k].1 < rs[k].2
    &&& forall|k: int| 0 <= k < rs.len() - 1 && !(#[trigger] rs[k]).0 ==> rs[k + 1].0
    &&& forall|k: int| 0 <= k < rs.len() && (#[trigger] rs[k]).0 ==> {
        &&& opens_at(b, rs[k].1 - 2)
        &&& rs[k].2 < b.len() && b[rs[k].2] == 0x7du8
        &&& forall|i: int| rs[k].1 <= i < rs[k].2 ==> !#[trigger] opens_at(b, i)
        &&& balanced(b, rs[k].1, rs[k].2)
    }
}

proof fn lemma_find_close_balanced(b: Seq<u8>, s: int, i: int, d: nat)
    requires
        s <= i,
        d == depth_between(b, s, i),
        forall|m: int| s <= m <= i ==> #[trigger] depth_between(b, s, m) >= 0,
    ensures
        find_close(b, i, d) matches Ok(e) ==> i <= e && balanced(b, s, e)
            && forall|m: int| i <= m < e ==> !#[trigger] opens_at(b, m),
    decreases b.len() - i,
{
    if 0 <= i < b.len() && !opens_at(b, i) {
        assert(depth_between(b, s, i + 1) == (if b[i] == 0x7bu8 { d + 1int } else if b[i] == 0x7du8 { d - 1int } else { d as int }));
        if b[i] == 0x7bu8 {
            lemma_find_close_balanced(b, s, i + 1, d + 1);
        } else if b[i] == 0x7du8 && d == 0 {
        } else if b[i] == 0x7du8 {
            lemma_find_close_balanced(b, s, i + 1, (d - 1) as nat);
        } else {
            lemma_find_close_balanced(b, s, i + 1, d);
        }
    }
}

proof fn lemma_scan_well_split(b: Seq<u8>, lit: int, i: int)
    requires
        0 <= lit <= i <= b.len(),
    ensures
        scan(b, lit, i) matches Ok(rs) ==> well_split(b, rs)
            && (rs.len() > 0 && !rs[0].0 ==> rs[0].1 == lit),
    decreases b.len() - i,
{
    if i >= b.len() {
    } else if opens_at(b, i) {
        lemma_find_close_bounds(b, i + 2, 0);
        lemma_find_close_balanced(b, i + 2, i + 2, 0);
        match find_close(b, i + 2, 0) {
            Ok(c) => {
                if i + 2 <= c < b.len() {
                    lemma_scan_well_split(b, c + 1, c + 1);
                    if let Ok(rest) = scan(b, c + 1, c + 1) {
                        let p = lit_piece(lit, i);
                        let e = (true, i + 2, c);
                        let rs = p + seq![e] + rest;
                        assert(scan(b, lit, i) == Ok::<Seq<SegRange>, (InterpErrorKind, int)>(rs));
                        assert forall|k: int| 0 <= k < rs.len() && !(#[trigger] rs[k]).0 implies rs[k].1 < rs[k].2 by {
                            if k >= p.len() + 1 {
                                assert(rs[k] == rest[k - p.len() - 1]);
                            }
                        }
                        assert forall|k: int| 0 <= k < rs.len() - 1 && !(#[trigger] rs[k]).0 implies rs[k + 1].0 by {
                            if k >= p.len() + 1 {
                                assert(rs[k] == rest[k - p.len() - 1]);
                                assert(rs[k + 1] == rest[k + 1 - p.len() - 1]);
                            }
                        }
                        assert forall|k: int| 0 <= k < rs.len() && (#[trigger] rs[k]).0 implies {
                            &&& opens_at(b, rs[k].1 - 2)
                            &&& rs[k].2 < b.len() && b[rs[k].2] == 0x7du8
                            &&& forall|m: int| rs[k].1 <= m < rs[k].2 ==> !#[trigger] opens_at(b, m)
                            &&& balanced(b, rs[k].1, rs[k].2)
                        } by {
                            if k >= p.len() + 1 {
                                assert(rs[k] == rest[k - p.len() - 1]);
                            } else {
                                assert(rs[k] == e);
                            }
                        }
                    }
                }
            },
            Err(_) => {},
        }
    } else {
        lemma_scan_well_split(b, lit, i + 1);
    }
}

/// Besides giving back the input, the segments split it cleanly: no
/// literal is empty and no two literals follow each other; each expression
/// sits between `${` and `}`, holds no `${` and has balanced braces; and
/// the empty input has no segment.
pub proof fn law_segments_split_cleanly(b: Seq<u8>)
    ensures
        spec_segments(b) matches Ok(rs) ==> well_split(b, rs) && (b.len() == 0 ==> rs.len() == 0),
{
    lemma_scan_well_split(b, 0, 0);
}

/// Splits `input` into literal text and `${...}` blocks. Braces inside a
/// block nest; `${` inside a block is an error.
pub fn segments(input: &str) -> (r: Result<Vec<Segment<'_>>, InterpError>)
    ensures
        match spec_segments(input.spec_bytes()) {
            Ok(rs) => r matches Ok(v) && v@.len() == rs.len()
                && forall|k: int| 0 <= k < rs.len() ==> #[trigger] seg_matches(v@[k], rs[k], input.spec_bytes()),
            Err((kind, off)) => r matches Err(e) && e.kind == kind && e.offset == off,
        },
{
    let bytes = input.as_bytes();
    let ghost b = input.spec_bytes();
    let mut out: Vec<Segment<'_>> = Vec::new();
    let ghost mut ranges: Seq<SegRange> = seq![];
    let mut lit_start: usize = 0;
    let mut i: usize = 0;
    proof {
        lemma_str_valid(input);
        lemma_ends_at_boundary(b);
    }
    while i < bytes.len()
        invariant
            bytes@ == b,
            b == input.spec_bytes(),
            lit_start <= i <= b.len(),
            at_boundary(b, lit_start as int),
            at_boundary(b, b.len() as int),
            vstd::utf8::valid_utf8(b),
            out@.len() == ranges.len(),
            forall|k: int| 0 <= k < ranges.len() ==> #[trigger] seg_matches(out@[k], ranges[k], b),
            spec_segments(b) == prepend(ranges, scan(b, lit_start as int, i as int)),
        decreases b.len() - i,
    {
        if i + 1 < bytes.len() && bytes[i] == 0x24u8 && bytes[i + 1] == 0x7bu8 {
            let ghost old_ranges = ranges;
            let ghost old_lit = lit_start;
            let ghost at = i;
            if lit_start < i {
                let lit = sub_str(input, lit_start, i);
                out.push(Segment::Literal(lit));
                proof {
                    ranges = ranges.push((false, lit_start as int, i as int));
                }
            }
            let expr_start = i + 2;
            i = expr_start;
            let mut depth: usize = 0;
            let mut saw_close: usize = 0;
            proof {
                lemma_after_ascii(b, at as int + 1);
            }
            loop
                invariant_except_break
                    find_close(b, expr_start as int, 0) == find_close(b, i as int, depth as nat),
                invariant
                    bytes@ == b,
                    b == input.spec_bytes(),
                    spec_segments(b) == prepend(old_ranges, scan(b, old_lit as int, at as int)),
                    expr_start <= i,
                    expr_start == at + 2,
                    opens_at(b, at as int),
                    depth <= i,
                    i <= b.len(),
                ensures
                    find_close(b, expr_start as int, 0) == Ok::<int, (InterpErrorKind, int)>(saw_close as int),
                    i == saw_close + 1,
                    saw_close < b.len(),
                    b[saw_close as int] == 0x7du8,
                decreases b.len() - i,
            {
                if i >= bytes.len() {
                    proof {
                        assert(find_close(b, i as int, depth as nat) == Err::<int, (InterpErrorKind, int)>((InterpErrorKind::Unterminated, i as int)));
                        assert(scan(b, old_lit as int, at as int) == Err::<Seq<SegRange>, (InterpErrorKind, int)>((InterpErrorKind::Unterminated, at as int)));
                    }
                    return Err(InterpError { kind: InterpErrorKind::Unterminated, offset: expr_start - 2 });
                }
                if i + 1 < bytes.len() && bytes[i] == 0x24u8 && bytes[i + 1] == 0x7bu8 {
                    proof {
                        assert(find_close(b, i as int, depth as nat) == Err::<int, (InterpErrorKind, int)>((InterpErrorKind::Nested, i as int)));
                        assert(scan(b, old_lit as int, at as int) == Err::<Seq<SegRange>, (InterpErrorKind, int)>((InterpErrorKind::Nested, i as int)));
                    }
                    return Err(InterpError { kind: InterpErrorKind::Nested, offset: i });
                }
                if bytes[i] == 0x7bu8 {
                    depth = depth + 1;
                    i = i + 1;
                } else if bytes[i] == 0x7du8 && depth == 0 {
                    saw_close = i;
                    i = i + 1;
                    break;
                } else if bytes[i] == 0x7du8 {
                    depth = depth - 1;
                    i = i + 1;
                } else {
                    i = i + 1;
                }
            }
            proof {
                lemma_find_close_bounds(b, expr_start as int, 0);
                lemma_after_ascii(b, saw_close as int);
            }
            let text = sub_str(input, expr_start, saw_close);
            out.push(Segment::Expr { text, offset: expr_start });
            proof {
                let pre = lit_piece(old_lit as int, at as int) + seq![(true, expr_start as int, saw_close as int)];
                let old_all = ranges;
                ranges = ranges.push((true, expr_start as int, saw_close as int));
                assert(ranges =~= old_ranges + pre);
                assert(spec_segments(b) == prepend(ranges, scan(b, i as int, i as int))) by {
                    match scan(b, i as int, i as int) {
                        Ok(rest) => {
                            assert(old_ranges + (pre + rest) =~= ranges + rest);
                        }
                        Err(_) => {}
                    }
                }
            }
            lit_start = i;
        } else {
            i = i + 1;
        }
    }
    let ghost before = ranges;
    proof {
        assert(scan(b, lit_start as int, i as int) == Ok::<Seq<SegRange>, (InterpErrorKind, int)>(lit_piece(lit_start as int, b.len() as int)));
    }
    if lit_start < bytes.len() {
        let lit = sub_str(input, lit_start, bytes.len());
        out.push(Segment::Literal(lit));
        proof {
            ranges = ranges.push((false, lit_start as int, b.len() as int));
        }
    }
    proof {
        assert(ranges =~= before + lit_piece(lit_start as int, b.len() as int));
        assert(spec_segments(b) == Ok::<Seq<SegRange>, (InterpErrorKind, int)>(ranges));
    }
    Ok(out)
}

} // verus!
