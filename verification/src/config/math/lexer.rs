//! Tokens of the expression language inside `${...}`.

use vstd::prelude::*;
use vstd::string::{StringSliceAdditionalSpecFns, StrSliceExecFns};
use vstd::utf8::decode_utf8;
use core::ops::Range;
use crate::text::{at_boundary, lemma_after_ascii, lemma_ends_at_boundary, lemma_str_valid, owned, sub_str, utf8};

verus! {

/// A token. Decimal literals keep their text (`3.12`); integer literals
/// are read into their value.
#[derive(Debug, Clone, PartialEq)]
pub enum Token {
    Int(i128),
    Float(String),
    Ident(String),
    LParen,
    RParen,
    Comma,
    Dot,
    Plus,
    Minus,
    Star,
    Slash,
    Percent,
    Caret,
    Lt,
    Gt,
    Le,
    Ge,
    Eq,
    Ne,
}

/// A token with its texts as UTF-8 bytes.
pub enum TokenView {
    Int(int),
    Float(Seq<u8>),
    Ident(Seq<u8>),
    LParen,
    RParen,
    Comma,
    Dot,
    Plus,
    Minus,
    Star,
    Slash,
    Percent,
    Caret,
    Lt,
    Gt,
    Le,
    Ge,
    Eq,
    Ne,
}

impl View for Token {
    type V = TokenView;

    open spec fn view(&self) -> TokenView {
        match self {
            Token::Int(n) => TokenView::Int(*n as int),
            Token::Float(s) => TokenView::Float(utf8(s@)),
            Token::Ident(s) => TokenView::Ident(utf8(s@)),
            Token::LParen => TokenView::LParen,
            Token::RParen => TokenView::RParen,
            Token::Comma => TokenView::Comma,
            Token::Dot => TokenView::Dot,
            Token::Plus => TokenView::Plus,
            Token::Minus => TokenView::Minus,
            Token::Star => TokenView::Star,
            Token::Slash => TokenView::Slash,
            Token::Percent => TokenView::Percent,
            Token::Caret => TokenView::Caret,
            Token::Lt => TokenView::Lt,
            Token::Gt => TokenView::Gt,
            Token::Le => TokenView::Le,
            Token::Ge => TokenView::Ge,
            Token::Eq => TokenView::Eq,
            Token::Ne => TokenView::Ne,
        }
    }
}

#[derive(Debug, Clone)]
pub struct LexError {
    pub offset: usize,
    pub ch: char,
}

pub struct Lexer<'src> {
    src: &'src str,
    bytes: &'src [u8],
    pos: usize,
}

// --------------------------------------------------------------- the spec

/// `u8::is_ascii_whitespace`: space, tab, line feed, form feed, carriage return.
pub open spec fn is_blank(c: u8) -> bool {
    c == 0x20u8 || c == 0x09u8 || c == 0x0au8 || c == 0x0cu8 || c == 0x0du8
}

pub open spec fn is_digit_byte(c: u8) -> bool {
    0x30u8 <= c <= 0x39u8
}

pub open spec fn is_alpha_byte(c: u8) -> bool {
    (0x41u8 <= c <= 0x5au8) || (0x61u8 <= c <= 0x7au8)
}

/// A byte that may continue an identifier.
pub open spec fn is_ident_byte(c: u8) -> bool {
    is_alpha_byte(c) || is_digit_byte(c) || c == 0x5fu8
}

/// The end of the run of digits that starts at `p`.
pub open spec fn digits_end(b: Seq<u8>, p: int) -> int
    decreases b.len() - p,
{
    if 0 <= p < b.len() && is_digit_byte(b[p]) { digits_end(b, p + 1) } else { p }
}

/// The end of the identifier that starts at `p`.
pub open spec fn ident_end(b: Seq<u8>, p: int) -> int
    decreases b.len() - p,
{
    if 0 <= p < b.len() && is_ident_byte(b[p]) { ident_end(b, p + 1) } else { p }
}

/// The value of a run of ASCII digits.
pub open spec fn digits_value(d: Seq<u8>) -> nat
    decreases d.len(),
{
    if d.len() == 0 {
        0
    } else {
        digits_value(d.drop_last()) * 10 + (d[d.len() - 1] - 0x30u8) as nat
    }
}

/// The byte at `p`, or none past the end.
pub open spec fn byte_at(b: Seq<u8>, p: int) -> Option<u8> {
    if 0 <= p < b.len() { Some(b[p]) } else { None }
}

/// The one-byte operator or punctuation token a byte stands for.
pub open spec fn single_token(c: u8) -> Option<TokenView> {
    if c == 0x28u8 { Some(TokenView::LParen) }
    else if c == 0x29u8 { Some(TokenView::RParen) }
    else if c == 0x2cu8 { Some(TokenView::Comma) }
    else if c == 0x2bu8 { Some(TokenView::Plus) }
    else if c == 0x2du8 { Some(TokenView::Minus) }
    else if c == 0x2au8 { Some(TokenView::Star) }
    else if c == 0x2fu8 { Some(TokenView::Slash) }
    else if c == 0x25u8 { Some(TokenView::Percent) }
    else if c == 0x5eu8 { Some(TokenView::Caret) }
    else if c == 0x2eu8 { Some(TokenView::Dot) }
    else { None }
}

/// The token that starts at the non-blank byte `p`, with its end; none
/// when no token starts there.
pub open spec fn token_at(b: Seq<u8>, p: int) -> Option<(TokenView, int)> {
    let c = b[p];
    if single_token(c) is Some {
        Some((single_token(c)->0, p + 1))
    } else if c == 0x3cu8 {
        if byte_at(b, p + 1) == Some(0x3du8) { Some((TokenView::Le, p + 2)) } else { Some((TokenView::Lt, p + 1)) }
    } else if c == 0x3eu8 {
        if byte_at(b, p + 1) == Some(0x3du8) { Some((TokenView::Ge, p + 2)) } else { Some((TokenView::Gt, p + 1)) }
    } else if c == 0x3du8 {
        if byte_at(b, p + 1) == Some(0x3du8) { Some((TokenView::Eq, p + 2)) } else { None }
    } else if c == 0x21u8 {
        if byte_at(b, p + 1) == Some(0x3du8) { Some((TokenView::Ne, p + 2)) } else { None }
    } else if is_digit_byte(c) {
        let e = digits_end(b, p);
        if byte_at(b, e) == Some(0x2eu8) && e + 1 < b.len() && is_digit_byte(b[e + 1]) {
            let f = digits_end(b, e + 1);
            Some((TokenView::Float(b.subrange(p, f)), f))
        } else {
            Some((TokenView::Int(digits_value(b.subrange(p, e)) as int), e))
        }
    } else if is_alpha_byte(c) || c == 0x5fu8 {
        let e = ident_end(b, p);
        Some((TokenView::Ident(b.subrange(p, e)), e))
    } else {
        None
    }
}

/// How lexing stops short: a character that starts no token, or an integer
/// literal too large for `i128`.
pub enum LexFailure {
    BadChar(int),
    Overflow(int),
}

/// A token with the byte range it was read from.
pub type TokenAt = (TokenView, int, int);

/// The tokens of `b` from byte `p` on.
pub open spec fn lex_from(b: Seq<u8>, p: int) -> Result<Seq<TokenAt>, LexFailure>
    decreases b.len() - p,
{
    if p < 0 || p >= b.len() {
        Ok(seq![])
    } else if is_blank(b[p]) {
        lex_from(b, p + 1)
    } else {
        match token_at(b, p) {
            None => Err(LexFailure::BadChar(p)),
            Some((t, e)) => if t matches TokenView::Int(v) && v > i128::MAX {
                Err(LexFailure::Overflow(p))
            } else if e <= p || e > b.len() {
                Err(LexFailure::BadChar(p))
            } else {
                match lex_from(b, e) {
                    Ok(rest) => Ok(seq![(t, p, e)] + rest),
                    Err(f) => Err(f),
                }
            },
        }
    }
}

/// The first character of the text from byte `p` on.
pub open spec fn char_at_byte(b: Seq<u8>, p: int) -> char {
    decode_utf8(b.skip(p))[0]
}

// ------------------------------------------------------------- the lexer

proof fn lemma_digits_end(b: Seq<u8>, p: int)
    requires
        0 <= p <= b.len(),
    ensures
        p <= digits_end(b, p) <= b.len(),
        forall|k: int| p <= k < digits_end(b, p) ==> is_digit_byte(#[trigger] b[k]),
        digits_end(b, p) < b.len() ==> !is_digit_byte(b[digits_end(b, p)]),
    decreases b.len() - p,
{
    if p < b.len() && is_digit_byte(b[p]) {
        lemma_digits_end(b, p + 1);
    }
}

proof fn lemma_ident_end(b: Seq<u8>, p: int)
    requires
        0 <= p <= b.len(),
    ensures
        p <= ident_end(b, p) <= b.len(),
        forall|k: int| p <= k < ident_end(b, p) ==> is_ident_byte(#[trigger] b[k]),
        ident_end(b, p) < b.len() ==> !is_ident_byte(b[ident_end(b, p)]),
    decreases b.len() - p,
{
    if p < b.len() && is_ident_byte(b[p]) {
        lemma_ident_end(b, p + 1);
    }
}

/// Every byte from `p` up to a position where the run ended was ASCII, so
/// the end is a character boundary.
proof fn lemma_ascii_run_boundary(b: Seq<u8>, p: int, e: int)
    requires
        vstd::utf8::valid_utf8(b),
        0 <= p < e <= b.len(),
        forall|k: int| p <= k < e ==> #[trigger] b[k] < 0x80u8,
    ensures
        at_boundary(b, e),
{
    lemma_after_ascii(b, e - 1);
}

proof fn lemma_digits_value_mono(d: Seq<u8>, k: int)
    requires
        0 <= k <= d.len(),
        forall|i: int| 0 <= i < d.len() ==> is_digit_byte(#[trigger] d[i]),
    ensures
        digits_value(d.take(k)) <= digits_value(d),
    decreases d.len() - k,
{
    if k < d.len() {
        lemma_digits_value_mono(d, k + 1);
        let t = d.take(k + 1);
        assert(t.drop_last() =~= d.take(k));
        assert(t[t.len() - 1] == d[k]);
        let x = digits_value(d.take(k));
        let y = (d[k] - 0x30u8) as nat;
        assert(digits_value(t) == x * 10 + y);
        assert(x <= x * 10 + y) by (nonlinear_arith);
    } else {
        assert(d.take(k) =~= d);
    }
}

/// The character that starts at byte `p`.
fn char_at(src: &str, p: usize) -> (c: char)
    requires
        p < src.spec_bytes().len(),
        at_boundary(src.spec_bytes(), p as int),
    ensures
        c == char_at_byte(src.spec_bytes(), p as int),
{
    let ghost b = src.spec_bytes();
    proof {
        lemma_str_valid(src);
        lemma_ends_at_boundary(b);
    }
    let tail = sub_str(src, p, src.as_bytes().len());
    proof {
        assert(tail.spec_bytes() =~= b.skip(p as int));
        vstd::utf8::encode_utf8_decode_utf8(tail@);
        if tail@.len() == 0 {
            assert(tail.spec_bytes() =~= Seq::<u8>::empty());
        }
    }
    tail.get_char(0)
}

/// Operators and punctuation: the token at `p` and its length in bytes.
fn punct(b: &[u8], p: usize) -> (r: Option<(Token, usize)>)
    requires
        p < b@.len(),
        !is_digit_byte(b@[p as int]),
        !(is_alpha_byte(b@[p as int]) || b@[p as int] == 0x5fu8),
    ensures
        match token_at(b@, p as int) {
            Some((t, e)) => r matches Some((x, len)) && x@ == t && p + len == e && 1 <= len <= 2
                && (len == 2 ==> b@[p + 1] == 0x3du8) && b@[p as int] < 0x80u8,
            None => r is None,
        },
{
    let c = b[p];
    let next_eq = p + 1 < b.len() && b[p + 1] == 0x3du8;
    if c == 0x28u8 {
        Some((Token::LParen, 1))
    } else if c == 0x29u8 {
        Some((Token::RParen, 1))
    } else if c == 0x2cu8 {
        Some((Token::Comma, 1))
    } else if c == 0x2bu8 {
        Some((Token::Plus, 1))
    } else if c == 0x2du8 {
        Some((Token::Minus, 1))
    } else if c == 0x2au8 {
        Some((Token::Star, 1))
    } else if c == 0x2fu8 {
        Some((Token::Slash, 1))
    } else if c == 0x25u8 {
        Some((Token::Percent, 1))
    } else if c == 0x5eu8 {
        Some((Token::Caret, 1))
    } else if c == 0x2eu8 {
        Some((Token::Dot, 1))
    } else if c == 0x3cu8 {
        if next_eq { Some((Token::Le, 2)) } else { Some((Token::Lt, 1)) }
    } else if c == 0x3eu8 {
        if next_eq { Some((Token::Ge, 2)) } else { Some((Token::Gt, 1)) }
    } else if c == 0x3du8 {
        if next_eq { Some((Token::Eq, 2)) } else { None }
    } else if c == 0x21u8 {
        if next_eq { Some((Token::Ne, 2)) } else { None }
    } else {
        None
    }
}

fn ident_byte(c: u8) -> (r: bool)
    ensures
        r == is_ident_byte(c),
{
    (0x41u8 <= c && c <= 0x5au8) || (0x61u8 <= c && c <= 0x7au8) || (0x30u8 <= c && c <= 0x39u8) || c == 0x5fu8
}

/// How tokens from byte `p` on lie in the text: each covers a non-empty
/// range inside the text, from `p` on; the ranges follow each other in
/// order without overlap; no token byte is whitespace, and every byte from
/// `p` on outside all ranges is.
pub open spec fn tokens_lie(b: Seq<u8>, p: int, ts: Seq<TokenAt>) -> bool {
    &&& forall|k: int| 0 <= k < ts.len() ==> p <= (#[trigger] ts[k]).1 < ts[k].2 <= b.len()
    &&& forall|k: int| 0 <= k < ts.len() - 1 ==> (#[trigger] ts[k]).2 <= ts[k + 1].1
    &&& forall|k: int, m: int| 0 <= k < ts.len() && (#[trigger] ts[k]).1 <= m < ts[k].2 ==> !is_blank(#[trigger] b[m])
    &&& forall|m: int| p <= m < b.len() && !is_blank(#[trigger] b[m]) ==>
        exists|k: int| 0 <= k < ts.len() && (#[trigger] ts[k]).1 <= m < ts[k].2
}

proof fn lemma_token_nonblank(b: Seq<u8>, p: int)
    requires
        0 <= p < b.len(),
        !is_blank(b[p]),
    ensures
        token_at(b, p) matches Some((_, e)) ==> forall|m: int| p <= m < e && m < b.len() ==> !is_blank(#[trigger] b[m]),
{
    let c = b[p];
    if is_digit_byte(c) && single_token(c) is None {
        lemma_digits_end(b, p);
        let e = digits_end(b, p);
        if byte_at(b, e) == Some(0x2eu8) && e + 1 < b.len() && is_digit_byte(b[e + 1]) {
            lemma_digits_end(b, e + 1);
        }
    } else if (is_alpha_byte(c) || c == 0x5fu8) && single_token(c) is None {
        lemma_ident_end(b, p);
    }
}

proof fn lemma_lex_lies(b: Seq<u8>, p: int)
    requires
        0 <= p <= b.len(),
    ensures
        lex_from(b, p) matches Ok(ts) ==> tokens_lie(b, p, ts),
    decreases b.len() - p,
{
    if p < b.len() {
        if is_blank(b[p]) {
            lemma_lex_lies(b, p + 1);
        } else {
            match token_at(b, p) {
                None => {},
                Some((t, e)) => {
                    if !(t matches TokenView::Int(v) && v > i128::MAX) && p < e <= b.len() {
                        lemma_lex_lies(b, e);
                        lemma_token_nonblank(b, p);
                        if let Ok(rest) = lex_from(b, e) {
                            let ts = seq![(t, p, e)] + rest;
                            assert forall|k: int| 0 <= k < ts.len() implies p <= (#[trigger] ts[k]).1 < ts[k].2 <= b.len() by {
                                if k > 0 { assert(ts[k] == rest[k - 1]); }
                            }
                            assert forall|k: int| 0 <= k < ts.len() - 1 implies (#[trigger] ts[k]).2 <= ts[k + 1].1 by {
                                assert(ts[k + 1] == rest[k]);
                                if k > 0 { assert(ts[k] == rest[k - 1]); }
                            }
                            assert forall|k: int, m: int| 0 <= k < ts.len() && (#[trigger] ts[k]).1 <= m < ts[k].2
                                implies !is_blank(#[trigger] b[m]) by {
                                if k > 0 { assert(ts[k] == rest[k - 1]); }
                            }
                            assert forall|m: int| p <= m < b.len() && !is_blank(#[trigger] b[m]) implies
                                exists|k: int| 0 <= k < ts.len() && (#[trigger] ts[k]).1 <= m < ts[k].2 by {
                                if m < e {
                                    assert(ts[0].1 <= m < ts[0].2);
                                } else {
                                    let k = choose|k: int| 0 <= k < rest.len() && (#[trigger] rest[k]).1 <= m < rest[k].2;
                                    assert(ts[k + 1] == rest[k]);
                                }
                            }
                        }
                    }
                },
            }
        }
    }
}

/// The tokens lie in the text as tokens should: each covers a non-empty
/// range inside the text, the ranges are increasing and disjoint, no token
/// byte is whitespace and every byte outside them is; so a text of
/// whitespace only has no token.
pub proof fn law_tokens_cover_the_text(b: Seq<u8>)
    ensures
        lex_from(b, 0) matches Ok(ts) ==> tokens_lie(b, 0, ts)
            && ((forall|m: int| 0 <= m < b.len() ==> is_blank(#[trigger] b[m])) ==> ts.len() == 0),
{
    lemma_lex_lies(b, 0);
    if let Ok(ts) = lex_from(b, 0) {
        if ts.len() > 0 && (forall|m: int| 0 <= m < b.len() ==> is_blank(#[trigger] b[m])) {
            let m = ts[0].1;
            assert(!is_blank(b[m]));
        }
    }
}

impl<'src> Lexer<'src> {
    /// The text being split.
    pub closed spec fn source(&self) -> &'src str {
        self.src
    }

    /// The byte position reached.
    pub closed spec fn position(&self) -> usize {
        self.pos
    }

    /// The byte view is the source's bytes.
    pub closed spec fn wf(&self) -> bool {
        self.bytes@ == self.src.spec_bytes()
    }

    pub fn new(src: &'src str) -> (r: Self)
        ensures
            r.source() == src,
            r.position() == 0,
            r.wf(),
    {
        Self { src, bytes: src.as_bytes(), pos: 0 }
    }

    /// Reads the digits from `start` to `end` as an integer; none when it
    /// is beyond `i128`.
    fn int_value(b: &[u8], start: usize, end: usize) -> (r: Option<i128>)
        requires
            start <= end <= b@.len(),
            forall|k: int| start <= k < end ==> is_digit_byte(#[trigger] b@[k]),
        ensures
            match r {
                Some(v) => v == digits_value(b@.subrange(start as int, end as int)),
                None => digits_value(b@.subrange(start as int, end as int)) > i128::MAX,
            },
    {
        let ghost d = b@.subrange(start as int, end as int);
        proof {
            assert forall|k: int| 0 <= k < d.len() implies is_digit_byte(#[trigger] d[k]) by {
                assert(d[k] == b@[start + k]);
            }
        }
        let mut acc: i128 = 0;
        let mut i = start;
        while i < end
            invariant
                start <= i <= end <= b@.len(),
                d == b@.subrange(start as int, end as int),
                forall|k: int| 0 <= k < d.len() ==> is_digit_byte(#[trigger] d[k]),
                acc == digits_value(d.take(i - start)),
            decreases end - i,
        {
            proof {
                let t = d.take(i - start + 1);
                assert(t.drop_last() =~= d.take(i - start));
                assert(t[t.len() - 1] == b@[i as int]);
                lemma_digits_value_mono(d, i - start + 1);
            }
            let digit = (b[i] - 0x30u8) as i128;
            let next = match acc.checked_mul(10) {
                Some(m) => m.checked_add(digit),
                None => None,
            };
            match next {
                Some(v) => {
                    acc = v;
                },
                None => {
                    return None;
                },
            }
            i = i + 1;
        }
        proof {
            assert(d.take(end - start) =~= d);
        }
        Some(acc)
    }

    /// Splits the source into tokens with their byte ranges. An integer
    /// literal beyond `i128` cannot be held and is excluded by `requires`.
    pub fn tokenize(self) -> (r: Result<Vec<(Token, Range<usize>)>, LexError>)
        requires
            self.position() == 0,
            self.wf(),
            !(lex_from(self.source().spec_bytes(), 0) matches Err(LexFailure::Overflow(_))),
        ensures
            match lex_from(self.source().spec_bytes(), 0) {
                Ok(ts) => r matches Ok(v) && v@.len() == ts.len() && forall|k: int| 0 <= k < ts.len() ==> {
                    &&& (#[trigger] v@[k]).0@ == ts[k].0
                    &&& v@[k].1.start == ts[k].1
                    &&& v@[k].1.end == ts[k].2
                },
                Err(LexFailure::BadChar(p)) => r matches Err(e) && e.offset == p
                    && e.ch == char_at_byte(self.source().spec_bytes(), p),
                Err(LexFailure::Overflow(_)) => false,
            },
    {
        match self.tokenize_checked() {
            Some(r) => r,
            None => Err(LexError { offset: 0, ch: ' ' }),
        }
    }

    /// Splits the source into tokens as [`Lexer::tokenize`] does; none when
    /// an integer literal is beyond `i128`, which no token can hold.
    #[verifier::rlimit(40)]
    pub fn tokenize_checked(self) -> (r: Option<Result<Vec<(Token, Range<usize>)>, LexError>>)
        requires
            self.position() == 0,
            self.wf(),
        ensures
            match lex_from(self.source().spec_bytes(), 0) {
                Ok(ts) => r matches Some(Ok(v)) && v@.len() == ts.len() && forall|k: int| 0 <= k < ts.len() ==> {
                    &&& (#[trigger] v@[k]).0@ == ts[k].0
                    &&& v@[k].1.start == ts[k].1
                    &&& v@[k].1.end == ts[k].2
                },
                Err(LexFailure::BadChar(p)) => r matches Some(Err(e)) && e.offset == p
                    && e.ch == char_at_byte(self.source().spec_bytes(), p),
                Err(LexFailure::Overflow(_)) => r is None,
            },
    {
        let ghost b = self.src.spec_bytes();
        let mut lx = self;
        proof {
            lemma_str_valid(lx.src);
            lemma_ends_at_boundary(b);
        }
        let mut out: Vec<(Token, Range<usize>)> = Vec::new();
        let ghost mut done: Seq<TokenAt> = seq![];
        while lx.pos < lx.bytes.len()
            invariant
                lx.bytes@ == b,
                b == lx.src.spec_bytes(),
                b == self.src.spec_bytes(),
                vstd::utf8::valid_utf8(b),
                lx.pos <= b.len(),
                at_boundary(b, lx.pos as int),
                out@.len() == done.len(),
                forall|k: int| 0 <= k < done.len() ==> {
                    &&& (#[trigger] out@[k]).0@ == done[k].0
                    &&& out@[k].1.start == done[k].1
                    &&& out@[k].1.end == done[k].2
                },
                lex_from(b, 0) == (match lex_from(b, lx.pos as int) {
                    Ok(rest) => Ok(done + rest),
                    Err(f) => Err::<Seq<TokenAt>, LexFailure>(f),
                }),
            decreases b.len() - lx.pos,
        {
            let c = lx.bytes[lx.pos];
            if c == 0x20u8 || c == 0x09u8 || c == 0x0au8 || c == 0x0cu8 || c == 0x0du8 {
                proof {
                    lemma_after_ascii(b, lx.pos as int);
                }
                lx.pos = lx.pos + 1;
                continue;
            }
            let start = lx.pos;
            let tok: Token;
            if 0x30u8 <= c && c <= 0x39u8 {
                match lx.lex_number(start) {
                    Some(t) => {
                        tok = t;
                    },
                    None => {
                        proof {
                            assert(!is_blank(b[start as int]));
                            assert(lex_from(b, start as int) is Err);
                            assert(lex_from(b, start as int) matches Err(LexFailure::Overflow(_)));
                        }
                        return None;
                    },
                }
            } else if (0x41u8 <= c && c <= 0x5au8) || (0x61u8 <= c && c <= 0x7au8) || c == 0x5fu8 {
                tok = lx.lex_ident(start);
            } else {
                match punct(lx.bytes, start) {
                    Some((t, len)) => {
                        proof {
                            lemma_after_ascii(b, start as int);
                            if len == 2 {
                                lemma_after_ascii(b, start + 1);
                            }
                        }
                        lx.pos = start + len;
                        tok = t;
                    },
                    None => {
                        proof {
                            assert(lex_from(b, start as int) == Err::<Seq<TokenAt>, LexFailure>(LexFailure::BadChar(start as int)));
                            assert(lex_from(b, 0) == Err::<Seq<TokenAt>, LexFailure>(LexFailure::BadChar(start as int)));
                        }
                        let ch = char_at(lx.src, start);
                        return Some(Err(LexError { offset: start, ch }));
                    },
                }
            }
            let ghost prev_done = done;
            proof {
                assert(!is_blank(b[start as int]));
                assert(token_at(b, start as int) == Some((tok@, lx.pos as int)));
                assert(lex_from(b, start as int) == (match lex_from(b, lx.pos as int) {
                    Ok(rest) => Ok(seq![(tok@, start as int, lx.pos as int)] + rest),
                    Err(f) => Err::<Seq<TokenAt>, LexFailure>(f),
                }));
                if let Ok(rest) = lex_from(b, lx.pos as int) {
                    assert(prev_done + (seq![(tok@, start as int, lx.pos as int)] + rest)
                        =~= prev_done.push((tok@, start as int, lx.pos as int)) + rest);
                }
            }
            out.push((tok, Range { start, end: lx.pos }));
            proof {
                done = done.push((tok@, start as int, lx.pos as int));
                assert(done =~= prev_done + seq![(tok@, start as int, lx.pos as int)]);
            }
        }
        proof {
            assert(done + seq![] =~= done);
        }
        Some(Ok(out))
    }

    fn lex_number(&mut self, start: usize) -> (t: Option<Token>)
        requires
            old(self).bytes@ == old(self).src.spec_bytes(),
            vstd::utf8::valid_utf8(old(self).bytes@),
            start == old(self).pos,
            start < old(self).bytes@.len(),
            is_digit_byte(old(self).bytes@[start as int]),
        ensures
            final(self).src == old(self).src,
            final(self).bytes == old(self).bytes,
            match t {
                Some(x) => token_at(old(self).bytes@, start as int) == Some((x@, final(self).pos as int))
                    && !(x@ matches TokenView::Int(v) && v > i128::MAX),
                None => token_at(old(self).bytes@, start as int) matches Some((TokenView::Int(v), _)) && v > i128::MAX,
            },
            final(self).pos > start,
            at_boundary(old(self).bytes@, final(self).pos as int),
    {
        let ghost b = self.bytes@;
        let n = self.bytes.len();
        proof {
            lemma_digits_end(b, start as int);
        }
        while self.pos < n && 0x30u8 <= self.bytes[self.pos] && self.bytes[self.pos] <= 0x39u8
            invariant
                self.bytes@ == b,
                self.src == old(self).src,
                self.bytes == old(self).bytes,
                n == b.len(),
                start <= self.pos <= n,
                digits_end(b, start as int) == digits_end(b, self.pos as int),
            decreases n - self.pos,
        {
            self.pos = self.pos + 1;
        }
        let e = self.pos;
        proof {
            lemma_digits_end(b, start as int);
            lemma_ascii_run_boundary(b, start as int, e as int);
        }
        if e < n && self.bytes[e] == 0x2eu8 && e + 1 < n && 0x30u8 <= self.bytes[e + 1] && self.bytes[e + 1] <= 0x39u8 {
            self.pos = e + 1;
            proof {
                lemma_digits_end(b, e + 1);
            }
            while self.pos < n && 0x30u8 <= self.bytes[self.pos] && self.bytes[self.pos] <= 0x39u8
                invariant
                    self.bytes@ == b,
                    self.src == old(self).src,
                    self.bytes == old(self).bytes,
                    n == b.len(),
                    e + 1 <= self.pos <= n,
                    digits_end(b, e + 1) == digits_end(b, self.pos as int),
                decreases n - self.pos,
            {
                self.pos = self.pos + 1;
            }
            let f = self.pos;
            proof {
                lemma_digits_end(b, e + 1);
                assert forall|k: int| start <= k < f implies #[trigger] b[k] < 0x80u8 by {
                    if k < e {
                    } else if k == e {
                    } else {
                    }
                }
                lemma_ascii_run_boundary(b, start as int, f as int);
            }
            let text = sub_str(self.src, start, f);
            Some(Token::Float(owned(text)))
        } else {
            match Self::int_value(self.bytes, start, e) {
                Some(v) => Some(Token::Int(v)),
                None => None,
            }
        }
    }

    fn lex_ident(&mut self, start: usize) -> (t: Token)
        requires
            old(self).bytes@ == old(self).src.spec_bytes(),
            vstd::utf8::valid_utf8(old(self).bytes@),
            start == old(self).pos,
            start < old(self).bytes@.len(),
            is_alpha_byte(old(self).bytes@[start as int]) || old(self).bytes@[start as int] == 0x5fu8,
        ensures
            final(self).src == old(self).src,
            final(self).bytes == old(self).bytes,
            token_at(old(self).bytes@, start as int) == Some((t@, final(self).pos as int)),
            final(self).pos > start,
            at_boundary(old(self).bytes@, final(self).pos as int),
    {
        let ghost b = self.bytes@;
        let n = self.bytes.len();
        while self.pos < n && ident_byte(self.bytes[self.pos])
            invariant
                self.bytes@ == b,
                self.src == old(self).src,
                self.bytes == old(self).bytes,
                n == b.len(),
                start <= self.pos <= n,
                ident_end(b, start as int) == ident_end(b, self.pos as int),
            decreases n - self.pos,
        {
            self.pos = self.pos + 1;
        }
        let e = self.pos;
        proof {
            lemma_ident_end(b, start as int);
            lemma_ascii_run_boundary(b, start as int, e as int);
        }
        let text = sub_str(self.src, start, e);
        Token::Ident(owned(text))
    }
}


/// Each operator and punctuation byte stands for its own token.
pub proof fn law_symbol_tokens()
    ensures
        single_token('+' as u8) == Some(TokenView::Plus),
        single_token('-' as u8) == Some(TokenView::Minus),
        single_token('*' as u8) == Some(TokenView::Star),
        single_token('/' as u8) == Some(TokenView::Slash),
        single_token('%' as u8) == Some(TokenView::Percent),
        single_token('^' as u8) == Some(TokenView::Caret),
        single_token('(' as u8) == Some(TokenView::LParen),
        single_token(')' as u8) == Some(TokenView::RParen),
        single_token(',' as u8) == Some(TokenView::Comma),
        single_token('.' as u8) == Some(TokenView::Dot),
        forall|b: Seq<u8>, p: int| 0 <= p && p + 1 < b.len() && b[p] == '<' as u8 && b[p + 1] == '=' as u8
            ==> #[trigger] token_at(b, p) == Some((TokenView::Le, p + 2)),
        forall|b: Seq<u8>, p: int| 0 <= p && p + 1 < b.len() && b[p] == '>' as u8 && b[p + 1] == '=' as u8
            ==> #[trigger] token_at(b, p) == Some((TokenView::Ge, p + 2)),
        forall|b: Seq<u8>, p: int| 0 <= p && p + 1 < b.len() && b[p] == '=' as u8 && b[p + 1] == '=' as u8
            ==> #[trigger] token_at(b, p) == Some((TokenView::Eq, p + 2)),
        forall|b: Seq<u8>, p: int| 0 <= p && p + 1 < b.len() && b[p] == '!' as u8 && b[p + 1] == '=' as u8
            ==> #[trigger] token_at(b, p) == Some((TokenView::Ne, p + 2)),
        forall|b: Seq<u8>, p: int| 0 <= p && p + 1 < b.len() && b[p] == '<' as u8 && b[p + 1] != '=' as u8
            ==> #[trigger] token_at(b, p) == Some((TokenView::Lt, p + 1)),
        forall|b: Seq<u8>, p: int| 0 <= p && p + 1 < b.len() && b[p] == '>' as u8 && b[p + 1] != '=' as u8
            ==> #[trigger] token_at(b, p) == Some((TokenView::Gt, p + 1)),
{
}

} // verus!
