//! Precedence-climbing parser for the expression language.
//!
//! Binding powers: `==`/`!=` 30, comparisons 40, `+`/`-` 50, `*`/`/`/`%`
//! 60, `^` 70 (right-associative), unary minus 80. Comparisons and
//! equalities do not chain.

use vstd::prelude::*;
use vstd::utf8::decode_utf8;
use core::ops::Range;
use crate::config::math::ast::{expr_view, exprs_view, BinaryOp, Expr, ExprView, Function, UnaryOp};
use crate::config::math::lexer::{Token, TokenView};
use crate::text::{lemma_utf8_injective, owned, push_str, str_eq, utf8};

verus! {

#[derive(Debug, Clone, Copy, PartialEq, Eq, Structural)]
pub enum ParseErrorKind {
    UnknownFunction,
    Generic,
}

#[derive(Debug, Clone)]
pub struct ParseError {
    pub kind: ParseErrorKind,
    pub offset: usize,
    pub message: String,
}

pub struct ParseErrorView {
    pub kind: ParseErrorKind,
    pub offset: int,
    pub message: Seq<char>,
}

impl View for ParseError {
    type V = ParseErrorView;

    open spec fn view(&self) -> ParseErrorView {
        ParseErrorView { kind: self.kind, offset: self.offset as int, message: self.message@ }
    }
}

/// A token with its byte range.
pub type Tok = (TokenView, int, int);

pub open spec fn tokens_view(ts: Seq<(Token, Range<usize>)>) -> Seq<Tok> {
    ts.map_values(|t: (Token, Range<usize>)| (t.0@, t.1.start as int, t.1.end as int))
}

/// Where an error at token `pos` is reported: the start of that token, or
/// the end of the last token past the end.
pub open spec fn cur_off(ts: Seq<Tok>, pos: int) -> int {
    if 0 <= pos < ts.len() {
        ts[pos].1
    } else if ts.len() > 0 {
        ts[ts.len() - 1].2
    } else {
        0
    }
}

pub open spec fn generic(ts: Seq<Tok>, pos: int, msg: Seq<char>) -> ParseErrorView {
    ParseErrorView { kind: ParseErrorKind::Generic, offset: cur_off(ts, pos), message: msg }
}

/// The binary operator a token stands for, with its left and right binding power.
pub open spec fn binop_of(t: TokenView) -> Option<(BinaryOp, u8, u8)> {
    match t {
        TokenView::Plus => Some((BinaryOp::Add, 50, 51)),
        TokenView::Minus => Some((BinaryOp::Sub, 50, 51)),
        TokenView::Star => Some((BinaryOp::Mul, 60, 61)),
        TokenView::Slash => Some((BinaryOp::Div, 60, 61)),
        TokenView::Percent => Some((BinaryOp::Mod, 60, 61)),
        TokenView::Caret => Some((BinaryOp::Pow, 71, 70)),
        TokenView::Lt => Some((BinaryOp::Lt, 40, 41)),
        TokenView::Gt => Some((BinaryOp::Gt, 40, 41)),
        TokenView::Le => Some((BinaryOp::Le, 40, 41)),
        TokenView::Ge => Some((BinaryOp::Ge, 40, 41)),
        TokenView::Eq => Some((BinaryOp::Eq, 30, 31)),
        TokenView::Ne => Some((BinaryOp::Ne, 30, 31)),
        _ => None,
    }
}

pub open spec fn is_ordering(op: BinaryOp) -> bool {
    op == BinaryOp::Lt || op == BinaryOp::Gt || op == BinaryOp::Le || op == BinaryOp::Ge
}

pub open spec fn is_equality(op: BinaryOp) -> bool {
    op == BinaryOp::Eq || op == BinaryOp::Ne
}

/// The complaint about applying `op` to a left side that is already a
/// comparison of the same family, if any.
pub open spec fn chained(op: BinaryOp, lhs: ExprView) -> Option<Seq<char>> {
    match lhs {
        ExprView::Binary(prev, _, _) => if is_ordering(op) && is_ordering(prev) {
            Some("chained comparisons (a < b < c) are not allowed"@)
        } else if is_equality(op) && is_equality(prev) {
            Some("chained equality comparisons are not allowed"@)
        } else {
            None
        },
        _ => None,
    }
}

/// The built-in function a name denotes.
pub open spec fn function_of(name: Seq<u8>) -> Option<Function> {
    if name == utf8("round"@) {
        Some(Function::Round)
    } else if name == utf8("min"@) {
        Some(Function::Min)
    } else if name == utf8("max"@) {
        Some(Function::Max)
    } else {
        None
    }
}

/// The result of parsing from a token position: the expression and the
/// position after it.
pub type Parsed = Result<(ExprView, int), ParseErrorView>;

/// A dotted variable name `a.b.c`, continued from `pos`.
pub open spec fn dotted(ts: Seq<Tok>, pos: int, name: Seq<u8>) -> (ExprView, int)
    decreases ts.len() - pos,
{
    if 0 <= pos && pos + 1 < ts.len() && ts[pos].0 is Dot && ts[pos + 1].0 is Ident {
        match ts[pos + 1].0 {
            TokenView::Ident(seg) => dotted(ts, pos + 2, name + utf8("."@) + seg),
            _ => (ExprView::Var(name), pos),
        }
    } else {
        (ExprView::Var(name), pos)
    }
}

/// An expression whose operators bind at least as tightly as `min_bp`.
pub open spec fn parse_bp(ts: Seq<Tok>, pos: int, min_bp: u8) -> Parsed
    decreases ts.len() - pos, 2int,
{
    match parse_prefix(ts, pos) {
        Err(e) => Err(e),
        Ok((lhs, p)) => if pos < p <= ts.len() {
            parse_infix(ts, p, lhs, min_bp)
        } else {
            Err(generic(ts, p, seq![]))
        },
    }
}

/// A literal, variable, call, negation or parenthesised expression.
pub open spec fn parse_prefix(ts: Seq<Tok>, pos: int) -> Parsed
    decreases ts.len() - pos, 1int,
{
    if pos < 0 || pos >= ts.len() {
        Err(generic(ts, pos, "unexpected end of expression"@))
    } else {
        match ts[pos].0 {
            TokenView::Int(n) => Ok((ExprView::Int(n), pos + 1)),
            TokenView::Float(t) => Ok((ExprView::Float(t), pos + 1)),
            TokenView::Ident(name) => if pos + 1 < ts.len() && ts[pos + 1].0 is LParen {
                parse_call(ts, pos + 1, name)
            } else {
                Ok(dotted(ts, pos + 1, name))
            },
            TokenView::Minus => match parse_bp(ts, pos + 1, 80) {
                Ok((r, p)) => Ok((ExprView::Unary(UnaryOp::Neg, Box::new(r)), p)),
                Err(e) => Err(e),
            },
            TokenView::LParen => match parse_bp(ts, pos + 1, 0) {
                Ok((e, p)) => if 0 <= p < ts.len() && ts[p].0 is RParen {
                    Ok((e, p + 1))
                } else {
                    Err(generic(ts, p, "expected `)`"@))
                },
                Err(e) => Err(e),
            },
            _ => Err(generic(ts, pos, "unexpected end of expression"@)),
        }
    }
}

/// Binary operators applied to `lhs` from `pos` on.
pub open spec fn parse_infix(ts: Seq<Tok>, pos: int, lhs: ExprView, min_bp: u8) -> Parsed
    decreases ts.len() - pos, 1int,
{
    let op = if 0 <= pos < ts.len() { binop_of(ts[pos].0) } else { None };
    match op {
        None => Ok((lhs, pos)),
        Some((o, lbp, rbp)) => if lbp < min_bp {
            Ok((lhs, pos))
        } else {
            match chained(o, lhs) {
                Some(msg) => Err(generic(ts, pos, msg)),
                None => match parse_bp(ts, pos + 1, rbp) {
                    Err(e) => Err(e),
                    Ok((rhs, p)) => if pos < p <= ts.len() {
                        parse_infix(ts, p, ExprView::Binary(o, Box::new(lhs), Box::new(rhs)), min_bp)
                    } else {
                        Err(generic(ts, p, seq![]))
                    },
                },
            }
        }
    }
}

/// A call `name(args)` whose `(` is at `pos`, with an optional `.N` precision.
pub open spec fn parse_call(ts: Seq<Tok>, pos: int, name: Seq<u8>) -> Parsed
    decreases ts.len() - pos, 1int,
{
    match function_of(name) {
        None => Err(ParseErrorView {
            kind: ParseErrorKind::UnknownFunction,
            offset: cur_off(ts, pos),
            message: "unknown function \""@ + decode_utf8(name) + "\""@,
        }),
        Some(f) => if !(0 <= pos < ts.len() && ts[pos].0 is LParen) {
            Err(generic(ts, pos, "expected `(`"@))
        } else {
            let args = if pos + 1 < ts.len() && ts[pos + 1].0 is RParen {
                Ok((Seq::<ExprView>::empty(), pos + 1))
            } else {
                parse_args(ts, pos + 1, seq![])
            };
            match args {
                Err(e) => Err(e),
                Ok((a, p)) => if 0 <= p < ts.len() && ts[p].0 is RParen {
                    precision_suffix(ts, p + 1, f, a)
                } else {
                    Err(generic(ts, if 0 <= p < ts.len() { p + 1 } else { p }, "expected `)`"@))
                },
            }
        },
    }
}

/// Comma-separated arguments from `pos` up to the closing `)`, after `acc`.
pub open spec fn parse_args(ts: Seq<Tok>, pos: int, acc: Seq<ExprView>) -> Result<(Seq<ExprView>, int), ParseErrorView>
    decreases ts.len() - pos, 3int,
{
    match parse_bp(ts, pos, 0) {
        Err(e) => Err(e),
        Ok((e, p)) => if !(pos < p <= ts.len()) {
            Err(generic(ts, p, seq![]))
        } else if p < ts.len() && ts[p].0 is Comma {
            parse_args(ts, p + 1, acc.push(e))
        } else if p < ts.len() && ts[p].0 is RParen {
            Ok((acc.push(e), p))
        } else {
            Err(generic(ts, p, "expected `,` or `)`"@))
        },
    }
}

/// `.N` after the `)` of a call at `pos`: only `round` takes it.
pub open spec fn precision_suffix(ts: Seq<Tok>, pos: int, f: Function, args: Seq<ExprView>) -> Parsed {
    if 0 <= pos < ts.len() && ts[pos].0 is Dot {
        let q = pos + 1;
        if q < ts.len() && (ts[q].0 matches TokenView::Int(n) && 0 <= n <= 255) {
            if f != Function::Round {
                Err(generic(ts, q + 1, "precision suffix `.N` is only valid on round(...)"@))
            } else {
                match ts[q].0 {
                    TokenView::Int(n) => Ok((ExprView::Call(f, args, Some(n as u8)), q + 1)),
                    _ => Err(generic(ts, q + 1, seq![])),
                }
            }
        } else {
            Err(generic(ts, if q < ts.len() { q + 1 } else { q }, "expected integer after `.`"@))
        }
    } else {
        Ok((ExprView::Call(f, args, None), pos))
    }
}

/// A whole token sequence: one expression and nothing after it.
pub open spec fn spec_parse(ts: Seq<Tok>) -> Result<ExprView, ParseErrorView> {
    match parse_bp(ts, 0, 0) {
        Err(e) => Err(e),
        Ok((e, p)) => if p < ts.len() {
            Err(ParseErrorView {
                kind: ParseErrorKind::Generic,
                offset: ts[p].1,
                message: "unexpected token after expression"@,
            })
        } else {
            Ok(e)
        },
    }
}

// ----------------------------------------------------------- the parser

struct Parser<'a> {
    tokens: &'a [(Token, Range<usize>)],
    pos: usize,
}

fn binop_at(t: &Token) -> (r: Option<(BinaryOp, u8, u8)>)
    ensures
        r == binop_of(t@),
{
    match t {
        Token::Plus => Some((BinaryOp::Add, 50, 51)),
        Token::Minus => Some((BinaryOp::Sub, 50, 51)),
        Token::Star => Some((BinaryOp::Mul, 60, 61)),
        Token::Slash => Some((BinaryOp::Div, 60, 61)),
        Token::Percent => Some((BinaryOp::Mod, 60, 61)),
        Token::Caret => Some((BinaryOp::Pow, 71, 70)),
        Token::Lt => Some((BinaryOp::Lt, 40, 41)),
        Token::Gt => Some((BinaryOp::Gt, 40, 41)),
        Token::Le => Some((BinaryOp::Le, 40, 41)),
        Token::Ge => Some((BinaryOp::Ge, 40, 41)),
        Token::Eq => Some((BinaryOp::Eq, 30, 31)),
        Token::Ne => Some((BinaryOp::Ne, 30, 31)),
        _ => None,
    }
}

fn chain_message(op: BinaryOp, lhs: &Expr) -> (r: Option<&'static str>)
    ensures
        match chained(op, expr_view(*lhs)) {
            Some(m) => r matches Some(x) && x@ == m,
            None => r is None,
        },
{
    match lhs {
        Expr::Binary(prev, _, _) => {
            let ord = |o: BinaryOp| -> (b: bool)
                ensures b == is_ordering(o)
            { o == BinaryOp::Lt || o == BinaryOp::Gt || o == BinaryOp::Le || o == BinaryOp::Ge };
            if ord(op) && ord(*prev) {
                Some("chained comparisons (a < b < c) are not allowed")
            } else if (op == BinaryOp::Eq || op == BinaryOp::Ne) && (*prev == BinaryOp::Eq || *prev == BinaryOp::Ne) {
                Some("chained equality comparisons are not allowed")
            } else {
                None
            }
        },
        _ => None,
    }
}

impl<'a> Parser<'a> {
    spec fn ts(&self) -> Seq<Tok> {
        tokens_view(self.tokens@)
    }

    fn is_at(&self, i: usize, kind: u8) -> (r: bool)
        ensures
            r == (i < self.tokens@.len() && match kind {
                0 => self.ts()[i as int].0 is LParen,
                1 => self.ts()[i as int].0 is RParen,
                2 => self.ts()[i as int].0 is Comma,
                3 => self.ts()[i as int].0 is Dot,
                _ => self.ts()[i as int].0 is Ident,
            }),
    {
        if i >= self.tokens.len() {
            return false;
        }
        match (&self.tokens[i].0, kind) {
            (Token::LParen, 0) => true,
            (Token::RParen, 1) => true,
            (Token::Comma, 2) => true,
            (Token::Dot, 3) => true,
            (Token::Ident(_), k) => k > 3,
            _ => false,
        }
    }

    fn err(&self, message: &str) -> (e: ParseError)
        ensures
            e@ == generic(self.ts(), self.pos as int, message@),
    {
        let n = self.tokens.len();
        let offset = if self.pos < n {
            self.tokens[self.pos].1.start
        } else if n > 0 {
            self.tokens[n - 1].1.end
        } else {
            0
        };
        ParseError { kind: ParseErrorKind::Generic, offset, message: owned(message) }
    }

    fn parse_bp(&mut self, min_bp: u8) -> (r: Result<Expr, ParseError>)
        requires
            old(self).pos <= old(self).tokens@.len(),
        ensures
            final(self).tokens == old(self).tokens,
            match parse_bp(old(self).ts(), old(self).pos as int, min_bp) {
                Ok((e, p)) => r matches Ok(x) && expr_view(x) == e && final(self).pos == p
                    && old(self).pos < p <= old(self).tokens@.len(),
                Err(err) => r matches Err(x) && x@ == err,
            },
        decreases old(self).tokens@.len() - old(self).pos, 2int,
    {
        let ghost ts = self.ts();
        let ghost pos0 = self.pos as int;
        let mut lhs = match self.parse_prefix() {
            Ok(e) => e,
            Err(e) => return Err(e),
        };
        loop
            invariant
                self.tokens == old(self).tokens,
                ts == self.ts(),
                pos0 == old(self).pos,
                pos0 < self.pos <= self.tokens@.len(),
                parse_bp(ts, pos0, min_bp) == parse_infix(ts, self.pos as int, expr_view(lhs), min_bp),
            decreases self.tokens@.len() - self.pos,
        {
            if self.pos >= self.tokens.len() {
                return Ok(lhs);
            }
            let (op, lbp, rbp) = match binop_at(&self.tokens[self.pos].0) {
                Some(t) => t,
                None => return Ok(lhs),
            };
            if lbp < min_bp {
                return Ok(lhs);
            }
            match chain_message(op, &lhs) {
                Some(m) => return Err(self.err(m)),
                None => {},
            }
            self.pos = self.pos + 1;
            let rhs = match self.parse_bp(rbp) {
                Ok(e) => e,
                Err(e) => return Err(e),
            };
            lhs = Expr::Binary(op, Box::new(lhs), Box::new(rhs));
        }
    }

    fn parse_prefix(&mut self) -> (r: Result<Expr, ParseError>)
        requires
            old(self).pos <= old(self).tokens@.len(),
        ensures
            final(self).tokens == old(self).tokens,
            match parse_prefix(old(self).ts(), old(self).pos as int) {
                Ok((e, p)) => r matches Ok(x) && expr_view(x) == e && final(self).pos == p
                    && old(self).pos < p <= old(self).tokens@.len(),
                Err(err) => r matches Err(x) && x@ == err,
            },
        decreases old(self).tokens@.len() - old(self).pos, 1int,
    {
        let ghost ts = self.ts();
        let n = self.tokens.len();
        if self.pos >= n {
            return Err(self.err("unexpected end of expression"));
        }
        let start = self.pos;
        match &self.tokens[start].0 {
            Token::Int(v) => {
                self.pos = start + 1;
                Ok(Expr::Int(*v))
            },
            Token::Float(t) => {
                self.pos = start + 1;
                Ok(Expr::Float(t.clone()))
            },
            Token::Ident(name) => {
                let name = name.clone();
                self.pos = start + 1;
                if self.is_at(start + 1, 0) {
                    self.parse_call(name)
                } else {
                    Ok(self.parse_dotted(name))
                }
            },
            Token::Minus => {
                self.pos = start + 1;
                match self.parse_bp(80) {
                    Ok(r) => Ok(Expr::Unary(UnaryOp::Neg, Box::new(r))),
                    Err(e) => Err(e),
                }
            },
            Token::LParen => {
                self.pos = start + 1;
                let e = match self.parse_bp(0) {
                    Ok(e) => e,
                    Err(e) => return Err(e),
                };
                if self.is_at(self.pos, 1) {
                    self.pos = self.pos + 1;
                    Ok(e)
                } else {
                    Err(self.err("expected `)`"))
                }
            },
            _ => Err(self.err("unexpected end of expression")),
        }
    }

    fn parse_dotted(&mut self, name: String) -> (r: Expr)
        requires
            old(self).pos <= old(self).tokens@.len(),
        ensures
            final(self).tokens == old(self).tokens,
            dotted(old(self).ts(), old(self).pos as int, utf8(name@)) == (expr_view(r), final(self).pos as int),
            old(self).pos <= final(self).pos <= old(self).tokens@.len(),
    {
        let ghost ts = self.ts();
        let ghost pos0 = self.pos as int;
        let ghost name0 = utf8(name@);
        let mut name = name;
        while self.is_at(self.pos, 3) && self.is_at(self.pos + 1, 4)
            invariant
                self.tokens == old(self).tokens,
                ts == self.ts(),
                pos0 == old(self).pos,
                pos0 <= self.pos <= self.tokens@.len(),
                dotted(ts, pos0, name0) == dotted(ts, self.pos as int, utf8(name@)),
            decreases self.tokens@.len() - self.pos,
        {
            match &self.tokens[self.pos + 1].0 {
                Token::Ident(seg) => {
                    push_str(&mut name, ".");
                    push_str(&mut name, seg.as_str());
                },
                _ => {},
            }
            self.pos = self.pos + 2;
        }
        Expr::Var(name)
    }

    fn parse_call(&mut self, name: String) -> (r: Result<Expr, ParseError>)
        requires
            old(self).pos < old(self).tokens@.len(),
            old(self).ts()[old(self).pos as int].0 is LParen,
        ensures
            final(self).tokens == old(self).tokens,
            match parse_call(old(self).ts(), old(self).pos as int, utf8(name@)) {
                Ok((e, p)) => r matches Ok(x) && expr_view(x) == e && final(self).pos == p
                    && old(self).pos < p <= old(self).tokens@.len(),
                Err(err) => r matches Err(x) && x@ == err,
            },
        decreases old(self).tokens@.len() - old(self).pos, 1int,
    {
        let ghost ts = self.ts();
        let ghost nb = utf8(name@);
        proof {
            if name@ != "round"@ {
                if nb == utf8("round"@) { lemma_utf8_injective(name@, "round"@); }
            }
            if name@ != "min"@ {
                if nb == utf8("min"@) { lemma_utf8_injective(name@, "min"@); }
            }
            if name@ != "max"@ {
                if nb == utf8("max"@) { lemma_utf8_injective(name@, "max"@); }
            }
        }
        let func = if str_eq(name.as_str(), "round") {
            Function::Round
        } else if str_eq(name.as_str(), "min") {
            Function::Min
        } else if str_eq(name.as_str(), "max") {
            Function::Max
        } else {
            let n = self.tokens.len();
            let offset = if self.pos < n { self.tokens[self.pos].1.start } else if n > 0 { self.tokens[n - 1].1.end } else { 0 };
            let mut message = String::new();
            push_str(&mut message, "unknown function \"");
            push_str(&mut message, name.as_str());
            push_str(&mut message, "\"");
            proof {
                vstd::utf8::encode_utf8_decode_utf8(name@);
            }
            return Err(ParseError { kind: ParseErrorKind::UnknownFunction, offset, message });
        };
        let n = self.tokens.len();
        let lp = self.pos;
        self.pos = lp + 1;
        let mut args: Vec<Expr> = Vec::new();
        if !self.is_at(self.pos, 1) {
            loop
                invariant_except_break
                    parse_args(ts, lp + 1, seq![]) == parse_args(ts, self.pos as int, exprs_view(args@)),
                invariant
                    self.tokens == old(self).tokens,
                    ts == self.ts(),
                    n == self.tokens@.len(),
                    lp == old(self).pos,
                    lp < self.pos <= n,
                    ts.len() == n,
                    nb == utf8(name@),
                    function_of(nb) == Some(func),
                    parse_call(ts, lp as int, nb) == (match parse_args(ts, lp + 1, seq![]) {
                        Err(e) => Err(e),
                        Ok((a, p)) => if 0 <= p < ts.len() && ts[p].0 is RParen {
                            precision_suffix(ts, p + 1, func, a)
                        } else {
                            Err(generic(ts, if 0 <= p < ts.len() { p + 1 } else { p }, "expected `)`"@))
                        },
                    }),
                ensures
                    self.pos < n,
                    ts[self.pos as int].0 is RParen,
                    parse_args(ts, lp + 1, seq![]) == Ok::<(Seq<ExprView>, int), ParseErrorView>((exprs_view(args@), self.pos as int)),
                decreases n - self.pos,
            {
                let ghost before = self.pos as int;
                let e = match self.parse_bp(0) {
                    Ok(e) => e,
                    Err(e) => {
                        assert(parse_args(ts, before, exprs_view(args@)) == Err::<(Seq<ExprView>, int), ParseErrorView>(e@));
                        return Err(e);
                    },
                };
                proof {
                    lemma_exprs_view_push(args@, e);
                }
                if self.is_at(self.pos, 2) {
                    args.push(e);
                    self.pos = self.pos + 1;
                } else if self.is_at(self.pos, 1) {
                    args.push(e);
                    break;
                } else {
                    return Err(self.err("expected `,` or `)`"));
                }
            }
        } else {
            proof {
                assert(exprs_view(args@) =~= Seq::<ExprView>::empty());
            }
        }
        if !self.is_at(self.pos, 1) {
            if self.pos < self.tokens.len() {
                self.pos = self.pos + 1;
            }
            return Err(self.err("expected `)`"));
        }
        self.pos = self.pos + 1;
        if self.is_at(self.pos, 3) {
            self.pos = self.pos + 1;
            if self.pos < self.tokens.len() {
                let q = self.pos;
                self.pos = q + 1;
                match &self.tokens[q].0 {
                    Token::Int(v) => {
                        if *v >= 0 && *v <= 255 {
                            if func != Function::Round {
                                return Err(self.err("precision suffix `.N` is only valid on round(...)"));
                            }
                            return Ok(Expr::Call(func, args, Some(*v as u8)));
                        }
                    },
                    _ => {},
                }
            }
            return Err(self.err("expected integer after `.`"));
        }
        Ok(Expr::Call(func, args, None))
    }
}

proof fn lemma_exprs_view_push(s: Seq<Expr>, e: Expr)
    ensures
        exprs_view(s.push(e)) == exprs_view(s).push(expr_view(e)),
    decreases s.len(),
{
    if s.len() == 0 {
        let t = s.push(e);
        assert(t.drop_first() =~= Seq::<Expr>::empty());
        assert(exprs_view(t.drop_first()) =~= Seq::<ExprView>::empty());
        assert(t[0] == e);
        assert(exprs_view(t) =~= seq![expr_view(e)]);
    } else {
        lemma_exprs_view_push(s.drop_first(), e);
        assert(s.push(e).drop_first() =~= s.drop_first().push(e));
        assert(exprs_view(s.push(e)) =~= exprs_view(s).push(expr_view(e)));
    }
}

/// Parses a token sequence into one expression.
pub fn parse(tokens: &[(Token, Range<usize>)]) -> (r: Result<Expr, ParseError>)
    ensures
        match spec_parse(tokens_view(tokens@)) {
            Ok(e) => r matches Ok(x) && expr_view(x) == e,
            Err(err) => r matches Err(x) && x@ == err,
        },
{
    let mut p = Parser { tokens, pos: 0 };
    let expr = match p.parse_bp(0) {
        Ok(e) => e,
        Err(e) => return Err(e),
    };
    if p.pos < tokens.len() {
        return Err(ParseError {
            kind: ParseErrorKind::Generic,
            offset: tokens[p.pos].1.start,
            message: owned("unexpected token after expression"),
        });
    }
    Ok(expr)
}


pub open spec fn additive(t: TokenView) -> bool {
    t is Plus || t is Minus
}

pub open spec fn multiplicative(t: TokenView) -> bool {
    t is Star || t is Slash || t is Percent
}

pub open spec fn comparison(t: TokenView) -> bool {
    t is Lt || t is Gt || t is Le || t is Ge
}

pub open spec fn left_power(t: TokenView) -> int {
    match binop_of(t) {
        Some((_, l, _)) => l as int,
        None => 0,
    }
}

pub open spec fn right_power(t: TokenView) -> int {
    match binop_of(t) {
        Some((_, _, r)) => r as int,
        None => 0,
    }
}

pub open spec fn op_of(t: TokenView) -> BinaryOp {
    match binop_of(t) {
        Some((o, _, _)) => o,
        None => BinaryOp::Add,
    }
}

/// Each symbol stands for its own operator.
pub proof fn law_operator_symbols()
    ensures
        op_of(TokenView::Plus) == BinaryOp::Add,
        op_of(TokenView::Minus) == BinaryOp::Sub,
        op_of(TokenView::Star) == BinaryOp::Mul,
        op_of(TokenView::Slash) == BinaryOp::Div,
        op_of(TokenView::Percent) == BinaryOp::Mod,
        op_of(TokenView::Caret) == BinaryOp::Pow,
        op_of(TokenView::Lt) == BinaryOp::Lt,
        op_of(TokenView::Gt) == BinaryOp::Gt,
        op_of(TokenView::Le) == BinaryOp::Le,
        op_of(TokenView::Ge) == BinaryOp::Ge,
        op_of(TokenView::Eq) == BinaryOp::Eq,
        op_of(TokenView::Ne) == BinaryOp::Ne,
{
}

/// The precedence of the operators: `^` binds tighter than `*`, `/` and
/// `%`, which bind tighter than `+` and `-`, which bind tighter than the
/// comparisons, which bind tighter than `==` and `!=`; unary minus binds
/// tighter than all of them. Every operator but `^` groups to the left;
/// `^` groups to the right.
pub proof fn law_binding_order(x: TokenView, y: TokenView)
    ensures
        multiplicative(y) && additive(x) ==> left_power(y) > right_power(x),
        additive(y) && comparison(x) ==> left_power(y) > right_power(x),
        comparison(y) && (x is Eq || x is Ne) ==> left_power(y) > right_power(x),
        y is Caret && multiplicative(x) ==> left_power(y) > right_power(x),
        multiplicative(y) && additive(x) ==> left_power(x) < right_power(y) && left_power(x) < left_power(y),
        (additive(x) && additive(y)) || (multiplicative(x) && multiplicative(y)) || (comparison(x) && comparison(y))
            ==> left_power(y) < right_power(x),
        x is Caret ==> right_power(x) < left_power(x),
        binop_of(x) is Some ==> left_power(x) < 80,
{
}

/// Three numbers joined by an additive and a multiplicative operator: the
/// multiplicative one takes its two neighbours, whichever side it is on.
pub proof fn law_product_binds_tighter(ts: Seq<Tok>, a: int, b: int, c: int)
    requires
        ts.len() == 5,
        ts[0].0 == TokenView::Int(a),
        ts[2].0 == TokenView::Int(b),
        ts[4].0 == TokenView::Int(c),
        (additive(ts[1].0) && multiplicative(ts[3].0)) || (multiplicative(ts[1].0) && additive(ts[3].0)),
    ensures
        additive(ts[1].0) ==> spec_parse(ts) == Ok::<ExprView, ParseErrorView>(ExprView::Binary(op_of(ts[1].0),
            Box::new(ExprView::Int(a)), Box::new(ExprView::Binary(op_of(ts[3].0), Box::new(ExprView::Int(b)), Box::new(ExprView::Int(c)))))),
        multiplicative(ts[1].0) ==> spec_parse(ts) == Ok::<ExprView, ParseErrorView>(ExprView::Binary(op_of(ts[3].0),
            Box::new(ExprView::Binary(op_of(ts[1].0), Box::new(ExprView::Int(a)), Box::new(ExprView::Int(b)))), Box::new(ExprView::Int(c)))),
{
    let ea = ExprView::Int(a);
    let eb = ExprView::Int(b);
    let ec = ExprView::Int(c);
    let (p, q) = (ts[1].0, ts[3].0);
    assert(parse_prefix(ts, 0) == Ok::<(ExprView, int), ParseErrorView>((ea, 1)));
    assert(parse_prefix(ts, 2) == Ok::<(ExprView, int), ParseErrorView>((eb, 3)));
    assert(parse_prefix(ts, 4) == Ok::<(ExprView, int), ParseErrorView>((ec, 5)));
    if additive(p) {
        let inner = ExprView::Binary(op_of(q), Box::new(eb), Box::new(ec));
        let whole = ExprView::Binary(op_of(p), Box::new(ea), Box::new(inner));
        assert(parse_infix(ts, 5, ec, 61) == Ok::<(ExprView, int), ParseErrorView>((ec, 5)));
        assert(parse_bp(ts, 4, 61) == Ok::<(ExprView, int), ParseErrorView>((ec, 5)));
        assert(parse_infix(ts, 5, inner, 51) == Ok::<(ExprView, int), ParseErrorView>((inner, 5)));
        assert(parse_infix(ts, 3, eb, 51) == Ok::<(ExprView, int), ParseErrorView>((inner, 5)));
        assert(parse_bp(ts, 2, 51) == Ok::<(ExprView, int), ParseErrorView>((inner, 5)));
        assert(parse_infix(ts, 5, whole, 0) == Ok::<(ExprView, int), ParseErrorView>((whole, 5)));
        assert(parse_infix(ts, 1, ea, 0) == Ok::<(ExprView, int), ParseErrorView>((whole, 5)));
        assert(parse_bp(ts, 0, 0) == Ok::<(ExprView, int), ParseErrorView>((whole, 5)));
    } else {
        let left = ExprView::Binary(op_of(p), Box::new(ea), Box::new(eb));
        let whole = ExprView::Binary(op_of(q), Box::new(left), Box::new(ec));
        assert(parse_infix(ts, 3, eb, 61) == Ok::<(ExprView, int), ParseErrorView>((eb, 3)));
        assert(parse_bp(ts, 2, 61) == Ok::<(ExprView, int), ParseErrorView>((eb, 3)));
        assert(parse_infix(ts, 5, ec, 51) == Ok::<(ExprView, int), ParseErrorView>((ec, 5)));
        assert(parse_bp(ts, 4, 51) == Ok::<(ExprView, int), ParseErrorView>((ec, 5)));
        assert(parse_infix(ts, 5, whole, 0) == Ok::<(ExprView, int), ParseErrorView>((whole, 5)));
        assert(parse_infix(ts, 3, left, 0) == Ok::<(ExprView, int), ParseErrorView>((whole, 5)));
        assert(parse_infix(ts, 1, ea, 0) == Ok::<(ExprView, int), ParseErrorView>((whole, 5)));
        assert(parse_bp(ts, 0, 0) == Ok::<(ExprView, int), ParseErrorView>((whole, 5)));
    }
}

/// Two operators of the same level group to the left: `a - b - c` is
/// `(a - b) - c`, `a / b / c` is `(a / b) / c`.
pub proof fn law_same_level_groups_left(ts: Seq<Tok>, a: int, b: int, c: int)
    requires
        ts.len() == 5,
        ts[0].0 == TokenView::Int(a),
        ts[2].0 == TokenView::Int(b),
        ts[4].0 == TokenView::Int(c),
        (additive(ts[1].0) && additive(ts[3].0)) || (multiplicative(ts[1].0) && multiplicative(ts[3].0)),
    ensures
        spec_parse(ts) == Ok::<ExprView, ParseErrorView>(ExprView::Binary(op_of(ts[3].0),
            Box::new(ExprView::Binary(op_of(ts[1].0), Box::new(ExprView::Int(a)), Box::new(ExprView::Int(b)))), Box::new(ExprView::Int(c)))),
{
    let ea = ExprView::Int(a);
    let eb = ExprView::Int(b);
    let ec = ExprView::Int(c);
    let (p, q) = (ts[1].0, ts[3].0);
    let rp = right_power(p) as u8;
    assert(parse_prefix(ts, 0) == Ok::<(ExprView, int), ParseErrorView>((ea, 1)));
    assert(parse_prefix(ts, 2) == Ok::<(ExprView, int), ParseErrorView>((eb, 3)));
    assert(parse_prefix(ts, 4) == Ok::<(ExprView, int), ParseErrorView>((ec, 5)));
    let left = ExprView::Binary(op_of(p), Box::new(ea), Box::new(eb));
    let whole = ExprView::Binary(op_of(q), Box::new(left), Box::new(ec));
    assert(parse_infix(ts, 3, eb, rp) == Ok::<(ExprView, int), ParseErrorView>((eb, 3)));
    assert(parse_bp(ts, 2, rp) == Ok::<(ExprView, int), ParseErrorView>((eb, 3)));
    let rq = right_power(q) as u8;
    assert(parse_infix(ts, 5, ec, rq) == Ok::<(ExprView, int), ParseErrorView>((ec, 5)));
    assert(parse_bp(ts, 4, rq) == Ok::<(ExprView, int), ParseErrorView>((ec, 5)));
    assert(parse_infix(ts, 5, whole, 0) == Ok::<(ExprView, int), ParseErrorView>((whole, 5)));
    assert(parse_infix(ts, 3, left, 0) == Ok::<(ExprView, int), ParseErrorView>((whole, 5)));
    assert(parse_infix(ts, 1, ea, 0) == Ok::<(ExprView, int), ParseErrorView>((whole, 5)));
    assert(parse_bp(ts, 0, 0) == Ok::<(ExprView, int), ParseErrorView>((whole, 5)));
}

} // verus!
