//! Plain value types of the configuration language.

use vstd::prelude::*;
use vstd::utf8::decode_utf8;
use vstd::string::StringSliceAdditionalSpecFns;
use crate::text::{at_boundary, chars_of, sub_str, utf8};

verus! {

/// Which screen edges a surface is attached to.
#[derive(Debug, Clone, Copy, PartialEq, Eq, Structural)]
pub struct Anchor {
    pub top: bool,
    pub bottom: bool,
    pub left: bool,
    pub right: bool,
}

/// No edge.
pub open spec fn no_anchor() -> Anchor {
    Anchor { top: false, bottom: false, left: false, right: false }
}

impl Default for Anchor {
    fn default() -> (r: Anchor)
        ensures
            r == no_anchor(),
    {
        Anchor { top: false, bottom: false, left: false, right: false }
    }
}

/// An 8-bit RGBA color.
#[derive(Debug, Clone, Copy, PartialEq, Eq, Structural)]
pub struct Color {
    pub r: u8,
    pub g: u8,
    pub b: u8,
    pub a: u8,
}

/// Fully transparent black.
pub open spec fn transparent_color() -> Color {
    Color { r: 0, g: 0, b: 0, a: 0 }
}

impl Color {
    /// Fully transparent black.
    pub fn transparent() -> (r: Color)
        ensures
            r == transparent_color(),
    {
        Color { r: 0, g: 0, b: 0, a: 0 }
    }
}

#[derive(Debug, Clone, Copy, PartialEq, Eq, Structural)]
pub enum Layer {
    Top,
    Bottom,
    Background,
    Overlay,
}

#[derive(Debug, Clone, Copy, PartialEq, Eq, Structural)]
pub enum AlignX {
    Left,
    Center,
    Right,
}

#[derive(Debug, Clone, Copy, PartialEq, Eq, Structural)]
pub enum AlignY {
    Top,
    Center,
    Bottom,
}

#[derive(Debug, Clone, Copy, PartialEq, Eq, Structural)]
pub enum RowAlign {
    Top,
    Center,
    Bottom,
}

#[derive(Debug, Clone, Copy, PartialEq, Eq, Structural)]
pub enum ColAlign {
    Left,
    Center,
    Right,
}

/// The monitor a surface is placed on.
#[derive(Debug, Clone, PartialEq, Eq)]
pub enum Output {
    Last,
    Active,
    Specific(String),
}

/// A field of a configuration element: a literal value, or an expression
/// that is evaluated later.
#[derive(Debug, Clone)]
pub enum FieldValue<T> {
    Literal(T),
    Expr(String),
}


/// A configuration source: its label (a path, or `<test>`) and its text.
#[derive(Debug, Clone)]
pub struct SourceText {
    pub label: String,
    pub text: String,
}

/// A byte range of a configuration source.
#[derive(Debug, Clone)]
pub struct Span {
    pub source: SourceText,
    pub offset: usize,
    pub len: usize,
}

/// The 1-based line and column reached after the characters `cs`.
pub open spec fn line_col_after(cs: Seq<char>) -> (int, int)
    decreases cs.len(),
{
    if cs.len() == 0 {
        (1, 1)
    } else {
        let (line, col) = line_col_after(cs.drop_last());
        if cs.last() == '\n' {
            (line + 1, 1)
        } else {
            (line, col + 1)
        }
    }
}

impl Span {
    /// The offset, clipped to the end of the text.
    pub open spec fn clipped(&self) -> int {
        if self.offset <= utf8(self.source.text@).len() {
            self.offset as int
        } else {
            utf8(self.source.text@).len() as int
        }
    }

    /// 1-based line and column of the start of the span, counting characters.
    pub fn line_col(&self) -> (r: (usize, usize))
        requires
            at_boundary(utf8(self.source.text@), self.clipped()),
            utf8(self.source.text@).len() < usize::MAX,
        ensures
            r.0 as int == line_col_after(decode_utf8(utf8(self.source.text@).take(self.clipped()))).0,
            r.1 as int == line_col_after(decode_utf8(utf8(self.source.text@).take(self.clipped()))).1,
    {
        let text = self.source.text.as_str();
        let n = text.as_bytes().len();
        let offset = if self.offset < n { self.offset } else { n };
        proof {
            crate::text::lemma_str_valid(text);
            crate::text::lemma_ends_at_boundary(text.spec_bytes());
        }
        let prefix = sub_str(text, 0, offset);
        let cs = chars_of(prefix);
        proof {
            assert(prefix.spec_bytes() =~= utf8(self.source.text@).take(self.clipped()));
            vstd::utf8::encode_utf8_decode_utf8(prefix@);
            crate::text::lemma_chars_le_bytes(prefix@);
        }
        let mut line: usize = 1;
        let mut col: usize = 1;
        let mut i: usize = 0;
        while i < cs.len()
            invariant
                cs@ == prefix@,
                cs@.len() <= n,
                n < usize::MAX,
                i <= cs@.len(),
                line as int + col as int <= i + 2,
                line >= 1,
                col >= 1,
                (line as int, col as int) == line_col_after(cs@.take(i as int)),
            decreases cs@.len() - i,
        {
            proof {
                assert(cs@.take(i + 1).drop_last() =~= cs@.take(i as int));
            }
            if cs[i] == '\n' {
                line = line + 1;
                col = 1;
            } else {
                col = col + 1;
            }
            i = i + 1;
        }
        proof {
            assert(cs@.take(i as int) =~= cs@);
        }
        (line, col)
    }
}

} // verus!
