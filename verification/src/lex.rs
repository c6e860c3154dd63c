//! Source spans and tokens: the data model the tokenizer feeds the
//! surrounding parser. The scanner itself is an external collaborator of the
//! array engine; these are the types its consumers see.

use vstd::prelude::*;

verus! {

/// A tokenizing failure.
#[derive(Clone, Copy, Debug, PartialEq, Eq, Structural)]
pub enum LexError {
    UnexpectedChar(char),
    ExpectedCharacter(Option<char>),
    InvalidEscape(char),
    ExpectedNumber,
}

/// A position in source text: character and byte offsets, and the
/// one-based line and column.
#[derive(Clone, Copy, Debug, PartialEq, Eq, Structural)]
pub struct Loc {
    pub char_pos: usize,
    pub byte_pos: usize,
    pub line: usize,
    pub col: usize,
}

/// Positions order lexicographically, character offset first.
pub open spec fn loc_le(a: Loc, b: Loc) -> bool {
    if a.char_pos != b.char_pos {
        a.char_pos < b.char_pos
    } else if a.byte_pos != b.byte_pos {
        a.byte_pos < b.byte_pos
    } else if a.line != b.line {
        a.line < b.line
    } else {
        a.col <= b.col
    }
}

impl Loc {
    /// Decide the lexicographic order of two positions.
    pub fn le(&self, other: &Loc) -> (r: bool)
        ensures
            r == loc_le(*self, *other),
    {
        if self.char_pos != other.char_pos {
            self.char_pos < other.char_pos
        } else if self.byte_pos != other.byte_pos {
            self.byte_pos < other.byte_pos
        } else if self.line != other.line {
            self.line < other.line
        } else {
            self.col <= other.col
        }
    }
}

impl Default for Loc {
    /// The start of the text: offsets zero, at line one, column one.
    fn default() -> (r: Loc)
        ensures
            r.char_pos == 0 && r.byte_pos == 0 && r.line == 1 && r.col == 1,
    {
        Loc { char_pos: 0, byte_pos: 0, line: 1, col: 1 }
    }
}

/// A region of source text.
#[derive(Clone, Copy, Debug, PartialEq, Eq, Structural)]
pub struct CodeSpan {
    pub start: Loc,
    pub end: Loc,
}

impl CodeSpan {
    /// Wrap a value with this span.
    pub fn sp<T>(self, value: T) -> (r: Sp<T>)
        ensures
            r.value == value,
            r.span == self,
    {
        Sp { value, span: self }
    }

    /// The smallest span covering this one and another.
    pub fn merge(self, end: CodeSpan) -> (r: CodeSpan)
        ensures
            r.start == (if loc_le(self.start, end.start) {
                self.start
            } else {
                end.start
            }),
            r.end == (if loc_le(self.end, end.end) {
                end.end
            } else {
                self.end
            }),
    {
        let start = if self.start.le(&end.start) {
            self.start
        } else {
            end.start
        };
        let new_end = if self.end.le(&end.end) {
            end.end
        } else {
            self.end
        };
        CodeSpan { start, end: new_end }
    }
}

/// A span of code, or the mark of a builtin with no source position.
#[derive(Clone, Copy, Debug, PartialEq, Eq, Structural)]
pub enum Span {
    Code(CodeSpan),
    Builtin,
}

impl Span {
    /// Wrap a value with this span.
    pub fn sp<T>(self, value: T) -> (r: Sp<T, Span>)
        ensures
            r.value == value,
            r.span == self,
    {
        Sp { value, span: self }
    }
}

/// A value paired with the span it came from.
pub struct Sp<T, S = CodeSpan> {
    pub value: T,
    pub span: S,
}

impl<T> Sp<T> {
    /// Transform the value, keeping the span.
    pub fn map<U, F: FnOnce(T) -> U>(self, f: F) -> (r: Sp<U>)
        requires
            f.requires((self.value,)),
        ensures
            f.ensures((self.value,), r.value),
            r.span == self.span,
    {
        Sp { value: f(self.value), span: self.span }
    }

    /// Borrow the value, keeping the span.
    pub fn as_ref(&self) -> (r: Sp<&T>)
        ensures
            *r.value == self.value,
            r.span == self.span,
    {
        Sp { value: &self.value, span: self.span }
    }

    /// Transform the value where the function keeps it, dropping the span
    /// with a dropped value.
    pub fn filter_map<U, F: FnOnce(T) -> Option<U>>(self, f: F) -> (r: Option<Sp<U>>)
        requires
            f.requires((self.value,)),
        ensures
            (match r {
                Some(sp) => f.ensures((self.value,), Some(sp.value)) && sp.span == self.span,
                None => f.ensures((self.value,), None::<U>),
            }),
    {
        match f(self.value) {
            Some(value) => Some(Sp { value, span: self.span }),
            None => None,
        }
    }
}

/// The primitive operations of the array language, as glyphs.
#[derive(Clone, Copy, Debug, PartialEq, Eq, Structural)]
pub enum Primitive {
    Reshape,
    Rerank,
    Keep,
    Rotate,
    Windows,
    Find,
    Member,
    IndexOf,
    Pick,
    Take,
    Drop,
    Select,
}

/// The glyph standing for each primitive.
pub open spec fn glyph_of(p: Primitive) -> char {
    match p {
        Primitive::Reshape => '\u{21af}',
        Primitive::Rerank => '\u{2644}',
        Primitive::Keep => '\u{25bd}',
        Primitive::Rotate => '\u{21bb}',
        Primitive::Windows => '\u{25eb}',
        Primitive::Find => '\u{2315}',
        Primitive::Member => '\u{220a}',
        Primitive::IndexOf => '\u{2297}',
        Primitive::Pick => '\u{22a1}',
        Primitive::Take => '\u{2199}',
        Primitive::Drop => '\u{2198}',
        Primitive::Select => '\u{228f}',
    }
}

impl Primitive {
    /// The primitive a glyph stands for, if any.
    pub fn from_unicode(c: char) -> (r: Option<Primitive>)
        ensures
            (match r {
                Some(p) => glyph_of(p) == c,
                None => forall|p: Primitive| glyph_of(p) != c,
            }),
    {
        if c == '\u{21af}' {
            Some(Primitive::Reshape)
        } else if c == '\u{2644}' {
            Some(Primitive::Rerank)
        } else if c == '\u{25bd}' {
            Some(Primitive::Keep)
        } else if c == '\u{21bb}' {
            Some(Primitive::Rotate)
        } else if c == '\u{25eb}' {
            Some(Primitive::Windows)
        } else if c == '\u{2315}' {
            Some(Primitive::Find)
        } else if c == '\u{220a}' {
            Some(Primitive::Member)
        } else if c == '\u{2297}' {
            Some(Primitive::IndexOf)
        } else if c == '\u{22a1}' {
            Some(Primitive::Pick)
        } else if c == '\u{2199}' {
            Some(Primitive::Take)
        } else if c == '\u{2198}' {
            Some(Primitive::Drop)
        } else if c == '\u{228f}' {
            Some(Primitive::Select)
        } else {
            proof {
                assert forall|p: Primitive| glyph_of(p) != c by {}
            }
            None
        }
    }
}

/// Punctuation and layout tokens.
#[derive(Clone, Copy, Debug, PartialEq, Eq, Structural)]
pub enum Simple {
    OpenParen,
    CloseParen,
    OpenCurly,
    CloseCurly,
    OpenBracket,
    CloseBracket,
    Underscore,
    Bang,
    Star,
    Percent,
    Equal,
    BangEqual,
    LessEqual,
    GreaterEqual,
    Backtick,
    LeftArrow,
    Newline,
    Spaces,
    TripleMinus,
    TripleTilde,
}

/// One token of source text.
pub enum Token {
    Comment,
    Ident,
    Number,
    Char(char),
    Str(String),
    FormatStr(Vec<String>),
    MultilineString(Vec<String>),
    Simple(Simple),
    Glyph(Primitive),
}

impl Token {
    /// The character this token holds, if it is a character literal.
    pub fn as_char(&self) -> (r: Option<char>)
        ensures
            (match r {
                Some(c) => *self matches Token::Char(c0) && c0 == c,
                None => !(*self matches Token::Char(_)),
            }),
    {
        match self {
            Token::Char(c) => Some(*c),
            _ => None,
        }
    }

    /// The string this token holds, if it is a string literal.
    pub fn as_string(&self) -> (r: Option<&String>)
        ensures
            (match r {
                Some(s) => *self matches Token::Str(s0) && s0 == *s,
                None => !(*self matches Token::Str(_)),
            }),
    {
        match self {
            Token::Str(s) => Some(s),
            _ => None,
        }
    }

    /// The fragments this token holds, if it is a format string.
    pub fn as_format_string(&self) -> (r: Option<&Vec<String>>)
        ensures
            (match r {
                Some(v) => *self matches Token::FormatStr(v0) && v0 == *v,
                None => !(*self matches Token::FormatStr(_)),
            }),
    {
        match self {
            Token::FormatStr(v) => Some(v),
            _ => None,
        }
    }

    /// The lines this token holds, if it is a multiline string.
    pub fn as_multiline_string(&self) -> (r: Option<&Vec<String>>)
        ensures
            (match r {
                Some(v) => *self matches Token::MultilineString(v0) && v0 == *v,
                None => !(*self matches Token::MultilineString(_)),
            }),
    {
        match self {
            Token::MultilineString(v) => Some(v),
            _ => None,
        }
    }

    /// The primitive this token holds, if it is a glyph.
    pub fn as_glyph(&self) -> (r: Option<Primitive>)
        ensures
            (match r {
                Some(p) => *self matches Token::Glyph(p0) && p0 == p,
                None => !(*self matches Token::Glyph(_)),
            }),
    {
        match self {
            Token::Glyph(p) => Some(*p),
            _ => None,
        }
    }
}

/// What `char::is_alphabetic` answers for a character: a fact of the Unicode
/// tables, named rather than restated.
pub uninterp spec fn unicode_alphabetic(c: char) -> bool;

/// Relies on `char::is_alphabetic`: the result depends on the character
/// alone.
#[verifier::external_body]
fn char_is_alphabetic(c: char) -> (r: bool)
    ensures
        r == unicode_alphabetic(c),
{
    c.is_alphabetic()
}

/// Alphabetic characters form identifiers; the superscript marker is carved
/// out for the number notation.
pub fn is_basically_alphabetic(c: char) -> (r: bool)
    ensures
        r == (unicode_alphabetic(c) && c != '\u{207f}'),
{
    char_is_alphabetic(c) && c != '\u{207f}'
}

/// A non-reserved character outside the low ASCII range can name a custom
/// glyph.
pub fn is_custom_glyph(c: char) -> (r: bool)
    ensures
        r == (c as u32 > 127 && !(unicode_alphabetic(c) && c != '\u{207f}') && forall|p: Primitive|
            glyph_of(p) != c),
{
    if (c as u32) <= 127 {
        return false;
    }
    if is_basically_alphabetic(c) {
        return false;
    }
    match Primitive::from_unicode(c) {
        Some(_) => false,
        None => true,
    }
}

} // verus!
