use vstd::prelude::*;

verus! {

/// The kinds of token that the lexer produces.
#[derive(Debug, Clone, Copy, PartialEq, Eq, Structural)]
pub enum TokenKind {
    /// `>>`, the start of a metadata line
    Meta,
    /// `=`
    Eq,
    /// `:`
    Colon,
    /// `|`, the separator of many values
    Or,
    /// `*`, the auto scale marker
    Star,
    /// `%`, the unit separator
    Percent,
    /// `/`
    Slash,
    /// `-`
    Minus,
    /// an integer literal, ASCII digits only
    Int,
    /// a decimal literal, ASCII digits around one `.`
    Float,
    /// a run of word characters
    Word,
    /// horizontal white space
    Whitespace,
    /// `-- ...` up to the end of the line
    LineComment,
    /// `[- ... -]`
    BlockComment,
    /// a line break
    Newline,
    /// `\` and the character it escapes
    Escaped,
    /// any other punctuation
    Punctuation,
    /// the end of the token run
    Eof,
}

/// A half-open byte range `start..end` of the source.
#[derive(Debug, Clone, Copy, PartialEq, Eq, Structural)]
pub struct Span {
    pub start: usize,
    pub end: usize,
}

impl Span {
    pub fn new(start: usize, end: usize) -> (r: Span)
        ensures
            r.start == start,
            r.end == end,
    {
        Span { start, end }
    }

    /// The empty span at `pos`.
    pub fn pos(pos: usize) -> (r: Span)
        ensures
            r.start == pos,
            r.end == pos,
    {
        Span { start: pos, end: pos }
    }
}

/// One token: its kind and the bytes of the source it covers.
#[derive(Debug, Clone, Copy, PartialEq, Eq, Structural)]
pub struct Token {
    pub kind: TokenKind,
    pub span: Span,
}

impl Token {
    pub fn new(kind: TokenKind, start: usize, end: usize) -> (r: Token)
        ensures
            r.kind == kind,
            r.span.start == start,
            r.span.end == end,
    {
        Token { kind, span: Span { start, end } }
    }
}

/// Each token ends where the next one starts, and none runs backwards.
pub open spec fn adjacent(tokens: Seq<Token>) -> bool {
    &&& forall|i: int| 0 <= i < tokens.len() ==> #[trigger] tokens[i].span.start <= tokens[i].span.end
    &&& forall|i: int| 0 <= i < tokens.len() - 1 ==> #[trigger] tokens[i].span.end == tokens[i + 1].span.start
}

/// Every token lies inside a source of `len` bytes.
pub open spec fn within(tokens: Seq<Token>, len: nat) -> bool {
    forall|i: int| 0 <= i < tokens.len() ==> #[trigger] tokens[i].span.end <= len
}

/// White space and comments: tokens that carry no value.
pub open spec fn is_trivia(k: TokenKind) -> bool {
    k == TokenKind::Whitespace || k == TokenKind::LineComment || k == TokenKind::BlockComment
}

pub fn is_trivia_kind(k: TokenKind) -> (r: bool)
    ensures
        r == is_trivia(k),
{
    match k {
        TokenKind::Whitespace | TokenKind::LineComment | TokenKind::BlockComment => true,
        _ => false,
    }
}

/// The optional parts of the grammar.
#[derive(Debug, Clone, Copy, PartialEq, Eq, Structural)]
pub struct Extensions {
    /// A step may continue over several non-blank lines.
    pub multiline_steps: bool,
    /// A quantity may be written `value unit`, without `%`.
    pub advanced_units: bool,
    /// A value may be an inclusive range `a-b`.
    pub range_values: bool,
}

impl Extensions {
    pub fn empty() -> (r: Extensions)
        ensures
            !r.multiline_steps,
            !r.advanced_units,
            !r.range_values,
    {
        Extensions { multiline_steps: false, advanced_units: false, range_values: false }
    }

    pub fn all() -> (r: Extensions)
        ensures
            r.multiline_steps,
            r.advanced_units,
            r.range_values,
    {
        Extensions { multiline_steps: true, advanced_units: true, range_values: true }
    }
}

} // verus!
