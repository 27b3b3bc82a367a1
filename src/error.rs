//! Diagnostics: what went wrong, where, and on which source line.
use vstd::prelude::*;
use crate::lexer::{Span, TokenKind};

verus! {

/// How serious a diagnostic is.
#[derive(Clone, Copy, Debug, PartialEq, Eq, Hash, Structural)]
pub enum Severity {
    Warning,
    Error,
}

/// Why a numeric literal is not a byte.
#[derive(Clone, Copy, Debug, PartialEq, Eq, Hash, Structural)]
pub enum NumberError {
    /// No digits at all.
    Empty,
    /// A character that is not a decimal digit.
    InvalidDigit,
    /// An unsigned literal above 255.
    PosOverflow,
    /// A signed literal below -128.
    NegOverflow,
}

/// The grammar construct that the parser was looking for.
#[derive(Clone, Copy, Debug, PartialEq, Eq, Hash, Structural)]
pub enum Expected {
    Statement,
    Mnemonic,
    Operand,
    Argument,
    /// A comma, or the end of the statement.
    Separator,
    ClosingBracket,
}

/// The kind of a diagnostic.
#[derive(Debug, PartialEq, Eq)]
pub enum SyntaxErrorType {
    CommandUnknown(String),
    MnemonicUnknown(String),
    RegisterUnknown(String),
    Arguments { name: String, expect: usize, given: usize },
    ParseIntError(NumberError),
    /// A character that starts no token.
    CharacterUnknown(String),
    /// A token, or the end of the statement (`None`), where `expected` should stand.
    Unexpected { expected: Expected, found: Option<TokenKind> },
    Custom(String),
}

/// A [`SyntaxErrorType`] with its strings seen as character sequences.
pub enum ErrorKind {
    CommandUnknown(Seq<char>),
    MnemonicUnknown(Seq<char>),
    RegisterUnknown(Seq<char>),
    Arguments { name: Seq<char>, expect: usize, given: usize },
    ParseIntError(NumberError),
    CharacterUnknown(Seq<char>),
    Unexpected { expected: Expected, found: Option<TokenKind> },
    Custom(Seq<char>),
}

impl View for SyntaxErrorType {
    type V = ErrorKind;

    open spec fn view(&self) -> ErrorKind {
        match self {
            SyntaxErrorType::CommandUnknown(s) => ErrorKind::CommandUnknown(s@),
            SyntaxErrorType::MnemonicUnknown(s) => ErrorKind::MnemonicUnknown(s@),
            SyntaxErrorType::RegisterUnknown(s) => ErrorKind::RegisterUnknown(s@),
            SyntaxErrorType::Arguments { name, expect, given } => ErrorKind::Arguments {
                name: name@,
                expect: *expect,
                given: *given,
            },
            SyntaxErrorType::ParseIntError(e) => ErrorKind::ParseIntError(*e),
            SyntaxErrorType::CharacterUnknown(s) => ErrorKind::CharacterUnknown(s@),
            SyntaxErrorType::Unexpected { expected, found } => ErrorKind::Unexpected {
                expected: *expected,
                found: *found,
            },
            SyntaxErrorType::Custom(s) => ErrorKind::Custom(s@),
        }
    }
}

/// One diagnostic: its kind, the 1-based `(line, column)` of the start and
/// end of its span, the characters it covers, and the source line where it starts.
#[derive(Debug, PartialEq, Eq)]
pub struct SyntaxError {
    pub severity: Severity,
    pub ty: SyntaxErrorType,
    pub line: String,
    pub span: ((usize, usize), (usize, usize)),
    pub offsets: Span,
}

/// The position where the line holding position `p` starts.
pub open spec fn line_start(src: Seq<char>, p: int) -> int
    decreases p,
{
    if p <= 0 {
        0
    } else if src[p - 1] == '\n' {
        p
    } else {
        line_start(src, p - 1)
    }
}

/// The position where the line holding position `p` ends (its line feed, or the end).
pub open spec fn line_end(src: Seq<char>, p: int) -> int
    decreases src.len() - p,
{
    if p >= src.len() || p < 0 {
        src.len() as int
    } else if src[p] == '\n' {
        p
    } else {
        line_end(src, p + 1)
    }
}

/// The 1-based line number of position `p`.
pub open spec fn line_number(src: Seq<char>, p: int) -> int
    decreases p,
{
    if p <= 0 {
        1
    } else if src[p - 1] == '\n' {
        line_number(src, p - 1) + 1
    } else {
        line_number(src, p - 1)
    }
}

/// The 1-based `(line, column)` of position `p`.
pub open spec fn line_col(src: Seq<char>, p: int) -> (int, int) {
    (line_number(src, p), p - line_start(src, p) + 1)
}

/// `e` is the error diagnostic of kind `ty` over `span` of `src`.
pub open spec fn describes(e: SyntaxError, ty: ErrorKind, src: Seq<char>, span: Span) -> bool {
    &&& e.severity == Severity::Error
    &&& e.ty@ == ty
    &&& e.offsets == span
    &&& e.span.0.0 as int == line_col(src, span.start as int).0
    &&& e.span.0.1 as int == line_col(src, span.start as int).1
    &&& e.span.1.0 as int == line_col(src, span.end as int).0
    &&& e.span.1.1 as int == line_col(src, span.end as int).1
    &&& e.line@ == src.subrange(
        line_start(src, span.start as int),
        line_end(src, span.start as int),
    )
}

proof fn lemma_line_bounds(src: Seq<char>, p: int)
    requires
        0 <= p <= src.len(),
    ensures
        0 <= line_start(src, p) <= p,
        1 <= line_number(src, p) <= p + 1,
    decreases p,
{
    if p > 0 {
        lemma_line_bounds(src, p - 1);
    }
}

/// The 1-based `(line, column)` of position `p`.
fn locate(src: &Vec<char>, p: usize) -> (r: (usize, usize))
    requires
        p <= src@.len() < usize::MAX,
    ensures
        r.0 as int == line_col(src@, p as int).0,
        r.1 as int == line_col(src@, p as int).1,
{
    let mut line: usize = 1;
    let mut start: usize = 0;
    let mut i: usize = 0;
    while i < p
        invariant
            i <= p <= src@.len() < usize::MAX,
            line as int == line_number(src@, i as int),
            start as int == line_start(src@, i as int),
        decreases p - i,
    {
        proof {
            lemma_line_bounds(src@, i as int);
        }
        if src[i] == '\n' {
            line = line + 1;
            start = i + 1;
        }
        i = i + 1;
    }
    proof {
        lemma_line_bounds(src@, p as int);
    }
    (line, p - start + 1)
}

/// The source line that holds position `p`, without its line feed.
fn line_at(src: &Vec<char>, p: usize) -> (r: String)
    requires
        p <= src@.len(),
    ensures
        r@ == src@.subrange(line_start(src@, p as int), line_end(src@, p as int)),
{
    let mut start: usize = p;
    while start > 0 && src[start - 1] != '\n'
        invariant
            start <= p <= src@.len(),
            line_start(src@, start as int) == line_start(src@, p as int),
        decreases start,
    {
        start = start - 1;
    }
    let mut end: usize = p;
    while end < src.len() && src[end] != '\n'
        invariant
            p <= end <= src@.len(),
            line_end(src@, end as int) == line_end(src@, p as int),
        decreases src@.len() - end,
    {
        end = end + 1;
    }
    crate::text::string_of(&src.as_slice()[start..end])
}

impl Clone for SyntaxErrorType {
    fn clone(&self) -> (r: SyntaxErrorType)
        ensures
            r@ == self@,
    {
        match self {
            SyntaxErrorType::CommandUnknown(s) => SyntaxErrorType::CommandUnknown(s.clone()),
            SyntaxErrorType::MnemonicUnknown(s) => SyntaxErrorType::MnemonicUnknown(s.clone()),
            SyntaxErrorType::RegisterUnknown(s) => SyntaxErrorType::RegisterUnknown(s.clone()),
            SyntaxErrorType::Arguments { name, expect, given } => SyntaxErrorType::Arguments {
                name: name.clone(),
                expect: *expect,
                given: *given,
            },
            SyntaxErrorType::ParseIntError(e) => SyntaxErrorType::ParseIntError(*e),
            SyntaxErrorType::CharacterUnknown(s) => SyntaxErrorType::CharacterUnknown(s.clone()),
            SyntaxErrorType::Unexpected { expected, found } => SyntaxErrorType::Unexpected {
                expected: *expected,
                found: *found,
            },
            SyntaxErrorType::Custom(s) => SyntaxErrorType::Custom(s.clone()),
        }
    }
}

impl Clone for SyntaxError {
    fn clone(&self) -> (r: SyntaxError)
        ensures
            r.severity == self.severity,
            r.ty@ == self.ty@,
            r.line@ == self.line@,
            r.span == self.span,
            r.offsets == self.offsets,
    {
        SyntaxError {
            severity: self.severity,
            ty: self.ty.clone(),
            line: self.line.clone(),
            span: self.span,
            offsets: self.offsets,
        }
    }
}

impl SyntaxError {
    /// The error diagnostic of kind `ty` over `span` of `src`.
    pub fn new_from_span(ty: SyntaxErrorType, src: &Vec<char>, span: Span) -> (r: SyntaxError)
        requires
            span.start <= span.end <= src@.len() < usize::MAX,
        ensures
            describes(r, ty@, src@, span),
    {
        let line = line_at(src, span.start);
        let start = locate(src, span.start);
        let end = locate(src, span.end);
        SyntaxError { severity: Severity::Error, ty, line, span: (start, end), offsets: span }
    }

    /// The error diagnostic of kind `ty` over the token `token` of `src`.
    pub fn new_from_pair(ty: SyntaxErrorType, src: &Vec<char>, token: crate::lexer::Token) -> (r: SyntaxError)
        requires
            token.span.start <= token.span.end <= src@.len() < usize::MAX,
        ensures
            describes(r, ty@, src@, token.span),
    {
        Self::new_from_span(ty, src, token.span)
    }

    /// [`SyntaxError::new_from_span`] as the error of a `Result`.
    pub fn err_from_span<T>(ty: SyntaxErrorType, src: &Vec<char>, span: Span) -> (r: Result<T, SyntaxError>)
        requires
            span.start <= span.end <= src@.len() < usize::MAX,
        ensures
            r is Err,
            describes(r->Err_0, ty@, src@, span),
    {
        Err(Self::new_from_span(ty, src, span))
    }

    /// [`SyntaxError::new_from_pair`] as the error of a `Result`.
    pub fn err_from_pair<T>(ty: SyntaxErrorType, src: &Vec<char>, token: crate::lexer::Token) -> (r: Result<T, SyntaxError>)
        requires
            token.span.start <= token.span.end <= src@.len() < usize::MAX,
        ensures
            r is Err,
            describes(r->Err_0, ty@, src@, token.span),
    {
        Err(Self::new_from_span(ty, src, token.span))
    }

    /// Whether this diagnostic is severe enough to withhold later stages.
    pub fn is_error(&self) -> (r: bool)
        ensures
            r == (self.severity == Severity::Error),
    {
        self.severity == Severity::Error
    }
}

/// Whether any of `diags` is an error.
pub fn has_errors(diags: &Vec<SyntaxError>) -> (r: bool)
    ensures
        r == exists|i: int| 0 <= i < diags@.len() && (#[trigger] diags@[i]).severity == Severity::Error,
{
    let mut i: usize = 0;
    while i < diags.len()
        invariant
            i <= diags@.len(),
            forall|j: int| 0 <= j < i ==> (#[trigger] diags@[j]).severity != Severity::Error,
        decreases diags@.len() - i,
    {
        if diags[i].is_error() {
            return true;
        }
        i = i + 1;
    }
    false
}

} // verus!
