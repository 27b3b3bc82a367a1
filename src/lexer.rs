//! The lexer: source characters to positioned tokens.
use vstd::prelude::*;

verus! {

/// A half-open range `[start, end)` of character positions in the source.
#[derive(Clone, Copy, Debug, PartialEq, Eq, Hash, Structural)]
pub struct Span {
    pub start: usize,
    pub end: usize,
}

/// The class of a lexeme.
#[derive(Clone, Copy, Debug, PartialEq, Eq, Hash, Structural)]
pub enum TokenKind {
    /// A run of spaces, tabs and carriage returns.
    Whitespace,
    /// One line feed: the statement terminator.
    Newline,
    /// `;` up to the end of the line.
    Comment,
    /// A letter or `_`, then letters, digits and `_`.
    Ident,
    /// An optional `-` and a run of decimal digits.
    Number,
    Comma,
    Colon,
    LBracket,
    RBracket,
    /// One character that starts no other token.
    Error,
}

/// A classified lexeme with its span.
#[derive(Clone, Copy, Debug, PartialEq, Eq, Hash, Structural)]
pub struct Token {
    pub kind: TokenKind,
    pub span: Span,
}

/// Space, tab or carriage return.
pub open spec fn is_blank(c: char) -> bool {
    c == ' ' || c == '\t' || c == '\r'
}

/// A decimal digit.
pub open spec fn is_digit(c: char) -> bool {
    '0' <= c && c <= '9'
}

/// A character that can start an identifier.
pub open spec fn is_ident_start(c: char) -> bool {
    ('a' <= c && c <= 'z') || ('A' <= c && c <= 'Z') || c == '_'
}

/// A character that can continue an identifier.
pub open spec fn is_ident_char(c: char) -> bool {
    is_ident_start(c) || is_digit(c)
}

/// The kind of the token that starts at position `s`.
pub open spec fn kind_at(src: Seq<char>, s: int) -> TokenKind {
    let c = src[s];
    if is_blank(c) {
        TokenKind::Whitespace
    } else if c == '\n' {
        TokenKind::Newline
    } else if c == ';' {
        TokenKind::Comment
    } else if is_ident_start(c) {
        TokenKind::Ident
    } else if is_digit(c) || (c == '-' && s + 1 < src.len() && is_digit(src[s + 1])) {
        TokenKind::Number
    } else if c == ',' {
        TokenKind::Comma
    } else if c == ':' {
        TokenKind::Colon
    } else if c == '[' {
        TokenKind::LBracket
    } else if c == ']' {
        TokenKind::RBracket
    } else {
        TokenKind::Error
    }
}

/// Whether a token of `kind` spans more than its first character.
pub open spec fn is_run(kind: TokenKind) -> bool {
    kind == TokenKind::Whitespace || kind == TokenKind::Comment || kind == TokenKind::Ident
        || kind == TokenKind::Number
}

/// Whether `c` continues a token of the run kind `kind`.
pub open spec fn continues(kind: TokenKind, c: char) -> bool {
    match kind {
        TokenKind::Whitespace => is_blank(c),
        TokenKind::Comment => c != '\n',
        TokenKind::Ident => is_ident_char(c),
        TokenKind::Number => is_digit(c),
        _ => false,
    }
}

/// A token as the lexer makes it: its kind is the one of its first character,
/// and a run extends as far as its characters continue it.
pub open spec fn token_ok(src: Seq<char>, t: Token) -> bool {
    let s = t.span.start as int;
    let e = t.span.end as int;
    &&& 0 <= s < e <= src.len()
    &&& t.kind == kind_at(src, s)
    &&& if is_run(t.kind) {
        &&& forall|i: int| s < i < e ==> continues(t.kind, #[trigger] src[i])
        &&& (e == src.len() || !continues(t.kind, src[e]))
    } else {
        e == s + 1
    }
}

/// `toks` are well-formed tokens laid end to end over `[0, n)`.
pub open spec fn lexed_upto(src: Seq<char>, toks: Seq<Token>, n: int) -> bool {
    &&& (toks.len() == 0 ==> n == 0)
    &&& (toks.len() > 0 ==> toks[0].span.start == 0 && toks.last().span.end == n)
    &&& forall|i: int| 0 <= i < toks.len() - 1 ==> #[trigger] toks[i].span.end == toks[i + 1].span.start
    &&& forall|i: int| 0 <= i < toks.len() ==> token_ok(src, #[trigger] toks[i])
}

/// `toks` is the tokenization of the whole of `src`.
pub open spec fn lexed(src: Seq<char>, toks: Seq<Token>) -> bool {
    lexed_upto(src, toks, src.len() as int)
}

/// Where a run of `kind` that has reached position `e` ends.
pub open spec fn run_end(src: Seq<char>, kind: TokenKind, e: int) -> int
    decreases src.len() - e,
{
    if e < src.len() && e >= 0 && continues(kind, src[e]) {
        run_end(src, kind, e + 1)
    } else {
        e
    }
}

/// Where the token that the lexer reads at position `s` ends.
pub open spec fn token_end(src: Seq<char>, s: int) -> int {
    let kind = kind_at(src, s);
    if is_run(kind) { run_end(src, kind, s + 1) } else { s + 1 }
}

/// The token that the lexer reads at position `s`.
pub open spec fn token_at(src: Seq<char>, s: int) -> Token {
    Token { kind: kind_at(src, s), span: Span { start: s as usize, end: token_end(src, s) as usize } }
}

/// The tokens from position `pos` to the end of `src`.
#[verifier::opaque]
pub open spec fn lex_from(src: Seq<char>, pos: int) -> Seq<Token>
    decreases src.len() - pos,
{
    let e = token_end(src, pos);
    if 0 <= pos < e <= src.len() {
        seq![token_at(src, pos)] + lex_from(src, e)
    } else {
        Seq::empty()
    }
}

proof fn lemma_run_end(src: Seq<char>, kind: TokenKind, e: int)
    requires
        0 <= e <= src.len(),
    ensures
        e <= run_end(src, kind, e) <= src.len(),
    decreases src.len() - e,
{
    if e < src.len() && continues(kind, src[e]) {
        lemma_run_end(src, kind, e + 1);
    }
}

/// One step of the lexer: the token at `pos`, then the rest.
pub proof fn lemma_lex_step(src: Seq<char>, pos: int)
    requires
        0 <= pos < src.len(),
    ensures
        pos < token_end(src, pos) <= src.len(),
        lex_from(src, pos) == seq![token_at(src, pos)] + lex_from(src, token_end(src, pos)),
{
    lemma_run_end(src, kind_at(src, pos), pos + 1);
    reveal(lex_from);
}

proof fn lemma_push_concat(a: Seq<Token>, t: Token, rest: Seq<Token>)
    ensures
        a.push(t) + rest == a + (seq![t] + rest),
{
    assert(a.push(t) + rest =~= a + (seq![t] + rest));
}

/// Nothing is left to lex at the end of the source.
pub proof fn lemma_lex_end(src: Seq<char>)
    ensures
        lex_from(src, src.len() as int) == Seq::<Token>::empty(),
{
    reveal(lex_from);
}

/// The tokens of `src`.
pub open spec fn lex(src: Seq<char>) -> Seq<Token> {
    lex_from(src, 0)
}

fn classify(src: &Vec<char>, s: usize) -> (r: TokenKind)
    requires
        s < src@.len(),
    ensures
        r == kind_at(src@, s as int),
{
    let c = src[s];
    if c == ' ' || c == '\t' || c == '\r' {
        TokenKind::Whitespace
    } else if c == '\n' {
        TokenKind::Newline
    } else if c == ';' {
        TokenKind::Comment
    } else if ('a' <= c && c <= 'z') || ('A' <= c && c <= 'Z') || c == '_' {
        TokenKind::Ident
    } else if ('0' <= c && c <= '9') || (c == '-' && src.len() - s > 1 && '0' <= src[s + 1]
        && src[s + 1] <= '9') {
        TokenKind::Number
    } else if c == ',' {
        TokenKind::Comma
    } else if c == ':' {
        TokenKind::Colon
    } else if c == '[' {
        TokenKind::LBracket
    } else if c == ']' {
        TokenKind::RBracket
    } else {
        TokenKind::Error
    }
}

fn continues_exec(kind: TokenKind, c: char) -> (r: bool)
    ensures
        r == continues(kind, c),
{
    match kind {
        TokenKind::Whitespace => c == ' ' || c == '\t' || c == '\r',
        TokenKind::Comment => c != '\n',
        TokenKind::Ident => ('a' <= c && c <= 'z') || ('A' <= c && c <= 'Z') || c == '_' || ('0'
            <= c && c <= '9'),
        TokenKind::Number => '0' <= c && c <= '9',
        _ => false,
    }
}

/// Scans the token that starts at `s`.
fn scan(src: &Vec<char>, s: usize) -> (t: Token)
    requires
        s < src@.len(),
    ensures
        token_ok(src@, t),
        t == token_at(src@, s as int),
{
    let kind = classify(src, s);
    // a length fits in usize, so positions below it can be incremented
    let n: usize = src.len();
    let mut e: usize = s + 1;
    if kind == TokenKind::Whitespace || kind == TokenKind::Comment || kind == TokenKind::Ident
        || kind == TokenKind::Number {
        while e < n && continues_exec(kind, src[e])
            invariant
                s < e <= src@.len(),
                n == src@.len(),
                is_run(kind),
                forall|i: int| s < i < e ==> continues(kind, #[trigger] src@[i]),
                run_end(src@, kind, e as int) == run_end(src@, kind, s + 1),
            decreases src@.len() - e,
        {
            e = e + 1;
        }
    }
    Token { kind, span: Span { start: s, end: e } }
}

/// Splits `src` into tokens that cover it end to end, one malformed
/// character at a time where nothing else applies.
pub fn tokenize(src: &Vec<char>) -> (r: Vec<Token>)
    ensures
        r@ == lex(src@),
        lexed(src@, r@),
{
    let mut toks: Vec<Token> = Vec::new();
    let mut pos: usize = 0;
    while pos < src.len()
        invariant
            pos <= src@.len(),
            lexed_upto(src@, toks@, pos as int),
            toks@ + lex_from(src@, pos as int) == lex(src@),
        decreases src@.len() - pos,
    {
        let t = scan(src, pos);
        proof {
            lemma_lex_step(src@, pos as int);
        }
        proof {
            lemma_push_concat(toks@, t, lex_from(src@, t.span.end as int));
        }
        toks.push(t);
        pos = t.span.end;
    }
    proof {
        lemma_lex_end(src@);
    }
    assert(toks@ + lex_from(src@, pos as int) =~= toks@);
    toks
}

} // verus!
