//! The concrete syntax tree and the parser that builds it, one line at a time.
use vstd::prelude::*;
use crate::ast::{command_of, mnemonic_of, register_of, Command, Mnemonic, Mode, Register};
use crate::error::{describes, ErrorKind, Expected, SyntaxError, SyntaxErrorType};
use crate::lower::{appended, lemma_appended_none, lemma_appended_push, lemma_appended_trans, reports_faults, Fault};
use crate::lexer::{lex, lexed, tokenize, Span, Token, TokenKind};
use crate::text::string_of;

verus! {

/// The target of an operand node, as the grammar told it apart.
#[derive(Clone, Copy, Debug, PartialEq, Eq, Hash)]
pub enum CstTarget {
    Register(Span),
    Label(Span),
    Number(Span),
}

/// An argument node of a directive.
#[derive(Clone, Copy, Debug, PartialEq, Eq, Hash)]
pub enum CstArgument {
    Label(Span),
    Number(Span),
}

/// A node of the tree. A statement node is followed in the arena by its
/// `arguments` or `operands` child nodes.
#[derive(Clone, Copy, Debug, PartialEq, Eq, Hash)]
pub enum Node {
    Directive { command: Span, arguments: usize, span: Span },
    Instruction { label: Option<Span>, mnemonic: Span, operands: usize, span: Span },
    Argument(CstArgument),
    /// An operand; `span` covers its brackets when it is indirect.
    Operand { mode: Mode, target: CstTarget, span: Span },
}

/// The tree of a program: its nodes in document order, and the end of input.
#[derive(Clone, Debug, PartialEq, Eq, Hash)]
pub struct Cst {
    pub nodes: Vec<Node>,
    pub eoi: Span,
}

/// Where a line stopped fitting the grammar: what was expected there, and the
/// token found (`None` at the end of the line, `at` being that position).
#[derive(Clone, Copy, Debug, PartialEq, Eq, Hash)]
pub struct Failure {
    pub expected: Expected,
    pub found: Option<Token>,
    pub at: usize,
}

/// The characters of `sp`.
pub open spec fn text(src: Seq<char>, sp: Span) -> Seq<char> {
    src.subrange(sp.start as int, sp.end as int)
}

/// Whether `s` is a keyword: a mnemonic, a command or a register.
#[verifier::opaque]
pub open spec fn is_reserved(s: Seq<char>) -> bool {
    mnemonic_of(s) is Some || command_of(s) is Some || register_of(s) is Some
}

/// The tokens of one line as the parser sees them: in order, within `src`,
/// and without whitespace, comments or line feeds.
pub open spec fn line_ok(src: Seq<char>, toks: Seq<Token>) -> bool {
    &&& forall|i: int|
        0 <= i < toks.len() ==> (#[trigger] toks[i]).span.start < toks[i].span.end <= src.len()
    &&& forall|i: int|
        0 <= i < toks.len() ==> (#[trigger] toks[i]).kind != TokenKind::Whitespace
            && toks[i].kind != TokenKind::Comment && toks[i].kind != TokenKind::Newline
    &&& forall|i: int, j: int|
        0 <= i < j < toks.len() ==> #[trigger] toks[i].span.end <= #[trigger] toks[j].span.start
}

/// The failure at token `i` of a non-empty line, or at its end.
pub open spec fn fail_at(toks: Seq<Token>, i: int, expected: Expected) -> Failure {
    if 0 <= i < toks.len() {
        Failure { expected, found: Some(toks[i]), at: toks[i].span.start }
    } else {
        Failure { expected, found: None, at: toks.last().span.end }
    }
}

/// The operand target that token `i` can be.
pub open spec fn target_at(src: Seq<char>, toks: Seq<Token>, i: int) -> Option<CstTarget> {
    if !(0 <= i < toks.len()) {
        None
    } else if toks[i].kind == TokenKind::Number {
        Some(CstTarget::Number(toks[i].span))
    } else if toks[i].kind != TokenKind::Ident {
        None
    } else if register_of(text(src, toks[i].span)) is Some {
        Some(CstTarget::Register(toks[i].span))
    } else if is_reserved(text(src, toks[i].span)) {
        None
    } else {
        Some(CstTarget::Label(toks[i].span))
    }
}

/// How many tokens the operand at `i` takes.
pub open spec fn operand_width(toks: Seq<Token>, i: int) -> int {
    if 0 <= i < toks.len() && toks[i].kind == TokenKind::LBracket { 3 } else { 1 }
}

/// The operand that starts at token `i`.
pub open spec fn operand_at(src: Seq<char>, toks: Seq<Token>, i: int) -> Result<Node, Failure> {
    if 0 <= i < toks.len() && toks[i].kind == TokenKind::LBracket {
        match target_at(src, toks, i + 1) {
            Some(t) => if i + 2 < toks.len() && toks[i + 2].kind == TokenKind::RBracket {
                Ok(Node::Operand {
                    mode: Mode::Indirect,
                    target: t,
                    span: Span { start: toks[i].span.start, end: toks[i + 2].span.end },
                })
            } else {
                Err(fail_at(toks, i + 2, Expected::ClosingBracket))
            },
            None => Err(fail_at(toks, i + 1, Expected::Operand)),
        }
    } else {
        match target_at(src, toks, i) {
            Some(t) => Ok(Node::Operand { mode: Mode::Direct, target: t, span: toks[i].span }),
            None => Err(fail_at(toks, i, Expected::Operand)),
        }
    }
}

/// The operands after one that ended before token `i`: each after a comma.
pub open spec fn operands_from(src: Seq<char>, toks: Seq<Token>, i: int) -> Result<Seq<Node>, Failure>
    decreases toks.len() - i,
{
    if i >= toks.len() || i < 0 {
        Ok(Seq::empty())
    } else if toks[i].kind != TokenKind::Comma {
        Err(fail_at(toks, i, Expected::Separator))
    } else {
        match operand_at(src, toks, i + 1) {
            Err(f) => Err(f),
            Ok(n) => match operands_from(src, toks, i + 1 + operand_width(toks, i + 1)) {
                Err(f) => Err(f),
                Ok(rest) => Ok(seq![n] + rest),
            },
        }
    }
}

/// The operand list that starts at token `i`, possibly empty.
pub open spec fn operand_list(src: Seq<char>, toks: Seq<Token>, i: int) -> Result<Seq<Node>, Failure> {
    if i >= toks.len() {
        Ok(Seq::empty())
    } else {
        match operand_at(src, toks, i) {
            Err(f) => Err(f),
            Ok(n) => match operands_from(src, toks, i + operand_width(toks, i)) {
                Err(f) => Err(f),
                Ok(rest) => Ok(seq![n] + rest),
            },
        }
    }
}

/// The argument that token `i` can be.
pub open spec fn argument_at(src: Seq<char>, toks: Seq<Token>, i: int) -> Option<CstArgument> {
    if !(0 <= i < toks.len()) {
        None
    } else if toks[i].kind == TokenKind::Number {
        Some(CstArgument::Number(toks[i].span))
    } else if toks[i].kind == TokenKind::Ident && !is_reserved(text(src, toks[i].span)) {
        Some(CstArgument::Label(toks[i].span))
    } else {
        None
    }
}

/// The arguments after token `i - 1`, each after an optional comma.
pub open spec fn arguments_from(src: Seq<char>, toks: Seq<Token>, i: int) -> Result<Seq<Node>, Failure>
    decreases toks.len() - i,
{
    if i >= toks.len() || i < 0 {
        Ok(Seq::empty())
    } else {
        let j = if toks[i].kind == TokenKind::Comma { i + 1 } else { i };
        match argument_at(src, toks, j) {
            None => Err(fail_at(toks, j, Expected::Argument)),
            Some(a) => match arguments_from(src, toks, j + 1) {
                Err(f) => Err(f),
                Ok(rest) => Ok(seq![Node::Argument(a)] + rest),
            },
        }
    }
}

/// The argument list that starts at token `i`: at least one argument.
pub open spec fn argument_list(src: Seq<char>, toks: Seq<Token>, i: int) -> Result<Seq<Node>, Failure> {
    match argument_at(src, toks, i) {
        None => Err(fail_at(toks, i, Expected::Argument)),
        Some(a) => match arguments_from(src, toks, i + 1) {
            Err(f) => Err(f),
            Ok(rest) => Ok(seq![Node::Argument(a)] + rest),
        },
    }
}

/// What one line parses to.
pub enum LineParse {
    Blank,
    Parsed(Seq<Node>),
    Failed(Failure),
}

/// The span from the first to the last token of a non-empty line.
pub open spec fn line_span(toks: Seq<Token>) -> Span {
    Span { start: toks[0].span.start, end: toks.last().span.end }
}

/// An instruction with label `label`, mnemonic token `m` and operands from `m + 1`.
pub open spec fn instruction_line(src: Seq<char>, toks: Seq<Token>, label: Option<Span>, m: int) -> LineParse {
    match operand_list(src, toks, m + 1) {
        Err(f) => LineParse::Failed(f),
        Ok(ops) => LineParse::Parsed(
            seq![
                Node::Instruction {
                    label,
                    mnemonic: toks[m].span,
                    operands: ops.len() as usize,
                    span: line_span(toks),
                },
            ] + ops,
        ),
    }
}

/// The grammar of one statement line: a directive when it opens with a
/// command; an instruction when it opens with another keyword; otherwise a
/// label, an optional colon, a mnemonic and the operands.
pub open spec fn parse_line(src: Seq<char>, toks: Seq<Token>) -> LineParse {
    if toks.len() == 0 {
        LineParse::Blank
    } else if toks[0].kind != TokenKind::Ident {
        LineParse::Failed(fail_at(toks, 0, Expected::Statement))
    } else if command_of(text(src, toks[0].span)) is Some {
        match argument_list(src, toks, 1) {
            Err(f) => LineParse::Failed(f),
            Ok(args) => LineParse::Parsed(
                seq![
                    Node::Directive {
                        command: toks[0].span,
                        arguments: args.len() as usize,
                        span: line_span(toks),
                    },
                ] + args,
            ),
        }
    } else if is_reserved(text(src, toks[0].span)) {
        instruction_line(src, toks, None, 0)
    } else {
        let m = if toks.len() > 1 && toks[1].kind == TokenKind::Colon { 2int } else { 1int };
        if m < toks.len() && toks[m].kind == TokenKind::Ident {
            instruction_line(src, toks, Some(toks[0].span), m)
        } else {
            LineParse::Failed(fail_at(toks, m, Expected::Mnemonic))
        }
    }
}

/// `pre` followed by what `r` parsed, or the failure of `r`.
pub open spec fn prepend(pre: Seq<Node>, r: Result<Seq<Node>, Failure>) -> Result<Seq<Node>, Failure> {
    match r {
        Ok(rest) => Ok(pre + rest),
        Err(f) => Err(f),
    }
}

/// `r` is the executable form of the parse result `s`.
pub open spec fn same_result(r: Result<Vec<Node>, Failure>, s: Result<Seq<Node>, Failure>) -> bool {
    match s {
        Ok(ns) => r is Ok && r->Ok_0@ == ns,
        Err(f) => r is Err && r->Err_0 == f,
    }
}

fn span_text(src: &Vec<char>, sp: Span) -> (r: &[char])
    requires
        sp.start <= sp.end <= src@.len(),
    ensures
        r@ == text(src@, sp),
{
    &src.as_slice()[sp.start..sp.end]
}

fn reserved(name: &[char]) -> (r: bool)
    ensures
        r == is_reserved(name@),
{
    reveal(is_reserved);
    Mnemonic::from_name(name).is_some() || Command::from_name(name).is_some()
        || Register::from_name(name).is_some()
}

fn fail_exec(toks: &Vec<Token>, i: usize, expected: Expected) -> (r: Failure)
    requires
        toks@.len() > 0,
    ensures
        r == fail_at(toks@, i as int, expected),
{
    if i < toks.len() {
        Failure { expected, found: Some(toks[i]), at: toks[i].span.start }
    } else {
        Failure { expected, found: None, at: toks[toks.len() - 1].span.end }
    }
}

fn target_exec(src: &Vec<char>, toks: &Vec<Token>, i: usize) -> (r: Option<CstTarget>)
    requires
        line_ok(src@, toks@),
    ensures
        r == target_at(src@, toks@, i as int),
{
    if i >= toks.len() {
        return None;
    }
    let t = toks[i];
    if t.kind == TokenKind::Number {
        Some(CstTarget::Number(t.span))
    } else if t.kind != TokenKind::Ident {
        None
    } else {
        let name = span_text(src, t.span);
        if Register::from_name(name).is_some() {
            Some(CstTarget::Register(t.span))
        } else if reserved(name) {
            None
        } else {
            Some(CstTarget::Label(t.span))
        }
    }
}

fn operand_exec(src: &Vec<char>, toks: &Vec<Token>, i: usize) -> (r: Result<Node, Failure>)
    requires
        line_ok(src@, toks@),
        toks@.len() > 0,
        i < toks@.len(),
    ensures
        r == operand_at(src@, toks@, i as int),
{
    // a length fits in usize, so positions below it can be incremented
    let n: usize = toks.len();
    if toks[i].kind == TokenKind::LBracket {
        match target_exec(src, toks, i + 1) {
            Some(t) => if toks.len() - i > 2 && toks[i + 2].kind == TokenKind::RBracket {
                Ok(Node::Operand {
                    mode: Mode::Indirect,
                    target: t,
                    span: Span { start: toks[i].span.start, end: toks[i + 2].span.end },
                })
            } else {
                Err(fail_exec(toks, i + 2, Expected::ClosingBracket))
            },
            None => Err(fail_exec(toks, i + 1, Expected::Operand)),
        }
    } else {
        match target_exec(src, toks, i) {
            Some(t) => Ok(Node::Operand { mode: Mode::Direct, target: t, span: toks[i].span }),
            None => Err(fail_exec(toks, i, Expected::Operand)),
        }
    }
}

fn operand_list_exec(src: &Vec<char>, toks: &Vec<Token>, i0: usize) -> (r: Result<Vec<Node>, Failure>)
    requires
        line_ok(src@, toks@),
        toks@.len() > 0,
    ensures
        same_result(r, operand_list(src@, toks@, i0 as int)),
{
    if i0 >= toks.len() {
        return Ok(Vec::new());
    }
    let first = match operand_exec(src, toks, i0) {
        Ok(n) => n,
        Err(f) => return Err(f),
    };
    let mut out: Vec<Node> = Vec::new();
    out.push(first);
    let mut i: usize = if toks[i0].kind == TokenKind::LBracket { i0 + 3 } else { i0 + 1 };
    assert(out@ =~= seq![first]);
    while i < toks.len()
        invariant
            line_ok(src@, toks@),
            toks@.len() > 0,
            i <= toks@.len(),
            operand_list(src@, toks@, i0 as int) == prepend(out@, operands_from(src@, toks@, i as int)),
        decreases toks@.len() - i,
    {
        if toks[i].kind != TokenKind::Comma {
            return Err(fail_exec(toks, i, Expected::Separator));
        }
        if i + 1 >= toks.len() {
            return Err(fail_exec(toks, i + 1, Expected::Operand));
        }
        let n = match operand_exec(src, toks, i + 1) {
            Ok(n) => n,
            Err(f) => return Err(f),
        };
        let ghost old_out = out@;
        out.push(n);
        assert(old_out + (seq![n] + operands_from(src@, toks@, i + 1 + operand_width(toks@, i + 1))->Ok_0) =~= out@ + operands_from(src@, toks@, i + 1 + operand_width(toks@, i + 1))->Ok_0);
        i = if toks[i + 1].kind == TokenKind::LBracket { i + 4 } else { i + 2 };
    }
    Ok(out)
}

fn argument_exec(src: &Vec<char>, toks: &Vec<Token>, i: usize) -> (r: Option<CstArgument>)
    requires
        line_ok(src@, toks@),
    ensures
        r == argument_at(src@, toks@, i as int),
{
    if i >= toks.len() {
        return None;
    }
    let t = toks[i];
    if t.kind == TokenKind::Number {
        Some(CstArgument::Number(t.span))
    } else if t.kind == TokenKind::Ident && !reserved(span_text(src, t.span)) {
        Some(CstArgument::Label(t.span))
    } else {
        None
    }
}

fn argument_list_exec(src: &Vec<char>, toks: &Vec<Token>, i0: usize) -> (r: Result<Vec<Node>, Failure>)
    requires
        line_ok(src@, toks@),
        toks@.len() > 0,
    ensures
        same_result(r, argument_list(src@, toks@, i0 as int)),
{
    let first = match argument_exec(src, toks, i0) {
        Some(a) => Node::Argument(a),
        None => return Err(fail_exec(toks, i0, Expected::Argument)),
    };
    let mut out: Vec<Node> = Vec::new();
    out.push(first);
    assert(out@ =~= seq![first]);
    // a length fits in usize, so positions below it can be incremented
    let n: usize = toks.len();
    assert(i0 < n);
    let mut i: usize = i0 + 1;
    while i < toks.len()
        invariant
            line_ok(src@, toks@),
            toks@.len() > 0,
            i <= toks@.len(),
            argument_list(src@, toks@, i0 as int) == prepend(out@, arguments_from(src@, toks@, i as int)),
        decreases toks@.len() - i,
    {
        let j: usize = if toks[i].kind == TokenKind::Comma { i + 1 } else { i };
        let a = match argument_exec(src, toks, j) {
            Some(a) => Node::Argument(a),
            None => return Err(fail_exec(toks, j, Expected::Argument)),
        };
        let ghost old_out = out@;
        out.push(a);
        assert(old_out + (seq![a] + arguments_from(src@, toks@, j + 1)->Ok_0) =~= out@ + arguments_from(src@, toks@, j + 1)->Ok_0);
        i = j + 1;
    }
    Ok(out)
}

/// What one line parsed to.
#[derive(Debug)]
pub enum LineOutcome {
    Blank,
    Parsed(Vec<Node>),
    Failed(Failure),
}

impl View for LineOutcome {
    type V = LineParse;

    open spec fn view(&self) -> LineParse {
        match self {
            LineOutcome::Blank => LineParse::Blank,
            LineOutcome::Parsed(ns) => LineParse::Parsed(ns@),
            LineOutcome::Failed(f) => LineParse::Failed(*f),
        }
    }
}

fn instruction_exec(src: &Vec<char>, toks: &Vec<Token>, label: Option<Span>, m: usize) -> (r: LineOutcome)
    requires
        line_ok(src@, toks@),
        m < toks@.len(),
    ensures
        r@ == instruction_line(src@, toks@, label, m as int),
{
    // a length fits in usize, so positions below it can be incremented
    let n: usize = toks.len();
    match operand_list_exec(src, toks, m + 1) {
        Err(f) => LineOutcome::Failed(f),
        Ok(ops) => {
            let head = Node::Instruction {
                label,
                mnemonic: toks[m].span,
                operands: ops.len(),
                span: Span { start: toks[0].span.start, end: toks[toks.len() - 1].span.end },
            };
            let mut nodes: Vec<Node> = Vec::new();
            nodes.push(head);
            let mut k: usize = 0;
            while k < ops.len()
                invariant
                    nodes@ == seq![head] + ops@.subrange(0, k as int),
                    k <= ops@.len(),
                decreases ops@.len() - k,
            {
                nodes.push(ops[k]);
                k = k + 1;
                assert(nodes@ =~= seq![head] + ops@.subrange(0, k as int));
            }
            assert(ops@.subrange(0, k as int) =~= ops@);
            LineOutcome::Parsed(nodes)
        },
    }
}

/// Parses the tokens of one line into a statement's nodes.
pub fn parse_statement(src: &Vec<char>, toks: &Vec<Token>) -> (r: LineOutcome)
    requires
        line_ok(src@, toks@),
    ensures
        r@ == parse_line(src@, toks@),
{
    if toks.len() == 0 {
        return LineOutcome::Blank;
    }
    let t0 = toks[0];
    if t0.kind != TokenKind::Ident {
        return LineOutcome::Failed(fail_exec(toks, 0, Expected::Statement));
    }
    let name = span_text(src, t0.span);
    if Command::from_name(name).is_some() {
        match argument_list_exec(src, toks, 1) {
            Err(f) => LineOutcome::Failed(f),
            Ok(args) => {
                let head = Node::Directive {
                    command: t0.span,
                    arguments: args.len(),
                    span: Span { start: t0.span.start, end: toks[toks.len() - 1].span.end },
                };
                let mut nodes: Vec<Node> = Vec::new();
                nodes.push(head);
                let mut k: usize = 0;
                while k < args.len()
                    invariant
                        nodes@ == seq![head] + args@.subrange(0, k as int),
                        k <= args@.len(),
                    decreases args@.len() - k,
                {
                    nodes.push(args[k]);
                    k = k + 1;
                    assert(nodes@ =~= seq![head] + args@.subrange(0, k as int));
                }
                assert(args@.subrange(0, k as int) =~= args@);
                LineOutcome::Parsed(nodes)
            },
        }
    } else if reserved(name) {
        instruction_exec(src, toks, None, 0)
    } else {
        let m: usize = if toks.len() > 1 && toks[1].kind == TokenKind::Colon { 2 } else { 1 };
        if m < toks.len() && toks[m].kind == TokenKind::Ident {
            instruction_exec(src, toks, Some(t0.span), m)
        } else {
            LineOutcome::Failed(fail_exec(toks, m, Expected::Mnemonic))
        }
    }
}

/// `sp` is a range of positions of `src`.
pub open spec fn span_in(src: Seq<char>, sp: Span) -> bool {
    sp.start <= sp.end <= src.len()
}

/// The spans of node `n` lie in `src`.
pub open spec fn node_spans_ok(src: Seq<char>, n: Node) -> bool {
    match n {
        Node::Directive { command, span, .. } => span_in(src, command) && span_in(src, span),
        Node::Instruction { label, mnemonic, span, .. } => span_in(src, mnemonic) && span_in(src, span)
            && (label is Some ==> span_in(src, label->Some_0)),
        Node::Argument(CstArgument::Label(sp)) => span_in(src, sp),
        Node::Argument(CstArgument::Number(sp)) => span_in(src, sp),
        Node::Operand { target: CstTarget::Register(sp), span, .. } => span_in(src, sp) && span_in(src, span),
        Node::Operand { target: CstTarget::Label(sp), span, .. } => span_in(src, sp) && span_in(src, span),
        Node::Operand { target: CstTarget::Number(sp), span, .. } => span_in(src, sp) && span_in(src, span),
    }
}

/// How many child nodes follow a statement node.
pub open spec fn child_count(n: Node) -> int {
    match n {
        Node::Directive { arguments, .. } => arguments as int,
        Node::Instruction { operands, .. } => operands as int,
        _ => 0,
    }
}

/// Whether `c` can be a child of the statement node `head`.
pub open spec fn child_fits(head: Node, c: Node) -> bool {
    match head {
        Node::Directive { .. } => c is Argument,
        Node::Instruction { .. } => c is Operand,
        _ => false,
    }
}

/// The text that a node spans.
pub open spec fn node_span(n: Node) -> Span {
    match n {
        Node::Directive { span, .. } => span,
        Node::Instruction { span, .. } => span,
        Node::Argument(CstArgument::Label(sp)) => sp,
        Node::Argument(CstArgument::Number(sp)) => sp,
        Node::Operand { span, .. } => span,
    }
}

/// The keyword of a statement node: its command or mnemonic.
pub open spec fn keyword_span(n: Node) -> Span {
    match n {
        Node::Directive { command, .. } => command,
        Node::Instruction { mnemonic, .. } => mnemonic,
        _ => node_span(n),
    }
}

/// `kids` lie in document order, each spanning a non-empty stretch of text.
pub open spec fn in_order(kids: Seq<Node>) -> bool {
    &&& forall|a: int, b: int| 0 <= a < b < kids.len() ==> #[trigger] node_span(kids[a]).end <= #[trigger] node_span(kids[b]).start
    &&& forall|a: int| 0 <= a < kids.len() ==> #[trigger] node_span(kids[a]).start <= node_span(kids[a]).end
}

/// A statement's span holds, in order, its label, its keyword and its
/// children, and ends where its last child (or, without children, its keyword) ends.
pub open spec fn spans_nest(head: Node, kids: Seq<Node>) -> bool {
    &&& node_span(head).start <= keyword_span(head).start <= keyword_span(head).end
    &&& (head matches Node::Instruction { label: Some(l), .. } ==> l.start == node_span(head).start && l.end <= keyword_span(head).start)
    &&& in_order(kids)
    &&& (kids.len() == 0 ==> keyword_span(head).end == node_span(head).end)
    &&& (kids.len() > 0 ==> keyword_span(head).end <= node_span(kids[0]).start
        && node_span(kids.last()).end == node_span(head).end)
}

/// `kids` lie in order from token `i` to the end of the line `toks`, the last
/// ending with the line; none at all only when `i` is past the line.
pub open spec fn kids_fill(toks: Seq<Token>, kids: Seq<Node>, i: int) -> bool {
    &&& in_order(kids)
    &&& (kids.len() == 0 ==> i >= toks.len())
    &&& (kids.len() > 0 ==> 0 <= i < toks.len() && toks[i].span.start <= node_span(kids[0]).start
        && node_span(kids.last()).end == toks.last().span.end)
}

proof fn lemma_kids_prepend(src: Seq<char>, toks: Seq<Token>, n: Node, rest: Seq<Node>, i: int, j: int)
    requires
        line_ok(src, toks),
        0 <= i < j <= toks.len(),
        node_span(n).start == toks[i].span.start,
        node_span(n).end == toks[j - 1].span.end,
        kids_fill(toks, rest, j),
    ensures
        kids_fill(toks, seq![n] + rest, i),
{
    let l = seq![n] + rest;
    if i < j - 1 {
        assert(toks[i].span.end <= toks[j - 1].span.start);
    }
    assert(l[0] == n);
    if rest.len() > 0 {
        assert(toks[j - 1].span.end <= toks[j].span.start);
        assert(l.last() == rest.last());
    }
    assert forall|a: int, b: int| 0 <= a < b < l.len() implies #[trigger] node_span(l[a]).end <= #[trigger] node_span(l[b]).start by {
        assert(l[b] == rest[b - 1]);
        if a > 0 {
            assert(l[a] == rest[a - 1]);
        } else if b > 1 {
            assert(node_span(rest[0]).end <= node_span(rest[b - 1]).start);
        }
    }
    assert forall|a: int| 0 <= a < l.len() implies #[trigger] node_span(l[a]).start <= node_span(l[a]).end by {
        if a > 0 {
            assert(l[a] == rest[a - 1]);
        }
    }
}

proof fn lemma_operands_from_fill(src: Seq<char>, toks: Seq<Token>, i: int)
    requires
        line_ok(src, toks),
        0 <= i,
        operands_from(src, toks, i) is Ok,
    ensures
        kids_fill(toks, operands_from(src, toks, i)->Ok_0, i),
    decreases toks.len() - i,
{
    if i < toks.len() {
        let w = operand_width(toks, i + 1);
        lemma_operand_node(src, toks, i + 1);
        lemma_operands_from_fill(src, toks, i + 1 + w);
        let n = operand_at(src, toks, i + 1)->Ok_0;
        lemma_kids_prepend(src, toks, n, operands_from(src, toks, i + 1 + w)->Ok_0, i + 1, i + 1 + w);
        assert(toks[i].span.end <= toks[i + 1].span.start);
    }
}

proof fn lemma_arguments_from_fill(src: Seq<char>, toks: Seq<Token>, i: int)
    requires
        line_ok(src, toks),
        0 <= i,
        arguments_from(src, toks, i) is Ok,
    ensures
        kids_fill(toks, arguments_from(src, toks, i)->Ok_0, i),
    decreases toks.len() - i,
{
    if i < toks.len() {
        let j = if toks[i].kind == TokenKind::Comma { i + 1 } else { i };
        lemma_arguments_from_fill(src, toks, j + 1);
        let a = argument_at(src, toks, j)->Some_0;
        lemma_kids_prepend(src, toks, Node::Argument(a), arguments_from(src, toks, j + 1)->Ok_0, j, j + 1);
        if j > i {
            assert(toks[i].span.end <= toks[j].span.start);
        }
    }
}

/// `ns` is a run of statements, each a statement node followed by its children.
pub open spec fn wf_nodes(src: Seq<char>, ns: Seq<Node>) -> bool
    decreases ns.len(),
{
    if ns.len() == 0 {
        true
    } else {
        let k = child_count(ns[0]);
        &&& (ns[0] is Directive || ns[0] is Instruction)
        &&& 1 + k <= ns.len()
        &&& forall|j: int| 0 <= j <= k ==> node_spans_ok(src, #[trigger] ns[j])
        &&& forall|j: int| 1 <= j <= k ==> child_fits(ns[0], #[trigger] ns[j])
        &&& spans_nest(ns[0], ns.subrange(1, 1 + k))
        &&& wf_nodes(src, ns.subrange(1 + k, ns.len() as int))
    }
}

proof fn lemma_operand_node(src: Seq<char>, toks: Seq<Token>, i: int)
    requires
        line_ok(src, toks),
        operand_at(src, toks, i) is Ok,
    ensures
        operand_at(src, toks, i)->Ok_0 is Operand,
        node_spans_ok(src, operand_at(src, toks, i)->Ok_0),
        i + operand_width(toks, i) <= toks.len(),
        node_span(operand_at(src, toks, i)->Ok_0).start == toks[i].span.start,
        node_span(operand_at(src, toks, i)->Ok_0).end == toks[i + operand_width(toks, i) - 1].span.end,
{
}

proof fn lemma_operands_from_nodes(src: Seq<char>, toks: Seq<Token>, i: int)
    requires
        line_ok(src, toks),
        operands_from(src, toks, i) is Ok,
    ensures
        forall|j: int| 0 <= j < operands_from(src, toks, i)->Ok_0.len() ==> {
            let n = #[trigger] operands_from(src, toks, i)->Ok_0[j];
            n is Operand && node_spans_ok(src, n)
        },
        i >= 0 ==> operands_from(src, toks, i)->Ok_0.len() <= (if i <= toks.len() { toks.len() - i } else { 0 }),
    decreases toks.len() - i,
{
    if 0 <= i < toks.len() && toks[i].kind == TokenKind::Comma {
        lemma_operand_node(src, toks, i + 1);
        lemma_operands_from_nodes(src, toks, i + 1 + operand_width(toks, i + 1));
    }
}

proof fn lemma_arguments_from_nodes(src: Seq<char>, toks: Seq<Token>, i: int)
    requires
        line_ok(src, toks),
        arguments_from(src, toks, i) is Ok,
    ensures
        forall|j: int| 0 <= j < arguments_from(src, toks, i)->Ok_0.len() ==> {
            let n = #[trigger] arguments_from(src, toks, i)->Ok_0[j];
            n is Argument && node_spans_ok(src, n)
        },
        i >= 0 ==> arguments_from(src, toks, i)->Ok_0.len() <= (if i <= toks.len() { toks.len() - i } else { 0 }),
    decreases toks.len() - i,
{
    if 0 <= i < toks.len() {
        let j = if toks[i].kind == TokenKind::Comma { i + 1 } else { i };
        lemma_arguments_from_nodes(src, toks, j + 1);
    }
}

proof fn lemma_operand_list_nodes(src: Seq<char>, toks: Seq<Token>, i: int)
    requires
        line_ok(src, toks),
        i >= 0,
        operand_list(src, toks, i) is Ok,
    ensures
        forall|j: int| 0 <= j < operand_list(src, toks, i)->Ok_0.len() ==> {
            let n = #[trigger] operand_list(src, toks, i)->Ok_0[j];
            n is Operand && node_spans_ok(src, n)
        },
        operand_list(src, toks, i)->Ok_0.len() <= toks.len(),
{
    if i < toks.len() {
        lemma_operand_node(src, toks, i);
        lemma_operands_from_nodes(src, toks, i + operand_width(toks, i));
        let ops = operand_list(src, toks, i)->Ok_0;
        let rest = operands_from(src, toks, i + operand_width(toks, i))->Ok_0;
        assert forall|j: int| 0 <= j < ops.len() implies {
            let n = #[trigger] ops[j];
            n is Operand && node_spans_ok(src, n)
        } by {
            if j > 0 {
                assert(ops[j] == rest[j - 1]);
            }
        }
    }
}

proof fn lemma_argument_list_nodes(src: Seq<char>, toks: Seq<Token>, i: int)
    requires
        line_ok(src, toks),
        i >= 0,
        argument_list(src, toks, i) is Ok,
    ensures
        forall|j: int| 0 <= j < argument_list(src, toks, i)->Ok_0.len() ==> {
            let n = #[trigger] argument_list(src, toks, i)->Ok_0[j];
            n is Argument && node_spans_ok(src, n)
        },
        argument_list(src, toks, i)->Ok_0.len() <= toks.len(),
{
    lemma_arguments_from_nodes(src, toks, i + 1);
    let args = argument_list(src, toks, i)->Ok_0;
    let rest = arguments_from(src, toks, i + 1)->Ok_0;
    assert forall|j: int| 0 <= j < args.len() implies {
        let n = #[trigger] args[j];
        n is Argument && node_spans_ok(src, n)
    } by {
        if j > 0 {
            assert(args[j] == rest[j - 1]);
        }
    }
}

proof fn lemma_segment_wf(src: Seq<char>, head: Node, kids: Seq<Node>)
    requires
        head is Directive || head is Instruction,
        spans_nest(head, kids),
        child_count(head) == kids.len(),
        node_spans_ok(src, head),
        forall|j: int| 0 <= j < kids.len() ==> node_spans_ok(src, #[trigger] kids[j]) && child_fits(head, kids[j]),
    ensures
        wf_nodes(src, seq![head] + kids),
{
    let ns = seq![head] + kids;
    let k = child_count(head);
    assert(ns.subrange(1 + k, ns.len() as int) =~= Seq::<Node>::empty());
    assert(wf_nodes(src, Seq::<Node>::empty()));
    assert(ns[0] == head);
    assert(ns.subrange(1, 1 + k) =~= kids);
    assert forall|j: int| 0 <= j <= k implies node_spans_ok(src, #[trigger] ns[j]) by {
        if j > 0 {
            assert(ns[j] == kids[j - 1]);
        }
    }
    assert forall|j: int| 1 <= j <= k implies child_fits(ns[0], #[trigger] ns[j]) by {
        assert(ns[j] == kids[j - 1]);
    }
}

/// A parsed line is one statement node followed by its children.
proof fn lemma_line_nodes(src: Seq<char>, toks: Seq<Token>)
    requires
        line_ok(src, toks),
        toks.len() <= usize::MAX,
        parse_line(src, toks) is Parsed,
    ensures
        wf_nodes(src, parse_line(src, toks)->Parsed_0),
{
    assert(toks.len() > 0);
    if toks.len() > 1 {
        assert(toks[0].span.end <= toks[toks.len() - 1].span.start);
    }
    assert(span_in(src, line_span(toks)));
    if command_of(text(src, toks[0].span)) is Some {
        lemma_argument_list_nodes(src, toks, 1);
        let args = argument_list(src, toks, 1)->Ok_0;
        lemma_arguments_from_fill(src, toks, 2);
        let a = argument_at(src, toks, 1)->Some_0;
        lemma_kids_prepend(src, toks, Node::Argument(a), arguments_from(src, toks, 2)->Ok_0, 1, 2);
        assert(toks[0].span.end <= toks[1].span.start);
        let head = Node::Directive { command: toks[0].span, arguments: args.len() as usize, span: line_span(toks) };
        lemma_segment_wf(src, head, args);
    } else {
        let m = if is_reserved(text(src, toks[0].span)) {
            0int
        } else if toks.len() > 1 && toks[1].kind == TokenKind::Colon {
            2int
        } else {
            1int
        };
        let label = if m == 0 { None } else { Some(toks[0].span) };
        lemma_operand_list_nodes(src, toks, m + 1);
        let ops = operand_list(src, toks, m + 1)->Ok_0;
        if m + 1 < toks.len() {
            let w = operand_width(toks, m + 1);
            lemma_operand_node(src, toks, m + 1);
            lemma_operands_from_fill(src, toks, m + 1 + w);
            let n = operand_at(src, toks, m + 1)->Ok_0;
            lemma_kids_prepend(src, toks, n, operands_from(src, toks, m + 1 + w)->Ok_0, m + 1, m + 1 + w);
            assert(toks[m].span.end <= toks[m + 1].span.start);
        } else {
            assert(ops.len() == 0);
        }
        if m > 0 {
            assert(toks[0].span.end <= toks[m].span.start);
        }
        let head = Node::Instruction { label, mnemonic: toks[m].span, operands: ops.len() as usize, span: line_span(toks) };
        lemma_segment_wf(src, head, ops);
    }
}

proof fn lemma_wf_concat(src: Seq<char>, a: Seq<Node>, b: Seq<Node>)
    requires
        wf_nodes(src, a),
        wf_nodes(src, b),
    ensures
        wf_nodes(src, a + b),
    decreases a.len(),
{
    if a.len() > 0 {
        let k = child_count(a[0]);
        lemma_wf_concat(src, a.subrange(1 + k, a.len() as int), b);
        assert((a + b).subrange(1 + k, (a + b).len() as int) =~= a.subrange(1 + k, a.len() as int) + b);
        assert((a + b).subrange(1, 1 + k) =~= a.subrange(1, 1 + k));
        assert forall|j: int| 0 <= j <= k implies node_spans_ok(src, #[trigger] (a + b)[j]) by {
            assert((a + b)[j] == a[j]);
        }
        assert forall|j: int| 1 <= j <= k implies child_fits((a + b)[0], #[trigger] (a + b)[j]) by {
            assert((a + b)[j] == a[j]);
        }
    } else {
        assert(a + b =~= b);
    }
}

/// A failure names a token of its line, or the end of the line.
pub open spec fn fail_ok(toks: Seq<Token>, f: Failure) -> bool {
    &&& f.found is Some ==> exists|i: int| 0 <= i < toks.len() && toks[i] == f.found->Some_0 && f.at == toks[i].span.start
    &&& f.found is None ==> f.at == toks.last().span.end
}

proof fn lemma_fail_at(toks: Seq<Token>, i: int, e: Expected)
    requires
        toks.len() > 0,
    ensures
        fail_ok(toks, fail_at(toks, i, e)),
{
    if 0 <= i < toks.len() {
        assert(toks[i] == fail_at(toks, i, e).found->Some_0);
    }
}

proof fn lemma_operand_at_fail(src: Seq<char>, toks: Seq<Token>, i: int)
    requires
        toks.len() > 0,
        operand_at(src, toks, i) is Err,
    ensures
        fail_ok(toks, operand_at(src, toks, i)->Err_0),
{
    lemma_fail_at(toks, i, Expected::Operand);
    lemma_fail_at(toks, i + 1, Expected::Operand);
    lemma_fail_at(toks, i + 2, Expected::ClosingBracket);
}

proof fn lemma_operands_from_fail(src: Seq<char>, toks: Seq<Token>, i: int)
    requires
        toks.len() > 0,
        operands_from(src, toks, i) is Err,
    ensures
        fail_ok(toks, operands_from(src, toks, i)->Err_0),
    decreases toks.len() - i,
{
    if 0 <= i < toks.len() {
        lemma_fail_at(toks, i, Expected::Separator);
        if toks[i].kind == TokenKind::Comma {
            if operand_at(src, toks, i + 1) is Err {
                lemma_operand_at_fail(src, toks, i + 1);
            } else {
                lemma_operands_from_fail(src, toks, i + 1 + operand_width(toks, i + 1));
            }
        }
    }
}

proof fn lemma_arguments_from_fail(src: Seq<char>, toks: Seq<Token>, i: int)
    requires
        toks.len() > 0,
        arguments_from(src, toks, i) is Err,
    ensures
        fail_ok(toks, arguments_from(src, toks, i)->Err_0),
    decreases toks.len() - i,
{
    if 0 <= i < toks.len() {
        let j = if toks[i].kind == TokenKind::Comma { i + 1 } else { i };
        lemma_fail_at(toks, j, Expected::Argument);
        if argument_at(src, toks, j) is Some {
            lemma_arguments_from_fail(src, toks, j + 1);
        }
    }
}

/// A line that fails to parse fails at one of its own tokens or at its end.
pub proof fn lemma_line_failure(src: Seq<char>, toks: Seq<Token>)
    requires
        parse_line(src, toks) is Failed,
    ensures
        toks.len() > 0,
        fail_ok(toks, parse_line(src, toks)->Failed_0),
{
    lemma_fail_at(toks, 0, Expected::Statement);
    lemma_fail_at(toks, 1, Expected::Argument);
    lemma_fail_at(toks, 1, Expected::Mnemonic);
    lemma_fail_at(toks, 2, Expected::Mnemonic);
    if toks.len() > 0 && toks[0].kind == TokenKind::Ident {
        if command_of(text(src, toks[0].span)) is Some {
            if argument_at(src, toks, 1) is Some {
                lemma_arguments_from_fail(src, toks, 2);
            }
        } else {
            let m = if is_reserved(text(src, toks[0].span)) {
                0int
            } else if toks.len() > 1 && toks[1].kind == TokenKind::Colon {
                2int
            } else {
                1int
            };
            if m + 1 < toks.len() {
                if operand_at(src, toks, m + 1) is Err {
                    lemma_operand_at_fail(src, toks, m + 1);
                } else if operands_from(src, toks, m + 1 + operand_width(toks, m + 1)) is Err {
                    lemma_operands_from_fail(src, toks, m + 1 + operand_width(toks, m + 1));
                }
            }
        }
    }
}

/// The diagnostic kind of a failure: an unknown character where the token
/// found is malformed, an unexpected token or end of line otherwise.
pub open spec fn failure_kind(src: Seq<char>, f: Failure) -> ErrorKind {
    match f.found {
        Some(t) => if t.kind == TokenKind::Error {
            ErrorKind::CharacterUnknown(text(src, t.span))
        } else {
            ErrorKind::Unexpected { expected: f.expected, found: Some(t.kind) }
        },
        None => ErrorKind::Unexpected { expected: f.expected, found: None },
    }
}

/// Where a failure is reported: the token found, or the empty span at the end of the line.
pub open spec fn failure_span(f: Failure) -> Span {
    match f.found {
        Some(t) => t.span,
        None => Span { start: f.at, end: f.at },
    }
}

/// The parser's progress through the token stream.
pub struct ParseState {
    pub nodes: Seq<Node>,
    pub fails: Seq<Failure>,
    pub line: Seq<Token>,
}

/// The failure that reports the malformed character token `t`.
pub open spec fn char_fault(t: Token) -> Failure {
    Failure { expected: Expected::Statement, found: Some(t), at: t.span.start }
}

/// The malformed-character tokens of `toks` that start in `[lo, hi)`, other
/// than `named`, as failures in order.
pub open spec fn stray_chars(toks: Seq<Token>, named: Option<Token>, lo: int, hi: int) -> Seq<Failure>
    decreases toks.len(),
{
    if toks.len() == 0 {
        Seq::empty()
    } else {
        let rest = stray_chars(toks.drop_last(), named, lo, hi);
        let t = toks.last();
        if t.kind == TokenKind::Error && named != Some(t) && lo <= t.span.start < hi {
            rest.push(char_fault(t))
        } else {
            rest
        }
    }
}

/// Past every position of a source.
pub open spec fn beyond() -> int {
    usize::MAX as int + 1
}

/// All failures of one line in source order: its grammar failure, if any, and
/// one for each malformed character that the grammar failure does not name.
pub open spec fn line_faults(src: Seq<char>, toks: Seq<Token>) -> Seq<Failure> {
    match parse_line(src, toks) {
        LineParse::Failed(f) => stray_chars(toks, f.found, 0, f.at as int) + seq![f] + stray_chars(
            toks,
            f.found,
            f.at as int,
            beyond(),
        ),
        _ => stray_chars(toks, None, 0, beyond()),
    }
}

/// Ends the current line: its statement's nodes and all its failures are kept.
pub open spec fn flush(src: Seq<char>, st: ParseState) -> ParseState {
    match parse_line(src, st.line) {
        LineParse::Parsed(ns) => ParseState { nodes: st.nodes + ns, fails: st.fails + line_faults(src, st.line), line: Seq::empty() },
        _ => ParseState { nodes: st.nodes, fails: st.fails + line_faults(src, st.line), line: Seq::empty() },
    }
}

/// Takes one token: a line feed ends the line, whitespace and comments are
/// dropped, any other token joins the line.
pub open spec fn step(src: Seq<char>, st: ParseState, t: Token) -> ParseState {
    if t.kind == TokenKind::Newline {
        flush(src, st)
    } else if t.kind == TokenKind::Whitespace || t.kind == TokenKind::Comment {
        st
    } else {
        ParseState { nodes: st.nodes, fails: st.fails, line: st.line.push(t) }
    }
}

/// The state after the first `n` tokens.
pub open spec fn parse_prefix(src: Seq<char>, toks: Seq<Token>, n: int) -> ParseState
    decreases n,
{
    if n <= 0 {
        ParseState { nodes: Seq::empty(), fails: Seq::empty(), line: Seq::empty() }
    } else {
        step(src, parse_prefix(src, toks, n - 1), toks[n - 1])
    }
}

/// The nodes and failures of a whole token stream; the last line needs no line feed.
pub open spec fn parse_tokens(src: Seq<char>, toks: Seq<Token>) -> ParseState {
    flush(src, parse_prefix(src, toks, toks.len() as int))
}

/// A failure as the fault it is reported as.
pub open spec fn fault_of(src: Seq<char>, f: Failure) -> Fault {
    (failure_kind(src, f), failure_span(f))
}

/// Failures as the faults they are reported as.
pub open spec fn faults_of(src: Seq<char>, fs: Seq<Failure>) -> Seq<Fault> {
    fs.map_values(|f: Failure| fault_of(src, f))
}

fn diagnose(src: &Vec<char>, toks: &Vec<Token>, f: Failure) -> (r: SyntaxError)
    requires
        line_ok(src@, toks@),
        toks@.len() > 0,
        fail_ok(toks@, f),
        src@.len() < usize::MAX,
    ensures
        describes(r, failure_kind(src@, f), src@, failure_span(f)),
{
    match f.found {
        Some(t) => {
            if t.kind == TokenKind::Error {
                let s = string_of(span_text(src, t.span));
                SyntaxError::new_from_span(SyntaxErrorType::CharacterUnknown(s), src, t.span)
            } else {
                SyntaxError::new_from_span(
                    SyntaxErrorType::Unexpected { expected: f.expected, found: Some(t.kind) },
                    src,
                    t.span,
                )
            }
        },
        None => {
            assert(toks@.last().span.end <= src@.len());
            SyntaxError::new_from_span(
                SyntaxErrorType::Unexpected { expected: f.expected, found: None },
                src,
                Span { start: f.at, end: f.at },
            )
        },
    }
}

/// Reports the malformed characters of `toks` that start at or after `lo`
/// (and before `hi`, when given), other than `named`.
fn stray_exec(
    src: &Vec<char>,
    toks: &Vec<Token>,
    named: Option<Token>,
    lo: usize,
    hi: Option<usize>,
    diags: &mut Vec<SyntaxError>,
)
    requires
        line_ok(src@, toks@),
        src@.len() < usize::MAX,
    ensures
        appended(
            src@,
            old(diags)@,
            final(diags)@,
            faults_of(src@, stray_chars(toks@, named, lo as int, match hi { Some(h) => h as int, None => beyond() })),
        ),
{
    let ghost h = match hi { Some(h) => h as int, None => beyond() };
    let ghost start = diags@;
    proof {
        lemma_appended_none(src@, start);
        assert(toks@.subrange(0, 0) =~= Seq::<Token>::empty());
        assert(faults_of(src@, Seq::<Failure>::empty()) =~= Seq::<Fault>::empty());
    }
    let mut j: usize = 0;
    while j < toks.len()
        invariant
            line_ok(src@, toks@),
            src@.len() < usize::MAX,
            j <= toks@.len(),
            h == match hi { Some(h) => h as int, None => beyond() },
            appended(src@, start, diags@, faults_of(src@, stray_chars(toks@.subrange(0, j as int), named, lo as int, h))),
        decreases toks@.len() - j,
    {
        let t = toks[j];
        let ghost pre = toks@.subrange(0, j as int);
        let ghost next = toks@.subrange(0, j + 1);
        assert(next.drop_last() =~= pre);
        assert(next.last() == t);
        let is_named = match named {
            Some(x) => x == t,
            None => false,
        };
        let below = match hi {
            Some(x) => t.span.start < x,
            None => true,
        };
        if t.kind == TokenKind::Error && !is_named && lo <= t.span.start && below {
            let text_chars = string_of(span_text(src, t.span));
            let e = SyntaxError::new_from_span(SyntaxErrorType::CharacterUnknown(text_chars), src, t.span);
            let ghost d = diags@;
            diags.push(e);
            proof {
                let fs = stray_chars(pre, named, lo as int, h);
                lemma_appended_push(src@, start, d, faults_of(src@, fs), e, fault_of(src@, char_fault(t)));
                assert(faults_of(src@, fs.push(char_fault(t))) =~= faults_of(src@, fs).push(fault_of(src@, char_fault(t))));
            }
        }
        j = j + 1;
    }
    assert(toks@.subrange(0, j as int) =~= toks@);
}

/// Parses one line's tokens and records its nodes and all its failures.
fn end_line(src: &Vec<char>, line: &Vec<Token>, nodes: &mut Vec<Node>, diags: &mut Vec<SyntaxError>)
    requires
        line_ok(src@, line@),
        src@.len() < usize::MAX,
        wf_nodes(src@, old(nodes)@),
    ensures
        wf_nodes(src@, final(nodes)@),
        final(nodes)@ == flush(src@, ParseState { nodes: old(nodes)@, fails: Seq::empty(), line: line@ }).nodes,
        appended(src@, old(diags)@, final(diags)@, faults_of(src@, line_faults(src@, line@))),
{
    let ghost d0 = diags@;
    match parse_statement(src, line) {
        LineOutcome::Failed(f) => {
            proof {
                lemma_line_failure(src@, line@);
            }
            stray_exec(src, line, f.found, 0, Some(f.at), diags);
            let ghost d1 = diags@;
            let d = diagnose(src, line, f);
            diags.push(d);
            let ghost d2 = diags@;
            stray_exec(src, line, f.found, f.at, None, diags);
            proof {
                let a = stray_chars(line@, f.found, 0, f.at as int);
                let c = stray_chars(line@, f.found, f.at as int, beyond());
                lemma_appended_none(src@, d1);
                lemma_appended_push(src@, d1, d1, Seq::empty(), d, fault_of(src@, f));
                assert(Seq::<Fault>::empty().push(fault_of(src@, f)) =~= faults_of(src@, seq![f]));
                lemma_appended_trans(src@, d0, d1, d2, faults_of(src@, a), faults_of(src@, seq![f]));
                lemma_appended_trans(src@, d0, d2, diags@, faults_of(src@, a) + faults_of(src@, seq![f]), faults_of(src@, c));
                assert(faults_of(src@, a + seq![f] + c) =~= faults_of(src@, a) + faults_of(src@, seq![f]) + faults_of(src@, c));
            }
        },
        LineOutcome::Blank => {
            stray_exec(src, line, None, 0, None, diags);
        },
        LineOutcome::Parsed(ns) => {
            let mut k: usize = 0;
            let ghost start = nodes@;
            while k < ns.len()
                invariant
                    nodes@ == start + ns@.subrange(0, k as int),
                    k <= ns@.len(),
                decreases ns@.len() - k,
            {
                nodes.push(ns[k]);
                k = k + 1;
                assert(nodes@ =~= start + ns@.subrange(0, k as int));
            }
            assert(ns@.subrange(0, k as int) =~= ns@);
            // the line's length fits in usize, which bounds its child count
            let ln: usize = line.len();
            proof {
                lemma_line_nodes(src@, line@);
                lemma_wf_concat(src@, start, ns@);
            }
            stray_exec(src, line, None, 0, None, diags);
        },
    }
}

/// Parses `src` into its tree. Each line that does not fit the grammar is
/// reported and parsing resumes on the next line; every malformed character
/// is reported as well.
pub fn parse(src: &Vec<char>) -> (r: (Cst, Vec<SyntaxError>))
    requires
        src@.len() < usize::MAX,
    ensures
        r.0.nodes@ == parse_tokens(src@, lex(src@)).nodes,
        r.0.eoi == (Span { start: src@.len() as usize, end: src@.len() as usize }),
        reports_faults(src@, r.1@, faults_of(src@, parse_tokens(src@, lex(src@)).fails)),
        wf_nodes(src@, r.0.nodes@),
{
    let toks = tokenize(src);
    let mut nodes: Vec<Node> = Vec::new();
    let mut diags: Vec<SyntaxError> = Vec::new();
    let mut line: Vec<Token> = Vec::new();
    let mut i: usize = 0;
    let ghost mut pos: int = 0;
    proof {
        lemma_appended_none(src@, diags@);
        assert(faults_of(src@, Seq::<Failure>::empty()) =~= Seq::<Fault>::empty());
    }
    while i < toks.len()
        invariant
            toks@ == lex(src@),
            lexed(src@, toks@),
            src@.len() < usize::MAX,
            i <= toks@.len(),
            nodes@ == parse_prefix(src@, toks@, i as int).nodes,
            line@ == parse_prefix(src@, toks@, i as int).line,
            appended(src@, Seq::empty(), diags@, faults_of(src@, parse_prefix(src@, toks@, i as int).fails)),
            line_ok(src@, line@),
            wf_nodes(src@, nodes@),
            i == 0 ==> pos == 0,
            i > 0 ==> pos == toks@[i - 1].span.end,
            forall|k: int| 0 <= k < line@.len() ==> (#[trigger] line@[k]).span.end <= pos,
        decreases toks@.len() - i,
    {
        let t = toks[i];
        assert(crate::lexer::token_ok(src@, toks@[i as int]));
        assert(i > 0 ==> toks@[i - 1].span.end == toks@[i as int].span.start);
        let ghost st = parse_prefix(src@, toks@, i as int);
        if t.kind == TokenKind::Newline {
            let ghost d0 = diags@;
            end_line(src, &line, &mut nodes, &mut diags);
            proof {
                lemma_appended_trans(src@, Seq::empty(), d0, diags@, faults_of(src@, st.fails), faults_of(src@, line_faults(src@, st.line)));
                assert(faults_of(src@, st.fails + line_faults(src@, st.line)) =~= faults_of(src@, st.fails) + faults_of(src@, line_faults(src@, st.line)));
            }
            line = Vec::new();
        } else if t.kind == TokenKind::Whitespace || t.kind == TokenKind::Comment {
        } else {
            line.push(t);
        }
        proof {
            pos = t.span.end as int;
        }
        i = i + 1;
    }
    let ghost st = parse_prefix(src@, toks@, i as int);
    let ghost d0 = diags@;
    end_line(src, &line, &mut nodes, &mut diags);
    proof {
        lemma_appended_trans(src@, Seq::empty(), d0, diags@, faults_of(src@, st.fails), faults_of(src@, line_faults(src@, st.line)));
        assert(faults_of(src@, st.fails + line_faults(src@, st.line)) =~= faults_of(src@, st.fails) + faults_of(src@, line_faults(src@, st.line)));
        assert(diags@.subrange(0, diags@.len() as int) =~= diags@);
    }
    let n = src.len();
    (Cst { nodes, eoi: Span { start: n, end: n } }, diags)
}

} // verus!
