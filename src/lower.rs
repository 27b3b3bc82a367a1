//! Lowering: from the tree's nodes to the closed-vocabulary AST, one
//! statement at a time, with a diagnostic for every fault found on the way.
use vstd::prelude::*;
use crate::ast::{
    command_arity, command_of, mnemonic_arity, mnemonic_of, register_of, word_of,
    Argument, ArgumentView, Ast, Command, Directive, DirectiveView, Instruction, InstructionView,
    Label, Mnemonic, Operand, OperandView, Register, Statement, StatementView, Target, TargetView,
    Word,
};
use crate::error::{describes, ErrorKind, SyntaxError, SyntaxErrorType};
use crate::lexer::Span;
use crate::syntax::{child_count, node_spans_ok, span_in, text, wf_nodes, CstArgument, CstTarget, Node};
use crate::text::string_of;

verus! {

/// A lowering error: its kind and where it is reported.
pub type Fault = (ErrorKind, Span);

/// An operand target as a value, or why it is not one.
pub open spec fn lower_target(src: Seq<char>, t: CstTarget) -> Result<TargetView, Fault> {
    match t {
        CstTarget::Register(sp) => match register_of(text(src, sp)) {
            Some(r) => Ok(TargetView::Register(r)),
            None => Err((ErrorKind::RegisterUnknown(text(src, sp)), sp)),
        },
        CstTarget::Label(sp) => Ok(TargetView::Label(text(src, sp))),
        CstTarget::Number(sp) => match word_of(text(src, sp)) {
            Ok(b) => Ok(TargetView::Word(b)),
            Err(e) => Err((ErrorKind::ParseIntError(e), sp)),
        },
    }
}

/// The operands of child nodes `kids`, with the faults of every operand that
/// does not lower, in order; nodes other than operands are passed over.
pub open spec fn lower_operands(src: Seq<char>, kids: Seq<Node>) -> (Seq<OperandView>, Seq<Fault>)
    decreases kids.len(),
{
    if kids.len() == 0 {
        (Seq::empty(), Seq::empty())
    } else {
        let rest = lower_operands(src, kids.drop_first());
        match kids[0] {
            Node::Operand { mode, target, .. } => match lower_target(src, target) {
                Ok(t) => (seq![OperandView { mode, target: t }] + rest.0, rest.1),
                Err(f) => (rest.0, seq![f] + rest.1),
            },
            _ => rest,
        }
    }
}

/// The argument that an argument node stands for, or why it is not one.
pub open spec fn lower_argument(src: Seq<char>, a: CstArgument) -> Result<ArgumentView, Fault> {
    match a {
        CstArgument::Number(sp) => match word_of(text(src, sp)) {
            Ok(b) => Ok(ArgumentView::Word(b)),
            Err(e) => Err((ErrorKind::ParseIntError(e), sp)),
        },
        CstArgument::Label(sp) => Ok(ArgumentView::Label(text(src, sp))),
    }
}

/// The arguments of child nodes `kids`, with the faults of every argument that
/// does not lower, in order; nodes other than arguments are passed over.
pub open spec fn lower_arguments(src: Seq<char>, kids: Seq<Node>) -> (Seq<ArgumentView>, Seq<Fault>)
    decreases kids.len(),
{
    if kids.len() == 0 {
        (Seq::empty(), Seq::empty())
    } else {
        let rest = lower_arguments(src, kids.drop_first());
        match kids[0] {
            Node::Argument(a) => match lower_argument(src, a) {
                Ok(v) => (seq![v] + rest.0, rest.1),
                Err(f) => (rest.0, seq![f] + rest.1),
            },
            _ => rest,
        }
    }
}

/// The text of an optional span.
pub open spec fn opt_text(src: Seq<char>, label: Option<Span>) -> Option<Seq<char>> {
    match label {
        Some(sp) => Some(text(src, sp)),
        None => None,
    }
}

/// The fault of a statement's keyword: unknown, or known with the wrong number
/// of children.
pub open spec fn head_faults(src: Seq<char>, head: Node, given: int) -> Seq<Fault> {
    match head {
        Node::Directive { command, span, .. } => match command_of(text(src, command)) {
            None => seq![(ErrorKind::CommandUnknown(text(src, command)), command)],
            Some(c) => if given != command_arity(c) {
                seq![(ErrorKind::Arguments { name: text(src, command), expect: command_arity(c), given: given as usize }, span)]
            } else {
                Seq::empty()
            },
        },
        Node::Instruction { mnemonic, span, .. } => match mnemonic_of(text(src, mnemonic)) {
            None => seq![(ErrorKind::MnemonicUnknown(text(src, mnemonic)), mnemonic)],
            Some(m) => if given != mnemonic_arity(m) {
                seq![(ErrorKind::Arguments { name: text(src, mnemonic), expect: mnemonic_arity(m), given: given as usize }, span)]
            } else {
                Seq::empty()
            },
        },
        _ => Seq::empty(),
    }
}

/// One statement: its value when nothing in it faults, and all its faults in
/// order: the keyword's fault, then those of the arguments or operands.
pub open spec fn lower_statement(src: Seq<char>, head: Node, kids: Seq<Node>) -> (Option<StatementView>, Seq<Fault>) {
    match head {
        Node::Directive { command, .. } => {
            let args = lower_arguments(src, kids);
            let faults = head_faults(src, head, kids.len() as int) + args.1;
            if faults.len() == 0 {
                (Some(StatementView::Directive(DirectiveView { command: command_of(text(src, command))->Some_0, arguments: args.0 })), faults)
            } else {
                (None, faults)
            }
        },
        Node::Instruction { label, mnemonic, .. } => {
            let ops = lower_operands(src, kids);
            let faults = head_faults(src, head, kids.len() as int) + ops.1;
            if faults.len() == 0 {
                (Some(StatementView::Instruction(InstructionView { label: opt_text(src, label), mnemonic: mnemonic_of(text(src, mnemonic))->Some_0, operands: ops.0 })), faults)
            } else {
                (None, faults)
            }
        },
        _ => (None, Seq::empty()),
    }
}

/// The statements of `ns` that lower, in order, and the faults of all of them.
pub open spec fn lower_all(src: Seq<char>, ns: Seq<Node>) -> (Seq<StatementView>, Seq<Fault>)
    decreases ns.len(),
{
    if ns.len() == 0 {
        (Seq::empty(), Seq::empty())
    } else {
        let k = child_count(ns[0]);
        if 1 + k > ns.len() {
            (Seq::empty(), Seq::empty())
        } else {
            let rest = lower_all(src, ns.subrange(1 + k, ns.len() as int));
            let here = lower_statement(src, ns[0], ns.subrange(1, 1 + k));
            match here.0 {
                Some(s) => (seq![s] + rest.0, here.1 + rest.1),
                None => (rest.0, here.1 + rest.1),
            }
        }
    }
}

/// `diags` report `faults`, one for one and in order.
pub open spec fn reports_faults(src: Seq<char>, diags: Seq<SyntaxError>, faults: Seq<Fault>) -> bool {
    &&& diags.len() == faults.len()
    &&& forall|i: int| 0 <= i < faults.len() ==> describes(#[trigger] diags[i], faults[i].0, src, faults[i].1)
}

/// `after` is `before` followed by diagnostics that report `faults`.
pub open spec fn appended(src: Seq<char>, before: Seq<SyntaxError>, after: Seq<SyntaxError>, faults: Seq<Fault>) -> bool {
    &&& before.len() <= after.len()
    &&& after.subrange(0, before.len() as int) == before
    &&& reports_faults(src, after.subrange(before.len() as int, after.len() as int), faults)
}

/// Appending nothing reports no faults.
pub proof fn lemma_appended_none(src: Seq<char>, a: Seq<SyntaxError>)
    ensures
        appended(src, a, a, Seq::empty()),
{
    assert(a.subrange(0, a.len() as int) =~= a);
}

/// Appending one diagnostic reports its fault.
pub proof fn lemma_appended_push(src: Seq<char>, a: Seq<SyntaxError>, b: Seq<SyntaxError>, fs: Seq<Fault>, e: SyntaxError, f: Fault)
    requires
        appended(src, a, b, fs),
        describes(e, f.0, src, f.1),
    ensures
        appended(src, a, b.push(e), fs.push(f)),
{
    let c = b.push(e);
    assert(c.subrange(0, a.len() as int) =~= b.subrange(0, a.len() as int));
    assert(c.subrange(a.len() as int, c.len() as int) =~= b.subrange(a.len() as int, b.len() as int).push(e));
}

/// Diagnostics appended in two steps report both lists of faults.
pub proof fn lemma_appended_trans(src: Seq<char>, a: Seq<SyntaxError>, b: Seq<SyntaxError>, c: Seq<SyntaxError>, f1: Seq<Fault>, f2: Seq<Fault>)
    requires
        appended(src, a, b, f1),
        appended(src, b, c, f2),
    ensures
        appended(src, a, c, f1 + f2),
{
    assert(c.subrange(0, a.len() as int) =~= b.subrange(0, a.len() as int));
    let d1 = b.subrange(a.len() as int, b.len() as int);
    let d2 = c.subrange(b.len() as int, c.len() as int);
    assert(c.subrange(a.len() as int, c.len() as int) =~= d1 + d2);
    assert forall|i: int| 0 <= i < (f1 + f2).len() implies describes(
        #[trigger] (d1 + d2)[i],
        (f1 + f2)[i].0,
        src,
        (f1 + f2)[i].1,
    ) by {
        if i >= f1.len() {
            assert((d1 + d2)[i] == d2[i - f1.len()]);
        }
    }
}

/// `r` is the executable form of the lowering result `s`.
pub open spec fn lowered_as<T: View>(src: Seq<char>, r: Result<T, SyntaxError>, s: Result<T::V, Fault>) -> bool {
    match s {
        Ok(v) => r is Ok && r->Ok_0@ == v,
        Err(f) => r is Err && describes(r->Err_0, f.0, src, f.1),
    }
}

fn span_text(src: &Vec<char>, sp: Span) -> (r: &[char])
    requires
        span_in(src@, sp),
    ensures
        r@ == text(src@, sp),
{
    &src.as_slice()[sp.start..sp.end]
}

fn lower_word(src: &Vec<char>, sp: Span) -> (r: Result<Word, SyntaxError>)
    requires
        span_in(src@, sp),
        src@.len() < usize::MAX,
    ensures
        match word_of(text(src@, sp)) {
            Ok(b) => r is Ok && r->Ok_0@ == b,
            Err(e) => r is Err && describes(r->Err_0, ErrorKind::ParseIntError(e), src@, sp),
        },
{
    match Word::parse(span_text(src, sp)) {
        Ok(w) => Ok(w),
        Err(e) => Err(SyntaxError::new_from_span(SyntaxErrorType::ParseIntError(e), src, sp)),
    }
}

fn lower_target_exec(src: &Vec<char>, t: CstTarget, span: Span) -> (r: Result<Target, SyntaxError>)
    requires
        node_spans_ok(src@, Node::Operand { mode: crate::ast::Mode::Direct, target: t, span }),
        src@.len() < usize::MAX,
    ensures
        lowered_as(src@, r, lower_target(src@, t)),
{
    match t {
        CstTarget::Register(sp) => {
            let name = span_text(src, sp);
            match Register::from_name(name) {
                Some(reg) => Ok(Target::Register(reg)),
                None => Err(SyntaxError::new_from_span(SyntaxErrorType::RegisterUnknown(string_of(name)), src, sp)),
            }
        },
        CstTarget::Label(sp) => Ok(Target::Label(Label::new(string_of(span_text(src, sp))))),
        CstTarget::Number(sp) => match lower_word(src, sp) {
            Ok(w) => Ok(Target::Word(w)),
            Err(e) => Err(e),
        },
    }
}

fn lower_argument_exec(src: &Vec<char>, a: CstArgument) -> (r: Result<Argument, SyntaxError>)
    requires
        node_spans_ok(src@, Node::Argument(a)),
        src@.len() < usize::MAX,
    ensures
        lowered_as(src@, r, lower_argument(src@, a)),
{
    match a {
        CstArgument::Label(sp) => Ok(Argument::Label(Label::new(string_of(span_text(src, sp))))),
        CstArgument::Number(sp) => match lower_word(src, sp) {
            Ok(w) => Ok(Argument::Word(w)),
            Err(e) => Err(e),
        },
    }
}

fn lower_operands_exec(src: &Vec<char>, nodes: &Vec<Node>, a: usize, b: usize, diags: &mut Vec<SyntaxError>) -> (r: Vec<Operand>)
    requires
        a <= b <= nodes@.len(),
        forall|j: int| a <= j < b ==> node_spans_ok(src@, #[trigger] nodes@[j]),
        src@.len() < usize::MAX,
    ensures
        r@.map_values(|o: Operand| o@) == lower_operands(src@, nodes@.subrange(a as int, b as int)).0,
        appended(src@, old(diags)@, final(diags)@, lower_operands(src@, nodes@.subrange(a as int, b as int)).1),
{
    let mut out: Vec<Operand> = Vec::new();
    let ghost start = diags@;
    let ghost mut faults: Seq<Fault> = Seq::empty();
    proof {
        lemma_appended_none(src@, start);
    }
    let mut j: usize = a;
    while j < b
        invariant
            a <= j <= b <= nodes@.len(),
            forall|i: int| a <= i < b ==> node_spans_ok(src@, #[trigger] nodes@[i]),
            src@.len() < usize::MAX,
            lower_operands(src@, nodes@.subrange(a as int, b as int)) == (
                out@.map_values(|o: Operand| o@) + lower_operands(src@, nodes@.subrange(j as int, b as int)).0,
                faults + lower_operands(src@, nodes@.subrange(j as int, b as int)).1,
            ),
            appended(src@, start, diags@, faults),
        decreases b - j,
    {
        let ghost sub = nodes@.subrange(j as int, b as int);
        assert(sub.drop_first() =~= nodes@.subrange(j + 1, b as int));
        assert(sub[0] == nodes@[j as int]);
        let ghost rest = lower_operands(src@, nodes@.subrange(j + 1, b as int));
        match nodes[j] {
            Node::Operand { mode, target, span } => {
                match lower_target_exec(src, target, span) {
                    Ok(t) => {
                        let o = Operand::new(mode, t);
                        let ghost before = out@;
                        out.push(o);
                        assert(out@.map_values(|o: Operand| o@) =~= before.map_values(|o: Operand| o@).push(o@));
                        assert(before.map_values(|o: Operand| o@) + (seq![o@] + rest.0) =~= out@.map_values(|o: Operand| o@) + rest.0);
                    },
                    Err(e) => {
                        let ghost f = lower_target(src@, target)->Err_0;
                        let ghost d = diags@;
                        diags.push(e);
                        proof {
                            lemma_appended_push(src@, start, d, faults, e, f);
                            assert(faults + (seq![f] + rest.1) =~= faults.push(f) + rest.1);
                            faults = faults.push(f);
                        }
                    },
                }
            },
            _ => {},
        }
        j = j + 1;
    }
    assert(nodes@.subrange(j as int, b as int) =~= Seq::<Node>::empty());
    assert(out@.map_values(|o: Operand| o@) + Seq::<OperandView>::empty() =~= out@.map_values(|o: Operand| o@));
    assert(faults + Seq::<Fault>::empty() =~= faults);
    out
}

fn lower_arguments_exec(src: &Vec<char>, nodes: &Vec<Node>, a: usize, b: usize, diags: &mut Vec<SyntaxError>) -> (r: Vec<Argument>)
    requires
        a <= b <= nodes@.len(),
        forall|j: int| a <= j < b ==> node_spans_ok(src@, #[trigger] nodes@[j]),
        src@.len() < usize::MAX,
    ensures
        r@.map_values(|x: Argument| x@) == lower_arguments(src@, nodes@.subrange(a as int, b as int)).0,
        appended(src@, old(diags)@, final(diags)@, lower_arguments(src@, nodes@.subrange(a as int, b as int)).1),
{
    let mut out: Vec<Argument> = Vec::new();
    let ghost start = diags@;
    let ghost mut faults: Seq<Fault> = Seq::empty();
    proof {
        lemma_appended_none(src@, start);
    }
    let mut j: usize = a;
    while j < b
        invariant
            a <= j <= b <= nodes@.len(),
            forall|i: int| a <= i < b ==> node_spans_ok(src@, #[trigger] nodes@[i]),
            src@.len() < usize::MAX,
            lower_arguments(src@, nodes@.subrange(a as int, b as int)) == (
                out@.map_values(|x: Argument| x@) + lower_arguments(src@, nodes@.subrange(j as int, b as int)).0,
                faults + lower_arguments(src@, nodes@.subrange(j as int, b as int)).1,
            ),
            appended(src@, start, diags@, faults),
        decreases b - j,
    {
        let ghost sub = nodes@.subrange(j as int, b as int);
        assert(sub.drop_first() =~= nodes@.subrange(j + 1, b as int));
        assert(sub[0] == nodes@[j as int]);
        let ghost rest = lower_arguments(src@, nodes@.subrange(j + 1, b as int));
        match nodes[j] {
            Node::Argument(x) => {
                match lower_argument_exec(src, x) {
                    Ok(arg) => {
                        let ghost before = out@;
                        out.push(arg);
                        assert(out@.map_values(|x: Argument| x@) =~= before.map_values(|x: Argument| x@).push(arg@));
                        assert(before.map_values(|x: Argument| x@) + (seq![arg@] + rest.0) =~= out@.map_values(|x: Argument| x@) + rest.0);
                    },
                    Err(e) => {
                        let ghost f = lower_argument(src@, x)->Err_0;
                        let ghost d = diags@;
                        diags.push(e);
                        proof {
                            lemma_appended_push(src@, start, d, faults, e, f);
                            assert(faults + (seq![f] + rest.1) =~= faults.push(f) + rest.1);
                            faults = faults.push(f);
                        }
                    },
                }
            },
            _ => {},
        }
        j = j + 1;
    }
    assert(nodes@.subrange(j as int, b as int) =~= Seq::<Node>::empty());
    assert(out@.map_values(|x: Argument| x@) + Seq::<ArgumentView>::empty() =~= out@.map_values(|x: Argument| x@));
    assert(faults + Seq::<Fault>::empty() =~= faults);
    out
}

/// Reports the fault of a statement's keyword, if any, and tells whether there was one.
fn head_exec(src: &Vec<char>, head: Node, given: usize, diags: &mut Vec<SyntaxError>) -> (r: bool)
    requires
        head is Directive || head is Instruction,
        node_spans_ok(src@, head),
        src@.len() < usize::MAX,
    ensures
        appended(src@, old(diags)@, final(diags)@, head_faults(src@, head, given as int)),
        r == (head_faults(src@, head, given as int).len() > 0),
{
    let ghost start = diags@;
    proof {
        lemma_appended_none(src@, start);
    }
    let (kw, name_span, span, is_directive) = match head {
        Node::Directive { command, span, .. } => (command, command, span, true),
        Node::Instruction { mnemonic, span, .. } => (mnemonic, mnemonic, span, false),
        _ => vstd::pervasive::unreached(),
    };
    let name = span_text(src, kw);
    let known: Option<usize> = if is_directive {
        match Command::from_name(name) {
            Some(c) => Some(c.arity()),
            None => None,
        }
    } else {
        match Mnemonic::from_name(name) {
            Some(m) => Some(m.arity()),
            None => None,
        }
    };
    let e = match known {
        None => if is_directive {
            SyntaxError::new_from_span(SyntaxErrorType::CommandUnknown(string_of(name)), src, name_span)
        } else {
            SyntaxError::new_from_span(SyntaxErrorType::MnemonicUnknown(string_of(name)), src, name_span)
        },
        Some(expect) => {
            if given == expect {
                assert(head_faults(src@, head, given as int) =~= Seq::<Fault>::empty());
                return false;
            }
            SyntaxError::new_from_span(SyntaxErrorType::Arguments { name: string_of(name), expect, given }, src, span)
        },
    };
    diags.push(e);
    proof {
        lemma_appended_push(src@, start, start, Seq::empty(), e, head_faults(src@, head, given as int)[0]);
        assert(Seq::<Fault>::empty().push(head_faults(src@, head, given as int)[0]) =~= head_faults(src@, head, given as int));
    }
    true
}

/// Lowers the statement whose node stands at `i`, its children following it,
/// and reports all its faults.
fn lower_statement_exec(src: &Vec<char>, nodes: &Vec<Node>, i: usize, diags: &mut Vec<SyntaxError>) -> (r: Option<Statement>)
    requires
        i < nodes@.len(),
        nodes@[i as int] is Directive || nodes@[i as int] is Instruction,
        i + 1 + child_count(nodes@[i as int]) <= nodes@.len(),
        forall|j: int| i <= j <= i + child_count(nodes@[i as int]) ==> node_spans_ok(src@, #[trigger] nodes@[j]),
        src@.len() < usize::MAX,
    ensures
        ({
            let l = lower_statement(src@, nodes@[i as int], nodes@.subrange(i + 1, i + 1 + child_count(nodes@[i as int])));
            &&& (r is Some <==> l.0 is Some)
            &&& r is Some ==> r->Some_0@ == l.0->Some_0
            &&& appended(src@, old(diags)@, final(diags)@, l.1)
        }),
{
    // a length fits in usize, so positions below it can be incremented
    let n: usize = nodes.len();
    let head = nodes[i];
    assert(node_spans_ok(src@, nodes@[i as int]));
    let k: usize = match head {
        Node::Directive { arguments, .. } => arguments,
        Node::Instruction { operands, .. } => operands,
        _ => 0,
    };
    let ghost kids = nodes@.subrange(i + 1, i + 1 + k);
    assert forall|j: int| i + 1 <= j < i + 1 + k implies node_spans_ok(src@, #[trigger] nodes@[j]) by {}
    let ghost d0 = diags@;
    let bad_head = head_exec(src, head, k, diags);
    let ghost d1 = diags@;
    let before_items: usize = diags.len();
    match head {
        Node::Directive { command, .. } => {
            let args = lower_arguments_exec(src, nodes, i + 1, i + 1 + k, diags);
            proof {
                lemma_appended_trans(src@, d0, d1, diags@, head_faults(src@, head, k as int), lower_arguments(src@, kids).1);
            }
            if bad_head || diags.len() != before_items {
                None
            } else {
                let c = Command::from_name(span_text(src, command));
                match c {
                    Some(c) => Some(Statement::Directive(Directive::new(c, args))),
                    None => None,
                }
            }
        },
        Node::Instruction { label, mnemonic, .. } => {
            let ops = lower_operands_exec(src, nodes, i + 1, i + 1 + k, diags);
            proof {
                lemma_appended_trans(src@, d0, d1, diags@, head_faults(src@, head, k as int), lower_operands(src@, kids).1);
            }
            if bad_head || diags.len() != before_items {
                None
            } else {
                match Mnemonic::from_name(span_text(src, mnemonic)) {
                    Some(m) => {
                        let l = match label {
                            Some(sp) => Some(Label::new(string_of(span_text(src, sp)))),
                            None => None,
                        };
                        Some(Statement::Instruction(Instruction::new(l, m, ops)))
                    },
                    None => None,
                }
            }
        },
        _ => vstd::pervasive::unreached(),
    }
}

/// Lowers every statement of the tree. A statement with a fault is left out of
/// the AST, every fault is reported, and lowering goes on with the next one.
pub fn consume(src: &Vec<char>, cst: &crate::syntax::Cst) -> (r: (Ast, Vec<SyntaxError>))
    requires
        wf_nodes(src@, cst.nodes@),
        src@.len() < usize::MAX,
    ensures
        r.0@ == lower_all(src@, cst.nodes@).0,
        reports_faults(src@, r.1@, lower_all(src@, cst.nodes@).1),
{
    let nodes = &cst.nodes;
    let mut stmts: Vec<Statement> = Vec::new();
    let mut diags: Vec<SyntaxError> = Vec::new();
    let ghost mut faults: Seq<Fault> = Seq::empty();
    proof {
        lemma_appended_none(src@, diags@);
    }
    let mut i: usize = 0;
    assert(nodes@.subrange(0, nodes@.len() as int) =~= nodes@);
    assert(stmts@.map_values(|s: Statement| s@) =~= Seq::<StatementView>::empty());
    assert(Seq::<StatementView>::empty() + lower_all(src@, nodes@).0 =~= lower_all(src@, nodes@).0);
    assert(faults + lower_all(src@, nodes@).1 =~= lower_all(src@, nodes@).1);
    while i < nodes.len()
        invariant
            i <= nodes@.len(),
            src@.len() < usize::MAX,
            wf_nodes(src@, nodes@.subrange(i as int, nodes@.len() as int)),
            lower_all(src@, nodes@) == (
                stmts@.map_values(|s: Statement| s@) + lower_all(src@, nodes@.subrange(i as int, nodes@.len() as int)).0,
                faults + lower_all(src@, nodes@.subrange(i as int, nodes@.len() as int)).1,
            ),
            appended(src@, Seq::empty(), diags@, faults),
        decreases nodes@.len() - i,
    {
        let ghost sub = nodes@.subrange(i as int, nodes@.len() as int);
        let ghost k = child_count(sub[0]);
        assert(sub[0] == nodes@[i as int]);
        assert(sub.subrange(1 + k, sub.len() as int) =~= nodes@.subrange(i + 1 + k, nodes@.len() as int));
        assert(sub.subrange(1, 1 + k) =~= nodes@.subrange(i + 1, i + 1 + k));
        assert forall|j: int| i <= j <= i + k implies node_spans_ok(src@, #[trigger] nodes@[j]) by {
            assert(nodes@[j] == sub[j - i]);
        }
        let step: usize = match nodes[i] {
            Node::Directive { arguments, .. } => arguments,
            Node::Instruction { operands, .. } => operands,
            _ => 0,
        };
        let ghost rest = lower_all(src@, nodes@.subrange(i + 1 + k, nodes@.len() as int));
        let ghost here = lower_statement(src@, nodes@[i as int], nodes@.subrange(i + 1, i + 1 + k));
        let ghost d0 = diags@;
        let r = lower_statement_exec(src, nodes, i, &mut diags);
        proof {
            lemma_appended_trans(src@, Seq::empty(), d0, diags@, faults, here.1);
            assert(faults + (here.1 + rest.1) =~= (faults + here.1) + rest.1);
            faults = faults + here.1;
        }
        match r {
            Some(st) => {
                let ghost before = stmts@;
                stmts.push(st);
                assert(stmts@.map_values(|s: Statement| s@) =~= before.map_values(|s: Statement| s@).push(st@));
                assert(before.map_values(|s: Statement| s@) + (seq![st@] + rest.0) =~= stmts@.map_values(|s: Statement| s@) + rest.0);
            },
            None => {},
        }
        i = i + 1 + step;
    }
    assert(nodes@.subrange(i as int, nodes@.len() as int) =~= Seq::<Node>::empty());
    assert(stmts@.map_values(|s: Statement| s@) + Seq::<StatementView>::empty() =~= stmts@.map_values(|s: Statement| s@));
    assert(faults + Seq::<Fault>::empty() =~= faults);
    assert(diags@.subrange(0, diags@.len() as int) =~= diags@);
    (Ast::new(stmts), diags)
}

} // verus!
