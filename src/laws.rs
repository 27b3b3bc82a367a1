//! Properties of the front end as a whole, proved over the specifications.
use vstd::prelude::*;
use crate::ast::{
    all_digits, command_name, command_of, digits_value, mnemonic_name, mnemonic_of, register_name,
    register_of, signed_of, word_of, Command, Mnemonic, Register,
};
use crate::lexer::{is_digit, lemma_lex_end, lemma_lex_step, lex, lex_from, Span, Token};
use crate::lower::{head_faults, lower_all, lower_arguments, lower_operands, lower_statement, lower_target, Fault};
use crate::error::ErrorKind;
use crate::syntax::{text, CstTarget};
use crate::syntax::{
    child_count, failure_span, flush, lemma_line_failure, line_ok, line_span, parse_line,
    parse_prefix, parse_tokens, wf_nodes, LineParse, Node,
};
use crate::{diagnostics, lowered};
use crate::text::{ci_eq, fold};

verus! {

/// Every character of `w` is a lower-case ASCII letter.
pub open spec fn lower_word(w: Seq<char>) -> bool {
    forall|i: int| 0 <= i < w.len() ==> 'a' <= #[trigger] w[i] && w[i] <= 'z'
}

/// Two keywords that one identifier spells, ignoring case, are the same keyword.
proof fn lemma_ci_eq_unique(s: Seq<char>, a: Seq<char>, b: Seq<char>)
    requires
        lower_word(a),
        lower_word(b),
        ci_eq(s, a),
        ci_eq(s, b),
    ensures
        a == b,
{
    assert forall|i: int| 0 <= i < a.len() implies a[i] == b[i] by {
        assert(fold(s[i]) == a[i] as u32);
        assert(fold(s[i]) == b[i] as u32);
    }
    assert(a =~= b);
}

/// No two mnemonics share a name.
proof fn lemma_mnemonic_names_distinct(x: Mnemonic, y: Mnemonic)
    requires
        mnemonic_name(x) == mnemonic_name(y),
    ensures
        x == y,
{
    let n = mnemonic_name(x);
    let o = mnemonic_name(y);
    assert(n.len() == o.len());
    if n.len() > 0 {
        assert(n[0] == o[0]);
    }
    if n.len() > 1 {
        assert(n[1] == o[1]);
    }
    if n.len() > 2 {
        assert(n[2] == o[2]);
    }
    match x {
        Mnemonic::ADD => {}, Mnemonic::CALL => {}, Mnemonic::CMP => {}, Mnemonic::DATA => {}, Mnemonic::HLT => {}, Mnemonic::INC => {}, Mnemonic::JC => {}, Mnemonic::JN => {}, Mnemonic::JO => {}, Mnemonic::JZ => {}, Mnemonic::JMP => {}, Mnemonic::LOD => {}, Mnemonic::MOV => {}, Mnemonic::POP => {}, Mnemonic::PUSH => {}, Mnemonic::RET => {}, Mnemonic::STO => {}, Mnemonic::SUB => {}, Mnemonic::TST => {}, Mnemonic::XOR => {},
    }
}

/// Every identifier either names exactly the mnemonic whose name it spells
/// (ignoring case) or is unknown: a lookup finds `m` if and only if the text
/// spells `m`, so no text is both known and unknown, nor neither.
pub proof fn law_mnemonic_lookup(s: Seq<char>, m: Mnemonic)
    ensures
        mnemonic_of(s) == Some(m) <==> ci_eq(s, mnemonic_name(m)),
        mnemonic_of(s) is None <==> forall|x: Mnemonic| !ci_eq(s, #[trigger] mnemonic_name(x)),
{
    reveal(mnemonic_of);
    assert forall|x: Mnemonic| mnemonic_of(s) is None implies !ci_eq(s, #[trigger] mnemonic_name(x)) by {
        match x {
            Mnemonic::ADD => {}, Mnemonic::CALL => {}, Mnemonic::CMP => {}, Mnemonic::DATA => {}, Mnemonic::HLT => {}, Mnemonic::INC => {}, Mnemonic::JC => {}, Mnemonic::JN => {}, Mnemonic::JO => {}, Mnemonic::JZ => {}, Mnemonic::JMP => {}, Mnemonic::LOD => {}, Mnemonic::MOV => {}, Mnemonic::POP => {}, Mnemonic::PUSH => {}, Mnemonic::RET => {}, Mnemonic::STO => {}, Mnemonic::SUB => {}, Mnemonic::TST => {}, Mnemonic::XOR => {},
        }
    }
    if mnemonic_of(s) is Some {
        let x = mnemonic_of(s)->Some_0;
        assert(ci_eq(s, mnemonic_name(x))) by {
            match x {
                Mnemonic::ADD => {}, Mnemonic::CALL => {}, Mnemonic::CMP => {}, Mnemonic::DATA => {}, Mnemonic::HLT => {}, Mnemonic::INC => {}, Mnemonic::JC => {}, Mnemonic::JN => {}, Mnemonic::JO => {}, Mnemonic::JZ => {}, Mnemonic::JMP => {}, Mnemonic::LOD => {}, Mnemonic::MOV => {}, Mnemonic::POP => {}, Mnemonic::PUSH => {}, Mnemonic::RET => {}, Mnemonic::STO => {}, Mnemonic::SUB => {}, Mnemonic::TST => {}, Mnemonic::XOR => {},
            }
        }
        if ci_eq(s, mnemonic_name(m)) {
            assert(lower_word(mnemonic_name(x)) && lower_word(mnemonic_name(m))) by {
                match x {
                    Mnemonic::ADD => {}, Mnemonic::CALL => {}, Mnemonic::CMP => {}, Mnemonic::DATA => {}, Mnemonic::HLT => {}, Mnemonic::INC => {}, Mnemonic::JC => {}, Mnemonic::JN => {}, Mnemonic::JO => {}, Mnemonic::JZ => {}, Mnemonic::JMP => {}, Mnemonic::LOD => {}, Mnemonic::MOV => {}, Mnemonic::POP => {}, Mnemonic::PUSH => {}, Mnemonic::RET => {}, Mnemonic::STO => {}, Mnemonic::SUB => {}, Mnemonic::TST => {}, Mnemonic::XOR => {},
                }
                match m {
                    Mnemonic::ADD => {}, Mnemonic::CALL => {}, Mnemonic::CMP => {}, Mnemonic::DATA => {}, Mnemonic::HLT => {}, Mnemonic::INC => {}, Mnemonic::JC => {}, Mnemonic::JN => {}, Mnemonic::JO => {}, Mnemonic::JZ => {}, Mnemonic::JMP => {}, Mnemonic::LOD => {}, Mnemonic::MOV => {}, Mnemonic::POP => {}, Mnemonic::PUSH => {}, Mnemonic::RET => {}, Mnemonic::STO => {}, Mnemonic::SUB => {}, Mnemonic::TST => {}, Mnemonic::XOR => {},
                }
            }
            lemma_ci_eq_unique(s, mnemonic_name(x), mnemonic_name(m));
            lemma_mnemonic_names_distinct(x, m);
        }
    }
}

/// No two directive commands share a name.
proof fn lemma_command_names_distinct(x: Command, y: Command)
    requires
        command_name(x) == command_name(y),
    ensures
        x == y,
{
    let n = command_name(x);
    let o = command_name(y);
    assert(n.len() == o.len());
    if n.len() > 0 {
        assert(n[0] == o[0]);
    }
    if n.len() > 1 {
        assert(n[1] == o[1]);
    }
    if n.len() > 2 {
        assert(n[2] == o[2]);
    }
    match x {
        Command::EQU => {}, Command::ORG => {},
    }
}

/// The same law for the directive commands.
pub proof fn law_command_lookup(s: Seq<char>, c: Command)
    ensures
        command_of(s) == Some(c) <==> ci_eq(s, command_name(c)),
        command_of(s) is None <==> forall|x: Command| !ci_eq(s, #[trigger] command_name(x)),
{
    reveal(command_of);
    assert forall|x: Command| command_of(s) is None implies !ci_eq(s, #[trigger] command_name(x)) by {
        match x {
            Command::EQU => {}, Command::ORG => {},
        }
    }
    if command_of(s) is Some {
        let x = command_of(s)->Some_0;
        assert(ci_eq(s, command_name(x))) by {
            match x {
                Command::EQU => {}, Command::ORG => {},
            }
        }
        if ci_eq(s, command_name(c)) {
            assert(lower_word(command_name(x)) && lower_word(command_name(c))) by {
                match x {
                    Command::EQU => {}, Command::ORG => {},
                }
                match c {
                    Command::EQU => {}, Command::ORG => {},
                }
            }
            lemma_ci_eq_unique(s, command_name(x), command_name(c));
            lemma_command_names_distinct(x, c);
        }
    }
}

/// No two registers share a name.
proof fn lemma_register_names_distinct(x: Register, y: Register)
    requires
        register_name(x) == register_name(y),
    ensures
        x == y,
{
    let n = register_name(x);
    let o = register_name(y);
    assert(n.len() == o.len());
    if n.len() > 0 {
        assert(n[0] == o[0]);
    }
    if n.len() > 1 {
        assert(n[1] == o[1]);
    }
    if n.len() > 2 {
        assert(n[2] == o[2]);
    }
    match x {
        Register::Ra => {}, Register::Rb => {}, Register::Rc => {}, Register::Rd => {}, Register::SP => {}, Register::PC => {},
    }
}

/// The same law for the registers.
pub proof fn law_register_lookup(s: Seq<char>, r: Register)
    ensures
        register_of(s) == Some(r) <==> ci_eq(s, register_name(r)),
        register_of(s) is None <==> forall|x: Register| !ci_eq(s, #[trigger] register_name(x)),
{
    reveal(register_of);
    assert forall|x: Register| register_of(s) is None implies !ci_eq(s, #[trigger] register_name(x)) by {
        match x {
            Register::Ra => {}, Register::Rb => {}, Register::Rc => {}, Register::Rd => {}, Register::SP => {}, Register::PC => {},
        }
    }
    if register_of(s) is Some {
        let x = register_of(s)->Some_0;
        assert(ci_eq(s, register_name(x))) by {
            match x {
                Register::Ra => {}, Register::Rb => {}, Register::Rc => {}, Register::Rd => {}, Register::SP => {}, Register::PC => {},
            }
        }
        if ci_eq(s, register_name(r)) {
            assert(lower_word(register_name(x)) && lower_word(register_name(r))) by {
                match x {
                    Register::Ra => {}, Register::Rb => {}, Register::Rc => {}, Register::Rd => {}, Register::SP => {}, Register::PC => {},
                }
                match r {
                    Register::Ra => {}, Register::Rb => {}, Register::Rc => {}, Register::Rd => {}, Register::SP => {}, Register::PC => {},
                }
            }
            lemma_ci_eq_unique(s, register_name(x), register_name(r));
            lemma_register_names_distinct(x, r);
        }
    }
}

/// The decimal digit character of `d`, for `d` in `0..=9`.
pub open spec fn digit_char(d: int) -> char {
    if d == 0 {
        '0'
    } else if d == 1 {
        '1'
    } else if d == 2 {
        '2'
    } else if d == 3 {
        '3'
    } else if d == 4 {
        '4'
    } else if d == 5 {
        '5'
    } else if d == 6 {
        '6'
    } else if d == 7 {
        '7'
    } else if d == 8 {
        '8'
    } else {
        '9'
    }
}

/// The decimal digits of `k`, most significant first.
pub open spec fn decimal_digits(k: nat) -> Seq<char>
    decreases k,
{
    if k < 10 {
        seq![digit_char(k as int)]
    } else {
        decimal_digits(k / 10).push(digit_char((k % 10) as int))
    }
}

/// The usual decimal text of `n`: a `-` before a negative value.
pub open spec fn decimal(n: int) -> Seq<char> {
    if n < 0 {
        seq!['-'] + decimal_digits((-n) as nat)
    } else {
        decimal_digits(n as nat)
    }
}

proof fn lemma_digit_char(d: int)
    requires
        0 <= d < 10,
    ensures
        is_digit(digit_char(d)),
        digit_char(d) as int - '0' as int == d,
{
}

proof fn lemma_decimal_digits(k: nat)
    ensures
        decimal_digits(k).len() > 0,
        all_digits(decimal_digits(k)),
        digits_value(decimal_digits(k)) == k,
    decreases k,
{
    if k < 10 {
        lemma_digit_char(k as int);
        assert(decimal_digits(k).drop_last() =~= Seq::<char>::empty());
        assert(digits_value(Seq::<char>::empty()) == 0);
        assert(decimal_digits(k).last() == digit_char(k as int));
    } else {
        lemma_decimal_digits(k / 10);
        lemma_digit_char((k % 10) as int);
        let s = decimal_digits(k);
        assert(s.drop_last() =~= decimal_digits(k / 10));
        assert(all_digits(s)) by {
            assert forall|i: int| 0 <= i < s.len() implies is_digit(#[trigger] s[i]) by {
                if i < s.len() - 1 {
                    assert(s[i] == decimal_digits(k / 10)[i]);
                }
            }
        }
        assert(s.last() == digit_char((k % 10) as int));
        assert(digits_value(s) == digits_value(decimal_digits(k / 10)) * 10 + (k % 10));
        assert(k == (k / 10) * 10 + k % 10);
    }
}

/// For every value in `-128..=255`, lowering its decimal text stores the
/// two's-complement byte of the value, and reading that byte back with the
/// literal's own interpretation (signed after a `-`, unsigned otherwise)
/// gives the value again.
pub proof fn law_byte_round_trip(n: int)
    requires
        -128 <= n <= 255,
    ensures
        word_of(decimal(n)) == Ok::<u8, crate::error::NumberError>((if n < 0 { n + 256 } else { n }) as u8),
        n < 0 ==> signed_of((n + 256) as u8) == n,
        n >= 0 ==> (n as u8) as int == n,
{
    if n < 0 {
        let k = (-n) as nat;
        lemma_decimal_digits(k);
        let s = decimal(n);
        assert(s.drop_first() =~= decimal_digits(k));
        assert(s[0] == '-');
    } else {
        lemma_decimal_digits(n as nat);
        let s = decimal(n);
        assert(is_digit(s[0]));
    }
}

/// A line that fails to parse is reported inside its own span: from its first
/// token to the end of its last one.
pub proof fn law_failure_within_line(src: Seq<char>, toks: Seq<Token>)
    requires
        line_ok(src, toks),
        parse_line(src, toks) is Failed,
    ensures
        line_span(toks).start <= failure_span(parse_line(src, toks)->Failed_0).start,
        failure_span(parse_line(src, toks)->Failed_0).start <= failure_span(parse_line(src, toks)->Failed_0).end,
        failure_span(parse_line(src, toks)->Failed_0).end <= line_span(toks).end,
{
    lemma_line_failure(src, toks);
    let f = parse_line(src, toks)->Failed_0;
    if toks.len() > 1 {
        assert(toks[0].span.end <= toks[toks.len() - 1].span.start);
    }
    if f.found is Some {
        let i = choose|i: int| 0 <= i < toks.len() && toks[i] == f.found->Some_0 && f.at == toks[i].span.start;
        if i > 0 {
            assert(toks[0].span.end <= toks[i].span.start);
        }
        if i < toks.len() - 1 {
            assert(toks[i].span.end <= toks[toks.len() - 1].span.start);
        }
    }
}

/// Statements lower independently: lowering a run of statements followed by
/// more gives the statements and faults of each part, in order, so a faulty
/// statement never hides those after it.
pub proof fn law_lowering_independent(src: Seq<char>, a: Seq<Node>, b: Seq<Node>)
    requires
        wf_nodes(src, a),
    ensures
        lower_all(src, a + b) == (lower_all(src, a).0 + lower_all(src, b).0, lower_all(src, a).1 + lower_all(src, b).1),
    decreases a.len(),
{
    if a.len() == 0 {
        assert(a + b =~= b);
        assert(lower_all(src, a).0 + lower_all(src, b).0 =~= lower_all(src, b).0);
        assert(lower_all(src, a).1 + lower_all(src, b).1 =~= lower_all(src, b).1);
    } else {
        let k = child_count(a[0]);
        let a2 = a.subrange(1 + k, a.len() as int);
        law_lowering_independent(src, a2, b);
        let ab = a + b;
        assert(ab[0] == a[0]);
        assert(ab.subrange(1 + k, ab.len() as int) =~= a2 + b);
        assert(ab.subrange(1, 1 + k) =~= a.subrange(1, 1 + k));
        let x = lower_all(src, a2);
        let y = lower_all(src, b);
        assert forall|s: crate::ast::StatementView| #![auto] seq![s] + (x.0 + y.0) =~= (seq![s] + x.0) + y.0 by {}
        assert forall|f: Fault| #![auto] seq![f] + (x.1 + y.1) =~= (seq![f] + x.1) + y.1 by {}
    }
}

/// Position `p` lies inside one of `toks`.
pub open spec fn covers(toks: Seq<Token>, p: int) -> bool {
    exists|i: int| 0 <= i < toks.len() && #[trigger] toks[i].span.start <= p < toks[i].span.end
}

proof fn lemma_cover_from(src: Seq<char>, pos: int)
    requires
        0 <= pos <= src.len(),
        src.len() <= usize::MAX,
    ensures
        forall|i: int| 0 <= i < lex_from(src, pos).len() ==> pos <= (#[trigger] lex_from(src, pos)[i]).span.start
            < lex_from(src, pos)[i].span.end <= src.len(),
        forall|i: int, j: int| 0 <= i < j < lex_from(src, pos).len() ==>
            #[trigger] lex_from(src, pos)[i].span.end <= #[trigger] lex_from(src, pos)[j].span.start,
        forall|p: int| pos <= p < src.len() ==> #[trigger] covers(lex_from(src, pos), p),
    decreases src.len() - pos,
{
    if pos == src.len() {
        lemma_lex_end(src);
    } else {
        lemma_lex_step(src, pos);
        let e = crate::lexer::token_end(src, pos);
        lemma_cover_from(src, e);
        let toks = lex_from(src, pos);
        let rest = lex_from(src, e);
        assert(toks[0].span.start as int == pos && toks[0].span.end as int == e);
        assert forall|i: int| 0 < i < toks.len() implies toks[i] == rest[i - 1] by {}
        assert forall|i: int, j: int| 0 <= i < j < toks.len() implies
            #[trigger] toks[i].span.end <= #[trigger] toks[j].span.start by {
            assert(toks[j] == rest[j - 1]);
            if i > 0 {
                assert(toks[i] == rest[i - 1]);
            }
        }
        assert forall|p: int| pos <= p < src.len() implies #[trigger] covers(toks, p) by {
            if p < e {
                assert(toks[0].span.start <= p < toks[0].span.end);
            } else {
                assert(covers(rest, p));
                let i2 = choose|i: int| 0 <= i < rest.len() && #[trigger] rest[i].span.start <= p < rest[i].span.end;
                assert(toks[i2 + 1] == rest[i2]);
            }
        }
    }
}

/// The tokens of a source cover it exactly: every position lies in some
/// token, and tokens never overlap (each ends before the next starts).
pub proof fn law_tokens_cover(src: Seq<char>)
    requires
        src.len() <= usize::MAX,
    ensures
        forall|i: int| 0 <= i < lex(src).len() ==> (#[trigger] lex(src)[i]).span.start < lex(src)[i].span.end <= src.len(),
        forall|i: int, j: int| 0 <= i < j < lex(src).len() ==> #[trigger] lex(src)[i].span.end <= #[trigger] lex(src)[j].span.start,
        forall|p: int| 0 <= p < src.len() ==> #[trigger] covers(lex(src), p),
{
    lemma_cover_from(src, 0);
}

/// The front end is a function of the text alone: the same text always gives
/// the same tokens, tree, statements and diagnostics.
pub proof fn law_deterministic(a: Seq<char>, b: Seq<char>)
    requires
        a =~= b,
    ensures
        lex(a) == lex(b),
        parse_tokens(a, lex(a)) == parse_tokens(b, lex(b)),
        lowered(a) == lowered(b),
        diagnostics(a) == diagnostics(b),
{
}

proof fn lemma_prefix_depends_on_prefix(src: Seq<char>, x: Seq<Token>, y: Seq<Token>, n: int)
    requires
        0 <= n <= x.len(),
        n <= y.len(),
        x.subrange(0, n) == y.subrange(0, n),
    ensures
        parse_prefix(src, x, n) == parse_prefix(src, y, n),
    decreases n,
{
    if n > 0 {
        assert(x.subrange(0, n - 1) =~= x.subrange(0, n).subrange(0, n - 1));
        assert(y.subrange(0, n - 1) =~= y.subrange(0, n).subrange(0, n - 1));
        lemma_prefix_depends_on_prefix(src, x, y, n - 1);
        assert(x[n - 1] == x.subrange(0, n)[n - 1]);
        assert(y[n - 1] == y.subrange(0, n)[n - 1]);
    }
}

proof fn lemma_prefix_shift(src: Seq<char>, pre: Seq<Token>, b: Seq<Token>, n: int)
    requires
        0 <= n <= b.len(),
        parse_prefix(src, pre, pre.len() as int).line.len() == 0,
    ensures
        ({
            let base = parse_prefix(src, pre, pre.len() as int);
            let tail = parse_prefix(src, b, n);
            let whole = parse_prefix(src, pre + b, pre.len() as int + n);
            whole.nodes == base.nodes + tail.nodes && whole.fails == base.fails + tail.fails
                && whole.line == tail.line
        }),
    decreases n,
{
    let base = parse_prefix(src, pre, pre.len() as int);
    if n == 0 {
        assert((pre + b).subrange(0, pre.len() as int) =~= pre.subrange(0, pre.len() as int));
        lemma_prefix_depends_on_prefix(src, pre + b, pre, pre.len() as int);
        assert(base.nodes + Seq::<Node>::empty() =~= base.nodes);
        assert(base.fails + Seq::<crate::syntax::Failure>::empty() =~= base.fails);
        assert(base.line =~= Seq::<Token>::empty());
    } else {
        lemma_prefix_shift(src, pre, b, n - 1);
        let t = b[n - 1];
        assert((pre + b)[pre.len() + n - 1] == t);
        let tail0 = parse_prefix(src, b, n - 1);
        let whole0 = parse_prefix(src, pre + b, pre.len() as int + n - 1);
        assert(whole0.line == tail0.line);
        match parse_line(src, tail0.line) {
            LineParse::Parsed(ns) => {
                assert(base.nodes + (tail0.nodes + ns) =~= (base.nodes + tail0.nodes) + ns);
            },
            LineParse::Failed(f) => {
                assert(base.fails + tail0.fails.push(f) =~= (base.fails + tail0.fails).push(f));
            },
            LineParse::Blank => {},
        }
    }
}

/// Lines parse independently: the tree and failures of a source with a line
/// feed after the tokens `a` are those of `a` followed by those of the rest,
/// so a malformed line neither spreads into nor silences the lines after it.
pub proof fn law_lines_independent(src: Seq<char>, a: Seq<Token>, nl: Token, b: Seq<Token>)
    requires
        nl.kind == crate::lexer::TokenKind::Newline,
    ensures
        ({
            let first = flush(src, parse_prefix(src, a, a.len() as int));
            let rest = parse_tokens(src, b);
            let whole = parse_tokens(src, a + seq![nl] + b);
            whole.nodes == first.nodes + rest.nodes && whole.fails == first.fails + rest.fails
        }),
{
    let pre = a + seq![nl];
    assert(pre.subrange(0, a.len() as int) =~= a.subrange(0, a.len() as int));
    lemma_prefix_depends_on_prefix(src, pre, a, a.len() as int);
    assert(pre[a.len() as int] == nl);
    let first = flush(src, parse_prefix(src, a, a.len() as int));
    assert(parse_prefix(src, pre, pre.len() as int) == first);
    lemma_prefix_shift(src, pre, b, b.len() as int);
    assert(a + seq![nl] + b =~= pre + b);
    let tail = parse_prefix(src, b, b.len() as int);
    let whole = parse_prefix(src, pre + b, (pre.len() + b.len()) as int);
    match parse_line(src, tail.line) {
        LineParse::Parsed(ns) => {
            assert(first.nodes + (tail.nodes + ns) =~= (first.nodes + tail.nodes) + ns);
        },
        LineParse::Failed(f) => {
            assert(first.fails + tail.fails.push(f) =~= (first.fails + tail.fails).push(f));
        },
        LineParse::Blank => {},
    }
}

/// The faults of operands and arguments concern registers and numbers only.
proof fn lemma_child_fault_kinds(src: Seq<char>, kids: Seq<Node>)
    ensures
        forall|i: int| 0 <= i < lower_operands(src, kids).1.len() ==> (#[trigger] lower_operands(src, kids).1[i]).0 is RegisterUnknown
            || lower_operands(src, kids).1[i].0 is ParseIntError,
        forall|i: int| 0 <= i < lower_arguments(src, kids).1.len() ==> (#[trigger] lower_arguments(src, kids).1[i]).0 is ParseIntError,
    decreases kids.len(),
{
    if kids.len() > 0 {
        lemma_child_fault_kinds(src, kids.drop_first());
        let r = lower_operands(src, kids.drop_first()).1;
        let q = lower_arguments(src, kids.drop_first()).1;
        assert forall|i: int| 0 <= i < lower_operands(src, kids).1.len() implies (#[trigger] lower_operands(src, kids).1[i]).0 is RegisterUnknown
            || lower_operands(src, kids).1[i].0 is ParseIntError by {
            if lower_operands(src, kids).1.len() > r.len() && i > 0 {
                assert(lower_operands(src, kids).1[i] == r[i - 1]);
            }
        }
        assert forall|i: int| 0 <= i < lower_arguments(src, kids).1.len() implies (#[trigger] lower_arguments(src, kids).1[i]).0 is ParseIntError by {
            if lower_arguments(src, kids).1.len() > q.len() && i > 0 {
                assert(lower_arguments(src, kids).1[i] == q[i - 1]);
            }
        }
    }
}

/// Each statement either lowers to a value or yields faults, never both and
/// never neither; an instruction whose mnemonic is not in the table yields
/// exactly that fault first, and one that lowers carries the mnemonic its text
/// spells. The same holds of directives and their commands.
pub proof fn law_statement_known_or_reported(src: Seq<char>, head: Node, kids: Seq<Node>)
    requires
        head is Directive || head is Instruction,
    ensures
        lower_statement(src, head, kids).0 is Some <==> lower_statement(src, head, kids).1.len() == 0,
        head matches Node::Instruction { mnemonic, .. } ==> (mnemonic_of(text(src, mnemonic)) is None <==> (
            lower_statement(src, head, kids).1.len() > 0
            && lower_statement(src, head, kids).1[0] == (ErrorKind::MnemonicUnknown(text(src, mnemonic)), mnemonic)
        )),
        head matches Node::Instruction { mnemonic, .. } ==> (lower_statement(src, head, kids).0 is Some ==> (
            lower_statement(src, head, kids).0->Some_0 matches crate::ast::StatementView::Instruction(i)
            && mnemonic_of(text(src, mnemonic)) == Some(i.mnemonic)
        )),
        head matches Node::Directive { command, .. } ==> (command_of(text(src, command)) is None <==> (
            lower_statement(src, head, kids).1.len() > 0
            && lower_statement(src, head, kids).1[0] == (ErrorKind::CommandUnknown(text(src, command)), command)
        )),
        head matches Node::Directive { command, .. } ==> (lower_statement(src, head, kids).0 is Some ==> (
            lower_statement(src, head, kids).0->Some_0 matches crate::ast::StatementView::Directive(d)
            && command_of(text(src, command)) == Some(d.command)
        )),
{
    let h = head_faults(src, head, kids.len() as int);
    let l = lower_statement(src, head, kids);
    lemma_child_fault_kinds(src, kids);
    match head {
        Node::Instruction { mnemonic, .. } => {
            let f = l.1;
            if mnemonic_of(text(src, mnemonic)) is None {
                assert(f[0] == h[0]);
            } else if f.len() > 0 {
                if h.len() > 0 {
                    assert(f[0] == h[0]);
                } else {
                    assert(f[0] == lower_operands(src, kids).1[0]);
                }
            }
        },
        Node::Directive { command, .. } => {
            let f = l.1;
            if command_of(text(src, command)) is None {
                assert(f[0] == h[0]);
            } else if f.len() > 0 {
                if h.len() > 0 {
                    assert(f[0] == h[0]);
                } else {
                    assert(f[0] == lower_arguments(src, kids).1[0]);
                }
            }
        },
        _ => {},
    }
}

/// A register operand either lowers to the register its text spells or is
/// reported as unknown, never both and never neither.
pub proof fn law_register_known_or_reported(src: Seq<char>, sp: Span)
    ensures
        lower_target(src, CstTarget::Register(sp)) is Ok <==> register_of(text(src, sp)) is Some,
        lower_target(src, CstTarget::Register(sp)) is Ok ==> lower_target(src, CstTarget::Register(sp))->Ok_0
            == crate::ast::TargetView::Register(register_of(text(src, sp))->Some_0),
        lower_target(src, CstTarget::Register(sp)) is Err ==> lower_target(src, CstTarget::Register(sp))->Err_0
            == (ErrorKind::RegisterUnknown(text(src, sp)), sp),
{
}

/// Recovery over the whole pipeline: for a source whose tokens are `a`, a
/// line feed and `b`, the statements and the faults, of parsing and of
/// lowering alike, are those of the lines of `a` followed by those of `b`.
/// A malformed line in `a` therefore leaves every statement of `b` lowered
/// exactly as it would be without it.
pub proof fn law_pipeline_lines_independent(src: Seq<char>, a: Seq<Token>, nl: Token, b: Seq<Token>)
    requires
        nl.kind == crate::lexer::TokenKind::Newline,
        wf_nodes(src, flush(src, parse_prefix(src, a, a.len() as int)).nodes),
    ensures
        ({
            let first = flush(src, parse_prefix(src, a, a.len() as int));
            let rest = parse_tokens(src, b);
            let whole = parse_tokens(src, a + seq![nl] + b);
            &&& whole.fails == first.fails + rest.fails
            &&& lower_all(src, whole.nodes).0 == lower_all(src, first.nodes).0 + lower_all(src, rest.nodes).0
            &&& lower_all(src, whole.nodes).1 == lower_all(src, first.nodes).1 + lower_all(src, rest.nodes).1
        }),
{
    law_lines_independent(src, a, nl, b);
    let first = flush(src, parse_prefix(src, a, a.len() as int));
    law_lowering_independent(src, first.nodes, parse_tokens(src, b).nodes);
}

} // verus!
