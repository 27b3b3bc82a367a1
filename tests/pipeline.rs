use assembler::assemble;
use assembler::ast::{Argument, Command, Directive, Instruction, Label, Mnemonic, Mode, Operand, Register, Statement, Target, Word};
use assembler::error::{has_errors, Expected, NumberError, SyntaxError, SyntaxErrorType};
use assembler::lexer::{tokenize, Span, TokenKind};
use assembler::lower::consume;
use assembler::syntax::{parse, Cst, CstTarget, Node};

fn chars(s: &str) -> Vec<char> {
    s.chars().collect()
}

fn direct(t: Target) -> Operand {
    Operand::new(Mode::Direct, t)
}

#[test]
fn org_directive() {
    let (ast, diags) = assemble("org 10");
    assert!(diags.is_empty());
    let expected = Statement::Directive(Directive::new(Command::ORG, vec![Argument::Word(Word::from_byte(10))]));
    assert_eq!(ast.statements(), &[expected][..]);
}

#[test]
fn labelled_mov() {
    let (ast, diags) = assemble("start: mov ra, rb");
    assert!(diags.is_empty());
    let expected = Statement::Instruction(Instruction::new(
        Some(Label::new("start".to_string())),
        Mnemonic::MOV,
        vec![direct(Target::Register(Register::Ra)), direct(Target::Register(Register::Rb))],
    ));
    assert_eq!(ast.statements(), &[expected][..]);
    match &ast.statements()[0] {
        Statement::Instruction(i) => assert_eq!(i.label().as_ref().map(|l| l.as_str()), Some("start")),
        _ => panic!("not an instruction"),
    }
}

#[test]
fn unknown_mnemonic_after_label() {
    let (ast, diags) = assemble("foo bar");
    assert_eq!(ast.len(), 0);
    assert_eq!(diags.len(), 1);
    assert_eq!(diags[0].ty, SyntaxErrorType::MnemonicUnknown("bar".to_string()));
    assert_eq!(diags[0].span, ((1, 5), (1, 8)));
    assert_eq!(diags[0].offsets, Span { start: 4, end: 7 });
    assert_eq!(diags[0].line, "foo bar");
}

#[test]
fn indirect_operand() {
    let (ast, diags) = assemble("lod ra, [255]");
    assert!(diags.is_empty());
    let expected = Statement::Instruction(Instruction::new(
        None,
        Mnemonic::LOD,
        vec![direct(Target::Register(Register::Ra)), Operand::new(Mode::Indirect, Target::Word(Word::from_byte(255)))],
    ));
    assert_eq!(ast.statements(), &[expected][..]);
}

#[test]
fn bad_line_does_not_hide_next() {
    let (ast, diags) = assemble("xyz\nmov ra, rb");
    assert_eq!(diags.len(), 1);
    assert_eq!(diags[0].span.0 .0, 1);
    assert_eq!(
        diags[0].ty,
        SyntaxErrorType::Unexpected { expected: Expected::Mnemonic, found: None }
    );
    assert_eq!(ast.len(), 1);
    match &ast.statements()[0] {
        Statement::Instruction(i) => assert_eq!(i.mnemonic(), Mnemonic::MOV),
        _ => panic!("not an instruction"),
    }
}

#[test]
fn wrong_operand_count() {
    let (ast, diags) = assemble("add ra");
    assert_eq!(ast.len(), 0);
    assert_eq!(diags.len(), 1);
    assert_eq!(
        diags[0].ty,
        SyntaxErrorType::Arguments { name: "add".to_string(), expect: 2, given: 1 }
    );
    assert_eq!(diags[0].span, ((1, 1), (1, 7)));
}

#[test]
fn empty_source() {
    let (ast, diags) = assemble("");
    assert_eq!(ast.len(), 0);
    assert!(diags.is_empty());
    let (cst, diags) = parse(&chars(""));
    assert!(cst.nodes.is_empty());
    assert_eq!(cst.eoi, Span { start: 0, end: 0 });
    assert!(diags.is_empty());
}

#[test]
fn same_text_same_result() {
    let text = "start: mov ra, rb\nfoo bar\n  org 300 ; comment\nadd ra, $";
    let a = assemble(text);
    let b = assemble(text);
    assert_eq!(a, b);
    assert_eq!(tokenize(&chars(text)), tokenize(&chars(text)));
}

#[test]
fn tokens_cover_source() {
    let text = "l1: lod rb, [x] ; load\n\tjmp -5 @ ,:";
    let src = chars(text);
    let toks = tokenize(&src);
    let mut pos = 0;
    for t in &toks {
        assert_eq!(t.span.start, pos);
        assert!(t.span.end > t.span.start);
        pos = t.span.end;
    }
    assert_eq!(pos, src.len());
    let kinds: Vec<TokenKind> = toks.iter().map(|t| t.kind).collect();
    assert_eq!(kinds[0], TokenKind::Ident);
    assert_eq!(kinds[1], TokenKind::Colon);
    assert!(kinds.contains(&TokenKind::Comment));
    assert!(kinds.contains(&TokenKind::Error));
    assert!(kinds.contains(&TokenKind::Number));
}

#[test]
fn vocabulary_is_closed() {
    assert_eq!(Mnemonic::from_name(&chars("MoV")), Some(Mnemonic::MOV));
    assert_eq!(Mnemonic::from_name(&chars("push")), Some(Mnemonic::PUSH));
    assert_eq!(Mnemonic::from_name(&chars("nop")), None);
    assert_eq!(Command::from_name(&chars("EQU")), Some(Command::EQU));
    assert_eq!(Command::from_name(&chars("org")), Some(Command::ORG));
    assert_eq!(Command::from_name(&chars("db")), None);
    assert_eq!(Register::from_name(&chars("rb")), Some(Register::Rb));
    assert_eq!(Register::from_name(&chars("RC")), Some(Register::Rc));
    assert_eq!(Register::from_name(&chars("Sp")), Some(Register::SP));
    assert_eq!(Register::from_name(&chars("re")), None);
}

#[test]
fn case_insensitive_keywords() {
    let (ast, diags) = assemble("MOV RC, Rb");
    assert!(diags.is_empty());
    let expected = Statement::Instruction(Instruction::new(
        None,
        Mnemonic::MOV,
        vec![direct(Target::Register(Register::Rc)), direct(Target::Register(Register::Rb))],
    ));
    assert_eq!(ast.statements(), &[expected][..]);
}

#[test]
fn byte_round_trip() {
    for n in -128i32..=255 {
        let text = n.to_string();
        let w = Word::parse(&chars(&text)).expect("in range");
        assert_eq!(w.byte(), (n & 0xff) as u8);
        if n < 0 {
            assert_eq!(w.as_signed() as i32, n);
        } else {
            assert_eq!(w.as_unsigned() as i32, n);
        }
    }
    assert_eq!(Word::parse(&chars("-1")).unwrap().byte(), 255);
    assert_eq!(Word::parse(&chars("-128")).unwrap().byte(), 128);
    assert_eq!(Word::parse(&chars("256")), Err(NumberError::PosOverflow));
    assert_eq!(Word::parse(&chars("-129")), Err(NumberError::NegOverflow));
    assert_eq!(Word::parse(&chars("")), Err(NumberError::Empty));
    assert_eq!(Word::parse(&chars("-")), Err(NumberError::InvalidDigit));
    assert_eq!(Word::parse(&chars("1a")), Err(NumberError::InvalidDigit));
    assert_eq!(Word::parse(&chars("00000000255")).unwrap().byte(), 255);
}

#[test]
fn number_out_of_range_is_reported() {
    let (ast, diags) = assemble("org 300\norg -129\norg 7");
    assert_eq!(ast.len(), 1);
    assert_eq!(diags.len(), 2);
    assert_eq!(diags[0].ty, SyntaxErrorType::ParseIntError(NumberError::PosOverflow));
    assert_eq!(diags[0].span, ((1, 5), (1, 8)));
    assert_eq!(diags[1].ty, SyntaxErrorType::ParseIntError(NumberError::NegOverflow));
    assert_eq!(diags[1].span, ((2, 5), (2, 9)));
    assert_eq!(diags[1].line, "org -129");
}

#[test]
fn unknown_character_is_reported() {
    let (ast, diags) = assemble("mov ra, $");
    assert_eq!(ast.len(), 0);
    assert_eq!(diags.len(), 1);
    assert_eq!(diags[0].ty, SyntaxErrorType::CharacterUnknown("$".to_string()));
    assert_eq!(diags[0].span, ((1, 9), (1, 10)));
}

#[test]
fn missing_comma_is_reported() {
    let (_, diags) = assemble("mov ra rb");
    assert_eq!(diags.len(), 1);
    assert_eq!(
        diags[0].ty,
        SyntaxErrorType::Unexpected { expected: Expected::Separator, found: Some(TokenKind::Ident) }
    );
}

#[test]
fn unclosed_bracket_is_reported() {
    let (_, diags) = assemble("lod ra, [x");
    assert_eq!(diags.len(), 1);
    assert_eq!(
        diags[0].ty,
        SyntaxErrorType::Unexpected { expected: Expected::ClosingBracket, found: None }
    );
    assert_eq!(diags[0].span, ((1, 11), (1, 11)));
}

#[test]
fn unknown_command_from_tree() {
    let src = chars("foo 1");
    let cst = Cst {
        nodes: vec![
            Node::Directive { command: Span { start: 0, end: 3 }, arguments: 0, span: Span { start: 0, end: 5 } },
        ],
        eoi: Span { start: 5, end: 5 },
    };
    let (ast, diags) = consume(&src, &cst);
    assert_eq!(ast.len(), 0);
    assert_eq!(diags.len(), 1);
    assert_eq!(diags[0].ty, SyntaxErrorType::CommandUnknown("foo".to_string()));
}

#[test]
fn unknown_register_from_tree() {
    let src = chars("inc rx");
    let cst = Cst {
        nodes: vec![
            Node::Instruction { label: None, mnemonic: Span { start: 0, end: 3 }, operands: 1, span: Span { start: 0, end: 6 } },
            Node::Operand { mode: Mode::Direct, target: CstTarget::Register(Span { start: 4, end: 6 }), span: Span { start: 4, end: 6 } },
        ],
        eoi: Span { start: 6, end: 6 },
    };
    let (ast, diags) = consume(&src, &cst);
    assert_eq!(ast.len(), 0);
    assert_eq!(diags[0].ty, SyntaxErrorType::RegisterUnknown("rx".to_string()));
    assert_eq!(diags[0].span, ((1, 5), (1, 7)));
}

#[test]
fn directives_and_labels() {
    let (ast, diags) = assemble("equ size, 4\nloop: jmp loop\nhlt");
    assert!(diags.is_empty());
    let expected = vec![
        Statement::Directive(Directive::new(
            Command::EQU,
            vec![Argument::Label(Label::new("size".to_string())), Argument::Word(Word::from_byte(4))],
        )),
        Statement::Instruction(Instruction::new(
            Some(Label::new("loop".to_string())),
            Mnemonic::JMP,
            vec![direct(Target::Label(Label::new("loop".to_string())))],
        )),
        Statement::Instruction(Instruction::new(None, Mnemonic::HLT, vec![])),
    ];
    assert_eq!(ast.statements(), &expected[..]);
}

#[test]
fn diagnostics_in_source_order() {
    let (ast, diags) = assemble("add ra\n5\nfoo bar\nret");
    assert_eq!(ast.len(), 1);
    assert_eq!(diags.len(), 3);
    assert_eq!(diags[0].span.0 .0, 1);
    assert_eq!(diags[1].span.0 .0, 2);
    assert_eq!(diags[2].span.0 .0, 3);
    assert_eq!(
        diags[1].ty,
        SyntaxErrorType::Unexpected { expected: Expected::Statement, found: Some(TokenKind::Number) }
    );
    assert!(has_errors(&diags));
    assert!(!has_errors(&Vec::<SyntaxError>::new()));
}

#[test]
fn error_constructors() {
    let src = chars("ab\ncd ef");
    let e = SyntaxError::new_from_span(SyntaxErrorType::Custom("x".to_string()), &src, Span { start: 6, end: 8 });
    assert_eq!(e.span, ((2, 4), (2, 6)));
    assert_eq!(e.line, "cd ef");
    assert!(e.is_error());
    let toks = tokenize(&src);
    let r: Result<(), SyntaxError> = SyntaxError::err_from_pair(SyntaxErrorType::Custom("y".to_string()), &src, toks[0]);
    assert_eq!(r.unwrap_err().span, ((1, 1), (1, 3)));
    let p = SyntaxError::new_from_pair(SyntaxErrorType::Custom("z".to_string()), &src, toks[2]);
    assert_eq!(p.offsets, Span { start: 3, end: 5 });
    let r2: Result<u8, SyntaxError> = SyntaxError::err_from_span(SyntaxErrorType::Custom("w".to_string()), &src, Span { start: 2, end: 3 });
    assert_eq!(r2.unwrap_err().line, "ab");
}

#[test]
fn every_unknown_character_is_reported() {
    let (ast, diags) = assemble("5 $");
    assert_eq!(ast.len(), 0);
    assert_eq!(diags.len(), 2);
    assert_eq!(
        diags[0].ty,
        SyntaxErrorType::Unexpected { expected: Expected::Statement, found: Some(TokenKind::Number) }
    );
    assert_eq!(diags[1].ty, SyntaxErrorType::CharacterUnknown("$".to_string()));
    assert_eq!(diags[1].span, ((1, 3), (1, 4)));
    let (_, diags) = assemble("mov ra, $ # rb");
    assert_eq!(diags.len(), 2);
    assert_eq!(diags[0].ty, SyntaxErrorType::CharacterUnknown("$".to_string()));
    assert_eq!(diags[1].ty, SyntaxErrorType::CharacterUnknown("#".to_string()));
}

#[test]
fn every_lowering_fault_is_reported() {
    let (ast, diags) = assemble("mov 300, 400");
    assert_eq!(ast.len(), 0);
    assert_eq!(diags.len(), 2);
    assert_eq!(diags[0].ty, SyntaxErrorType::ParseIntError(NumberError::PosOverflow));
    assert_eq!(diags[0].span, ((1, 5), (1, 8)));
    assert_eq!(diags[1].ty, SyntaxErrorType::ParseIntError(NumberError::PosOverflow));
    assert_eq!(diags[1].span, ((1, 10), (1, 13)));
    let (_, diags) = assemble("add 300");
    assert_eq!(diags.len(), 2);
    assert_eq!(diags[0].ty, SyntaxErrorType::Arguments { name: "add".to_string(), expect: 2, given: 1 });
    assert_eq!(diags[1].ty, SyntaxErrorType::ParseIntError(NumberError::PosOverflow));
    let (_, diags) = assemble("equ x, -200");
    assert_eq!(diags.len(), 1);
    assert_eq!(diags[0].ty, SyntaxErrorType::ParseIntError(NumberError::NegOverflow));
}

#[test]
fn operand_node_spans_cover_brackets() {
    let (cst, diags) = parse(&chars("lod ra, [255]"));
    assert!(diags.is_empty());
    assert_eq!(cst.nodes.len(), 3);
    match cst.nodes[0] {
        Node::Instruction { span, .. } => assert_eq!(span, Span { start: 0, end: 13 }),
        _ => panic!("not an instruction"),
    }
    match cst.nodes[2] {
        Node::Operand { mode, span, .. } => {
            assert_eq!(mode, Mode::Indirect);
            assert_eq!(span, Span { start: 8, end: 13 });
        }
        _ => panic!("not an operand"),
    }
}
