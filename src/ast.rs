//! The abstract syntax tree: a closed vocabulary of statements.
use vstd::prelude::*;
use crate::error::NumberError;
use crate::lexer::is_digit;
use crate::text::{ci_eq, ci_equals};

verus! {

/// A memory address: one byte.
#[derive(Clone, Copy, Debug, Eq, Hash, PartialEq)]
pub struct Address([u8; 1]);

/// A one-byte value, stored as the two's-complement encoding of a signed
/// literal or as the plain value of an unsigned one.
#[derive(Clone, Copy, Debug, Eq, Hash, PartialEq)]
pub struct Word([u8; 1]);

/// A symbolic name, kept as written.
#[derive(Clone, Debug, Eq, Hash, PartialEq)]
pub struct Label(String);

/// The statements of a program, in source order.
#[derive(Clone, Debug, Eq, Hash, PartialEq)]
pub struct Ast {
    statements: Vec<Statement>,
}

/// One statement of a program.
#[derive(Clone, Debug, Eq, Hash, PartialEq)]
pub enum Statement {
    Directive(Directive),
    Instruction(Instruction),
    EOI,
}

/// An assembler directive with its arguments.
#[derive(Clone, Debug, Eq, Hash, PartialEq)]
pub struct Directive {
    command: Command,
    arguments: Vec<Argument>,
}

/// The directive commands.
#[derive(Clone, Copy, Debug, Eq, Hash, PartialEq, Structural)]
pub enum Command {
    EQU,
    ORG,
}

/// A directive argument.
#[derive(Clone, Debug, Eq, Hash, PartialEq)]
pub enum Argument {
    Label(Label),
    Word(Word),
}

/// A machine instruction, optionally labelled.
#[derive(Clone, Debug, Eq, Hash, PartialEq)]
pub struct Instruction {
    label: Option<Label>,
    mnemonic: Mnemonic,
    operands: Vec<Operand>,
}

/// The instruction mnemonics.
#[derive(Clone, Copy, Debug, Eq, Hash, PartialEq, Structural)]
pub enum Mnemonic {
    ADD,
    CALL,
    CMP,
    DATA,
    HLT,
    INC,
    JC,
    JN,
    JO,
    JZ,
    JMP,
    LOD,
    MOV,
    POP,
    PUSH,
    RET,
    STO,
    SUB,
    TST,
    XOR,
}

/// An instruction operand: how to use its target, and the target.
#[derive(Clone, Debug, Eq, Hash, PartialEq)]
pub struct Operand {
    mode: Mode,
    target: Target,
}

/// The addressing mode of an operand.
#[derive(Clone, Copy, Debug, Eq, Hash, PartialEq, Structural)]
pub enum Mode {
    Direct,
    Indirect,
}

/// What an operand refers to.
#[derive(Clone, Debug, Eq, Hash, PartialEq)]
pub enum Target {
    Register(Register),
    Label(Label),
    Word(Word),
}

/// The registers of the architecture.
#[derive(Clone, Copy, Debug, Eq, Hash, PartialEq, Structural)]
pub enum Register {
    Ra,
    Rb,
    Rc,
    Rd,
    SP,
    PC,
}

/// [`Target`] as a mathematical value.
pub enum TargetView {
    Register(Register),
    Label(Seq<char>),
    Word(u8),
}

/// [`Operand`] as a mathematical value.
pub struct OperandView {
    pub mode: Mode,
    pub target: TargetView,
}

/// [`Argument`] as a mathematical value.
pub enum ArgumentView {
    Label(Seq<char>),
    Word(u8),
}

/// [`Instruction`] as a mathematical value.
pub struct InstructionView {
    pub label: Option<Seq<char>>,
    pub mnemonic: Mnemonic,
    pub operands: Seq<OperandView>,
}

/// [`Directive`] as a mathematical value.
pub struct DirectiveView {
    pub command: Command,
    pub arguments: Seq<ArgumentView>,
}

/// [`Statement`] as a mathematical value.
pub enum StatementView {
    Directive(DirectiveView),
    Instruction(InstructionView),
    EOI,
}

impl View for Word {
    type V = u8;

    closed spec fn view(&self) -> u8 {
        self.0@[0]
    }
}

impl View for Address {
    type V = u8;

    closed spec fn view(&self) -> u8 {
        self.0@[0]
    }
}

impl View for Label {
    type V = Seq<char>;

    closed spec fn view(&self) -> Seq<char> {
        self.0@
    }
}

impl View for Target {
    type V = TargetView;

    open spec fn view(&self) -> TargetView {
        match self {
            Target::Register(r) => TargetView::Register(*r),
            Target::Label(l) => TargetView::Label(l@),
            Target::Word(w) => TargetView::Word(w@),
        }
    }
}

impl View for Operand {
    type V = OperandView;

    closed spec fn view(&self) -> OperandView {
        OperandView { mode: self.mode, target: self.target@ }
    }
}

impl View for Argument {
    type V = ArgumentView;

    open spec fn view(&self) -> ArgumentView {
        match self {
            Argument::Label(l) => ArgumentView::Label(l@),
            Argument::Word(w) => ArgumentView::Word(w@),
        }
    }
}

/// An optional label seen as its text.
pub open spec fn label_view(l: Option<Label>) -> Option<Seq<char>> {
    match l {
        Some(l) => Some(l@),
        None => None,
    }
}

impl View for Instruction {
    type V = InstructionView;

    closed spec fn view(&self) -> InstructionView {
        InstructionView {
            label: label_view(self.label),
            mnemonic: self.mnemonic,
            operands: self.operands@.map_values(|o: Operand| o@),
        }
    }
}

impl View for Directive {
    type V = DirectiveView;

    closed spec fn view(&self) -> DirectiveView {
        DirectiveView {
            command: self.command,
            arguments: self.arguments@.map_values(|a: Argument| a@),
        }
    }
}

impl View for Statement {
    type V = StatementView;

    open spec fn view(&self) -> StatementView {
        match self {
            Statement::Directive(d) => StatementView::Directive(d@),
            Statement::Instruction(i) => StatementView::Instruction(i@),
            Statement::EOI => StatementView::EOI,
        }
    }
}

impl View for Ast {
    type V = Seq<StatementView>;

    closed spec fn view(&self) -> Seq<StatementView> {
        self.statements@.map_values(|s: Statement| s@)
    }
}

/// The lower-case name of each mnemonic.
pub open spec fn mnemonic_name(x: Mnemonic) -> Seq<char> {
    match x {
        Mnemonic::ADD => seq!['a', 'd', 'd'],
        Mnemonic::CALL => seq!['c', 'a', 'l', 'l'],
        Mnemonic::CMP => seq!['c', 'm', 'p'],
        Mnemonic::DATA => seq!['d', 'a', 't', 'a'],
        Mnemonic::HLT => seq!['h', 'l', 't'],
        Mnemonic::INC => seq!['i', 'n', 'c'],
        Mnemonic::JC => seq!['j', 'c'],
        Mnemonic::JN => seq!['j', 'n'],
        Mnemonic::JO => seq!['j', 'o'],
        Mnemonic::JZ => seq!['j', 'z'],
        Mnemonic::JMP => seq!['j', 'm', 'p'],
        Mnemonic::LOD => seq!['l', 'o', 'd'],
        Mnemonic::MOV => seq!['m', 'o', 'v'],
        Mnemonic::POP => seq!['p', 'o', 'p'],
        Mnemonic::PUSH => seq!['p', 'u', 's', 'h'],
        Mnemonic::RET => seq!['r', 'e', 't'],
        Mnemonic::STO => seq!['s', 't', 'o'],
        Mnemonic::SUB => seq!['s', 'u', 'b'],
        Mnemonic::TST => seq!['t', 's', 't'],
        Mnemonic::XOR => seq!['x', 'o', 'r'],
    }
}

/// The mnemonic that `s` names, ignoring ASCII case.
#[verifier::opaque]
pub open spec fn mnemonic_of(s: Seq<char>) -> Option<Mnemonic> {
    if ci_eq(s, seq!['a', 'd', 'd']) {
        Some(Mnemonic::ADD)
    } else if ci_eq(s, seq!['c', 'a', 'l', 'l']) {
        Some(Mnemonic::CALL)
    } else if ci_eq(s, seq!['c', 'm', 'p']) {
        Some(Mnemonic::CMP)
    } else if ci_eq(s, seq!['d', 'a', 't', 'a']) {
        Some(Mnemonic::DATA)
    } else if ci_eq(s, seq!['h', 'l', 't']) {
        Some(Mnemonic::HLT)
    } else if ci_eq(s, seq!['i', 'n', 'c']) {
        Some(Mnemonic::INC)
    } else if ci_eq(s, seq!['j', 'c']) {
        Some(Mnemonic::JC)
    } else if ci_eq(s, seq!['j', 'n']) {
        Some(Mnemonic::JN)
    } else if ci_eq(s, seq!['j', 'o']) {
        Some(Mnemonic::JO)
    } else if ci_eq(s, seq!['j', 'z']) {
        Some(Mnemonic::JZ)
    } else if ci_eq(s, seq!['j', 'm', 'p']) {
        Some(Mnemonic::JMP)
    } else if ci_eq(s, seq!['l', 'o', 'd']) {
        Some(Mnemonic::LOD)
    } else if ci_eq(s, seq!['m', 'o', 'v']) {
        Some(Mnemonic::MOV)
    } else if ci_eq(s, seq!['p', 'o', 'p']) {
        Some(Mnemonic::POP)
    } else if ci_eq(s, seq!['p', 'u', 's', 'h']) {
        Some(Mnemonic::PUSH)
    } else if ci_eq(s, seq!['r', 'e', 't']) {
        Some(Mnemonic::RET)
    } else if ci_eq(s, seq!['s', 't', 'o']) {
        Some(Mnemonic::STO)
    } else if ci_eq(s, seq!['s', 'u', 'b']) {
        Some(Mnemonic::SUB)
    } else if ci_eq(s, seq!['t', 's', 't']) {
        Some(Mnemonic::TST)
    } else if ci_eq(s, seq!['x', 'o', 'r']) {
        Some(Mnemonic::XOR)
    } else {
        None
    }
}

impl Mnemonic {
    /// The mnemonic that `name` spells, ignoring ASCII case.
    pub fn from_name(name: &[char]) -> (r: Option<Mnemonic>)
        ensures
            r == mnemonic_of(name@),
    {
        reveal(mnemonic_of);
        let kw: [char; 3] = ['a', 'd', 'd'];
        assert(kw@ =~= seq!['a', 'd', 'd']);
        if ci_equals(name, &kw) {
            return Some(Mnemonic::ADD);
        }
        let kw: [char; 4] = ['c', 'a', 'l', 'l'];
        assert(kw@ =~= seq!['c', 'a', 'l', 'l']);
        if ci_equals(name, &kw) {
            return Some(Mnemonic::CALL);
        }
        let kw: [char; 3] = ['c', 'm', 'p'];
        assert(kw@ =~= seq!['c', 'm', 'p']);
        if ci_equals(name, &kw) {
            return Some(Mnemonic::CMP);
        }
        let kw: [char; 4] = ['d', 'a', 't', 'a'];
        assert(kw@ =~= seq!['d', 'a', 't', 'a']);
        if ci_equals(name, &kw) {
            return Some(Mnemonic::DATA);
        }
        let kw: [char; 3] = ['h', 'l', 't'];
        assert(kw@ =~= seq!['h', 'l', 't']);
        if ci_equals(name, &kw) {
            return Some(Mnemonic::HLT);
        }
        let kw: [char; 3] = ['i', 'n', 'c'];
        assert(kw@ =~= seq!['i', 'n', 'c']);
        if ci_equals(name, &kw) {
            return Some(Mnemonic::INC);
        }
        let kw: [char; 2] = ['j', 'c'];
        assert(kw@ =~= seq!['j', 'c']);
        if ci_equals(name, &kw) {
            return Some(Mnemonic::JC);
        }
        let kw: [char; 2] = ['j', 'n'];
        assert(kw@ =~= seq!['j', 'n']);
        if ci_equals(name, &kw) {
            return Some(Mnemonic::JN);
        }
        let kw: [char; 2] = ['j', 'o'];
        assert(kw@ =~= seq!['j', 'o']);
        if ci_equals(name, &kw) {
            return Some(Mnemonic::JO);
        }
        let kw: [char; 2] = ['j', 'z'];
        assert(kw@ =~= seq!['j', 'z']);
        if ci_equals(name, &kw) {
            return Some(Mnemonic::JZ);
        }
        let kw: [char; 3] = ['j', 'm', 'p'];
        assert(kw@ =~= seq!['j', 'm', 'p']);
        if ci_equals(name, &kw) {
            return Some(Mnemonic::JMP);
        }
        let kw: [char; 3] = ['l', 'o', 'd'];
        assert(kw@ =~= seq!['l', 'o', 'd']);
        if ci_equals(name, &kw) {
            return Some(Mnemonic::LOD);
        }
        let kw: [char; 3] = ['m', 'o', 'v'];
        assert(kw@ =~= seq!['m', 'o', 'v']);
        if ci_equals(name, &kw) {
            return Some(Mnemonic::MOV);
        }
        let kw: [char; 3] = ['p', 'o', 'p'];
        assert(kw@ =~= seq!['p', 'o', 'p']);
        if ci_equals(name, &kw) {
            return Some(Mnemonic::POP);
        }
        let kw: [char; 4] = ['p', 'u', 's', 'h'];
        assert(kw@ =~= seq!['p', 'u', 's', 'h']);
        if ci_equals(name, &kw) {
            return Some(Mnemonic::PUSH);
        }
        let kw: [char; 3] = ['r', 'e', 't'];
        assert(kw@ =~= seq!['r', 'e', 't']);
        if ci_equals(name, &kw) {
            return Some(Mnemonic::RET);
        }
        let kw: [char; 3] = ['s', 't', 'o'];
        assert(kw@ =~= seq!['s', 't', 'o']);
        if ci_equals(name, &kw) {
            return Some(Mnemonic::STO);
        }
        let kw: [char; 3] = ['s', 'u', 'b'];
        assert(kw@ =~= seq!['s', 'u', 'b']);
        if ci_equals(name, &kw) {
            return Some(Mnemonic::SUB);
        }
        let kw: [char; 3] = ['t', 's', 't'];
        assert(kw@ =~= seq!['t', 's', 't']);
        if ci_equals(name, &kw) {
            return Some(Mnemonic::TST);
        }
        let kw: [char; 3] = ['x', 'o', 'r'];
        assert(kw@ =~= seq!['x', 'o', 'r']);
        if ci_equals(name, &kw) {
            return Some(Mnemonic::XOR);
        }
        None
    }

    /// How many operands an instruction with this mnemonic takes.
    pub fn arity(&self) -> (r: usize)
        ensures
            r == mnemonic_arity(*self),
    {
        match self {
            Mnemonic::ADD => 2,
            Mnemonic::CALL => 1,
            Mnemonic::CMP => 2,
            Mnemonic::DATA => 2,
            Mnemonic::HLT => 0,
            Mnemonic::INC => 1,
            Mnemonic::JC => 1,
            Mnemonic::JN => 1,
            Mnemonic::JO => 1,
            Mnemonic::JZ => 1,
            Mnemonic::JMP => 1,
            Mnemonic::LOD => 2,
            Mnemonic::MOV => 2,
            Mnemonic::POP => 1,
            Mnemonic::PUSH => 1,
            Mnemonic::RET => 0,
            Mnemonic::STO => 2,
            Mnemonic::SUB => 2,
            Mnemonic::TST => 1,
            Mnemonic::XOR => 2,
        }
    }
}

/// How many operands an instruction with mnemonic `m` takes.
pub open spec fn mnemonic_arity(m: Mnemonic) -> usize {
    match m {
        Mnemonic::ADD => 2,
        Mnemonic::CALL => 1,
        Mnemonic::CMP => 2,
        Mnemonic::DATA => 2,
        Mnemonic::HLT => 0,
        Mnemonic::INC => 1,
        Mnemonic::JC => 1,
        Mnemonic::JN => 1,
        Mnemonic::JO => 1,
        Mnemonic::JZ => 1,
        Mnemonic::JMP => 1,
        Mnemonic::LOD => 2,
        Mnemonic::MOV => 2,
        Mnemonic::POP => 1,
        Mnemonic::PUSH => 1,
        Mnemonic::RET => 0,
        Mnemonic::STO => 2,
        Mnemonic::SUB => 2,
        Mnemonic::TST => 1,
        Mnemonic::XOR => 2,
    }
}

/// The lower-case name of each register.
pub open spec fn register_name(x: Register) -> Seq<char> {
    match x {
        Register::Ra => seq!['r', 'a'],
        Register::Rb => seq!['r', 'b'],
        Register::Rc => seq!['r', 'c'],
        Register::Rd => seq!['r', 'd'],
        Register::SP => seq!['s', 'p'],
        Register::PC => seq!['p', 'c'],
    }
}

/// The register that `s` names, ignoring ASCII case.
#[verifier::opaque]
pub open spec fn register_of(s: Seq<char>) -> Option<Register> {
    if ci_eq(s, seq!['r', 'a']) {
        Some(Register::Ra)
    } else if ci_eq(s, seq!['r', 'b']) {
        Some(Register::Rb)
    } else if ci_eq(s, seq!['r', 'c']) {
        Some(Register::Rc)
    } else if ci_eq(s, seq!['r', 'd']) {
        Some(Register::Rd)
    } else if ci_eq(s, seq!['s', 'p']) {
        Some(Register::SP)
    } else if ci_eq(s, seq!['p', 'c']) {
        Some(Register::PC)
    } else {
        None
    }
}

impl Register {
    /// The register that `name` spells, ignoring ASCII case.
    pub fn from_name(name: &[char]) -> (r: Option<Register>)
        ensures
            r == register_of(name@),
    {
        reveal(register_of);
        let kw: [char; 2] = ['r', 'a'];
        assert(kw@ =~= seq!['r', 'a']);
        if ci_equals(name, &kw) {
            return Some(Register::Ra);
        }
        let kw: [char; 2] = ['r', 'b'];
        assert(kw@ =~= seq!['r', 'b']);
        if ci_equals(name, &kw) {
            return Some(Register::Rb);
        }
        let kw: [char; 2] = ['r', 'c'];
        assert(kw@ =~= seq!['r', 'c']);
        if ci_equals(name, &kw) {
            return Some(Register::Rc);
        }
        let kw: [char; 2] = ['r', 'd'];
        assert(kw@ =~= seq!['r', 'd']);
        if ci_equals(name, &kw) {
            return Some(Register::Rd);
        }
        let kw: [char; 2] = ['s', 'p'];
        assert(kw@ =~= seq!['s', 'p']);
        if ci_equals(name, &kw) {
            return Some(Register::SP);
        }
        let kw: [char; 2] = ['p', 'c'];
        assert(kw@ =~= seq!['p', 'c']);
        if ci_equals(name, &kw) {
            return Some(Register::PC);
        }
        None
    }
}

/// The lower-case name of each directive command.
pub open spec fn command_name(x: Command) -> Seq<char> {
    match x {
        Command::EQU => seq!['e', 'q', 'u'],
        Command::ORG => seq!['o', 'r', 'g'],
    }
}

/// The directive command that `s` names, ignoring ASCII case.
#[verifier::opaque]
pub open spec fn command_of(s: Seq<char>) -> Option<Command> {
    if ci_eq(s, seq!['e', 'q', 'u']) {
        Some(Command::EQU)
    } else if ci_eq(s, seq!['o', 'r', 'g']) {
        Some(Command::ORG)
    } else {
        None
    }
}

impl Command {
    /// The directive command that `name` spells, ignoring ASCII case.
    pub fn from_name(name: &[char]) -> (r: Option<Command>)
        ensures
            r == command_of(name@),
    {
        reveal(command_of);
        let kw: [char; 3] = ['e', 'q', 'u'];
        assert(kw@ =~= seq!['e', 'q', 'u']);
        if ci_equals(name, &kw) {
            return Some(Command::EQU);
        }
        let kw: [char; 3] = ['o', 'r', 'g'];
        assert(kw@ =~= seq!['o', 'r', 'g']);
        if ci_equals(name, &kw) {
            return Some(Command::ORG);
        }
        None
    }

    /// How many arguments a directive with this command takes.
    pub fn arity(&self) -> (r: usize)
        ensures
            r == command_arity(*self),
    {
        match self {
            Command::EQU => 2,
            Command::ORG => 1,
        }
    }
}

/// How many arguments a directive with command `c` takes.
pub open spec fn command_arity(c: Command) -> usize {
    match c {
        Command::EQU => 2,
        Command::ORG => 1,
    }
}

/// The value of a run of decimal digits.
pub open spec fn digits_value(s: Seq<char>) -> nat
    decreases s.len(),
{
    if s.len() == 0 {
        0
    } else {
        digits_value(s.drop_last()) * 10 + (s.last() as int - '0' as int) as nat
    }
}

/// Every character of `s` is a decimal digit.
pub open spec fn all_digits(s: Seq<char>) -> bool {
    forall|i: int| 0 <= i < s.len() ==> is_digit(#[trigger] s[i])
}

/// The byte that a numeric literal stands for: after a leading `-` a signed
/// byte in `-128..=127`, stored in two's complement; otherwise an unsigned
/// byte in `0..=255`.
pub open spec fn word_of(s: Seq<char>) -> Result<u8, NumberError> {
    let neg = s.len() > 0 && s[0] == '-';
    let d = if neg { s.drop_first() } else { s };
    let v = digits_value(d);
    if d.len() == 0 {
        if neg { Err(NumberError::InvalidDigit) } else { Err(NumberError::Empty) }
    } else if !all_digits(d) {
        Err(NumberError::InvalidDigit)
    } else if neg {
        if v <= 128 { Ok(((256 - v) % 256) as u8) } else { Err(NumberError::NegOverflow) }
    } else {
        if v <= 255 { Ok(v as u8) } else { Err(NumberError::PosOverflow) }
    }
}

proof fn lemma_digits_prefix(s: Seq<char>, k: int)
    requires
        all_digits(s),
        0 <= k <= s.len(),
    ensures
        digits_value(s.subrange(0, k)) <= digits_value(s),
    decreases s.len(),
{
    if k < s.len() {
        let t = s.drop_last();
        assert(all_digits(t));
        lemma_digits_prefix(t, k);
        assert(t.subrange(0, k) =~= s.subrange(0, k));
    } else {
        assert(s.subrange(0, k) =~= s);
    }
}

/// A byte read as a two's-complement signed value.
pub open spec fn signed_of(b: u8) -> int {
    if b < 128 { b as int } else { b as int - 256 }
}

impl Word {
    /// The word that stores `byte`.
    pub fn from_byte(byte: u8) -> (r: Word)
        ensures
            r@ == byte,
    {
        Word([byte])
    }

    /// The stored byte.
    pub fn byte(&self) -> (r: u8)
        ensures
            r == self@,
    {
        self.0[0]
    }

    /// The stored byte read as an unsigned value.
    pub fn as_unsigned(&self) -> (r: u8)
        ensures
            r == self@,
    {
        self.0[0]
    }

    /// The stored byte read as a two's-complement signed value.
    pub fn as_signed(&self) -> (r: i8)
        ensures
            r as int == signed_of(self@),
    {
        let b = self.0[0];
        if b < 128 {
            b as i8
        } else {
            (b as i16 - 256) as i8
        }
    }

    /// Reads a numeric literal as a byte (see [`word_of`]).
    pub fn parse(text: &[char]) -> (r: Result<Word, NumberError>)
        ensures
            match word_of(text@) {
                Ok(b) => r is Ok && r->Ok_0@ == b,
                Err(e) => r == Err::<Word, NumberError>(e),
            },
    {
        let n = text.len();
        let neg = n > 0 && text[0] == '-';
        let start: usize = if neg { 1 } else { 0 };
        assert(neg == (text@.len() > 0 && text@[0] == '-'));
        let ghost d = if neg { text@.drop_first() } else { text@ };
        assert(d =~= text@.subrange(start as int, n as int));
        if start == n {
            return if neg { Err(NumberError::InvalidDigit) } else { Err(NumberError::Empty) };
        }
        let mut i: usize = start;
        while i < n
            invariant
                start <= i <= n == text@.len(),
                d =~= text@.subrange(start as int, n as int),
                neg == (text@.len() > 0 && text@[0] == '-'),
                d == (if neg { text@.drop_first() } else { text@ }),
                start == (if neg { 1usize } else { 0usize }),
                forall|j: int| 0 <= j < i - start ==> is_digit(#[trigger] d[j]),
            decreases n - i,
        {
            let c = text[i];
            if !('0' <= c && c <= '9') {
                assert(!is_digit(d[i - start]));
                return Err(NumberError::InvalidDigit);
            }
            i = i + 1;
        }
        assert(all_digits(d));
        let mut acc: u32 = 0;
        let mut k: usize = start;
        let mut over = false;
        while k < n && !over
            invariant
                start <= k <= n == text@.len(),
                d =~= text@.subrange(start as int, n as int),
                neg == (text@.len() > 0 && text@[0] == '-'),
                d == (if neg { text@.drop_first() } else { text@ }),
                start == (if neg { 1usize } else { 0usize }),
                all_digits(d),
                acc as int == digits_value(d.subrange(0, k - start)),
                !over ==> acc <= 255,
                over ==> acc > 255,
            decreases n - k,
        {
            let c = text[k];
            assert(d.subrange(0, k + 1 - start).drop_last() =~= d.subrange(0, k - start));
            assert(is_digit(d[k - start]));
            acc = acc * 10 + (c as u32 - '0' as u32);
            k = k + 1;
            if acc > 255 {
                over = true;
            }
        }
        proof {
            lemma_digits_prefix(d, k - start);
            if !over {
                assert(d.subrange(0, k - start) =~= d);
            }
        }
        if neg {
            if over || acc > 128 {
                Err(NumberError::NegOverflow)
            } else if acc == 0 {
                Ok(Word([0]))
            } else {
                Ok(Word([(256 - acc) as u8]))
            }
        } else {
            if over {
                Err(NumberError::PosOverflow)
            } else {
                Ok(Word([acc as u8]))
            }
        }
    }
}

impl Address {
    /// The address `byte`.
    pub fn from_byte(byte: u8) -> (r: Address)
        ensures
            r@ == byte,
    {
        Address([byte])
    }

    /// The address as a byte.
    pub fn byte(&self) -> (r: u8)
        ensures
            r == self@,
    {
        self.0[0]
    }
}

impl Label {
    /// The label spelled `name`.
    pub fn new(name: String) -> (r: Label)
        ensures
            r@ == name@,
    {
        Label(name)
    }

    /// The label's text.
    pub fn as_str(&self) -> (r: &str)
        ensures
            r@ == self@,
    {
        self.0.as_str()
    }
}

impl Operand {
    /// The operand that uses `target` in `mode`.
    pub fn new(mode: Mode, target: Target) -> (r: Operand)
        ensures
            r@ == (OperandView { mode, target: target@ }),
    {
        Operand { mode, target }
    }

    /// The addressing mode.
    pub fn mode(&self) -> (r: Mode)
        ensures
            r == self@.mode,
    {
        self.mode
    }

    /// What the operand refers to.
    pub fn target(&self) -> (r: &Target)
        ensures
            r@ == self@.target,
    {
        &self.target
    }
}

impl Instruction {
    /// The instruction `mnemonic` with `operands`, labelled `label`.
    pub fn new(label: Option<Label>, mnemonic: Mnemonic, operands: Vec<Operand>) -> (r: Instruction)
        ensures
            r@ == (InstructionView {
                label: label_view(label),
                mnemonic,
                operands: operands@.map_values(|o: Operand| o@),
            }),
    {
        Instruction { label, mnemonic, operands }
    }

    /// The label that names this instruction, if any.
    pub fn label(&self) -> (r: &Option<Label>)
        ensures
            label_view(*r) == self@.label,
    {
        &self.label
    }

    /// The mnemonic.
    pub fn mnemonic(&self) -> (r: Mnemonic)
        ensures
            r == self@.mnemonic,
    {
        self.mnemonic
    }

    /// The operands, in order.
    pub fn operands(&self) -> (r: &[Operand])
        ensures
            r@.map_values(|o: Operand| o@) == self@.operands,
    {
        self.operands.as_slice()
    }
}

impl Directive {
    /// The directive `command` with `arguments`.
    pub fn new(command: Command, arguments: Vec<Argument>) -> (r: Directive)
        ensures
            r@ == (DirectiveView { command, arguments: arguments@.map_values(|a: Argument| a@) }),
    {
        Directive { command, arguments }
    }

    /// The command.
    pub fn command(&self) -> (r: Command)
        ensures
            r == self@.command,
    {
        self.command
    }

    /// The arguments, in order.
    pub fn arguments(&self) -> (r: &[Argument])
        ensures
            r@.map_values(|a: Argument| a@) == self@.arguments,
    {
        self.arguments.as_slice()
    }
}

impl Ast {
    /// The program made of `statements`, in order.
    pub fn new(statements: Vec<Statement>) -> (r: Ast)
        ensures
            r@ == statements@.map_values(|s: Statement| s@),
    {
        Ast { statements }
    }

    /// The statements, in source order.
    pub fn statements(&self) -> (r: &[Statement])
        ensures
            r@.map_values(|s: Statement| s@) == self@,
    {
        self.statements.as_slice()
    }

    /// How many statements there are.
    pub fn len(&self) -> (r: usize)
        ensures
            r == self@.len(),
    {
        self.statements.len()
    }
}

} // verus!
