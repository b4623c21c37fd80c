//! Typed diagnostics of the semantic passes, partitioned into classes
//! (resolution, types, patterns, constants, effects), plus the lexer's own
//! diagnostic kind, the stable codes that identify each, and the helpers
//! their messages use.

use vstd::prelude::*;

use crate::text::{decimal, push_decimal, string_push};

verus! {

/// A diagnostic class; its letter prefixes every code of the class.
#[derive(Debug, Clone, Copy, PartialEq, Eq, Structural)]
pub enum Class {
    Lex,
    Syntax,
    Resolve,
    Type,
    Pattern,
    Const,
    Effect,
    Unsupported,
}

impl Class {
    pub open spec fn spec_letter(self) -> char {
        match self {
            Class::Lex => 'L',
            Class::Syntax => 'S',
            Class::Resolve => 'R',
            Class::Type => 'T',
            Class::Pattern => 'P',
            Class::Const => 'C',
            Class::Effect => 'E',
            Class::Unsupported => 'U',
        }
    }

    /// The letter that prefixes the class's codes.
    pub fn letter(self) -> (c: char)
        ensures
            c == self.spec_letter(),
    {
        match self {
            Class::Lex => 'L',
            Class::Syntax => 'S',
            Class::Resolve => 'R',
            Class::Type => 'T',
            Class::Pattern => 'P',
            Class::Const => 'C',
            Class::Effect => 'E',
            Class::Unsupported => 'U',
        }
    }
}

/// A stable diagnostic code: a class and a number within it.
#[derive(Debug, Clone, Copy, PartialEq, Eq, Structural)]
pub struct Code {
    pub class: Class,
    pub number: u16,
}

/// `n` in decimal, padded with zeros to at least three digits.
pub open spec fn code_digits(n: nat) -> Seq<char> {
    if n < 10 {
        "00"@ + decimal(n)
    } else if n < 100 {
        "0"@ + decimal(n)
    } else {
        decimal(n)
    }
}

impl Code {
    /// The code as a user sees it: the class letter, then the number in at
    /// least three digits (`T034`).
    pub open spec fn spec_text(self) -> Seq<char> {
        seq![self.class.spec_letter()] + code_digits(self.number as nat)
    }

    /// The code as a user sees it (`T034`).
    pub fn text(&self) -> (s: String)
        ensures
            s@ == self.spec_text(),
    {
        let mut s = String::new();
        string_push(&mut s, self.class.letter());
        if self.number < 10 {
            string_push(&mut s, '0');
            string_push(&mut s, '0');
        } else if self.number < 100 {
            string_push(&mut s, '0');
        }
        push_decimal(&mut s, self.number as u128);
        proof {
            reveal_strlit("00");
            reveal_strlit("0");
            assert(s@ =~= self.spec_text());
        }
        s
    }

    pub fn new(class: Class, number: u16) -> (c: Code)
        ensures
            c == (Code { class, number }),
    {
        Code { class, number }
    }
}

/// A lexer diagnostic (class `L`).
#[derive(Debug, Clone, Copy, PartialEq, Eq)]
pub enum LexError {
    UnclosedString,
    EmptyChar,
    UnterminatedEscape,
    UnclosedChar,
    InvalidChar,
    MissingQuote,
    UnclosedBlockComment,
    UnexpectedChar(char),
}

impl LexError {
    pub open spec fn spec_number(&self) -> u16 {
        match self {
            LexError::UnclosedString => 1,
            LexError::EmptyChar => 2,
            LexError::UnterminatedEscape => 3,
            LexError::UnclosedChar => 4,
            LexError::InvalidChar => 5,
            LexError::MissingQuote => 6,
            LexError::UnclosedBlockComment => 7,
            LexError::UnexpectedChar(_) => 8,
        }
    }

    /// The stable code of this diagnostic.
    pub fn code(&self) -> (c: Code)
        ensures
            c == (Code { class: Class::Lex, number: self.spec_number() }),
    {
        let number = match self {
            LexError::UnclosedString => 1,
            LexError::EmptyChar => 2,
            LexError::UnterminatedEscape => 3,
            LexError::UnclosedChar => 4,
            LexError::InvalidChar => 5,
            LexError::MissingQuote => 6,
            LexError::UnclosedBlockComment => 7,
            LexError::UnexpectedChar(_) => 8,
        };
        Code::new(Class::Lex, number)
    }
}

impl LexError {
    /// The diagnostic's message.
    pub open spec fn spec_message(&self) -> Seq<char> {
        match self {
            LexError::UnclosedString => "unclosed string literal"@,
            LexError::EmptyChar => "empty character literal"@,
            LexError::UnterminatedEscape => "unterminated escape"@,
            LexError::UnclosedChar => "unclosed char literal"@,
            LexError::InvalidChar => "invalid char in literal"@,
            LexError::MissingQuote => "missing closing quote"@,
            LexError::UnclosedBlockComment => "unclosed block comment"@,
            LexError::UnexpectedChar(c) => "unexpected character: '"@ + seq![*c] + "'"@,
        }
    }

    /// The diagnostic's message.
    pub fn message(&self) -> (m: String)
        ensures
            m@ == self.spec_message(),
    {
        match self {
            LexError::UnclosedString => "unclosed string literal".to_owned(),
            LexError::EmptyChar => "empty character literal".to_owned(),
            LexError::UnterminatedEscape => "unterminated escape".to_owned(),
            LexError::UnclosedChar => "unclosed char literal".to_owned(),
            LexError::InvalidChar => "invalid char in literal".to_owned(),
            LexError::MissingQuote => "missing closing quote".to_owned(),
            LexError::UnclosedBlockComment => "unclosed block comment".to_owned(),
            LexError::UnexpectedChar(c) => {
                let mut s = "unexpected character: '".to_owned();
                string_push(&mut s, *c);
                s.append("'");
                s
            },
        }
    }
}

/// The single diagnostic kind of the semantic passes.
#[derive(Debug, Clone, PartialEq, Eq)]
pub enum HirError {
    Resolve(ResolveError),
    Type(TypeError),
    Pattern(PatternError),
    Const(ConstError),
    Effect(EffectError),
}

impl HirError {
    pub open spec fn spec_code(&self) -> Code {
        match self {
            HirError::Resolve(e) => Code { class: Class::Resolve, number: e.spec_number() },
            HirError::Type(e) => Code { class: Class::Type, number: e.spec_number() },
            HirError::Pattern(e) => Code { class: Class::Pattern, number: e.spec_number() },
            HirError::Const(e) => Code { class: Class::Const, number: e.spec_number() },
            HirError::Effect(e) => Code { class: Class::Effect, number: e.spec_number() },
        }
    }

    /// The stable code of this diagnostic.
    pub fn code(&self) -> (c: Code)
        ensures
            c == self.spec_code(),
    {
        match self {
            HirError::Resolve(e) => Code::new(Class::Resolve, e.number()),
            HirError::Type(e) => Code::new(Class::Type, e.number()),
            HirError::Pattern(e) => Code::new(Class::Pattern, e.number()),
            HirError::Const(e) => Code::new(Class::Const, e.number()),
            HirError::Effect(e) => Code::new(Class::Effect, e.number()),
        }
    }

    /// The extra notes shown under the message: the witness trail of an
    /// effect mismatch, when it has one.
    pub fn notes(&self) -> (n: Vec<String>)
        ensures
            match self {
                HirError::Effect(EffectError::EffectMismatch { witness: Some(w), .. }) => n@.len()
                    == 1 && n@[0]@ == w@,
                _ => n@.len() == 0,
            },
    {
        match self {
            HirError::Effect(EffectError::EffectMismatch { witness: Some(w), .. }) => {
                let mut v = Vec::new();
                v.push(w.clone());
                v
            },
            _ => Vec::new(),
        }
    }
}

/// `""` for one, `"s"` otherwise.
pub open spec fn plural_seq(n: nat) -> Seq<char> {
    if n == 1 {
        ""@
    } else {
        "s"@
    }
}

/// `""` for one, `"s"` otherwise.
pub fn plural(n: usize) -> (s: &'static str)
    ensures
        s@ == plural_seq(n as nat),
{
    if n == 1 {
        ""
    } else {
        "s"
    }
}

/// `` `a`, `b`, `c` `` for the names `a`, `b`, `c`.
pub open spec fn ticked_list(items: Seq<Seq<char>>) -> Seq<char>
    decreases items.len(),
{
    if items.len() == 0 {
        seq![]
    } else if items.len() == 1 {
        seq!['`'] + items[0] + seq!['`']
    } else {
        ticked_list(items.drop_last()) + seq![',', ' ', '`'] + items.last() + seq!['`']
    }
}

/// Joins names as a comma-separated list of backtick-quoted items.
pub fn join_ticked(items: &[String]) -> (s: String)
    ensures
        s@ == ticked_list(items@.map_values(|t: String| t@)),
{
    let ghost views = items@.map_values(|t: String| t@);
    let mut s = String::new();
    let mut i: usize = 0;
    while i < items.len()
        invariant
            i <= items@.len(),
            views == items@.map_values(|t: String| t@),
            s@ == ticked_list(views.take(i as int)),
        decreases items@.len() - i,
    {
        if i > 0 {
            string_push(&mut s, ',');
            string_push(&mut s, ' ');
        }
        string_push(&mut s, '`');
        s.append(items[i].as_str());
        string_push(&mut s, '`');
        proof {
            assert(views.take(i + 1).drop_last() =~= views.take(i as int));
            assert(views.take(i + 1).last() == items@[i as int]@);
            if i == 0 {
                assert(views.take(1)[0] == items@[0]@);
            }
        }
        i = i + 1;
    }
    assert(views.take(i as int) =~= views);
    s
}

/// Name-resolution failures (class `R`).
#[derive(Debug, Clone, PartialEq, Eq)]
pub enum ResolveError {
    DuplicateItem { name: String },
    DuplicateVariantDecl { variant: String, enum_name: String },
    DuplicateParam { name: String, function: String },
    NameIsReserved { name: String, what: &'static str },
    UnknownEnumInPattern { enum_name: String },
    PatternEnumMismatch { pattern_enum: String, scrutinee_enum: String },
    NoSuchVariant { enum_name: String, variant: String },
    UnknownVariantInPattern { variant: String },
    EnumNameAsValue { name: String },
    UnresolvedName { name: String },
    StructNameAsValue { name: String },
    NameIsCKeyword { name: String, what: &'static str },
    UnknownStructLiteral { name: String },
    UnknownTypeName { name: String },
    DuplicateLocal { name: String },
}

/// Type-rule violations (class `T`).
#[derive(Debug, Clone, PartialEq, Eq)]
pub enum TypeError {
    ArrayInitLenMismatch { declared: u64, found: u64 },
    LetTypeMismatch { expected: String, got: String },
    MatchArmTypeMismatch { expected: String, found: String },
    ReturnTypeMismatch { expected: String, found: String },
    ReturnMissingValue { expected: String },
    ReturnValueInVoid,
    RecursiveValueType { name: String },
    CallNonFunction { found: String },
    MainHasParams,
    UnionLiteralFieldCount { name: String, found: usize },
    StructLitMissingFields { name: String, fields: Vec<String> },
    StructLitUnknownFields { name: String, fields: Vec<String> },
    ArgTypeMismatch { index: usize, expected: String, found: String },
    StructFieldTypeMismatch { field: String, expected: String, found: String },
    AssignInValuePosition,
    NegationOnUnsigned { ty: String },
    IfBranchTypeMismatch { expected: String, found: String },
    ArrayElementTypeMismatch { index: usize, expected: String, found: String },
    CastNotAllowed { from: String, to: String },
    MixedIntegerWidths { left: String, right: String },
    OpOnArray { op: &'static str },
    ModuloOnFloat,
    LenFieldOnArray,
    PrintCannotFormat { kind: &'static str },
    LenArity { found: usize },
    LenNotAPlace,
    LenNotArray,
    SizeofArity { found: usize },
    SizeofNotAType,
    MatchScrutineeNotEnum,
    AssignToImmutable { name: String },
    VoidValueInValuePosition,
    MissingTypeAnnotation { name: String },
    CallArityMismatch { name: String, expected: usize, found: usize, variadic: bool },
    IndexOnPtr,
    IndexOfNonIndexable { found: String },
    DerefOfPtr,
    DerefOfNonPointer { found: String },
    ArithmeticOnPtr { op: &'static str },
    IntLiteralOutOfRange { value: String, ty: String, min: String, max: String },
    StructLitPositional,
    PrintlnArityMismatch { placeholders: usize, args: usize },
    PrintlnMissingFormat,
    CharLiteralNotAscii { ch: char },
    ArithmeticOnEnum { op: &'static str, enum_name: String },
    RefOfNonPlace,
}

/// Match-analysis errors (class `P`).
#[derive(Debug, Clone, PartialEq, Eq)]
pub enum PatternError {
    UnreachableAfterWildcard,
    DuplicateArm { variant: String },
    NonExhaustive { enum_name: String, missing: Vec<String> },
    NonExhaustivePrimitive { ty: String, missing: Vec<String> },
    PatternDomainMismatch { scrutinee: String, pattern: String },
    DestructureNotAStruct { ty: String },
    DestructureUnknownField { ty: String, field: String },
    DestructureDuplicateField { field: String },
    DestructureNonExhaustive { ty: String, missing: Vec<String> },
}

/// Array-shape and compile-time-constant errors (class `C`).
#[derive(Debug, Clone, PartialEq, Eq)]
pub enum ConstError {
    ArrayLenNotLiteral,
    ArrayLenZero,
    ArrayLenTooLarge,
    IndexOutOfBounds { index: u128, len: u64 },
    NegativeIndex,
    ConstCycle { name: String },
    ConstUnknownName { name: String },
    NotAConstExpr,
    ConstDivByZero,
    RefOfConst { name: String },
    AssignToConst { name: String },
    ArrayLenNotInteger,
    ConstValueOutOfRange { value: String, ty: String, min: String, max: String },
    ConstTypeMismatch { ty: String, found: String },
}

/// Effect-contract failures (class `E`).
#[derive(Debug, Clone, PartialEq, Eq)]
pub enum EffectError {
    UnknownEffect { name: String },
    EffectMismatch { function: String, declared: String, inferred: String, witness: Option<String> },
}

impl ResolveError {
    /// The number of this diagnostic within its class.
    pub open spec fn spec_number(&self) -> u16 {
        match self {
            ResolveError::DuplicateItem { .. } => 1,
            ResolveError::DuplicateVariantDecl { .. } => 2,
            ResolveError::DuplicateParam { .. } => 13,
            ResolveError::NameIsReserved { .. } => 14,
            ResolveError::UnknownEnumInPattern { .. } => 3,
            ResolveError::PatternEnumMismatch { .. } => 4,
            ResolveError::NoSuchVariant { .. } => 5,
            ResolveError::UnknownVariantInPattern { .. } => 6,
            ResolveError::EnumNameAsValue { .. } => 7,
            ResolveError::UnresolvedName { .. } => 8,
            ResolveError::StructNameAsValue { .. } => 9,
            ResolveError::NameIsCKeyword { .. } => 10,
            ResolveError::UnknownStructLiteral { .. } => 11,
            ResolveError::UnknownTypeName { .. } => 12,
            ResolveError::DuplicateLocal { .. } => 15,
        }
    }

    /// The number of this diagnostic within its class.
    pub fn number(&self) -> (n: u16)
        ensures
            n == self.spec_number(),
    {
        match self {
            ResolveError::DuplicateItem { .. } => 1,
            ResolveError::DuplicateVariantDecl { .. } => 2,
            ResolveError::DuplicateParam { .. } => 13,
            ResolveError::NameIsReserved { .. } => 14,
            ResolveError::UnknownEnumInPattern { .. } => 3,
            ResolveError::PatternEnumMismatch { .. } => 4,
            ResolveError::NoSuchVariant { .. } => 5,
            ResolveError::UnknownVariantInPattern { .. } => 6,
            ResolveError::EnumNameAsValue { .. } => 7,
            ResolveError::UnresolvedName { .. } => 8,
            ResolveError::StructNameAsValue { .. } => 9,
            ResolveError::NameIsCKeyword { .. } => 10,
            ResolveError::UnknownStructLiteral { .. } => 11,
            ResolveError::UnknownTypeName { .. } => 12,
            ResolveError::DuplicateLocal { .. } => 15,
        }
    }
}

impl TypeError {
    /// The number of this diagnostic within its class.
    pub open spec fn spec_number(&self) -> u16 {
        match self {
            TypeError::ArrayInitLenMismatch { .. } => 1,
            TypeError::LetTypeMismatch { .. } => 2,
            TypeError::MatchArmTypeMismatch { .. } => 3,
            TypeError::ReturnTypeMismatch { .. } => 4,
            TypeError::ReturnMissingValue { .. } => 5,
            TypeError::ReturnValueInVoid => 6,
            TypeError::RecursiveValueType { .. } => 7,
            TypeError::CallNonFunction { .. } => 8,
            TypeError::MainHasParams => 9,
            TypeError::UnionLiteralFieldCount { .. } => 10,
            TypeError::StructLitMissingFields { .. } => 11,
            TypeError::StructLitUnknownFields { .. } => 12,
            TypeError::ArgTypeMismatch { .. } => 37,
            TypeError::StructFieldTypeMismatch { .. } => 38,
            TypeError::AssignInValuePosition => 39,
            TypeError::NegationOnUnsigned { .. } => 40,
            TypeError::IfBranchTypeMismatch { .. } => 41,
            TypeError::ArrayElementTypeMismatch { .. } => 42,
            TypeError::CastNotAllowed { .. } => 43,
            TypeError::MixedIntegerWidths { .. } => 44,
            TypeError::OpOnArray { .. } => 13,
            TypeError::ModuloOnFloat => 14,
            TypeError::LenFieldOnArray => 15,
            TypeError::PrintCannotFormat { .. } => 16,
            TypeError::LenArity { .. } => 17,
            TypeError::LenNotAPlace => 18,
            TypeError::LenNotArray => 19,
            TypeError::SizeofArity { .. } => 20,
            TypeError::SizeofNotAType => 21,
            TypeError::MatchScrutineeNotEnum => 22,
            TypeError::AssignToImmutable { .. } => 23,
            TypeError::VoidValueInValuePosition => 24,
            TypeError::MissingTypeAnnotation { .. } => 25,
            TypeError::CallArityMismatch { .. } => 26,
            TypeError::IndexOnPtr => 27,
            TypeError::IndexOfNonIndexable { .. } => 46,
            TypeError::DerefOfPtr => 28,
            TypeError::DerefOfNonPointer { .. } => 45,
            TypeError::ArithmeticOnPtr { .. } => 29,
            TypeError::IntLiteralOutOfRange { .. } => 30,
            TypeError::StructLitPositional => 31,
            TypeError::PrintlnArityMismatch { .. } => 32,
            TypeError::PrintlnMissingFormat => 33,
            TypeError::CharLiteralNotAscii { .. } => 34,
            TypeError::ArithmeticOnEnum { .. } => 35,
            TypeError::RefOfNonPlace => 36,
        }
    }

    /// The number of this diagnostic within its class.
    pub fn number(&self) -> (n: u16)
        ensures
            n == self.spec_number(),
    {
        match self {
            TypeError::ArrayInitLenMismatch { .. } => 1,
            TypeError::LetTypeMismatch { .. } => 2,
            TypeError::MatchArmTypeMismatch { .. } => 3,
            TypeError::ReturnTypeMismatch { .. } => 4,
            TypeError::ReturnMissingValue { .. } => 5,
            TypeError::ReturnValueInVoid => 6,
            TypeError::RecursiveValueType { .. } => 7,
            TypeError::CallNonFunction { .. } => 8,
            TypeError::MainHasParams => 9,
            TypeError::UnionLiteralFieldCount { .. } => 10,
            TypeError::StructLitMissingFields { .. } => 11,
            TypeError::StructLitUnknownFields { .. } => 12,
            TypeError::ArgTypeMismatch { .. } => 37,
            TypeError::StructFieldTypeMismatch { .. } => 38,
            TypeError::AssignInValuePosition => 39,
            TypeError::NegationOnUnsigned { .. } => 40,
            TypeError::IfBranchTypeMismatch { .. } => 41,
            TypeError::ArrayElementTypeMismatch { .. } => 42,
            TypeError::CastNotAllowed { .. } => 43,
            TypeError::MixedIntegerWidths { .. } => 44,
            TypeError::OpOnArray { .. } => 13,
            TypeError::ModuloOnFloat => 14,
            TypeError::LenFieldOnArray => 15,
            TypeError::PrintCannotFormat { .. } => 16,
            TypeError::LenArity { .. } => 17,
            TypeError::LenNotAPlace => 18,
            TypeError::LenNotArray => 19,
            TypeError::SizeofArity { .. } => 20,
            TypeError::SizeofNotAType => 21,
            TypeError::MatchScrutineeNotEnum => 22,
            TypeError::AssignToImmutable { .. } => 23,
            TypeError::VoidValueInValuePosition => 24,
            TypeError::MissingTypeAnnotation { .. } => 25,
            TypeError::CallArityMismatch { .. } => 26,
            TypeError::IndexOnPtr => 27,
            TypeError::IndexOfNonIndexable { .. } => 46,
            TypeError::DerefOfPtr => 28,
            TypeError::DerefOfNonPointer { .. } => 45,
            TypeError::ArithmeticOnPtr { .. } => 29,
            TypeError::IntLiteralOutOfRange { .. } => 30,
            TypeError::StructLitPositional => 31,
            TypeError::PrintlnArityMismatch { .. } => 32,
            TypeError::PrintlnMissingFormat => 33,
            TypeError::CharLiteralNotAscii { .. } => 34,
            TypeError::ArithmeticOnEnum { .. } => 35,
            TypeError::RefOfNonPlace => 36,
        }
    }
}

impl PatternError {
    /// The number of this diagnostic within its class.
    pub open spec fn spec_number(&self) -> u16 {
        match self {
            PatternError::UnreachableAfterWildcard => 1,
            PatternError::DuplicateArm { .. } => 2,
            PatternError::NonExhaustive { .. } => 3,
            PatternError::NonExhaustivePrimitive { .. } => 4,
            PatternError::PatternDomainMismatch { .. } => 5,
            PatternError::DestructureNotAStruct { .. } => 6,
            PatternError::DestructureUnknownField { .. } => 7,
            PatternError::DestructureDuplicateField { .. } => 8,
            PatternError::DestructureNonExhaustive { .. } => 9,
        }
    }

    /// The number of this diagnostic within its class.
    pub fn number(&self) -> (n: u16)
        ensures
            n == self.spec_number(),
    {
        match self {
            PatternError::UnreachableAfterWildcard => 1,
            PatternError::DuplicateArm { .. } => 2,
            PatternError::NonExhaustive { .. } => 3,
            PatternError::NonExhaustivePrimitive { .. } => 4,
            PatternError::PatternDomainMismatch { .. } => 5,
            PatternError::DestructureNotAStruct { .. } => 6,
            PatternError::DestructureUnknownField { .. } => 7,
            PatternError::DestructureDuplicateField { .. } => 8,
            PatternError::DestructureNonExhaustive { .. } => 9,
        }
    }
}

impl ConstError {
    /// The number of this diagnostic within its class.
    pub open spec fn spec_number(&self) -> u16 {
        match self {
            ConstError::ArrayLenNotLiteral => 1,
            ConstError::ArrayLenZero => 2,
            ConstError::ArrayLenTooLarge => 3,
            ConstError::IndexOutOfBounds { .. } => 4,
            ConstError::NegativeIndex => 5,
            ConstError::ConstCycle { .. } => 6,
            ConstError::ConstUnknownName { .. } => 7,
            ConstError::NotAConstExpr => 8,
            ConstError::ConstDivByZero => 9,
            ConstError::RefOfConst { .. } => 10,
            ConstError::AssignToConst { .. } => 11,
            ConstError::ArrayLenNotInteger => 12,
            ConstError::ConstValueOutOfRange { .. } => 13,
            ConstError::ConstTypeMismatch { .. } => 14,
        }
    }

    /// The number of this diagnostic within its class.
    pub fn number(&self) -> (n: u16)
        ensures
            n == self.spec_number(),
    {
        match self {
            ConstError::ArrayLenNotLiteral => 1,
            ConstError::ArrayLenZero => 2,
            ConstError::ArrayLenTooLarge => 3,
            ConstError::IndexOutOfBounds { .. } => 4,
            ConstError::NegativeIndex => 5,
            ConstError::ConstCycle { .. } => 6,
            ConstError::ConstUnknownName { .. } => 7,
            ConstError::NotAConstExpr => 8,
            ConstError::ConstDivByZero => 9,
            ConstError::RefOfConst { .. } => 10,
            ConstError::AssignToConst { .. } => 11,
            ConstError::ArrayLenNotInteger => 12,
            ConstError::ConstValueOutOfRange { .. } => 13,
            ConstError::ConstTypeMismatch { .. } => 14,
        }
    }
}

impl EffectError {
    /// The number of this diagnostic within its class.
    pub open spec fn spec_number(&self) -> u16 {
        match self {
            EffectError::UnknownEffect { .. } => 1,
            EffectError::EffectMismatch { .. } => 2,
        }
    }

    /// The number of this diagnostic within its class.
    pub fn number(&self) -> (n: u16)
        ensures
            n == self.spec_number(),
    {
        match self {
            EffectError::UnknownEffect { .. } => 1,
            EffectError::EffectMismatch { .. } => 2,
        }
    }
}
impl ResolveError {
    /// The diagnostic's message.
    pub open spec fn spec_message(&self) -> Seq<char> {
        match self {
            ResolveError::DuplicateItem { name } => "duplicate item `"@ + name@ + "`"@,
            ResolveError::DuplicateVariantDecl { variant, enum_name } => "variant `"@ + variant@ + "` already declared in enum `"@ + enum_name@ + "`"@,
            ResolveError::DuplicateParam { name, function } => "parameter `"@ + name@ + "` declared more than once in `"@ + function@ + "`"@,
            ResolveError::UnknownEnumInPattern { enum_name } => "unknown enum `"@ + enum_name@ + "` in match pattern"@,
            ResolveError::PatternEnumMismatch { pattern_enum, scrutinee_enum } => "pattern is from enum `"@ + pattern_enum@ + "`, but scrutinee is `"@ + scrutinee_enum@ + "`"@,
            ResolveError::NoSuchVariant { enum_name, variant } => "enum `"@ + enum_name@ + "` has no variant `"@ + variant@ + "`"@,
            ResolveError::UnknownVariantInPattern { variant } => "unknown variant `"@ + variant@ + "` in match pattern"@,
            ResolveError::EnumNameAsValue { name } => "`"@ + name@ + "` is an enum type, not a value"@,
            ResolveError::UnresolvedName { name } => "use of undeclared name `"@ + name@ + "`"@,
            ResolveError::StructNameAsValue { name } => "`"@ + name@ + "` is a struct type, not a value"@,
            ResolveError::NameIsCKeyword { name, what } => "`"@ + name@ + "` cannot be used as a "@ + what@ + " name: it is a C keyword, and the C backend emits the name verbatim"@,
            ResolveError::NameIsReserved { name, what } => "`"@ + name@ + "` cannot be used as a "@ + what@ + " name: it is reserved for the compiler's C output"@,
            ResolveError::UnknownStructLiteral { name } => "`"@ + name@ + "` is not a declared struct or union"@,
            ResolveError::UnknownTypeName { name } => "unknown type name `"@ + name@ + "`"@,
            ResolveError::DuplicateLocal { name } => "`"@ + name@ + "` is already declared in this scope; shadowing needs a nested block scope"@,
        }
    }

    /// The diagnostic's message.
    pub fn message(&self) -> (m: String)
        ensures
            m@ == self.spec_message(),
    {
        match self {
            ResolveError::DuplicateItem { name } => {
                let mut s = "duplicate item `".to_owned();
                s.append(name.as_str());
                s.append("`");
                s
            },
            ResolveError::DuplicateVariantDecl { variant, enum_name } => {
                let mut s = "variant `".to_owned();
                s.append(variant.as_str());
                s.append("` already declared in enum `");
                s.append(enum_name.as_str());
                s.append("`");
                s
            },
            ResolveError::DuplicateParam { name, function } => {
                let mut s = "parameter `".to_owned();
                s.append(name.as_str());
                s.append("` declared more than once in `");
                s.append(function.as_str());
                s.append("`");
                s
            },
            ResolveError::UnknownEnumInPattern { enum_name } => {
                let mut s = "unknown enum `".to_owned();
                s.append(enum_name.as_str());
                s.append("` in match pattern");
                s
            },
            ResolveError::PatternEnumMismatch { pattern_enum, scrutinee_enum } => {
                let mut s = "pattern is from enum `".to_owned();
                s.append(pattern_enum.as_str());
                s.append("`, but scrutinee is `");
                s.append(scrutinee_enum.as_str());
                s.append("`");
                s
            },
            ResolveError::NoSuchVariant { enum_name, variant } => {
                let mut s = "enum `".to_owned();
                s.append(enum_name.as_str());
                s.append("` has no variant `");
                s.append(variant.as_str());
                s.append("`");
                s
            },
            ResolveError::UnknownVariantInPattern { variant } => {
                let mut s = "unknown variant `".to_owned();
                s.append(variant.as_str());
                s.append("` in match pattern");
                s
            },
            ResolveError::EnumNameAsValue { name } => {
                let mut s = "`".to_owned();
                s.append(name.as_str());
                s.append("` is an enum type, not a value");
                s
            },
            ResolveError::UnresolvedName { name } => {
                let mut s = "use of undeclared name `".to_owned();
                s.append(name.as_str());
                s.append("`");
                s
            },
            ResolveError::StructNameAsValue { name } => {
                let mut s = "`".to_owned();
                s.append(name.as_str());
                s.append("` is a struct type, not a value");
                s
            },
            ResolveError::NameIsCKeyword { name, what } => {
                let mut s = "`".to_owned();
                s.append(name.as_str());
                s.append("` cannot be used as a ");
                s.append(*what);
                s.append(" name: it is a C keyword, and the C backend emits the name verbatim");
                s
            },
            ResolveError::NameIsReserved { name, what } => {
                let mut s = "`".to_owned();
                s.append(name.as_str());
                s.append("` cannot be used as a ");
                s.append(*what);
                s.append(" name: it is reserved for the compiler's C output");
                s
            },
            ResolveError::UnknownStructLiteral { name } => {
                let mut s = "`".to_owned();
                s.append(name.as_str());
                s.append("` is not a declared struct or union");
                s
            },
            ResolveError::UnknownTypeName { name } => {
                let mut s = "unknown type name `".to_owned();
                s.append(name.as_str());
                s.append("`");
                s
            },
            ResolveError::DuplicateLocal { name } => {
                let mut s = "`".to_owned();
                s.append(name.as_str());
                s.append("` is already declared in this scope; shadowing needs a nested block scope");
                s
            },
        }
    }
}

impl TypeError {
    /// The diagnostic's message.
    pub open spec fn spec_message(&self) -> Seq<char> {
        match self {
            TypeError::ArrayInitLenMismatch { declared, found } => "array initializer length mismatch: declared length "@ + decimal(*declared as nat) + ", initializer has "@ + decimal(*found as nat) + " element(s)"@,
            TypeError::LetTypeMismatch { expected, got } => "let initializer type mismatch: expected "@ + expected@ + ", got "@ + got@,
            TypeError::MatchArmTypeMismatch { expected, found } => "match arm type mismatch: expected "@ + expected@ + ", this arm produces "@ + found@,
            TypeError::ReturnTypeMismatch { expected, found } => "return type mismatch: function returns "@ + expected@ + ", but this produces "@ + found@,
            TypeError::ReturnMissingValue { expected } => "`return;` has no value but the function returns "@ + expected@,
            TypeError::ReturnValueInVoid => "`return` has a value but the function returns nothing"@,
            TypeError::RecursiveValueType { name } => "`"@ + name@ + "` contains itself by value (infinite size); break the cycle with a pointer (`"@ + name@ + "*`)"@,
            TypeError::CallNonFunction { found } => "cannot call a value of type `"@ + found@ + "`; it is not a function"@,
            TypeError::MainHasParams => "`main` cannot take parameters"@,
            TypeError::UnionLiteralFieldCount { name, found } => "union literal `"@ + name@ + "` must set exactly one field, found "@ + decimal(*found as nat),
            TypeError::StructLitMissingFields { name, fields } => "struct literal `"@ + name@ + "` is missing field"@ + plural_seq(fields@.len()) + ": "@ + ticked_list(fields@.map_values(|t: String| t@)),
            TypeError::StructLitUnknownFields { name, fields } => "struct literal `"@ + name@ + "` has unknown field"@ + plural_seq(fields@.len()) + ": "@ + ticked_list(fields@.map_values(|t: String| t@)),
            TypeError::ArgTypeMismatch { index, expected, found } => "argument "@ + decimal(*index as nat) + " type mismatch: expected "@ + expected@ + ", got "@ + found@,
            TypeError::StructFieldTypeMismatch { field, expected, found } => "field `"@ + field@ + "` type mismatch: expected "@ + expected@ + ", got "@ + found@,
            TypeError::AssignInValuePosition => "assignment produces no value and cannot be used where a value is expected"@,
            TypeError::NegationOnUnsigned { ty } => "cannot apply unary `-` to unsigned type `"@ + ty@ + "`"@,
            TypeError::IfBranchTypeMismatch { expected, found } => "`if` branches have incompatible types: expected "@ + expected@ + ", got "@ + found@,
            TypeError::ArrayElementTypeMismatch { index, expected, found } => "array element "@ + decimal(*index as nat) + " type mismatch: expected "@ + expected@ + ", got "@ + found@,
            TypeError::CastNotAllowed { from, to } => "cannot cast "@ + from@ + " to "@ + to@,
            TypeError::MixedIntegerWidths { left, right } => "mismatched integer types `"@ + left@ + "` and `"@ + right@ + "`: cast one operand to match"@,
            TypeError::OpOnArray { op } => "cannot apply `"@ + op@ + "` to an array"@,
            TypeError::ModuloOnFloat => "cannot apply `%` to a float; `%` is integer-only (use `fmod` for floats)"@,
            TypeError::LenFieldOnArray => "no `.len` field on arrays; use `len(x)`"@,
            TypeError::PrintCannotFormat { kind } => "`println` cannot format "@ + kind@,
            TypeError::LenArity { found } => "`len` takes one argument, got "@ + decimal(*found as nat),
            TypeError::LenNotAPlace => "`len` takes an array variable, not a value"@,
            TypeError::LenNotArray => "`len` argument is not an array"@,
            TypeError::SizeofArity { found } => "`sizeof` takes one type argument, got "@ + decimal(*found as nat),
            TypeError::SizeofNotAType => "`sizeof` takes a named type, not a value or compound type"@,
            TypeError::MatchScrutineeNotEnum => "match scrutinee is not a matchable domain (enum, int, char, or bool)"@,
            TypeError::AssignToImmutable { name } => "cannot assign to `"@ + name@ + "`, which is immutable; declare it with `mut` to allow mutation"@,
            TypeError::VoidValueInValuePosition => "expression produces no value (void) where a value is expected"@,
            TypeError::MissingTypeAnnotation { name } => "binding `"@ + name@ + "` has no type to infer from; its initializer produces no value, so give `"@ + name@ + "` a type annotation, e.g. `let int32 "@ + name@ + " = ...`"@,
            TypeError::CallArityMismatch { name, expected, found, variadic } => "`"@ + name@ + "` takes "@ + (if *variadic { "at least "@ } else { ""@ }) + decimal(*expected as nat) + " "@ + (if *expected == 1 { "argument"@ } else { "arguments"@ }) + ", but "@ + decimal(*found as nat) + " "@ + (if *found == 1 { "was"@ } else { "were"@ }) + " given"@,
            TypeError::IndexOnPtr => "cannot index `ptr`: `ptr` has no element type; cast to a pointer type first"@,
            TypeError::IndexOfNonIndexable { found } => "cannot index `"@ + found@ + "`: it has no elements; only an array or a pointer can be indexed"@,
            TypeError::DerefOfPtr => "cannot dereference `ptr`: `ptr` has no pointee type; cast to a pointer type first"@,
            TypeError::DerefOfNonPointer { found } => "cannot dereference `"@ + found@ + "`: it is not a pointer; `*` indirects through a `&T`/`T*`, use `&` to take a value's address"@,
            TypeError::ArithmeticOnPtr { op } => "cannot apply `"@ + op@ + "` to `ptr`: `ptr` is untyped, so there is no element size; cast to a pointer type or an integer first"@,
            TypeError::IntLiteralOutOfRange { value, ty, min, max } => "integer literal `"@ + value@ + "` does not fit in `"@ + ty@ + "` (range "@ + min@ + "..="@ + max@ + ")"@,
            TypeError::StructLitPositional => "struct literal fields must be named (`Point { x: 1, y: 2 }`); positional initialization is not supported"@,
            TypeError::PrintlnArityMismatch { placeholders, args } => "`println` format string has "@ + decimal(*placeholders as nat) + " `{}` "@ + (if *placeholders == 1 { "placeholder"@ } else { "placeholders"@ }) + " but "@ + decimal(*args as nat) + " value "@ + (if *args == 1 { "argument"@ } else { "arguments"@ }),
            TypeError::PrintlnMissingFormat => "`println` requires a format string as its first argument"@,
            TypeError::CharLiteralNotAscii { ch } => "char literal `'"@ + seq![*ch] + "'` does not fit in one byte: `char` is a single byte; use a string literal for non-ASCII text"@,
            TypeError::ArithmeticOnEnum { op, enum_name } => "cannot apply `"@ + op@ + "` to enum `"@ + enum_name@ + "`: enum values are opaque; cast with `as` to do integer arithmetic"@,
            TypeError::RefOfNonPlace => "cannot take the address of this expression: `&` requires a place (a variable, field, index, or dereference)"@,
        }
    }

    /// The diagnostic's message.
    pub fn message(&self) -> (m: String)
        ensures
            m@ == self.spec_message(),
    {
        match self {
            TypeError::ArrayInitLenMismatch { declared, found } => {
                let mut s = "array initializer length mismatch: declared length ".to_owned();
                push_decimal(&mut s, *declared as u128);
                s.append(", initializer has ");
                push_decimal(&mut s, *found as u128);
                s.append(" element(s)");
                s
            },
            TypeError::LetTypeMismatch { expected, got } => {
                let mut s = "let initializer type mismatch: expected ".to_owned();
                s.append(expected.as_str());
                s.append(", got ");
                s.append(got.as_str());
                s
            },
            TypeError::MatchArmTypeMismatch { expected, found } => {
                let mut s = "match arm type mismatch: expected ".to_owned();
                s.append(expected.as_str());
                s.append(", this arm produces ");
                s.append(found.as_str());
                s
            },
            TypeError::ReturnTypeMismatch { expected, found } => {
                let mut s = "return type mismatch: function returns ".to_owned();
                s.append(expected.as_str());
                s.append(", but this produces ");
                s.append(found.as_str());
                s
            },
            TypeError::ReturnMissingValue { expected } => {
                let mut s = "`return;` has no value but the function returns ".to_owned();
                s.append(expected.as_str());
                s
            },
            TypeError::ReturnValueInVoid => {
                let mut s = "`return` has a value but the function returns nothing".to_owned();
                s
            },
            TypeError::RecursiveValueType { name } => {
                let mut s = "`".to_owned();
                s.append(name.as_str());
                s.append("` contains itself by value (infinite size); break the cycle with a pointer (`");
                s.append(name.as_str());
                s.append("*`)");
                s
            },
            TypeError::CallNonFunction { found } => {
                let mut s = "cannot call a value of type `".to_owned();
                s.append(found.as_str());
                s.append("`; it is not a function");
                s
            },
            TypeError::MainHasParams => {
                let mut s = "`main` cannot take parameters".to_owned();
                s
            },
            TypeError::UnionLiteralFieldCount { name, found } => {
                let mut s = "union literal `".to_owned();
                s.append(name.as_str());
                s.append("` must set exactly one field, found ");
                push_decimal(&mut s, *found as u128);
                s
            },
            TypeError::StructLitMissingFields { name, fields } => {
                let mut s = "struct literal `".to_owned();
                s.append(name.as_str());
                s.append("` is missing field");
                s.append(plural(fields.len()));
                s.append(": ");
                let joined = join_ticked(fields.as_slice());
                s.append(joined.as_str());
                s
            },
            TypeError::StructLitUnknownFields { name, fields } => {
                let mut s = "struct literal `".to_owned();
                s.append(name.as_str());
                s.append("` has unknown field");
                s.append(plural(fields.len()));
                s.append(": ");
                let joined = join_ticked(fields.as_slice());
                s.append(joined.as_str());
                s
            },
            TypeError::ArgTypeMismatch { index, expected, found } => {
                let mut s = "argument ".to_owned();
                push_decimal(&mut s, *index as u128);
                s.append(" type mismatch: expected ");
                s.append(expected.as_str());
                s.append(", got ");
                s.append(found.as_str());
                s
            },
            TypeError::StructFieldTypeMismatch { field, expected, found } => {
                let mut s = "field `".to_owned();
                s.append(field.as_str());
                s.append("` type mismatch: expected ");
                s.append(expected.as_str());
                s.append(", got ");
                s.append(found.as_str());
                s
            },
            TypeError::AssignInValuePosition => {
                let mut s = "assignment produces no value and cannot be used where a value is expected".to_owned();
                s
            },
            TypeError::NegationOnUnsigned { ty } => {
                let mut s = "cannot apply unary `-` to unsigned type `".to_owned();
                s.append(ty.as_str());
                s.append("`");
                s
            },
            TypeError::IfBranchTypeMismatch { expected, found } => {
                let mut s = "`if` branches have incompatible types: expected ".to_owned();
                s.append(expected.as_str());
                s.append(", got ");
                s.append(found.as_str());
                s
            },
            TypeError::ArrayElementTypeMismatch { index, expected, found } => {
                let mut s = "array element ".to_owned();
                push_decimal(&mut s, *index as u128);
                s.append(" type mismatch: expected ");
                s.append(expected.as_str());
                s.append(", got ");
                s.append(found.as_str());
                s
            },
            TypeError::CastNotAllowed { from, to } => {
                let mut s = "cannot cast ".to_owned();
                s.append(from.as_str());
                s.append(" to ");
                s.append(to.as_str());
                s
            },
            TypeError::MixedIntegerWidths { left, right } => {
                let mut s = "mismatched integer types `".to_owned();
                s.append(left.as_str());
                s.append("` and `");
                s.append(right.as_str());
                s.append("`: cast one operand to match");
                s
            },
            TypeError::OpOnArray { op } => {
                let mut s = "cannot apply `".to_owned();
                s.append(*op);
                s.append("` to an array");
                s
            },
            TypeError::ModuloOnFloat => {
                let mut s = "cannot apply `%` to a float; `%` is integer-only (use `fmod` for floats)".to_owned();
                s
            },
            TypeError::LenFieldOnArray => {
                let mut s = "no `.len` field on arrays; use `len(x)`".to_owned();
                s
            },
            TypeError::PrintCannotFormat { kind } => {
                let mut s = "`println` cannot format ".to_owned();
                s.append(*kind);
                s
            },
            TypeError::LenArity { found } => {
                let mut s = "`len` takes one argument, got ".to_owned();
                push_decimal(&mut s, *found as u128);
                s
            },
            TypeError::LenNotAPlace => {
                let mut s = "`len` takes an array variable, not a value".to_owned();
                s
            },
            TypeError::LenNotArray => {
                let mut s = "`len` argument is not an array".to_owned();
                s
            },
            TypeError::SizeofArity { found } => {
                let mut s = "`sizeof` takes one type argument, got ".to_owned();
                push_decimal(&mut s, *found as u128);
                s
            },
            TypeError::SizeofNotAType => {
                let mut s = "`sizeof` takes a named type, not a value or compound type".to_owned();
                s
            },
            TypeError::MatchScrutineeNotEnum => {
                let mut s = "match scrutinee is not a matchable domain (enum, int, char, or bool)".to_owned();
                s
            },
            TypeError::AssignToImmutable { name } => {
                let mut s = "cannot assign to `".to_owned();
                s.append(name.as_str());
                s.append("`, which is immutable; declare it with `mut` to allow mutation");
                s
            },
            TypeError::VoidValueInValuePosition => {
                let mut s = "expression produces no value (void) where a value is expected".to_owned();
                s
            },
            TypeError::MissingTypeAnnotation { name } => {
                let mut s = "binding `".to_owned();
                s.append(name.as_str());
                s.append("` has no type to infer from; its initializer produces no value, so give `");
                s.append(name.as_str());
                s.append("` a type annotation, e.g. `let int32 ");
                s.append(name.as_str());
                s.append(" = ...`");
                s
            },
            TypeError::CallArityMismatch { name, expected, found, variadic } => {
                let mut s = "`".to_owned();
                s.append(name.as_str());
                s.append("` takes ");
                s.append(if *variadic { "at least " } else { "" });
                push_decimal(&mut s, *expected as u128);
                s.append(" ");
                s.append(if *expected == 1 { "argument" } else { "arguments" });
                s.append(", but ");
                push_decimal(&mut s, *found as u128);
                s.append(" ");
                s.append(if *found == 1 { "was" } else { "were" });
                s.append(" given");
                s
            },
            TypeError::IndexOnPtr => {
                let mut s = "cannot index `ptr`: `ptr` has no element type; cast to a pointer type first".to_owned();
                s
            },
            TypeError::IndexOfNonIndexable { found } => {
                let mut s = "cannot index `".to_owned();
                s.append(found.as_str());
                s.append("`: it has no elements; only an array or a pointer can be indexed");
                s
            },
            TypeError::DerefOfPtr => {
                let mut s = "cannot dereference `ptr`: `ptr` has no pointee type; cast to a pointer type first".to_owned();
                s
            },
            TypeError::DerefOfNonPointer { found } => {
                let mut s = "cannot dereference `".to_owned();
                s.append(found.as_str());
                s.append("`: it is not a pointer; `*` indirects through a `&T`/`T*`, use `&` to take a value's address");
                s
            },
            TypeError::ArithmeticOnPtr { op } => {
                let mut s = "cannot apply `".to_owned();
                s.append(*op);
                s.append("` to `ptr`: `ptr` is untyped, so there is no element size; cast to a pointer type or an integer first");
                s
            },
            TypeError::IntLiteralOutOfRange { value, ty, min, max } => {
                let mut s = "integer literal `".to_owned();
                s.append(value.as_str());
                s.append("` does not fit in `");
                s.append(ty.as_str());
                s.append("` (range ");
                s.append(min.as_str());
                s.append("..=");
                s.append(max.as_str());
                s.append(")");
                s
            },
            TypeError::StructLitPositional => {
                let mut s = "struct literal fields must be named (`Point { x: 1, y: 2 }`); positional initialization is not supported".to_owned();
                s
            },
            TypeError::PrintlnArityMismatch { placeholders, args } => {
                let mut s = "`println` format string has ".to_owned();
                push_decimal(&mut s, *placeholders as u128);
                s.append(" `{}` ");
                s.append(if *placeholders == 1 { "placeholder" } else { "placeholders" });
                s.append(" but ");
                push_decimal(&mut s, *args as u128);
                s.append(" value ");
                s.append(if *args == 1 { "argument" } else { "arguments" });
                s
            },
            TypeError::PrintlnMissingFormat => {
                let mut s = "`println` requires a format string as its first argument".to_owned();
                s
            },
            TypeError::CharLiteralNotAscii { ch } => {
                let mut s = "char literal `'".to_owned();
                string_push(&mut s, *ch);
                s.append("'` does not fit in one byte: `char` is a single byte; use a string literal for non-ASCII text");
                s
            },
            TypeError::ArithmeticOnEnum { op, enum_name } => {
                let mut s = "cannot apply `".to_owned();
                s.append(*op);
                s.append("` to enum `");
                s.append(enum_name.as_str());
                s.append("`: enum values are opaque; cast with `as` to do integer arithmetic");
                s
            },
            TypeError::RefOfNonPlace => {
                let mut s = "cannot take the address of this expression: `&` requires a place (a variable, field, index, or dereference)".to_owned();
                s
            },
        }
    }
}

impl PatternError {
    /// The diagnostic's message.
    pub open spec fn spec_message(&self) -> Seq<char> {
        match self {
            PatternError::UnreachableAfterWildcard => "unreachable match arm: an earlier arm (`_` or a bare-ident binding) already matches every value"@,
            PatternError::DuplicateArm { variant } => "duplicate match arm for variant `"@ + variant@ + "`"@,
            PatternError::NonExhaustive { enum_name, missing } => "non-exhaustive match on enum `"@ + enum_name@ + "`: missing "@ + ticked_list(missing@.map_values(|t: String| t@)),
            PatternError::NonExhaustivePrimitive { ty, missing } => if missing@.len() == 0 {
                "non-exhaustive match on `"@ + ty@ + "`: add a `_` arm (the domain is too large to enumerate)"@
            } else {
                "non-exhaustive match on `"@ + ty@ + "`: missing "@ + ticked_list(missing@.map_values(|t: String| t@))
            },
            PatternError::PatternDomainMismatch { scrutinee, pattern } => "pattern `"@ + pattern@ + "` does not match scrutinee type `"@ + scrutinee@ + "`"@,
            PatternError::DestructureNotAStruct { ty } => "cannot destructure `"@ + ty@ + "`: it is not a known struct"@,
            PatternError::DestructureUnknownField { ty, field } => "struct `"@ + ty@ + "` has no field `"@ + field@ + "`"@,
            PatternError::DestructureDuplicateField { field } => "field `"@ + field@ + "` is bound more than once in this destructure"@,
            PatternError::DestructureNonExhaustive { ty, missing } => "destructure of `"@ + ty@ + "` is missing field"@ + plural_seq(missing@.len()) + ": "@ + ticked_list(missing@.map_values(|t: String| t@)) + " (destructuring binds every field)"@,
        }
    }

    /// The diagnostic's message.
    pub fn message(&self) -> (m: String)
        ensures
            m@ == self.spec_message(),
    {
        match self {
            PatternError::UnreachableAfterWildcard => {
                let mut s = "unreachable match arm: an earlier arm (`_` or a bare-ident binding) already matches every value".to_owned();
                s
            },
            PatternError::DuplicateArm { variant } => {
                let mut s = "duplicate match arm for variant `".to_owned();
                s.append(variant.as_str());
                s.append("`");
                s
            },
            PatternError::NonExhaustive { enum_name, missing } => {
                let mut s = "non-exhaustive match on enum `".to_owned();
                s.append(enum_name.as_str());
                s.append("`: missing ");
                let joined = join_ticked(missing.as_slice());
                s.append(joined.as_str());
                s
            },
            PatternError::NonExhaustivePrimitive { ty, missing } => {
                if missing.len() == 0 {
                    let mut s = "non-exhaustive match on `".to_owned();
                    s.append(ty.as_str());
                    s.append("`: add a `_` arm (the domain is too large to enumerate)");
                    s
                } else {
                    let mut s = "non-exhaustive match on `".to_owned();
                    s.append(ty.as_str());
                    s.append("`: missing ");
                    let joined = join_ticked(missing.as_slice());
                s.append(joined.as_str());
                    s
                }
            },
            PatternError::PatternDomainMismatch { scrutinee, pattern } => {
                let mut s = "pattern `".to_owned();
                s.append(pattern.as_str());
                s.append("` does not match scrutinee type `");
                s.append(scrutinee.as_str());
                s.append("`");
                s
            },
            PatternError::DestructureNotAStruct { ty } => {
                let mut s = "cannot destructure `".to_owned();
                s.append(ty.as_str());
                s.append("`: it is not a known struct");
                s
            },
            PatternError::DestructureUnknownField { ty, field } => {
                let mut s = "struct `".to_owned();
                s.append(ty.as_str());
                s.append("` has no field `");
                s.append(field.as_str());
                s.append("`");
                s
            },
            PatternError::DestructureDuplicateField { field } => {
                let mut s = "field `".to_owned();
                s.append(field.as_str());
                s.append("` is bound more than once in this destructure");
                s
            },
            PatternError::DestructureNonExhaustive { ty, missing } => {
                let mut s = "destructure of `".to_owned();
                s.append(ty.as_str());
                s.append("` is missing field");
                s.append(plural(missing.len()));
                s.append(": ");
                let joined = join_ticked(missing.as_slice());
                s.append(joined.as_str());
                s.append(" (destructuring binds every field)");
                s
            },
        }
    }
}

impl ConstError {
    /// The diagnostic's message.
    pub open spec fn spec_message(&self) -> Seq<char> {
        match self {
            ConstError::ArrayLenNotLiteral => "array length must be an integer literal"@,
            ConstError::ArrayLenZero => "array length cannot be zero"@,
            ConstError::ArrayLenTooLarge => "array length integer literal is too large"@,
            ConstError::IndexOutOfBounds { index, len } => "array index "@ + decimal(*index as nat) + " is out of bounds for `[_; "@ + decimal(*len as nat) + "]`"@,
            ConstError::NegativeIndex => "array index cannot be negative"@,
            ConstError::ConstCycle { name } => "constant `"@ + name@ + "` references itself"@,
            ConstError::ConstUnknownName { name } => "`"@ + name@ + "` is not a constant; only constants may appear in a const expression"@,
            ConstError::NotAConstExpr => "not a constant expression (function calls and non-constant operands are not allowed)"@,
            ConstError::ConstDivByZero => "division by zero in a constant expression"@,
            ConstError::RefOfConst { name } => "cannot take the address of constant `"@ + name@ + "`; a constant is a value, not a location"@,
            ConstError::AssignToConst { name } => "cannot assign to constant `"@ + name@ + "`"@,
            ConstError::ArrayLenNotInteger => "array length constant must be a non-negative integer"@,
            ConstError::ConstValueOutOfRange { value, ty, min, max } => "constant value "@ + value@ + " is out of range for type `"@ + ty@ + "` ("@ + min@ + ".."@ + max@ + ")"@,
            ConstError::ConstTypeMismatch { ty, found } => "constant of type `"@ + ty@ + "` cannot be initialized with "@ + found@ + " value"@,
        }
    }

    /// The diagnostic's message.
    pub fn message(&self) -> (m: String)
        ensures
            m@ == self.spec_message(),
    {
        match self {
            ConstError::ArrayLenNotLiteral => {
                let mut s = "array length must be an integer literal".to_owned();
                s
            },
            ConstError::ArrayLenZero => {
                let mut s = "array length cannot be zero".to_owned();
                s
            },
            ConstError::ArrayLenTooLarge => {
                let mut s = "array length integer literal is too large".to_owned();
                s
            },
            ConstError::IndexOutOfBounds { index, len } => {
                let mut s = "array index ".to_owned();
                push_decimal(&mut s, *index as u128);
                s.append(" is out of bounds for `[_; ");
                push_decimal(&mut s, *len as u128);
                s.append("]`");
                s
            },
            ConstError::NegativeIndex => {
                let mut s = "array index cannot be negative".to_owned();
                s
            },
            ConstError::ConstCycle { name } => {
                let mut s = "constant `".to_owned();
                s.append(name.as_str());
                s.append("` references itself");
                s
            },
            ConstError::ConstUnknownName { name } => {
                let mut s = "`".to_owned();
                s.append(name.as_str());
                s.append("` is not a constant; only constants may appear in a const expression");
                s
            },
            ConstError::NotAConstExpr => {
                let mut s = "not a constant expression (function calls and non-constant operands are not allowed)".to_owned();
                s
            },
            ConstError::ConstDivByZero => {
                let mut s = "division by zero in a constant expression".to_owned();
                s
            },
            ConstError::RefOfConst { name } => {
                let mut s = "cannot take the address of constant `".to_owned();
                s.append(name.as_str());
                s.append("`; a constant is a value, not a location");
                s
            },
            ConstError::AssignToConst { name } => {
                let mut s = "cannot assign to constant `".to_owned();
                s.append(name.as_str());
                s.append("`");
                s
            },
            ConstError::ArrayLenNotInteger => {
                let mut s = "array length constant must be a non-negative integer".to_owned();
                s
            },
            ConstError::ConstValueOutOfRange { value, ty, min, max } => {
                let mut s = "constant value ".to_owned();
                s.append(value.as_str());
                s.append(" is out of range for type `");
                s.append(ty.as_str());
                s.append("` (");
                s.append(min.as_str());
                s.append("..");
                s.append(max.as_str());
                s.append(")");
                s
            },
            ConstError::ConstTypeMismatch { ty, found } => {
                let mut s = "constant of type `".to_owned();
                s.append(ty.as_str());
                s.append("` cannot be initialized with ");
                s.append(found.as_str());
                s.append(" value");
                s
            },
        }
    }
}

impl EffectError {
    /// The diagnostic's message.
    pub open spec fn spec_message(&self) -> Seq<char> {
        match self {
            EffectError::UnknownEffect { name } => "unknown effect `"@ + name@ + "`; the effects are `pure`, `io`, `ffi`, `state`"@,
            EffectError::EffectMismatch { function, declared, inferred, witness } => "`"@ + function@ + "` declares `"@ + declared@ + "` but its effect is `"@ + inferred@ + "`"@,
        }
    }

    /// The diagnostic's message.
    pub fn message(&self) -> (m: String)
        ensures
            m@ == self.spec_message(),
    {
        match self {
            EffectError::UnknownEffect { name } => {
                let mut s = "unknown effect `".to_owned();
                s.append(name.as_str());
                s.append("`; the effects are `pure`, `io`, `ffi`, `state`");
                s
            },
            EffectError::EffectMismatch { function, declared, inferred, witness } => {
                let mut s = "`".to_owned();
                s.append(function.as_str());
                s.append("` declares `");
                s.append(declared.as_str());
                s.append("` but its effect is `");
                s.append(inferred.as_str());
                s.append("`");
                s
            },
        }
    }
}

impl HirError {
    /// The text an editor shows: the message, then each note on a line of
    /// its own.
    pub open spec fn spec_full_message(&self) -> Seq<char> {
        self.spec_message() + match self {
            HirError::Effect(EffectError::EffectMismatch { witness: Some(w), .. }) => "\nnote: "@ + w@,
            _ => ""@,
        }
    }

    /// The text an editor shows: the message, then each note on a line of
    /// its own.
    pub fn full_message(&self) -> (m: String)
        ensures
            m@ == self.spec_full_message(),
    {
        let mut m = self.message();
        let notes = self.notes();
        let mut i: usize = 0;
        while i < notes.len()
            invariant
                i <= notes@.len(),
                notes@.len() <= 1,
                match self {
                    HirError::Effect(EffectError::EffectMismatch { witness: Some(w), .. }) => notes@.len() == 1
                        && notes@[0]@ == w@,
                    _ => notes@.len() == 0,
                },
                i == 0 ==> m@ == self.spec_message(),
                i == 1 ==> m@ == self.spec_full_message(),
            decreases notes@.len() - i,
        {
            m.append("\nnote: ");
            m.append(notes[i].as_str());
            proof {
                reveal_strlit("\nnote: ");
            }
            i = i + 1;
        }
        proof {
            reveal_strlit("");
            assert(m@ =~= self.spec_full_message());
        }
        m
    }

    /// The diagnostic's message.
    pub open spec fn spec_message(&self) -> Seq<char> {
        match self {
            HirError::Resolve(e) => e.spec_message(),
            HirError::Type(e) => e.spec_message(),
            HirError::Pattern(e) => e.spec_message(),
            HirError::Const(e) => e.spec_message(),
            HirError::Effect(e) => e.spec_message(),
        }
    }

    /// The diagnostic's message.
    pub fn message(&self) -> (m: String)
        ensures
            m@ == self.spec_message(),
    {
        match self {
            HirError::Resolve(e) => e.message(),
            HirError::Type(e) => e.message(),
            HirError::Pattern(e) => e.message(),
            HirError::Const(e) => e.message(),
            HirError::Effect(e) => e.message(),
        }
    }
}

} // verus!
