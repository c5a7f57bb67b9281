//! Splits source text into tokens.

use crate::frontend::source::{byte_at, last_line_width, newlines, width};
use crate::frontend::source::{
    lemma_byte_at_boundary, lemma_byte_at_monotone, lemma_encode_injective, lemma_encode_subrange,
    lemma_width_push,
};
use crate::frontend::{SourceFile, SourceFileOrigin};
use crate::text::{decimal, push_decimal, same_text};
use std::collections::VecDeque;
use std::str::Chars;
use vstd::prelude::*;

verus! {

/// A piece of source text, by its byte positions.
#[derive(Debug, Clone, Copy, PartialEq, Eq, Structural)]
pub struct Span {
    pub start: usize,
    pub end: usize,
}

impl Span {
    /// Whether a span is the one that selects nothing.
    pub open spec fn is_invalid(self) -> bool {
        self.start == usize::MAX && self.end == usize::MAX
    }

    /// The span that selects nothing.
    pub fn invalid() -> (r: Span)
        ensures
            r.is_invalid(),
    {
        Span { start: usize::MAX, end: usize::MAX }
    }

    /// The span between two byte positions.
    pub fn new(start: usize, end: usize) -> (r: Span)
        ensures
            r == (Span { start, end }),
    {
        Span { start, end }
    }

    /// The span from the start of one span to the end of a later one.
    pub fn merge(first: Span, second: Span) -> (r: Span)
        requires
            first.start <= second.start,
            first.start <= second.end,
            first.end <= second.end,
        ensures
            r == (Span { start: first.start, end: second.end }),
    {
        Span::new(first.start, second.end)
    }
}

/// A word of the language, with its place in the source.
#[derive(Debug, Clone, Copy, PartialEq, Eq, Structural)]
pub struct Token {
    pub kind: TokenKind,
    pub span: Span,
}

/// What a token is.
#[derive(Debug, Clone, Copy, PartialEq, Eq, Structural)]
pub enum TokenKind {
    /// `fn`
    Keyword(Keyword),
    /// `main`
    Identifier,
    /// `true`
    BooleanLiteral,
    /// `b'A'`
    ByteLiteral,
    /// `'A'`
    CharLiteral,
    /// `1`
    IntegerLiteral,
    /// `1.0`
    FloatLiteral,
    /// `"hello, world"`
    StringLiteral,
    /// `b"hello, world"`
    ByteStringLiteral,
    /// `c"hello, world"`
    CStringLiteral,
    /// `(`
    OpenParen,
    /// `)`
    CloseParen,
    /// `[`
    OpenBracket,
    /// `]`
    CloseBracket,
    /// `{`
    OpenBrace,
    /// `}`
    CloseBrace,
    /// `;`
    Semicolon,
    /// `,`
    Comma,
    /// `.`
    Dot,
    /// `:`
    Colon,
    /// `::`
    DoubleColon,
    /// `->`
    Arrow,
    /// `!`
    Bang,
    /// `~`
    Tilde,
    /// `*`
    Asterisk,
    /// `-`
    Minus,
    /// `&`
    Ampersand,
    /// `+`
    Plus,
    /// `/`
    Divide,
    /// `%`
    Modulus,
    /// `&&`
    LogicalAnd,
    /// `||`
    LogicalOr,
    /// `^`
    BitwiseXor,
    /// `|`
    BitwiseOr,
    /// `<<`
    ShiftLeft,
    /// `>>`
    ShiftRight,
    /// `==`
    DoubleEquals,
    /// `!=`
    NotEquals,
    /// `<`
    LessThan,
    /// `<=`
    LessThanOrEqualTo,
    /// `>`
    GreaterThan,
    /// `>=`
    GreaterThanOrEqualTo,
    /// `=`
    Equals,
    /// `+=`
    PlusEquals,
    /// `-=`
    MinusEquals,
    /// `*=`
    MultiplyEquals,
    /// `/=`
    DivideEquals,
    /// `%=`
    ModulusEquals,
    /// `&&=`
    LogicalAndEquals,
    /// `||=`
    LogicalOrEquals,
    /// `^=`
    BitwiseXorEquals,
    /// `&=`
    BitwiseAndEquals,
    /// `|=`
    BitwiseOrEquals,
    /// `<<=`
    ShiftLeftEquals,
    /// `>>=`
    ShiftRightEquals,
}

/// The reserved words.
#[derive(Debug, Clone, Copy, PartialEq, Eq, Structural)]
pub enum Keyword {
    Fn,
    Let,
    Mut,
    If,
    Else,
    While,
    As,
    Break,
    Continue,
    Return,
    Struct,
    Type,
    Static,
    This,
    Enum,
    Mod,
}

impl TokenKind {
    pub fn is_assignment_operator(&self) -> (r: bool)
        ensures
            r == (*self is Equals || *self is PlusEquals || *self is MinusEquals
                || *self is MultiplyEquals || *self is DivideEquals || *self is ModulusEquals
                || *self is LogicalAndEquals || *self is LogicalOrEquals
                || *self is BitwiseXorEquals || *self is BitwiseAndEquals
                || *self is BitwiseOrEquals || *self is ShiftLeftEquals
                || *self is ShiftRightEquals),
    {
        matches!(
            self,
            TokenKind::Equals
                | TokenKind::PlusEquals
                | TokenKind::MinusEquals
                | TokenKind::MultiplyEquals
                | TokenKind::DivideEquals
                | TokenKind::ModulusEquals
                | TokenKind::LogicalAndEquals
                | TokenKind::LogicalOrEquals
                | TokenKind::BitwiseXorEquals
                | TokenKind::BitwiseAndEquals
                | TokenKind::BitwiseOrEquals
                | TokenKind::ShiftLeftEquals
                | TokenKind::ShiftRightEquals
        )
    }

    pub fn is_comparison_operator(&self) -> (r: bool)
        ensures
            r == (*self is NotEquals || *self is DoubleEquals || *self is LessThan
                || *self is LessThanOrEqualTo || *self is GreaterThan
                || *self is GreaterThanOrEqualTo),
    {
        matches!(
            self,
            TokenKind::NotEquals
                | TokenKind::DoubleEquals
                | TokenKind::LessThan
                | TokenKind::LessThanOrEqualTo
                | TokenKind::GreaterThan
                | TokenKind::GreaterThanOrEqualTo
        )
    }

    pub fn is_bit_shift_operator(&self) -> (r: bool)
        ensures
            r == (*self is ShiftLeft || *self is ShiftRight),
    {
        matches!(self, TokenKind::ShiftLeft | TokenKind::ShiftRight)
    }

    pub fn is_term_operator(&self) -> (r: bool)
        ensures
            r == (*self is Plus || *self is Minus),
    {
        matches!(self, TokenKind::Plus | TokenKind::Minus)
    }

    pub fn is_factor_operator(&self) -> (r: bool)
        ensures
            r == (*self is Asterisk || *self is Divide || *self is Modulus),
    {
        matches!(self, TokenKind::Asterisk | TokenKind::Divide | TokenKind::Modulus)
    }

    pub fn is_unary_operator(&self) -> (r: bool)
        ensures
            r == (*self is Asterisk || *self is Bang || *self is Tilde || *self is Minus
                || *self is Ampersand),
    {
        matches!(
            self,
            TokenKind::Asterisk
                | TokenKind::Bang
                | TokenKind::Tilde
                | TokenKind::Minus
                | TokenKind::Ampersand
        )
    }
}

/// The reserved word that a text spells.
pub open spec fn keyword_of(s: Seq<char>) -> Option<Keyword> {
    if s == "fn"@ {
        Some(Keyword::Fn)
    } else if s == "let"@ {
        Some(Keyword::Let)
    } else if s == "mut"@ {
        Some(Keyword::Mut)
    } else if s == "if"@ {
        Some(Keyword::If)
    } else if s == "else"@ {
        Some(Keyword::Else)
    } else if s == "while"@ {
        Some(Keyword::While)
    } else if s == "as"@ {
        Some(Keyword::As)
    } else if s == "break"@ {
        Some(Keyword::Break)
    } else if s == "continue"@ {
        Some(Keyword::Continue)
    } else if s == "return"@ {
        Some(Keyword::Return)
    } else if s == "struct"@ {
        Some(Keyword::Struct)
    } else if s == "type"@ {
        Some(Keyword::Type)
    } else if s == "static"@ {
        Some(Keyword::Static)
    } else if s == "self"@ {
        Some(Keyword::This)
    } else if s == "enum"@ {
        Some(Keyword::Enum)
    } else if s == "mod"@ {
        Some(Keyword::Mod)
    } else {
        None
    }
}

/// The token that a word is.
pub open spec fn word_kind(s: Seq<char>) -> TokenKind {
    match keyword_of(s) {
        Some(keyword) => TokenKind::Keyword(keyword),
        None => if s == "true"@ || s == "false"@ {
            TokenKind::BooleanLiteral
        } else {
            TokenKind::Identifier
        },
    }
}

/// The operators and delimiters of one character.
pub open spec fn single_kind(c: char) -> Option<TokenKind> {
    if c == '(' {
        Some(TokenKind::OpenParen)
    } else if c == ')' {
        Some(TokenKind::CloseParen)
    } else if c == '[' {
        Some(TokenKind::OpenBracket)
    } else if c == ']' {
        Some(TokenKind::CloseBracket)
    } else if c == '{' {
        Some(TokenKind::OpenBrace)
    } else if c == '}' {
        Some(TokenKind::CloseBrace)
    } else if c == ';' {
        Some(TokenKind::Semicolon)
    } else if c == ',' {
        Some(TokenKind::Comma)
    } else if c == '!' {
        Some(TokenKind::Bang)
    } else if c == '~' {
        Some(TokenKind::Tilde)
    } else if c == '.' {
        Some(TokenKind::Dot)
    } else if c == ':' {
        Some(TokenKind::Colon)
    } else if c == '*' {
        Some(TokenKind::Asterisk)
    } else if c == '-' {
        Some(TokenKind::Minus)
    } else if c == '=' {
        Some(TokenKind::Equals)
    } else if c == '+' {
        Some(TokenKind::Plus)
    } else if c == '/' {
        Some(TokenKind::Divide)
    } else if c == '%' {
        Some(TokenKind::Modulus)
    } else if c == '^' {
        Some(TokenKind::BitwiseXor)
    } else if c == '&' {
        Some(TokenKind::Ampersand)
    } else if c == '|' {
        Some(TokenKind::BitwiseOr)
    } else if c == '<' {
        Some(TokenKind::LessThan)
    } else if c == '>' {
        Some(TokenKind::GreaterThan)
    } else {
        None
    }
}

/// The operators of two characters.
pub open spec fn double_kind(a: char, b: char) -> Option<TokenKind> {
    if a == '-' && b == '>' {
        Some(TokenKind::Arrow)
    } else if a == ':' && b == ':' {
        Some(TokenKind::DoubleColon)
    } else if a == '=' && b == '=' {
        Some(TokenKind::DoubleEquals)
    } else if a == '!' && b == '=' {
        Some(TokenKind::NotEquals)
    } else if a == '<' && b == '=' {
        Some(TokenKind::LessThanOrEqualTo)
    } else if a == '>' && b == '=' {
        Some(TokenKind::GreaterThanOrEqualTo)
    } else if a == '+' && b == '=' {
        Some(TokenKind::PlusEquals)
    } else if a == '-' && b == '=' {
        Some(TokenKind::MinusEquals)
    } else if a == '*' && b == '=' {
        Some(TokenKind::MultiplyEquals)
    } else if a == '/' && b == '=' {
        Some(TokenKind::DivideEquals)
    } else if a == '%' && b == '=' {
        Some(TokenKind::ModulusEquals)
    } else if a == '&' && b == '=' {
        Some(TokenKind::BitwiseAndEquals)
    } else if a == '|' && b == '=' {
        Some(TokenKind::BitwiseOrEquals)
    } else if a == '^' && b == '=' {
        Some(TokenKind::BitwiseXorEquals)
    } else if a == '<' && b == '<' {
        Some(TokenKind::ShiftLeft)
    } else if a == '>' && b == '>' {
        Some(TokenKind::ShiftRight)
    } else if a == '&' && b == '&' {
        Some(TokenKind::LogicalAnd)
    } else if a == '|' && b == '|' {
        Some(TokenKind::LogicalOr)
    } else {
        None
    }
}

/// The operators of three characters.
pub open spec fn triple_kind(a: char, b: char, c: char) -> Option<TokenKind> {
    if a == '<' && b == '<' && c == '=' {
        Some(TokenKind::ShiftLeftEquals)
    } else if a == '>' && b == '>' && c == '=' {
        Some(TokenKind::ShiftRightEquals)
    } else if a == '&' && b == '&' && c == '=' {
        Some(TokenKind::LogicalAndEquals)
    } else if a == '|' && b == '|' && c == '=' {
        Some(TokenKind::LogicalOrEquals)
    } else {
        None
    }
}

fn keyword_named(s: &str) -> (r: Option<Keyword>)
    ensures
        r == keyword_of(s@),
{
    if same_text(s, "fn") {
        Some(Keyword::Fn)
    } else if same_text(s, "let") {
        Some(Keyword::Let)
    } else if same_text(s, "mut") {
        Some(Keyword::Mut)
    } else if same_text(s, "if") {
        Some(Keyword::If)
    } else if same_text(s, "else") {
        Some(Keyword::Else)
    } else if same_text(s, "while") {
        Some(Keyword::While)
    } else if same_text(s, "as") {
        Some(Keyword::As)
    } else if same_text(s, "break") {
        Some(Keyword::Break)
    } else if same_text(s, "continue") {
        Some(Keyword::Continue)
    } else if same_text(s, "return") {
        Some(Keyword::Return)
    } else if same_text(s, "struct") {
        Some(Keyword::Struct)
    } else if same_text(s, "type") {
        Some(Keyword::Type)
    } else if same_text(s, "static") {
        Some(Keyword::Static)
    } else if same_text(s, "self") {
        Some(Keyword::This)
    } else if same_text(s, "enum") {
        Some(Keyword::Enum)
    } else if same_text(s, "mod") {
        Some(Keyword::Mod)
    } else {
        None
    }
}

fn single_token(c: char) -> (r: Option<TokenKind>)
    ensures
        r == single_kind(c),
{
    if c == '(' {
        Some(TokenKind::OpenParen)
    } else if c == ')' {
        Some(TokenKind::CloseParen)
    } else if c == '[' {
        Some(TokenKind::OpenBracket)
    } else if c == ']' {
        Some(TokenKind::CloseBracket)
    } else if c == '{' {
        Some(TokenKind::OpenBrace)
    } else if c == '}' {
        Some(TokenKind::CloseBrace)
    } else if c == ';' {
        Some(TokenKind::Semicolon)
    } else if c == ',' {
        Some(TokenKind::Comma)
    } else if c == '!' {
        Some(TokenKind::Bang)
    } else if c == '~' {
        Some(TokenKind::Tilde)
    } else if c == '.' {
        Some(TokenKind::Dot)
    } else if c == ':' {
        Some(TokenKind::Colon)
    } else if c == '*' {
        Some(TokenKind::Asterisk)
    } else if c == '-' {
        Some(TokenKind::Minus)
    } else if c == '=' {
        Some(TokenKind::Equals)
    } else if c == '+' {
        Some(TokenKind::Plus)
    } else if c == '/' {
        Some(TokenKind::Divide)
    } else if c == '%' {
        Some(TokenKind::Modulus)
    } else if c == '^' {
        Some(TokenKind::BitwiseXor)
    } else if c == '&' {
        Some(TokenKind::Ampersand)
    } else if c == '|' {
        Some(TokenKind::BitwiseOr)
    } else if c == '<' {
        Some(TokenKind::LessThan)
    } else if c == '>' {
        Some(TokenKind::GreaterThan)
    } else {
        None
    }
}

fn double_token(a: char, b: char) -> (r: Option<TokenKind>)
    ensures
        r == double_kind(a, b),
{
    if a == '-' && b == '>' {
        Some(TokenKind::Arrow)
    } else if a == ':' && b == ':' {
        Some(TokenKind::DoubleColon)
    } else if a == '=' && b == '=' {
        Some(TokenKind::DoubleEquals)
    } else if a == '!' && b == '=' {
        Some(TokenKind::NotEquals)
    } else if a == '<' && b == '=' {
        Some(TokenKind::LessThanOrEqualTo)
    } else if a == '>' && b == '=' {
        Some(TokenKind::GreaterThanOrEqualTo)
    } else if a == '+' && b == '=' {
        Some(TokenKind::PlusEquals)
    } else if a == '-' && b == '=' {
        Some(TokenKind::MinusEquals)
    } else if a == '*' && b == '=' {
        Some(TokenKind::MultiplyEquals)
    } else if a == '/' && b == '=' {
        Some(TokenKind::DivideEquals)
    } else if a == '%' && b == '=' {
        Some(TokenKind::ModulusEquals)
    } else if a == '&' && b == '=' {
        Some(TokenKind::BitwiseAndEquals)
    } else if a == '|' && b == '=' {
        Some(TokenKind::BitwiseOrEquals)
    } else if a == '^' && b == '=' {
        Some(TokenKind::BitwiseXorEquals)
    } else if a == '<' && b == '<' {
        Some(TokenKind::ShiftLeft)
    } else if a == '>' && b == '>' {
        Some(TokenKind::ShiftRight)
    } else if a == '&' && b == '&' {
        Some(TokenKind::LogicalAnd)
    } else if a == '|' && b == '|' {
        Some(TokenKind::LogicalOr)
    } else {
        None
    }
}

fn triple_token(a: char, b: char, c: char) -> (r: Option<TokenKind>)
    ensures
        r == triple_kind(a, b, c),
{
    if a == '<' && b == '<' && c == '=' {
        Some(TokenKind::ShiftLeftEquals)
    } else if a == '>' && b == '>' && c == '=' {
        Some(TokenKind::ShiftRightEquals)
    } else if a == '&' && b == '&' && c == '=' {
        Some(TokenKind::LogicalAndEquals)
    } else if a == '|' && b == '|' && c == '=' {
        Some(TokenKind::LogicalOrEquals)
    } else {
        None
    }
}

pub open spec fn is_ascii_char(c: char) -> bool {
    (c as u32) < 128
}

pub open spec fn is_digit(c: char) -> bool {
    48 <= (c as u32) <= 57
}

pub open spec fn is_letter(c: char) -> bool {
    65 <= (c as u32) <= 90 || 97 <= (c as u32) <= 122
}

/// Whether a character can stand in a word.
pub open spec fn is_word_char(c: char) -> bool {
    is_letter(c) || is_digit(c) || c == '_'
}

/// The blanks between tokens.
pub open spec fn is_blank(c: char) -> bool {
    c == ' ' || c == '\t' || c == '\n' || c == '\x0c' || c == '\r'
}

fn ascii_char(c: char) -> (r: bool)
    ensures
        r == is_ascii_char(c),
{
    (c as u32) < 128
}

fn digit(c: char) -> (r: bool)
    ensures
        r == is_digit(c),
{
    let n: u32 = c as u32;
    48 <= n && n <= 57
}

fn letter(c: char) -> (r: bool)
    ensures
        r == is_letter(c),
{
    let n: u32 = c as u32;
    (65 <= n && n <= 90) || (97 <= n && n <= 122)
}

fn blank(c: char) -> (r: bool)
    ensures
        r == is_blank(c),
{
    c == ' ' || c == '\t' || c == '\n' || c == '\x0c' || c == '\r'
}

/// Where the run of characters that pass a test, from number `i` on, ends.
pub open spec fn run_end(text: Seq<char>, i: nat, passes: spec_fn(char) -> bool) -> nat
    decreases text.len() - i,
{
    if i < text.len() && passes(text[i as int]) {
        run_end(text, i + 1, passes)
    } else {
        i
    }
}

/// What is wrong with a source text.
#[derive(Debug, Clone, Copy, PartialEq, Eq, Structural)]
pub enum LexErrorKind {
    NonAsciiCharacter(char),
    UnexpectedCharacter(char),
    /// A line ended within a literal of the kind given.
    EndOfLine(TokenKind),
    /// The text ended within a literal of the kind given.
    EndOfFile(TokenKind),
}

/// What is wrong with a source text, and where. Lines and columns are counted
/// from zero.
#[derive(Debug, Clone, Copy, PartialEq, Eq, Structural)]
pub struct LexError {
    pub kind: LexErrorKind,
    pub line: usize,
    pub column: usize,
}

/// How reading the inside of a quoted literal ends, with the number of the
/// character behind what was read.
pub enum Quoted {
    Closed(nat),
    EndOfLine(nat),
    EndOfFile(nat),
}

/// Reads the inside of a quoted literal from the character with number `i` on.
/// A quote behind a backslash does not close the literal.
pub open spec fn quoted(text: Seq<char>, quote: char, i: nat) -> Quoted
    decreases text.len() - i,
{
    if i >= text.len() {
        Quoted::EndOfFile(i)
    } else if text[i as int] == '\n' {
        Quoted::EndOfLine(i)
    } else if text[i as int] == quote {
        Quoted::Closed(i + 1)
    } else if text[i as int] == '\\' && has_at(text, i + 1, quote) {
        quoted(text, quote, i + 2)
    } else {
        quoted(text, quote, i + 1)
    }
}

/// What stands at a place in a text. Each number is that of the character
/// behind what is read.
pub enum Step {
    /// Nothing: the text is over.
    Over,
    /// Blanks or a comment.
    Skip(nat),
    /// A token.
    Take(TokenKind, nat),
    /// An error.
    Fail(LexErrorKind, nat),
    /// A vertical tab, which is never skipped.
    Stall,
}

/// A literal whose quote is the character with number `i`.
pub open spec fn quoted_step(text: Seq<char>, i: nat, quote: char, kind: TokenKind) -> Step {
    match quoted(text, quote, i + 1) {
        Quoted::Closed(n) => Step::Take(kind, n),
        Quoted::EndOfLine(n) => Step::Fail(LexErrorKind::EndOfLine(kind), n),
        Quoted::EndOfFile(n) => Step::Fail(LexErrorKind::EndOfFile(kind), n),
    }
}

/// Where the digits from number `i` on end.
pub open spec fn digits_end(text: Seq<char>, i: nat) -> nat {
    run_end(text, i, |c: char| is_digit(c))
}

/// Where the word from number `i` on ends.
pub open spec fn word_end(text: Seq<char>, i: nat) -> nat {
    run_end(text, i, |c: char| is_word_char(c))
}

/// Where the blanks from number `i` on end.
pub open spec fn blanks_end(text: Seq<char>, i: nat) -> nat {
    run_end(text, i, |c: char| is_blank(c))
}

/// Where the line from number `i` on ends.
pub open spec fn line_end(text: Seq<char>, i: nat) -> nat {
    run_end(text, i, |c: char| c != '\n')
}

/// A number: digits, and a point with digits if one follows them.
pub open spec fn number_step(text: Seq<char>, at: nat) -> Step {
    let n = digits_end(text, at);
    if has_at(text, n, '.') {
        Step::Take(TokenKind::FloatLiteral, digits_end(text, n + 1))
    } else {
        Step::Take(TokenKind::IntegerLiteral, n)
    }
}

/// A word: a keyword, a boolean or an identifier.
pub open spec fn word_step(text: Seq<char>, at: nat) -> Step {
    let n = word_end(text, at);
    Step::Take(word_kind(text.subrange(at as int, n as int)), n)
}

/// Whether the character with number `i` is there and is `c`.
pub open spec fn has_at(text: Seq<char>, i: nat, c: char) -> bool {
    i < text.len() && text[i as int] == c
}

/// The operator or delimiter of up to three characters that stands at a
/// place, the longest that there is.
pub open spec fn operator_at(a: char, b: Option<char>, c: Option<char>) -> Option<(TokenKind, nat)> {
    if b is Some && c is Some && triple_kind(a, b->0, c->0) is Some {
        Some((triple_kind(a, b->0, c->0)->0, 3))
    } else if b is Some && double_kind(a, b->0) is Some {
        Some((double_kind(a, b->0)->0, 2))
    } else if single_kind(a) is Some {
        Some((single_kind(a)->0, 1))
    } else {
        None
    }
}

/// The character with number `i`, if there is one.
pub open spec fn char_at(text: Seq<char>, i: nat) -> Option<char> {
    if i < text.len() {
        Some(text[i as int])
    } else {
        None
    }
}

/// An operator or delimiter.
pub open spec fn operator_step(text: Seq<char>, at: nat) -> Step {
    match operator_at(text[at as int], char_at(text, at + 1), char_at(text, at + 2)) {
        Some((kind, n)) => Step::Take(kind, at + n),
        None => Step::Fail(LexErrorKind::UnexpectedCharacter(text[at as int]), at),
    }
}

/// What stands at the character with number `at`.
pub open spec fn step(text: Seq<char>, at: nat) -> Step {
    if at >= text.len() {
        Step::Over
    } else {
        let c = text[at as int];
        if !is_ascii_char(c) {
            Step::Fail(LexErrorKind::NonAsciiCharacter(c), at)
        } else if c == '\x0b' {
            Step::Stall
        } else if is_blank(c) {
            Step::Skip(blanks_end(text, at))
        } else if c == '/' && has_at(text, at + 1, '/') {
            Step::Skip(line_end(text, at))
        } else if c == 'b' && has_at(text, at + 1, '"') {
            quoted_step(text, at + 1, '"', TokenKind::ByteStringLiteral)
        } else if c == 'b' && has_at(text, at + 1, '\'') {
            quoted_step(text, at + 1, '\'', TokenKind::ByteLiteral)
        } else if c == 'c' && has_at(text, at + 1, '"') {
            quoted_step(text, at + 1, '"', TokenKind::CStringLiteral)
        } else if c == '"' {
            quoted_step(text, at, '"', TokenKind::StringLiteral)
        } else if c == '\'' {
            quoted_step(text, at, '\'', TokenKind::CharLiteral)
        } else if is_digit(c) {
            number_step(text, at)
        } else if c == '.' && at + 1 < text.len() && is_digit(text[at as int + 1]) {
            Step::Take(TokenKind::FloatLiteral, digits_end(text, at + 1))
        } else if is_letter(c) || c == '_' {
            word_step(text, at)
        } else {
            operator_step(text, at)
        }
    }
}

/// What comes next in a text, by the numbers of its characters.
pub enum Lexed {
    Over,
    /// A token between two characters.
    Found(TokenKind, nat, nat),
    /// An error that is seen at a character.
    Failed(LexErrorKind, nat),
    /// Reading would never end.
    Stalled,
}

/// What comes next in a text from the character with number `at` on.
pub open spec fn lex(text: Seq<char>, at: nat) -> Lexed
    decreases text.len() - at,
{
    proof {
        lemma_step_bounds(text, at);
    }
    match step(text, at) {
        Step::Over => Lexed::Over,
        Step::Skip(n) => lex(text, n),
        Step::Take(kind, n) => Lexed::Found(kind, at, n),
        Step::Fail(kind, n) => Lexed::Failed(kind, n),
        Step::Stall => Lexed::Stalled,
    }
}

pub proof fn lemma_run_end(text: Seq<char>, i: nat, passes: spec_fn(char) -> bool)
    ensures
        i <= run_end(text, i, passes),
        i <= text.len() ==> run_end(text, i, passes) <= text.len(),
        forall|k: int| i <= k < run_end(text, i, passes) ==> passes(#[trigger] text[k]),
        run_end(text, i, passes) < text.len() ==> !passes(
            text[run_end(text, i, passes) as int],
        ),
    decreases text.len() - i,
{
    if i < text.len() && passes(text[i as int]) {
        lemma_run_end(text, i + 1, passes);
    }
}

proof fn lemma_quoted_bounds(text: Seq<char>, quote: char, i: nat)
    requires
        i <= text.len(),
    ensures
        match quoted(text, quote, i) {
            Quoted::Closed(n) => i < n <= text.len(),
            Quoted::EndOfLine(n) => i <= n < text.len(),
            Quoted::EndOfFile(n) => n == text.len(),
        },
    decreases text.len() - i,
{
    if i >= text.len() || text[i as int] == '\n' || text[i as int] == quote {
    } else if text[i as int] == '\\' && has_at(text, i + 1, quote) {
        lemma_quoted_bounds(text, quote, i + 2);
    } else {
        lemma_quoted_bounds(text, quote, i + 1);
    }
}

/// What a step reads is there, and a step that goes on reads something.
pub proof fn lemma_step_bounds(text: Seq<char>, at: nat)
    ensures
        match step(text, at) {
            Step::Over => at >= text.len(),
            Step::Skip(n) => at < n <= text.len(),
            Step::Take(_, n) => at < n <= text.len(),
            Step::Fail(_, n) => at <= n <= text.len(),
            Step::Stall => true,
        },
{
    if at < text.len() {
        lemma_run_end(text, at, |c: char| is_blank(c));
        lemma_run_end(text, at, |c: char| c != '\n');
        lemma_run_end(text, at, |c: char| is_digit(c));
        lemma_run_end(text, at, |c: char| is_word_char(c));
        lemma_run_end(text, at + 1, |c: char| is_digit(c));
        lemma_run_end(text, digits_end(text, at) + 1, |c: char| is_digit(c));
        lemma_quoted_bounds(text, '"', at + 1);
        lemma_quoted_bounds(text, '\'', at + 1);
        if at + 2 <= text.len() {
            lemma_quoted_bounds(text, '"', at + 2);
            lemma_quoted_bounds(text, '\'', at + 2);
        }
    }
}


/// What a kind of token is called in messages.
pub open spec fn kind_name(kind: TokenKind) -> Seq<char> {
    match kind {
        TokenKind::Keyword(keyword) => match keyword {
            Keyword::Fn => "Keyword(Fn)"@,
            Keyword::Let => "Keyword(Let)"@,
            Keyword::Mut => "Keyword(Mut)"@,
            Keyword::If => "Keyword(If)"@,
            Keyword::Else => "Keyword(Else)"@,
            Keyword::While => "Keyword(While)"@,
            Keyword::As => "Keyword(As)"@,
            Keyword::Break => "Keyword(Break)"@,
            Keyword::Continue => "Keyword(Continue)"@,
            Keyword::Return => "Keyword(Return)"@,
            Keyword::Struct => "Keyword(Struct)"@,
            Keyword::Type => "Keyword(Type)"@,
            Keyword::Static => "Keyword(Static)"@,
            Keyword::This => "Keyword(This)"@,
            Keyword::Enum => "Keyword(Enum)"@,
            Keyword::Mod => "Keyword(Mod)"@,
        },
        TokenKind::Identifier => "Identifier"@,
        TokenKind::BooleanLiteral => "BooleanLiteral"@,
        TokenKind::ByteLiteral => "ByteLiteral"@,
        TokenKind::CharLiteral => "CharLiteral"@,
        TokenKind::IntegerLiteral => "IntegerLiteral"@,
        TokenKind::FloatLiteral => "FloatLiteral"@,
        TokenKind::StringLiteral => "StringLiteral"@,
        TokenKind::ByteStringLiteral => "ByteStringLiteral"@,
        TokenKind::CStringLiteral => "CStringLiteral"@,
        TokenKind::OpenParen => "OpenParen"@,
        TokenKind::CloseParen => "CloseParen"@,
        TokenKind::OpenBracket => "OpenBracket"@,
        TokenKind::CloseBracket => "CloseBracket"@,
        TokenKind::OpenBrace => "OpenBrace"@,
        TokenKind::CloseBrace => "CloseBrace"@,
        TokenKind::Semicolon => "Semicolon"@,
        TokenKind::Comma => "Comma"@,
        TokenKind::Dot => "Dot"@,
        TokenKind::Colon => "Colon"@,
        TokenKind::DoubleColon => "DoubleColon"@,
        TokenKind::Arrow => "Arrow"@,
        TokenKind::Bang => "Bang"@,
        TokenKind::Tilde => "Tilde"@,
        TokenKind::Asterisk => "Asterisk"@,
        TokenKind::Minus => "Minus"@,
        TokenKind::Ampersand => "Ampersand"@,
        TokenKind::Plus => "Plus"@,
        TokenKind::Divide => "Divide"@,
        TokenKind::Modulus => "Modulus"@,
        TokenKind::LogicalAnd => "LogicalAnd"@,
        TokenKind::LogicalOr => "LogicalOr"@,
        TokenKind::BitwiseXor => "BitwiseXor"@,
        TokenKind::BitwiseOr => "BitwiseOr"@,
        TokenKind::ShiftLeft => "ShiftLeft"@,
        TokenKind::ShiftRight => "ShiftRight"@,
        TokenKind::DoubleEquals => "DoubleEquals"@,
        TokenKind::NotEquals => "NotEquals"@,
        TokenKind::LessThan => "LessThan"@,
        TokenKind::LessThanOrEqualTo => "LessThanOrEqualTo"@,
        TokenKind::GreaterThan => "GreaterThan"@,
        TokenKind::GreaterThanOrEqualTo => "GreaterThanOrEqualTo"@,
        TokenKind::Equals => "Equals"@,
        TokenKind::PlusEquals => "PlusEquals"@,
        TokenKind::MinusEquals => "MinusEquals"@,
        TokenKind::MultiplyEquals => "MultiplyEquals"@,
        TokenKind::DivideEquals => "DivideEquals"@,
        TokenKind::ModulusEquals => "ModulusEquals"@,
        TokenKind::LogicalAndEquals => "LogicalAndEquals"@,
        TokenKind::LogicalOrEquals => "LogicalOrEquals"@,
        TokenKind::BitwiseXorEquals => "BitwiseXorEquals"@,
        TokenKind::BitwiseAndEquals => "BitwiseAndEquals"@,
        TokenKind::BitwiseOrEquals => "BitwiseOrEquals"@,
        TokenKind::ShiftLeftEquals => "ShiftLeftEquals"@,
        TokenKind::ShiftRightEquals => "ShiftRightEquals"@,
    }
}

fn name_of_kind(kind: TokenKind) -> (r: &'static str)
    ensures
        r@ == kind_name(kind),
{
    match kind {
        TokenKind::Keyword(keyword) => match keyword {
            Keyword::Fn => "Keyword(Fn)",
            Keyword::Let => "Keyword(Let)",
            Keyword::Mut => "Keyword(Mut)",
            Keyword::If => "Keyword(If)",
            Keyword::Else => "Keyword(Else)",
            Keyword::While => "Keyword(While)",
            Keyword::As => "Keyword(As)",
            Keyword::Break => "Keyword(Break)",
            Keyword::Continue => "Keyword(Continue)",
            Keyword::Return => "Keyword(Return)",
            Keyword::Struct => "Keyword(Struct)",
            Keyword::Type => "Keyword(Type)",
            Keyword::Static => "Keyword(Static)",
            Keyword::This => "Keyword(This)",
            Keyword::Enum => "Keyword(Enum)",
            Keyword::Mod => "Keyword(Mod)",
        },
        TokenKind::Identifier => "Identifier",
        TokenKind::BooleanLiteral => "BooleanLiteral",
        TokenKind::ByteLiteral => "ByteLiteral",
        TokenKind::CharLiteral => "CharLiteral",
        TokenKind::IntegerLiteral => "IntegerLiteral",
        TokenKind::FloatLiteral => "FloatLiteral",
        TokenKind::StringLiteral => "StringLiteral",
        TokenKind::ByteStringLiteral => "ByteStringLiteral",
        TokenKind::CStringLiteral => "CStringLiteral",
        TokenKind::OpenParen => "OpenParen",
        TokenKind::CloseParen => "CloseParen",
        TokenKind::OpenBracket => "OpenBracket",
        TokenKind::CloseBracket => "CloseBracket",
        TokenKind::OpenBrace => "OpenBrace",
        TokenKind::CloseBrace => "CloseBrace",
        TokenKind::Semicolon => "Semicolon",
        TokenKind::Comma => "Comma",
        TokenKind::Dot => "Dot",
        TokenKind::Colon => "Colon",
        TokenKind::DoubleColon => "DoubleColon",
        TokenKind::Arrow => "Arrow",
        TokenKind::Bang => "Bang",
        TokenKind::Tilde => "Tilde",
        TokenKind::Asterisk => "Asterisk",
        TokenKind::Minus => "Minus",
        TokenKind::Ampersand => "Ampersand",
        TokenKind::Plus => "Plus",
        TokenKind::Divide => "Divide",
        TokenKind::Modulus => "Modulus",
        TokenKind::LogicalAnd => "LogicalAnd",
        TokenKind::LogicalOr => "LogicalOr",
        TokenKind::BitwiseXor => "BitwiseXor",
        TokenKind::BitwiseOr => "BitwiseOr",
        TokenKind::ShiftLeft => "ShiftLeft",
        TokenKind::ShiftRight => "ShiftRight",
        TokenKind::DoubleEquals => "DoubleEquals",
        TokenKind::NotEquals => "NotEquals",
        TokenKind::LessThan => "LessThan",
        TokenKind::LessThanOrEqualTo => "LessThanOrEqualTo",
        TokenKind::GreaterThan => "GreaterThan",
        TokenKind::GreaterThanOrEqualTo => "GreaterThanOrEqualTo",
        TokenKind::Equals => "Equals",
        TokenKind::PlusEquals => "PlusEquals",
        TokenKind::MinusEquals => "MinusEquals",
        TokenKind::MultiplyEquals => "MultiplyEquals",
        TokenKind::DivideEquals => "DivideEquals",
        TokenKind::ModulusEquals => "ModulusEquals",
        TokenKind::LogicalAndEquals => "LogicalAndEquals",
        TokenKind::LogicalOrEquals => "LogicalOrEquals",
        TokenKind::BitwiseXorEquals => "BitwiseXorEquals",
        TokenKind::BitwiseAndEquals => "BitwiseAndEquals",
        TokenKind::BitwiseOrEquals => "BitwiseOrEquals",
        TokenKind::ShiftLeftEquals => "ShiftLeftEquals",
        TokenKind::ShiftRightEquals => "ShiftRightEquals",
    }
}

impl LexError {
    /// What is wrong, in words.
    pub open spec fn shown(self) -> Seq<char> {
        match self.kind {
            LexErrorKind::NonAsciiCharacter(c) => "Unexpected non-ascii character in stream: `"@ + seq![
                c,
                '`',
            ],
            LexErrorKind::UnexpectedCharacter(c) => "Unexpected character in stream: `"@ + seq![
                c,
                '`',
            ],
            LexErrorKind::EndOfLine(kind) => "Reached end of line while reading wrapped literal: "@
                + kind_name(kind),
            LexErrorKind::EndOfFile(kind) => "Reached end of file while reading wrapped literal: "@
                + kind_name(kind),
        }
    }

    /// What is wrong, in words.
    pub fn message(&self) -> (r: String)
        ensures
            r@ == self.shown(),
    {
        let mut out = String::new();
        match self.kind {
            LexErrorKind::NonAsciiCharacter(c) => {
                out.append("Unexpected non-ascii character in stream: `");
                out.push(c);
                out.push('`');
            }
            LexErrorKind::UnexpectedCharacter(c) => {
                out.append("Unexpected character in stream: `");
                out.push(c);
                out.push('`');
            }
            LexErrorKind::EndOfLine(kind) => {
                out.append("Reached end of line while reading wrapped literal: ");
                out.append(name_of_kind(kind));
            }
            LexErrorKind::EndOfFile(kind) => {
                out.append("Reached end of file while reading wrapped literal: ");
                out.append(name_of_kind(kind));
            }
        }
        assert(out@ =~= self.shown());
        out
    }

    /// The report of the error in a source file, on two lines.
    pub fn report(&self, origin: &SourceFileOrigin) -> (r: String)
        requires
            self.line < usize::MAX,
            self.column < usize::MAX,
        ensures
            r@ == "Fatal error reported in Lexer (at "@ + origin.shown() + seq![':'] + decimal(
                (self.line + 1) as nat,
            ) + seq![':'] + decimal((self.column + 1) as nat) + ":\n"@ + self.shown(),
    {
        let mut out = String::new();
        out.append("Fatal error reported in Lexer (at ");
        out.append(origin.display());
        out.push(':');
        push_decimal(&mut out, (self.line + 1) as u64);
        out.push(':');
        push_decimal(&mut out, (self.column + 1) as u64);
        out.append(":\n");
        out.append(self.message().as_str());
        assert(out@ =~= "Fatal error reported in Lexer (at "@ + origin.shown() + seq![':'] + decimal(
            (self.line + 1) as nat,
        ) + seq![':'] + decimal((self.column + 1) as nat) + ":\n"@ + self.shown());
        out
    }
}

/// A stream of characters that can be looked at ahead of time.
#[verifier::external_type_specification]
#[verifier::external_body]
#[verifier::reject_recursive_types(I)]
pub struct ExPeekNth<I: Iterator>(itertools::PeekNth<I>);

/// The characters that a stream has yet to give.
pub uninterp spec fn upcoming(stream: itertools::PeekNth<Chars<'_>>) -> Seq<char>;

/// `itertools::peek_nth` over the characters of a text gives all of them.
#[verifier::external_body]
pub(crate) fn stream_of(text: &str) -> (r: itertools::PeekNth<Chars<'_>>)
    ensures
        upcoming(r) == text@,
{
    itertools::peek_nth(text.chars())
}

/// `PeekNth::peek_nth` gives the character that lies `n` further on, and
/// leaves the stream where it is.
#[verifier::external_body]
fn stream_peek(stream: &mut itertools::PeekNth<Chars<'_>>, n: usize) -> (r: Option<char>)
    requires
        n < usize::MAX,
    ensures
        upcoming(*final(stream)) == upcoming(*old(stream)),
        r == char_at(upcoming(*old(stream)), n as nat),
{
    stream.peek_nth(n).copied()
}

/// `PeekNth::next` takes the first upcoming character off the stream.
#[verifier::external_body]
pub(crate) fn stream_next(stream: &mut itertools::PeekNth<Chars<'_>>) -> (r: Option<char>)
    ensures
        r == char_at(upcoming(*old(stream)), 0),
        upcoming(*old(stream)).len() > 0 ==> upcoming(*final(stream)) == upcoming(
            *old(stream),
        ).drop_first(),
        upcoming(*old(stream)).len() == 0 ==> upcoming(*final(stream)) == upcoming(*old(stream)),
{
    stream.next()
}

/// Reads the tokens of a source file one by one.
pub struct Lexer<'source> {
    source: &'source SourceFile,
    position: usize,
    line_number: usize,
    chars: itertools::PeekNth<Chars<'source>>,
    peek_buffer: VecDeque<Token>,
}

/// The token between two characters of a text.
pub open spec fn token_between(text: Seq<char>, kind: TokenKind, from: nat, to: nat) -> Token {
    Token {
        kind,
        span: Span {
            start: byte_at(text, from as int) as usize,
            end: byte_at(text, to as int) as usize,
        },
    }
}

/// The error that is seen at a character of a text.
pub open spec fn error_at(text: Seq<char>, kind: LexErrorKind, at: nat) -> LexError {
    LexError {
        kind,
        line: newlines(text.take(at as int)) as usize,
        column: last_line_width(text.take(at as int)) as usize,
    }
}

/// What a request for the next token is answered with.
pub open spec fn answer(text: Seq<char>, lexed: Lexed) -> Result<Option<Token>, LexError> {
    match lexed {
        Lexed::Found(kind, from, to) => Ok(Some(token_between(text, kind, from, to))),
        Lexed::Failed(kind, n) => Err(error_at(text, kind, n)),
        _ => Ok(None),
    }
}

/// Where reading stands after a request.
pub open spec fn place_after(text: Seq<char>, lexed: Lexed) -> nat {
    match lexed {
        Lexed::Found(_, _, to) => to,
        Lexed::Failed(_, n) => n,
        _ => text.len(),
    }
}

/// What reading a number of tokens gives.
pub struct Ahead {
    /// The tokens, which are fewer where the text is over or wrong.
    pub tokens: Seq<Token>,
    /// Where reading stands then.
    pub at: nat,
    pub error: Option<LexError>,
    /// Whether reading would never end.
    pub stalled: bool,
}

/// Reads up to `count` tokens from the character with number `at` on.
pub open spec fn ahead(text: Seq<char>, at: nat, count: nat) -> Ahead
    decreases count,
{
    if count == 0 {
        Ahead { tokens: Seq::empty(), at, error: None, stalled: false }
    } else {
        let lexed = lex(text, at);
        match answer(text, lexed) {
            Ok(Some(token)) => {
                let rest = ahead(text, place_after(text, lexed), (count - 1) as nat);
                Ahead { tokens: seq![token] + rest.tokens, ..rest }
            },
            Ok(None) => Ahead {
                tokens: Seq::empty(),
                at: place_after(text, lexed),
                error: None,
                stalled: lexed is Stalled,
            },
            Err(error) => Ahead {
                tokens: Seq::empty(),
                at: place_after(text, lexed),
                error: Some(error),
                stalled: false,
            },
        }
    }
}

impl<'source> Lexer<'source> {
    /// The text that is read.
    pub closed spec fn text(&self) -> Seq<char> {
        self.source.contents@
    }

    /// The number of the character that is read next.
    pub closed spec fn at(&self) -> nat {
        (self.text().len() - upcoming(self.chars).len()) as nat
    }

    /// The tokens that were read ahead.
    pub closed spec fn pending(&self) -> Seq<Token> {
        self.peek_buffer@
    }

    /// The source file that is read.
    pub closed spec fn file(&self) -> SourceFile {
        *self.source
    }

    /// The position is where reading stands.
    closed spec fn placed(&self) -> bool {
        &&& upcoming(self.chars).len() <= self.text().len()
        &&& upcoming(self.chars) == self.text().skip(self.at() as int)
        &&& self.position as int == byte_at(self.text(), self.at() as int)
        &&& width(self.text()) <= isize::MAX
    }

    /// The position and the line are where reading stands.
    pub closed spec fn well_formed(&self) -> bool {
        &&& self.placed()
        &&& self.line_number as int == newlines(self.text().take(self.at() as int))
    }

    /// The place lies within the text, which is as short as any string is.
    pub proof fn lemma_place_in_text(&self)
        requires
            self.well_formed(),
        ensures
            self.at() <= self.text().len(),
            width(self.text()) <= isize::MAX,
    {
    }

    /// Only the place has changed.
    spec fn moved_from(&self, before: &Self, to: nat) -> bool {
        &&& self.well_formed()
        &&& self.source == before.source
        &&& self.peek_buffer@ == before.peek_buffer@
        &&& self.at() == to
    }

    /// Starts reading a source file.
    pub fn new(source: &'source SourceFile) -> (r: Self)
        requires
            source.countable(),
        ensures
            r.well_formed(),
            r.file() == *source,
            r.text() == source.contents@,
            r.at() == 0,
            r.pending() == Seq::<Token>::empty(),
    {
        let r = Lexer {
            source,
            chars: stream_of(source.contents.as_str()),
            position: 0,
            line_number: 0,
            peek_buffer: VecDeque::new(),
        };
        proof {
            let text = source.contents@;
            assert(text.skip(0) =~= text);
            assert(text.take(0) =~= Seq::<char>::empty());
            assert(vstd::utf8::encode_utf8(text.take(0)) =~= Seq::<u8>::empty());
        }
        r
    }

    /// Whether the whole text has been read.
    pub fn is_eof(&self) -> (r: bool)
        requires
            self.well_formed(),
        ensures
            r == (self.at() == self.text().len()),
    {
        proof {
            let text = self.text();
            lemma_byte_at_monotone(text, self.at() as int, text.len() as int);
            assert(text.take(text.len() as int) =~= text);
        }
        self.position >= self.source.contents.as_str().len()
    }

    /// The source file that is read.
    pub fn source(&self) -> (r: &SourceFile)
        ensures
            *r == self.file(),
    {
        self.source
    }

    /// The number of line breaks before the place.
    pub fn line_number(&self) -> (r: usize)
        requires
            self.well_formed(),
        ensures
            r as nat == newlines(self.text().take(self.at() as int)),
    {
        self.line_number
    }

    /// The number of bytes between the last line break and the place.
    pub fn column(&self) -> (r: usize)
        requires
            self.well_formed(),
        ensures
            r as nat == last_line_width(self.text().take(self.at() as int)),
    {
        let ghost text = self.text();
        let mut stream = stream_of(self.source.contents.as_str());
        let mut lines: usize = 0;
        let mut pos: usize = 0;
        let ghost mut n: nat = 0;
        proof {
            assert(text.skip(0) =~= text);
            assert(text.take(0) =~= Seq::<char>::empty());
            assert(vstd::utf8::encode_utf8(text.take(0)) =~= Seq::<u8>::empty());
        }
        while lines < self.line_number
            invariant
                self.well_formed(),
                text == self.text(),
                n <= self.at(),
                upcoming(stream) == text.skip(n as int),
                pos as int == byte_at(text, n as int),
                lines as int == newlines(text.take(n as int)),
                lines <= self.line_number,
                n == 0 || text[n - 1] == '\n' || lines < self.line_number,
            decreases text.len() - n,
        {
            proof {
                lemma_newlines_monotone(text, n as int, self.at() as int);
                lemma_newlines_step(text, n as int);
                lemma_byte_at_monotone(text, n as int + 1, self.at() as int);
                lemma_width_push(text.take(n as int), text[n as int]);
                assert(text.take(n as int).push(text[n as int]) =~= text.take(n as int + 1));
            }
            match stream_next(&mut stream) {
                Some(c) => {
                    pos = pos + c.len_utf8();
                    if c == '\n' {
                        lines = lines + 1;
                    }
                }
                None => {}
            }
            proof {
                assert(text.skip(n as int).drop_first() =~= text.skip(n as int + 1));
                n = n + 1;
            }
        }
        proof {
            lemma_byte_at_monotone(text, n as int, self.at() as int);
            lemma_last_line(text, n as int, self.at() as int);
        }
        self.position - pos
    }

    /// Takes one character off the stream.
    fn consume_char(&mut self) -> (r: char)
        requires
            old(self).placed(),
            old(self).at() < old(self).text().len(),
        ensures
            final(self).placed(),
            final(self).source == old(self).source,
            final(self).peek_buffer@ == old(self).peek_buffer@,
            final(self).line_number == old(self).line_number,
            final(self).at() == old(self).at() + 1,
            r == old(self).text()[old(self).at() as int],
            old(self).well_formed() && r != '\n' ==> final(self).well_formed(),
            newlines(old(self).text().take(old(self).at() as int + 1)) == newlines(
                old(self).text().take(old(self).at() as int),
            ) + (if r == '\n' {
                1nat
            } else {
                0nat
            }),
    {
        proof {
            let text = self.text();
            let n = self.at() as int;
            lemma_newlines_step(text, n);
            lemma_width_push(text.take(n), text[n]);
            assert(text.take(n).push(text[n]) =~= text.take(n + 1));
            lemma_byte_at_monotone(text, n + 1, text.len() as int);
            assert(text.take(text.len() as int) =~= text);
            assert(text.skip(n).drop_first() =~= text.skip(n + 1));
        }
        let c = match stream_next(&mut self.chars) {
            Some(c) => c,
            None => vstd::pervasive::unreached(),
        };
        self.position = self.position + c.len_utf8();
        c
    }

    /// The character that lies `n` further on.
    fn peek_char(&mut self, n: usize) -> (r: Option<char>)
        requires
            old(self).well_formed(),
            n < 3,
        ensures
            final(self).moved_from(old(self), old(self).at()),
            r == char_at(old(self).text(), old(self).at() + n as nat),
    {
        stream_peek(&mut self.chars, n)
    }

    fn fatal_error(&self, kind: LexErrorKind) -> (r: LexError)
        requires
            self.well_formed(),
        ensures
            r == error_at(self.text(), kind, self.at()),
    {
        LexError { kind, line: self.line_number, column: self.column() }
    }

    fn ignore_whitespace(&mut self)
        requires
            old(self).well_formed(),
        ensures
            final(self).moved_from(old(self), blanks_end(old(self).text(), old(self).at())),
    {
        let ghost text = self.text();
        let ghost end = blanks_end(text, self.at());
        loop
            invariant
                self.moved_from(old(self), self.at()),
                text == old(self).text(),
                self.at() <= text.len(),
                end == blanks_end(text, self.at()),
            ensures
                self.at() == end,
            decreases text.len() - self.at(),
        {
            let ghost here = self.at();
            let next = self.peek_char(0);
            match next {
                Some(c) => {
                    if !blank(c) {
                        break;
                    }
                    proof {
                        lemma_newlines_monotone(text, here as int + 1, text.len() as int);
                        lemma_newlines_bound(text);
                        lemma_newlines_step(text, here as int);
                    }
                    if c == '\n' {
                        self.line_number = self.line_number + 1;
                    }
                    self.consume_char();
                }
                None => {
                    break;
                }
            }
        }
    }

    fn ignore_line(&mut self)
        requires
            old(self).well_formed(),
        ensures
            final(self).moved_from(old(self), line_end(old(self).text(), old(self).at())),
    {
        let ghost text = self.text();
        let ghost end = line_end(text, self.at());
        loop
            invariant
                self.moved_from(old(self), self.at()),
                text == old(self).text(),
                self.at() <= text.len(),
                end == line_end(text, self.at()),
            ensures
                self.at() == end,
            decreases text.len() - self.at(),
        {
            let next = self.peek_char(0);
            match next {
                Some(c) => {
                    if c == '\n' {
                        break;
                    }
                    self.consume_char();
                }
                None => {
                    break;
                }
            }
        }
    }

    /// Reads the digits that stand at the place.
    fn ignore_digits(&mut self)
        requires
            old(self).well_formed(),
        ensures
            final(self).moved_from(old(self), digits_end(old(self).text(), old(self).at())),
    {
        let ghost text = self.text();
        let ghost end = digits_end(text, self.at());
        loop
            invariant
                self.moved_from(old(self), self.at()),
                text == old(self).text(),
                self.at() <= text.len(),
                end == digits_end(text, self.at()),
            ensures
                self.at() == end,
            decreases text.len() - self.at(),
        {
            let next = self.peek_char(0);
            match next {
                Some(c) => {
                    if !digit(c) {
                        break;
                    }
                    self.consume_char();
                }
                None => {
                    break;
                }
            }
        }
    }

    fn new_span(&self, start: usize) -> (r: Span)
        requires
            self.well_formed(),
        ensures
            r.start == start,
            r.end as int == byte_at(self.text(), self.at() as int),
    {
        Span { start, end: self.position }
    }

    fn read_wrapped_escapable(&mut self, wrapper: char, kind: TokenKind) -> (r: Result<
        Token,
        LexError,
    >)
        requires
            old(self).well_formed(),
            wrapper != '\\',
            wrapper != '\n',
            has_at(old(self).text(), old(self).at(), wrapper),
        ensures
            match quoted(old(self).text(), wrapper, old(self).at() + 1) {
                Quoted::Closed(n) => {
                    &&& r == Ok::<Token, LexError>(
                        token_between(old(self).text(), kind, old(self).at(), n),
                    )
                    &&& final(self).moved_from(old(self), n)
                },
                Quoted::EndOfLine(n) => {
                    &&& r == Err::<Token, LexError>(
                        error_at(old(self).text(), LexErrorKind::EndOfLine(kind), n),
                    )
                    &&& final(self).moved_from(old(self), n)
                },
                Quoted::EndOfFile(n) => {
                    &&& r == Err::<Token, LexError>(
                        error_at(old(self).text(), LexErrorKind::EndOfFile(kind), n),
                    )
                    &&& final(self).moved_from(old(self), n)
                },
            },
    {
        let ghost text = self.text();
        let start_position: usize = self.position;
        // Consume first wrapper
        self.consume_char();
        let ghost end = quoted(text, wrapper, self.at());
        loop
            invariant
                self.moved_from(old(self), self.at()),
                text == old(self).text(),
                self.at() <= text.len(),
                wrapper != '\\',
                wrapper != '\n',
                start_position as int == byte_at(text, old(self).at() as int),
                end == quoted(text, wrapper, self.at()),
                end == quoted(text, wrapper, old(self).at() + 1),
            ensures
                self.at() == text.len(),
            decreases text.len() - self.at(),
        {
            let next = self.peek_char(0);
            match next {
                Some(c) => {
                    if c == '\n' {
                        return Err(self.fatal_error(LexErrorKind::EndOfLine(kind)));
                    }
                    // Consume chars within the wrapped literal
                    self.consume_char();
                    // If we encountered an escape sequence, keep going
                    if c == '\\' {
                        let escaped = self.peek_char(0);
                        if let Some(e) = escaped {
                            if e == wrapper {
                                self.consume_char();
                            }
                        }
                    }
                    if c == wrapper {
                        return Ok(Token { span: self.new_span(start_position), kind });
                    }
                }
                None => {
                    break;
                }
            }
        }
        Err(self.fatal_error(LexErrorKind::EndOfFile(kind)))
    }

    fn read_prefixed_wrapped_escapable(
        &mut self,
        prefix: char,
        wrapper: char,
        kind: TokenKind,
    ) -> (r: Result<Token, LexError>)
        requires
            old(self).well_formed(),
            wrapper != '\\',
            wrapper != '\n',
            prefix != '\n',
            has_at(old(self).text(), old(self).at(), prefix),
            has_at(old(self).text(), old(self).at() + 1, wrapper),
        ensures
            match quoted(old(self).text(), wrapper, old(self).at() + 2) {
                Quoted::Closed(n) => {
                    &&& r == Ok::<Token, LexError>(
                        token_between(old(self).text(), kind, old(self).at(), n),
                    )
                    &&& final(self).moved_from(old(self), n)
                },
                Quoted::EndOfLine(n) => {
                    &&& r == Err::<Token, LexError>(
                        error_at(old(self).text(), LexErrorKind::EndOfLine(kind), n),
                    )
                    &&& final(self).moved_from(old(self), n)
                },
                Quoted::EndOfFile(n) => {
                    &&& r == Err::<Token, LexError>(
                        error_at(old(self).text(), LexErrorKind::EndOfFile(kind), n),
                    )
                    &&& final(self).moved_from(old(self), n)
                },
            },
    {
        let start_position: usize = self.position;
        self.consume_char();
        match self.read_wrapped_escapable(wrapper, kind) {
            Ok(_) => Ok(Token { span: self.new_span(start_position), kind }),
            Err(error) => Err(error),
        }
    }

    // Keyword, identifier, or boolean literal
    fn read_word(&mut self) -> (r: Token)
        requires
            old(self).well_formed(),
            old(self).at() < old(self).text().len(),
        ensures
            ({
                let text = old(self).text();
                let from = old(self).at();
                let to = word_end(text, from);
                &&& final(self).moved_from(old(self), to)
                &&& r == token_between(
                    text,
                    word_kind(text.subrange(from as int, to as int)),
                    from,
                    to,
                )
            }),
    {
        let ghost text = self.text();
        let ghost from = self.at();
        let ghost end = word_end(text, from);
        let start_position: usize = self.position;
        loop
            invariant
                self.moved_from(old(self), self.at()),
                text == old(self).text(),
                from == old(self).at(),
                from <= self.at() <= text.len(),
                end == word_end(text, self.at()),
            ensures
                self.at() == end,
                from <= end <= text.len(),
            decreases text.len() - self.at(),
        {
            let next = self.peek_char(0);
            match next {
                Some(c) => {
                    if !(letter(c) || digit(c) || c == '_') {
                        break;
                    }
                    self.consume_char();
                }
                None => {
                    break;
                }
            }
        }
        let span = self.new_span(start_position);
        proof {
            lemma_byte_at_boundary(text, from as int);
            lemma_byte_at_boundary(text, end as int);
            lemma_byte_at_monotone(text, from as int, end as int);
            lemma_encode_subrange(text, from as int, end as int);
        }
        let value = self.source.value_of_span(span);
        proof {
            lemma_encode_injective(value@, text.subrange(from as int, end as int));
        }
        let kind = match keyword_named(value) {
            Some(keyword) => TokenKind::Keyword(keyword),
            None => {
                if same_text(value, "true") || same_text(value, "false") {
                    TokenKind::BooleanLiteral
                } else {
                    TokenKind::Identifier
                }
            }
        };
        Token { kind, span }
    }

    fn read_number(&mut self) -> (r: Token)
        requires
            old(self).well_formed(),
            old(self).at() < old(self).text().len(),
        ensures
            ({
                let text = old(self).text();
                let from = old(self).at();
                let s = number_step(text, from);
                &&& s is Take
                &&& final(self).moved_from(old(self), s->Take_1)
                &&& r == token_between(text, s->Take_0, from, s->Take_1)
            }),
    {
        let start_position: usize = self.position;
        let mut kind = TokenKind::IntegerLiteral;
        self.ignore_digits();
        let next = self.peek_char(0);
        if let Some(c) = next {
            if c == '.' {
                kind = TokenKind::FloatLiteral;
                self.read_decimal_part();
            }
        }
        Token { kind, span: self.new_span(start_position) }
    }

    fn read_decimal_part(&mut self) -> (r: Token)
        requires
            old(self).well_formed(),
            has_at(old(self).text(), old(self).at(), '.'),
        ensures
            ({
                let text = old(self).text();
                let from = old(self).at();
                let to = digits_end(text, from + 1);
                &&& final(self).moved_from(old(self), to)
                &&& r == token_between(text, TokenKind::FloatLiteral, from, to)
            }),
    {
        let start_position: usize = self.position;
        self.consume_char();
        self.ignore_digits();
        Token { kind: TokenKind::FloatLiteral, span: self.new_span(start_position) }
    }

    fn read_single(&mut self, kind: TokenKind) -> (r: Token)
        requires
            old(self).well_formed(),
            old(self).at() < old(self).text().len(),
            old(self).text()[old(self).at() as int] != '\n',
        ensures
            final(self).moved_from(old(self), old(self).at() + 1),
            r == token_between(old(self).text(), kind, old(self).at(), old(self).at() + 1),
    {
        let start_position: usize = self.position;
        self.consume_char();
        Token { kind, span: self.new_span(start_position) }
    }

    fn read_double(&mut self, kind: TokenKind) -> (r: Token)
        requires
            old(self).well_formed(),
            old(self).at() + 1 < old(self).text().len(),
            old(self).text()[old(self).at() as int] != '\n',
            old(self).text()[old(self).at() as int + 1] != '\n',
        ensures
            final(self).moved_from(old(self), old(self).at() + 2),
            r == token_between(old(self).text(), kind, old(self).at(), old(self).at() + 2),
    {
        let start_position: usize = self.position;
        self.consume_char();
        self.consume_char();
        Token { kind, span: self.new_span(start_position) }
    }

    fn read_triple(&mut self, kind: TokenKind) -> (r: Token)
        requires
            old(self).well_formed(),
            old(self).at() + 2 < old(self).text().len(),
            old(self).text()[old(self).at() as int] != '\n',
            old(self).text()[old(self).at() as int + 1] != '\n',
            old(self).text()[old(self).at() as int + 2] != '\n',
        ensures
            final(self).moved_from(old(self), old(self).at() + 3),
            r == token_between(old(self).text(), kind, old(self).at(), old(self).at() + 3),
    {
        let start_position: usize = self.position;
        self.consume_char();
        self.consume_char();
        self.consume_char();
        Token { kind, span: self.new_span(start_position) }
    }

    /// Reads an operator or delimiter.
    fn read_operator(&mut self, c: char) -> (r: Result<Token, LexError>)
        requires
            old(self).well_formed(),
            has_at(old(self).text(), old(self).at(), c),
            c != '\n',
        ensures
            match operator_step(old(self).text(), old(self).at()) {
                Step::Take(kind, n) => {
                    &&& r == Ok::<Token, LexError>(
                        token_between(old(self).text(), kind, old(self).at(), n),
                    )
                    &&& final(self).moved_from(old(self), n)
                },
                Step::Fail(kind, n) => {
                    &&& r == Err::<Token, LexError>(error_at(old(self).text(), kind, n))
                    &&& final(self).moved_from(old(self), n)
                },
                _ => false,
            },
    {
        let second = self.peek_char(1);
        let third = self.peek_char(2);
        if let (Some(b), Some(d)) = (second, third) {
            if let Some(kind) = triple_token(c, b, d) {
                return Ok(self.read_triple(kind));
            }
        }
        if let Some(b) = second {
            if let Some(kind) = double_token(c, b) {
                return Ok(self.read_double(kind));
            }
        }
        match single_token(c) {
            Some(kind) => Ok(self.read_single(kind)),
            None => Err(self.fatal_error(LexErrorKind::UnexpectedCharacter(c))),
        }
    }

    /// The next token, which stays the next one.
    pub fn peek(&mut self) -> (r: Result<Option<Token>, LexError>)
        requires
            old(self).well_formed(),
            old(self).pending().len() == 0 ==> !(lex(old(self).text(), old(self).at()) is Stalled),
        ensures
            final(self).well_formed(),
            final(self).file() == old(self).file(),
            final(self).text() == old(self).text(),
            old(self).pending().len() > 0 ==> {
                &&& r == Ok::<Option<Token>, LexError>(Some(old(self).pending()[0]))
                &&& final(self).at() == old(self).at()
                &&& final(self).pending() == old(self).pending()
            },
            old(self).pending().len() == 0 ==> ({
                let lexed = lex(old(self).text(), old(self).at());
                &&& r == answer(old(self).text(), lexed)
                &&& final(self).at() == place_after(old(self).text(), lexed)
                &&& final(self).pending() == (match r {
                    Ok(Some(token)) => seq![token],
                    _ => Seq::<Token>::empty(),
                })
            }),
    {
        if self.peek_buffer.len() > 0 {
            return Ok(Some(self.peek_buffer[0]));
        }
        match self.next() {
            Ok(Some(token)) => {
                self.peek_buffer.push_back(token);
                assert(self.peek_buffer@ =~= seq![token]);
                Ok(Some(token))
            }
            Ok(None) => {
                assert(self.peek_buffer@ =~= Seq::<Token>::empty());
                Ok(None)
            }
            Err(error) => {
                assert(self.peek_buffer@ =~= Seq::<Token>::empty());
                Err(error)
            }
        }
    }

    /// The token that lies `n` further on, which stays there.
    pub fn peek_nth(&mut self, n: usize) -> (r: Result<Option<Token>, LexError>)
        requires
            old(self).well_formed(),
            n < usize::MAX,
            old(self).pending().len() <= n ==> !ahead(
                old(self).text(),
                old(self).at(),
                n as nat + 1,
            ).stalled,
        ensures
            final(self).well_formed(),
            final(self).file() == old(self).file(),
            final(self).text() == old(self).text(),
            old(self).pending().len() > n ==> {
                &&& r == Ok::<Option<Token>, LexError>(Some(old(self).pending()[n as int]))
                &&& final(self).at() == old(self).at()
                &&& final(self).pending() == old(self).pending()
            },
            old(self).pending().len() <= n ==> ({
                let more = ahead(old(self).text(), old(self).at(), n as nat + 1);
                let known = old(self).pending() + more.tokens;
                &&& final(self).at() == more.at
                &&& final(self).pending() == known
                &&& r == (match more.error {
                    Some(error) => Err::<Option<Token>, LexError>(error),
                    None => Ok(
                        if n < known.len() {
                            Some(known[n as int])
                        } else {
                            None
                        },
                    ),
                })
            }),
    {
        if self.peek_buffer.len() > n {
            return Ok(Some(self.peek_buffer[n]));
        }
        let ghost text = self.text();
        let ghost known = self.pending();
        let ghost goal = ahead(text, self.at(), n as nat + 1);
        let mut fresh: VecDeque<Token> = VecDeque::new();
        let mut buffer: VecDeque<Token> = VecDeque::new();
        buffer.append(&mut self.peek_buffer);
        assert(buffer@ =~= known);
        assert(self.peek_buffer@ =~= Seq::<Token>::empty());
        assert(fresh@ + goal.tokens =~= goal.tokens);
        let mut i: usize = 0;
        while i < n + 1
            invariant_except_break
                i <= n + 1,
                ({
                    let rest = ahead(text, self.at(), (n + 1 - i) as nat);
                    &&& goal.tokens == fresh@ + rest.tokens
                    &&& goal.at == rest.at
                    &&& goal.error == rest.error
                    &&& !rest.stalled
                }),
            invariant
                n < usize::MAX,
                self.well_formed(),
                self.source == old(self).source,
                self.text() == text,
                self.pending().len() == 0,
                buffer@ == known,
                known == old(self).pending(),
                goal == ahead(text, old(self).at(), n as nat + 1),
                text == old(self).text(),
                known.len() <= n,
            ensures
                goal.error is None,
                goal.at == self.at(),
                goal.tokens == fresh@,
            decreases n + 1 - i,
        {
            let ghost so_far = fresh@;
            match self.next() {
                Ok(Some(token)) => {
                    fresh.push_back(token);
                    assert(so_far.push(token) + ahead(text, self.at(), (n - i) as nat).tokens
                        =~= so_far + (seq![token] + ahead(
                        text,
                        self.at(),
                        (n - i) as nat,
                    ).tokens));
                }
                Ok(None) => {
                    assert(goal.tokens =~= fresh@);
                    break;
                }
                Err(error) => {
                    assert(goal.tokens =~= fresh@);
                    buffer.append(&mut fresh);
                    self.peek_buffer = buffer;
                    return Err(error);
                }
            }
            i = i + 1;
        }
        assert(goal.tokens =~= fresh@);
        buffer.append(&mut fresh);
        self.peek_buffer = buffer;
        if n < self.peek_buffer.len() {
            Ok(Some(self.peek_buffer[n]))
        } else {
            Ok(None)
        }
    }

    /// Whether reading on would never end: behind blanks and comments, which are
    /// skipped, stands a vertical tab. What comes next stays the same.
    pub fn stalls(&mut self) -> (r: bool)
        requires
            old(self).well_formed(),
        ensures
            final(self).well_formed(),
            final(self).file() == old(self).file(),
            final(self).text() == old(self).text(),
            final(self).pending() == old(self).pending(),
            old(self).at() <= final(self).at() <= final(self).text().len(),
            lex(final(self).text(), final(self).at()) == lex(old(self).text(), old(self).at()),
            r == (old(self).pending().len() == 0 && lex(old(self).text(), old(self).at())
                is Stalled),
    {
        if self.peek_buffer.len() > 0 {
            return false;
        }
        let ghost text = self.text();
        loop
            invariant
                self.moved_from(old(self), self.at()),
                text == old(self).text(),
                old(self).pending().len() == 0,
                old(self).at() <= self.at() <= text.len(),
                lex(text, self.at()) == lex(text, old(self).at()),
            decreases text.len() - self.at(),
        {
            proof {
                lemma_step_bounds(text, self.at());
            }
            match self.peek_char(0) {
                None => {
                    return false;
                }
                Some(c) => {
                    if blank(c) {
                        self.ignore_whitespace();
                        continue;
                    }
                    if c == '/' && self.peek_char(1) == Some('/') {
                        self.ignore_line();
                        continue;
                    }
                    return c == '\x0b';
                }
            }
        }
    }

    /// The next token.
    pub fn next(&mut self) -> (r: Result<Option<Token>, LexError>)
        requires
            old(self).well_formed(),
            old(self).pending().len() == 0 ==> !(lex(old(self).text(), old(self).at()) is Stalled),
        ensures
            final(self).well_formed(),
            final(self).file() == old(self).file(),
            final(self).text() == old(self).text(),
            old(self).pending().len() > 0 ==> {
                &&& r == Ok::<Option<Token>, LexError>(Some(old(self).pending()[0]))
                &&& final(self).at() == old(self).at()
                &&& final(self).pending() == old(self).pending().drop_first()
            },
            old(self).pending().len() == 0 ==> ({
                let lexed = lex(old(self).text(), old(self).at());
                &&& r == answer(old(self).text(), lexed)
                &&& final(self).at() == place_after(old(self).text(), lexed)
                &&& final(self).pending() == old(self).pending()
            }),
    {
        if self.peek_buffer.len() > 0 {
            let front = self.peek_buffer.pop_front();
            assert(self.peek_buffer@ =~= old(self).pending().drop_first());
            return Ok(front);
        }
        let ghost text = self.text();
        loop
            invariant
                self.moved_from(old(self), self.at()),
                text == old(self).text(),
                old(self).pending().len() == 0,
                self.at() <= text.len(),
                lex(text, self.at()) == lex(text, old(self).at()),
                !(lex(text, self.at()) is Stalled),
            decreases text.len() - self.at(),
        {
            let ghost here = self.at();
            let ghost ahead = *self;
            proof {
                lemma_step_bounds(text, here);
            }
            let next = self.peek_char(0);
            let c = match next {
                Some(c) => c,
                None => {
                    return Ok(None);
                }
            };
            if !ascii_char(c) {
                return Err(self.fatal_error(LexErrorKind::NonAsciiCharacter(c)));
            }
            // Ignore whitespace
            if blank(c) {
                self.ignore_whitespace();
                continue;
            }
            let second = self.peek_char(1);
            // Ignore comments
            if c == '/' && second == Some('/') {
                self.ignore_line();
                continue;
            }
            let read = if c == 'b' && second == Some('"') {
                self.read_prefixed_wrapped_escapable('b', '"', TokenKind::ByteStringLiteral)
            } else if c == 'b' && second == Some('\'') {
                self.read_prefixed_wrapped_escapable('b', '\'', TokenKind::ByteLiteral)
            } else if c == 'c' && second == Some('"') {
                self.read_prefixed_wrapped_escapable('c', '"', TokenKind::CStringLiteral)
            } else if c == '"' {
                self.read_wrapped_escapable('"', TokenKind::StringLiteral)
            } else if c == '\'' {
                self.read_wrapped_escapable('\'', TokenKind::CharLiteral)
            } else if digit(c) {
                Ok(self.read_number())
            } else if c == '.' && second.is_some() && digit(second.unwrap()) {
                Ok(self.read_decimal_part())
            } else if letter(c) || c == '_' {
                Ok(self.read_word())
            } else {
                self.read_operator(c)
            };
            return match read {
                Ok(token) => Ok(Some(token)),
                Err(error) => Err(error),
            };
        }
    }
}

proof fn lemma_newlines_step(text: Seq<char>, n: int)
    requires
        0 <= n < text.len(),
    ensures
        newlines(text.take(n + 1)) == newlines(text.take(n)) + (if text[n] == '\n' {
            1nat
        } else {
            0nat
        }),
{
    assert(text.take(n + 1).drop_last() =~= text.take(n));
}

proof fn lemma_newlines_monotone(text: Seq<char>, i: int, j: int)
    requires
        0 <= i <= j <= text.len(),
    ensures
        newlines(text.take(i)) <= newlines(text.take(j)),
        i == j ==> newlines(text.take(i)) == newlines(text.take(j)),
    decreases j - i,
{
    if i < j {
        lemma_newlines_monotone(text, i, j - 1);
        lemma_newlines_step(text, j - 1);
    }
}

/// A text has at least as many bytes as line breaks.
proof fn lemma_newlines_bound(text: Seq<char>)
    ensures
        newlines(text.take(text.len() as int)) <= width(text),
    decreases text.len(),
{
    assert(text.take(text.len() as int) =~= text);
    if text.len() > 0 {
        let rest = text.drop_last();
        lemma_newlines_bound(rest);
        assert(rest.take(rest.len() as int) =~= rest);
        lemma_width_push(rest, text.last());
        assert(rest.push(text.last()) =~= text);
    }
}

/// Without a line break on the way, the last line grows by what is read.
proof fn lemma_last_line(text: Seq<char>, i: int, j: int)
    requires
        0 <= i <= j <= text.len(),
        i == 0 || text[i - 1] == '\n',
        newlines(text.take(i)) == newlines(text.take(j)),
    ensures
        last_line_width(text.take(j)) == byte_at(text, j) - byte_at(text, i),
    decreases j - i,
{
    if i < j {
        lemma_newlines_monotone(text, i, j - 1);
        lemma_newlines_step(text, j - 1);
        lemma_last_line(text, i, j - 1);
        assert(text.take(j).drop_last() =~= text.take(j - 1));
        lemma_width_push(text.take(j - 1), text[j - 1]);
        assert(text.take(j - 1).push(text[j - 1]) =~= text.take(j));
    }
}

/// A token comes from behind the place where reading stood, is not empty, and
/// lies within the text; reading goes on right behind it.
pub proof fn law_tokens_in_order(text: Seq<char>, at: nat)
    requires
        width(text) <= isize::MAX,
        at <= text.len(),
    ensures
        lex(text, at) matches Lexed::Found(kind, from, to) ==> {
            let token = token_between(text, kind, from, to);
            &&& at <= from < to <= text.len()
            &&& byte_at(text, at as int) <= token.span.start < token.span.end <= width(text)
            &&& token.span.start == byte_at(text, from as int)
            &&& token.span.end == byte_at(text, place_after(text, lex(text, at)) as int)
        },
    decreases text.len() - at,
{
    lemma_step_bounds(text, at);
    match step(text, at) {
        Step::Skip(n) => {
            law_tokens_in_order(text, n);
            lemma_byte_at_monotone(text, at as int, n as int);
        },
        Step::Take(kind, n) => {
            lemma_byte_at_monotone(text, at as int, n as int);
            lemma_byte_at_monotone(text, n as int, text.len() as int);
            assert(text.take(text.len() as int) =~= text);
        },
        _ => {},
    }
}

/// The span of a token selects a piece of the text, namely the characters of
/// the token.
pub proof fn law_token_spans_select(text: Seq<char>, at: nat)
    requires
        width(text) <= isize::MAX,
        at <= text.len(),
    ensures
        lex(text, at) matches Lexed::Found(kind, from, to) ==> {
            let span = token_between(text, kind, from, to).span;
            let bytes = vstd::utf8::encode_utf8(text);
            &&& !span.is_invalid()
            &&& vstd::utf8::is_char_boundary(bytes, span.start as int)
            &&& vstd::utf8::is_char_boundary(bytes, span.end as int)
            &&& vstd::utf8::encode_utf8(text.subrange(from as int, to as int)) == bytes.subrange(
                span.start as int,
                span.end as int,
            )
        },
{
    law_tokens_in_order(text, at);
    if let Lexed::Found(kind, from, to) = lex(text, at) {
        lemma_byte_at_boundary(text, from as int);
        lemma_byte_at_boundary(text, to as int);
        lemma_encode_subrange(text, from as int, to as int);
    }
}

/// Whether a piece of a text is a run of blanks, or a comment up to the end of
/// its line.
pub open spec fn is_gap(text: Seq<char>, from: nat, to: nat) -> bool {
    &&& from < to <= text.len()
    &&& (forall|k: int| from <= k < to ==> is_blank(#[trigger] text[k])) || {
        &&& from + 2 <= to
        &&& text[from as int] == '/'
        &&& text[from as int + 1] == '/'
        &&& forall|k: int| from <= k < to ==> (#[trigger] text[k]) != '\n'
        &&& to < text.len() ==> text[to as int] == '\n'
    }
}

/// Whether a piece of a text is made of blanks and comments alone.
pub open spec fn is_skippable(text: Seq<char>, from: nat, to: nat) -> bool
    decreases to - from,
{
    from == to || exists|mid: nat|
        from < mid <= to && #[trigger] is_gap(text, from, mid) && is_skippable(text, mid, to)
}

/// What is skipped is a run of blanks or a comment.
proof fn lemma_skip_is_gap(text: Seq<char>, at: nat)
    requires
        at <= text.len(),
        step(text, at) is Skip,
    ensures
        is_gap(text, at, step(text, at)->Skip_0),
{
    let n = step(text, at)->Skip_0;
    lemma_step_bounds(text, at);
    if is_blank(text[at as int]) {
        lemma_run_end(text, at, |c: char| is_blank(c));
    } else {
        lemma_run_end(text, at, |c: char| c != '\n');
        assert(n > at + 1) by {
            if n == at + 1 {
                assert(text[n as int] == '/');
            }
        }
    }
}

/// What lies between the place where reading stood and the next token, or the
/// next error, or the end, is made of blanks and comments alone: runs of ASCII
/// whitespace and comments that end with their line. From there the same is
/// found.
pub proof fn law_skipped_text(text: Seq<char>, at: nat)
    requires
        at <= text.len(),
    ensures
        lex(text, at) matches Lexed::Found(kind, from, to) ==> {
            &&& is_skippable(text, at, from)
            &&& step(text, from) == Step::Take(kind, to)
            &&& lex(text, from) == lex(text, at)
        },
        lex(text, at) is Over ==> is_skippable(text, at, text.len()),
        exists|from: nat|
            at <= from <= text.len() && #[trigger] is_skippable(text, at, from) && !(step(
                text,
                from,
            ) is Skip) && lex(text, from) == lex(text, at),
    decreases text.len() - at,
{
    lemma_step_bounds(text, at);
    if let Step::Skip(n) = step(text, at) {
        law_skipped_text(text, n);
        lemma_skip_is_gap(text, at);
        assert forall|from: nat|
            n <= from && #[trigger] is_skippable(text, n, from) implies is_skippable(
            text,
            at,
            from,
        ) by {
            assert(is_gap(text, at, n));
        }
        if let Lexed::Found(kind, from, to) = lex(text, n) {
            lemma_found_behind(text, n);
        }
        let from = choose|from: nat|
            n <= from <= text.len() && #[trigger] is_skippable(text, n, from) && !(step(
                text,
                from,
            ) is Skip) && lex(text, from) == lex(text, n);
        assert(is_skippable(text, at, from));
    } else {
        assert(is_skippable(text, at, at));
    }
}

proof fn lemma_found_behind(text: Seq<char>, at: nat)
    requires
        at <= text.len(),
    ensures
        lex(text, at) matches Lexed::Found(_, from, _) ==> at <= from,
    decreases text.len() - at,
{
    lemma_step_bounds(text, at);
    if let Step::Skip(n) = step(text, at) {
        lemma_found_behind(text, n);
    }
}

} // verus!
