//! What the tokens of a text look like.

use crate::frontend::lexer::{
    char_at, digits_end, has_at, is_digit, is_word_char, keyword_of, law_skipped_text,
    lemma_run_end, lemma_step_bounds, lex, operator_at, operator_step, quoted, quoted_step,
    single_kind, step, word_end, word_kind, word_step, Keyword, LexErrorKind, Lexed, Quoted, Step,
    TokenKind,
};
use vstd::prelude::*;

verus! {

/// Whether a character is one of `0` to `9`.
pub open spec fn is_decimal(c: char) -> bool {
    48 <= (c as u32) <= 57
}

/// Whether a character is one of `a` to `z`, `A` to `Z`, or `_`.
pub open spec fn starts_word(c: char) -> bool {
    97 <= (c as u32) <= 122 || 65 <= (c as u32) <= 90 || c == '_'
}

/// The quote of a kind of literal, and the letter in front of it if there is
/// one.
pub open spec fn quote_of(kind: TokenKind) -> Option<(char, Option<char>)> {
    match kind {
        TokenKind::StringLiteral => Some(('"', None)),
        TokenKind::CharLiteral => Some(('\'', None)),
        TokenKind::ByteStringLiteral => Some(('"', Some('b'))),
        TokenKind::ByteLiteral => Some(('\'', Some('b'))),
        TokenKind::CStringLiteral => Some(('"', Some('c'))),
        _ => None,
    }
}

/// Whether a text is read on within a literal from behind the character with
/// number `open` up to that with number `n`: there is no line break, and every
/// quote stands behind a backslash.
pub open spec fn stays_open(text: Seq<char>, quote: char, open: int, n: int) -> bool {
    forall|k: int|
        open < k < n ==> (#[trigger] text[k]) != '\n' && (text[k] == quote ==> text[k - 1] == '\\')
}

/// Whether a literal whose quote has number `open` is closed by the character
/// with number `n`: the first quote that no backslash stands before.
pub open spec fn closes(text: Seq<char>, quote: char, open: int, n: int) -> bool {
    &&& open < n < text.len()
    &&& text[n] == quote
    &&& text[n - 1] != '\\'
    &&& stays_open(text, quote, open, n)
}

proof fn lemma_quoted(text: Seq<char>, quote: char, open: int, i: nat)
    requires
        0 <= open < i <= text.len(),
        quote == '"' || quote == '\'',
        stays_open(text, quote, open, i as int),
        i < text.len() && text[i - 1] == '\\' ==> text[i as int] != quote,
    ensures
        match quoted(text, quote, i) {
            Quoted::Closed(n) => closes(text, quote, open, n - 1),
            Quoted::EndOfLine(n) => open < n < text.len() && text[n as int] == '\n' && stays_open(
                text,
                quote,
                open,
                n as int,
            ),
            Quoted::EndOfFile(n) => n == text.len() && stays_open(text, quote, open, n as int),
        },
    decreases text.len() - i,
{
    if i >= text.len() || text[i as int] == '\n' || text[i as int] == quote {
    } else if text[i as int] == '\\' && i + 1 < text.len() && text[i as int + 1] == quote {
        lemma_quoted(text, quote, open, i + 2);
    } else {
        lemma_quoted(text, quote, open, i + 1);
    }
}

proof fn lemma_closes_once(text: Seq<char>, quote: char, open: int, a: int, b: int)
    requires
        closes(text, quote, open, a),
        closes(text, quote, open, b),
    ensures
        a == b,
{
    if a < b {
        assert(text[a] != '\n');
    } else if b < a {
        assert(text[b] != '\n');
    }
}

/// The token of a quoted literal starts with its quote, behind its letter if it
/// has one, and ends right behind the first quote that no backslash stands
/// before. There is no line break in it.
pub proof fn law_quoted_token(text: Seq<char>, at: nat)
    requires
        at <= text.len(),
    ensures
        lex(text, at) matches Lexed::Found(kind, from, to) ==> (quote_of(kind) matches Some(
            (quote, letter),
        ) ==> {
            let open = from + if letter is Some {
                1int
            } else {
                0
            };
            &&& letter matches Some(l) ==> text[from as int] == l
            &&& text[open] == quote
            &&& closes(text, quote, open, to - 1)
        }),
{
    law_skipped_text(text, at);
    if let Lexed::Found(kind, from, to) = lex(text, at) {
        lemma_step_bounds(text, from);
        lemma_step_kind(text, from);
        if let Some((quote, letter)) = quote_of(kind) {
            let open = from + if letter is Some {
                1int
            } else {
                0
            };
            lemma_quoted(text, quote, open, (open + 1) as nat);
        }
    }
}

/// Whether a literal of a kind starts at a place: its quote stands there, behind
/// its letter if it has one.
pub open spec fn starts_literal(text: Seq<char>, from: int, kind: TokenKind) -> bool {
    match quote_of(kind) {
        Some((quote, None)) => 0 <= from < text.len() && text[from] == quote,
        Some((quote, Some(letter))) => 0 <= from && from + 1 < text.len() && text[from] == letter
            && text[from + 1] == quote,
        None => false,
    }
}

/// The number of the quote that a literal at a place starts with.
pub open spec fn opening(from: nat, kind: TokenKind) -> int {
    if kind is StringLiteral || kind is CharLiteral {
        from as int
    } else {
        from as int + 1
    }
}

/// The quote of a kind of literal.
pub open spec fn quote_char(kind: TokenKind) -> char {
    if kind is CharLiteral || kind is ByteLiteral {
        '\''
    } else {
        '"'
    }
}

/// A literal that starts at a place is read up to the quote that closes it.
pub proof fn law_quoted_found(text: Seq<char>, from: nat, kind: TokenKind, n: int)
    requires
        starts_literal(text, from as int, kind),
        closes(text, quote_char(kind), opening(from, kind), n),
    ensures
        lex(text, from) == Lexed::Found(kind, from, (n + 1) as nat),
{
    let (quote, open) = (quote_char(kind), opening(from, kind));
    lemma_quoted(text, quote, open, (open + 1) as nat);
    assert(step(text, from) == quoted_step(text, open as nat, quote, kind));
    match quoted(text, quote, (open + 1) as nat) {
        Quoted::Closed(m) => lemma_closes_once(text, quote, open, n, m - 1),
        Quoted::EndOfLine(m) => {
            if m < n {
                assert(text[m as int] != '\n');
            } else {
                assert(text[n] == quote);
            }
        },
        Quoted::EndOfFile(m) => {
            assert(text[n] == quote);
        },
    }
}

/// Where a literal that starts at a place is not closed before its line ends, or
/// the text does, that is an error.
pub proof fn law_quoted_unclosed(text: Seq<char>, from: nat, kind: TokenKind, n: nat)
    requires
        starts_literal(text, from as int, kind),
        opening(from, kind) < n <= text.len(),
        n < text.len() ==> text[n as int] == '\n',
        stays_open(text, quote_char(kind), opening(from, kind), n as int),
    ensures
        lex(text, from) == Lexed::Failed(
            if n < text.len() {
                LexErrorKind::EndOfLine(kind)
            } else {
                LexErrorKind::EndOfFile(kind)
            },
            n,
        ),
{
    let (quote, open) = (quote_char(kind), opening(from, kind));
    lemma_quoted(text, quote, open, (open + 1) as nat);
    assert(step(text, from) == quoted_step(text, open as nat, quote, kind));
    match quoted(text, quote, (open + 1) as nat) {
        Quoted::Closed(m) => {
            if m - 1 < n {
                assert(text[m - 1] == quote);
            } else {
                assert(text[n as int] != '\n');
            }
        },
        Quoted::EndOfLine(m) => {
            if m < n {
                assert(text[m as int] != '\n');
            } else if n < m {
                assert(text[n as int] != '\n');
            }
        },
        Quoted::EndOfFile(m) => {
            if n < m {
                assert(text[n as int] != '\n');
            }
        },
    }
}

/// How a token of a fixed form is written.
pub open spec fn spelling(kind: TokenKind) -> Option<Seq<char>> {
    match kind {
        TokenKind::Keyword(Keyword::Fn) => Some(seq!['f', 'n']),
        TokenKind::Keyword(Keyword::Let) => Some(seq!['l', 'e', 't']),
        TokenKind::Keyword(Keyword::Mut) => Some(seq!['m', 'u', 't']),
        TokenKind::Keyword(Keyword::If) => Some(seq!['i', 'f']),
        TokenKind::Keyword(Keyword::Else) => Some(seq!['e', 'l', 's', 'e']),
        TokenKind::Keyword(Keyword::While) => Some(seq!['w', 'h', 'i', 'l', 'e']),
        TokenKind::Keyword(Keyword::As) => Some(seq!['a', 's']),
        TokenKind::Keyword(Keyword::Break) => Some(seq!['b', 'r', 'e', 'a', 'k']),
        TokenKind::Keyword(Keyword::Continue) => Some(
            seq!['c', 'o', 'n', 't', 'i', 'n', 'u', 'e'],
        ),
        TokenKind::Keyword(Keyword::Return) => Some(seq!['r', 'e', 't', 'u', 'r', 'n']),
        TokenKind::Keyword(Keyword::Struct) => Some(seq!['s', 't', 'r', 'u', 'c', 't']),
        TokenKind::Keyword(Keyword::Type) => Some(seq!['t', 'y', 'p', 'e']),
        TokenKind::Keyword(Keyword::Static) => Some(seq!['s', 't', 'a', 't', 'i', 'c']),
        TokenKind::Keyword(Keyword::This) => Some(seq!['s', 'e', 'l', 'f']),
        TokenKind::Keyword(Keyword::Enum) => Some(seq!['e', 'n', 'u', 'm']),
        TokenKind::Keyword(Keyword::Mod) => Some(seq!['m', 'o', 'd']),
        TokenKind::OpenParen => Some(seq!['(']),
        TokenKind::CloseParen => Some(seq![')']),
        TokenKind::OpenBracket => Some(seq!['[']),
        TokenKind::CloseBracket => Some(seq![']']),
        TokenKind::OpenBrace => Some(seq!['{']),
        TokenKind::CloseBrace => Some(seq!['}']),
        TokenKind::Semicolon => Some(seq![';']),
        TokenKind::Comma => Some(seq![',']),
        TokenKind::Dot => Some(seq!['.']),
        TokenKind::Colon => Some(seq![':']),
        TokenKind::DoubleColon => Some(seq![':', ':']),
        TokenKind::Arrow => Some(seq!['-', '>']),
        TokenKind::Bang => Some(seq!['!']),
        TokenKind::Tilde => Some(seq!['~']),
        TokenKind::Asterisk => Some(seq!['*']),
        TokenKind::Minus => Some(seq!['-']),
        TokenKind::Ampersand => Some(seq!['&']),
        TokenKind::Plus => Some(seq!['+']),
        TokenKind::Divide => Some(seq!['/']),
        TokenKind::Modulus => Some(seq!['%']),
        TokenKind::LogicalAnd => Some(seq!['&', '&']),
        TokenKind::LogicalOr => Some(seq!['|', '|']),
        TokenKind::BitwiseXor => Some(seq!['^']),
        TokenKind::BitwiseOr => Some(seq!['|']),
        TokenKind::ShiftLeft => Some(seq!['<', '<']),
        TokenKind::ShiftRight => Some(seq!['>', '>']),
        TokenKind::DoubleEquals => Some(seq!['=', '=']),
        TokenKind::NotEquals => Some(seq!['!', '=']),
        TokenKind::LessThan => Some(seq!['<']),
        TokenKind::LessThanOrEqualTo => Some(seq!['<', '=']),
        TokenKind::GreaterThan => Some(seq!['>']),
        TokenKind::GreaterThanOrEqualTo => Some(seq!['>', '=']),
        TokenKind::Equals => Some(seq!['=']),
        TokenKind::PlusEquals => Some(seq!['+', '=']),
        TokenKind::MinusEquals => Some(seq!['-', '=']),
        TokenKind::MultiplyEquals => Some(seq!['*', '=']),
        TokenKind::DivideEquals => Some(seq!['/', '=']),
        TokenKind::ModulusEquals => Some(seq!['%', '=']),
        TokenKind::LogicalAndEquals => Some(seq!['&', '&', '=']),
        TokenKind::LogicalOrEquals => Some(seq!['|', '|', '=']),
        TokenKind::BitwiseXorEquals => Some(seq!['^', '=']),
        TokenKind::BitwiseAndEquals => Some(seq!['&', '=']),
        TokenKind::BitwiseOrEquals => Some(seq!['|', '=']),
        TokenKind::ShiftLeftEquals => Some(seq!['<', '<', '=']),
        TokenKind::ShiftRightEquals => Some(seq!['>', '>', '=']),
        _ => None,
    }
}

/// Whether a token is an operator or a delimiter.
pub open spec fn is_sign(kind: TokenKind) -> bool {
    spelling(kind) is Some && !(kind is Keyword)
}

/// Whether a text stands at a place in another one.
pub open spec fn stands_at(text: Seq<char>, at: int, s: Seq<char>) -> bool {
    0 <= at && at + s.len() <= text.len() && (forall|k: int|
        0 <= k < s.len() ==> text[at + k] == #[trigger] s[k])
}

/// What kinds of tokens start with which character.
proof fn lemma_step_kind(text: Seq<char>, from: nat)
    ensures
        step(text, from) matches Step::Take(kind, to) ==> {
            let c = text[from as int];
            &&& from < text.len()
            &&& kind is StringLiteral ==> c == '"' && step(text, from) == quoted_step(
                text,
                from,
                '"',
                kind,
            )
            &&& kind is CharLiteral ==> c == '\'' && step(text, from) == quoted_step(
                text,
                from,
                '\'',
                kind,
            )
            &&& kind is ByteStringLiteral ==> c == 'b' && has_at(text, from + 1, '"') && step(
                text,
                from,
            ) == quoted_step(text, from + 1, '"', kind)
            &&& kind is ByteLiteral ==> c == 'b' && has_at(text, from + 1, '\'') && step(text, from)
                == quoted_step(text, from + 1, '\'', kind)
            &&& kind is CStringLiteral ==> c == 'c' && has_at(text, from + 1, '"') && step(
                text,
                from,
            ) == quoted_step(text, from + 1, '"', kind)
        },
{
}

/// An operator or delimiter is written in its own way.
pub proof fn law_sign_token(text: Seq<char>, at: nat)
    requires
        at <= text.len(),
    ensures
        lex(text, at) matches Lexed::Found(kind, from, to) ==> (is_sign(kind) ==> {
            &&& stands_at(text, from as int, spelling(kind)->0)
            &&& to == from + spelling(kind)->0.len()
        }),
{
    law_skipped_text(text, at);
    if let Lexed::Found(kind, from, to) = lex(text, at) {
        lemma_step_bounds(text, from);
        if is_sign(kind) {
            let found = operator_at(
                text[from as int],
                char_at(text, from + 1),
                char_at(text, from + 2),
            );
            assert(found == Some((kind, (to - from) as nat)));
        }
    }
}

/// Where an operator or delimiter stands that starts no comment and no number,
/// one is read that is at least as long.
pub proof fn law_longest_sign(text: Seq<char>, from: nat, kind: TokenKind)
    requires
        is_sign(kind),
        stands_at(text, from as int, spelling(kind)->0),
        !stands_at(text, from as int, seq!['/', '/']),
        text[from as int] == '.' && from + 1 < text.len() ==> !is_decimal(text[from as int + 1]),
    ensures
        lex(text, from) matches Lexed::Found(found, start, to) && start == from && is_sign(found)
            && to >= from + spelling(kind)->0.len(),
{
    let s = spelling(kind)->0;
    let c = text[from as int];
    assert(c == s[0]);
    if s.len() >= 2 {
        assert(text[from as int + 1] == s[1]);
    }
    if s.len() >= 3 {
        assert(text[from as int + 2] == s[2]);
    }
    assert(!(c == '/' && has_at(text, from + 1, '/'))) by {
        if c == '/' && has_at(text, from + 1, '/') {
            assert(stands_at(text, from as int, seq!['/', '/']));
        }
    }
    let a = char_at(text, from + 1);
    let b = char_at(text, from + 2);
    assert(step(text, from) == operator_step(text, from));
    assert(s.len() == 3 ==> operator_at(c, a, b) is Some && (operator_at(c, a, b)->0).1 == 3);
    assert(s.len() == 2 ==> operator_at(c, a, b) is Some && (operator_at(c, a, b)->0).1 >= 2);
    assert(s.len() == 1 ==> operator_at(c, a, b) is Some && (operator_at(c, a, b)->0).1 >= 1);
    assert(s.len() <= 3);
    assert(is_sign((operator_at(c, a, b)->0).0));
}

/// Whether a token is a word: a name, a reserved word or a boolean.
pub open spec fn is_word(kind: TokenKind) -> bool {
    kind is Identifier || kind is Keyword || kind is BooleanLiteral
}

/// Whether a character can stand in a word.
pub open spec fn goes_on_word(c: char) -> bool {
    starts_word(c) || is_decimal(c)
}

/// Whether a word reaches from a place to another one, and no further.
pub open spec fn is_word_between(text: Seq<char>, from: nat, to: nat) -> bool {
    &&& from < to <= text.len()
    &&& starts_word(text[from as int])
    &&& forall|k: int| from <= k < to ==> goes_on_word(#[trigger] text[k])
    &&& to < text.len() ==> !goes_on_word(text[to as int])
}

proof fn lemma_reserved(s: Seq<char>, k: Keyword)
    ensures
        (keyword_of(s) == Some(k)) <==> s == spelling(TokenKind::Keyword(k))->0,
        "true"@ == seq!['t', 'r', 'u', 'e'],
        "false"@ == seq!['f', 'a', 'l', 's', 'e'],
{
    reveal_strlit("fn");
    reveal_strlit("let");
    reveal_strlit("mut");
    reveal_strlit("if");
    reveal_strlit("else");
    reveal_strlit("while");
    reveal_strlit("as");
    reveal_strlit("break");
    reveal_strlit("continue");
    reveal_strlit("return");
    reveal_strlit("struct");
    reveal_strlit("type");
    reveal_strlit("static");
    reveal_strlit("self");
    reveal_strlit("enum");
    reveal_strlit("mod");
    reveal_strlit("true");
    reveal_strlit("false");
    assert("fn"@ =~= spelling(TokenKind::Keyword(Keyword::Fn))->0);
    assert("let"@ =~= spelling(TokenKind::Keyword(Keyword::Let))->0);
    assert("mut"@ =~= spelling(TokenKind::Keyword(Keyword::Mut))->0);
    assert("if"@ =~= spelling(TokenKind::Keyword(Keyword::If))->0);
    assert("else"@ =~= spelling(TokenKind::Keyword(Keyword::Else))->0);
    assert("while"@ =~= spelling(TokenKind::Keyword(Keyword::While))->0);
    assert("as"@ =~= spelling(TokenKind::Keyword(Keyword::As))->0);
    assert("break"@ =~= spelling(TokenKind::Keyword(Keyword::Break))->0);
    assert("continue"@ =~= spelling(TokenKind::Keyword(Keyword::Continue))->0);
    assert("return"@ =~= spelling(TokenKind::Keyword(Keyword::Return))->0);
    assert("struct"@ =~= spelling(TokenKind::Keyword(Keyword::Struct))->0);
    assert("type"@ =~= spelling(TokenKind::Keyword(Keyword::Type))->0);
    assert("static"@ =~= spelling(TokenKind::Keyword(Keyword::Static))->0);
    assert("self"@ =~= spelling(TokenKind::Keyword(Keyword::This))->0);
    assert("enum"@ =~= spelling(TokenKind::Keyword(Keyword::Enum))->0);
    assert("mod"@ =~= spelling(TokenKind::Keyword(Keyword::Mod))->0);
    assert("true"@ =~= seq!['t', 'r', 'u', 'e']);
    assert("false"@ =~= seq!['f', 'a', 'l', 's', 'e']);
    if s == spelling(TokenKind::Keyword(k))->0 {
        assert(s.len() >= 2);
        assert(s[0] == spelling(TokenKind::Keyword(k))->0[0]);
        assert(s[1] == spelling(TokenKind::Keyword(k))->0[1]);
        if s.len() > 2 {
            assert(s[2] == spelling(TokenKind::Keyword(k))->0[2]);
        }
    }
}

/// What a word is read as: a reserved word or a boolean if it is written like
/// one, and else a name.
pub open spec fn is_read_as(word: Seq<char>, kind: TokenKind) -> bool {
    let is_boolean = word == seq!['t', 'r', 'u', 'e'] || word == seq!['f', 'a', 'l', 's', 'e'];
    &&& is_word(kind)
    &&& forall|k: Keyword|
        (kind == TokenKind::Keyword(k)) <==> (#[trigger] spelling(TokenKind::Keyword(k)))
            == Some(word)
    &&& kind is BooleanLiteral <==> is_boolean
}

proof fn lemma_word_step(text: Seq<char>, from: nat)
    requires
        from < text.len(),
        step(text, from) == word_step(text, from),
        starts_word(text[from as int]),
    ensures
        step(text, from) matches Step::Take(kind, to) && is_word_between(text, from, to)
            && is_read_as(text.subrange(from as int, to as int), kind),
{
    lemma_run_end(text, from, |c: char| is_word_char(c));
    lemma_reserved(Seq::empty(), Keyword::Fn);
    let to = word_end(text, from);
    let word = text.subrange(from as int, to as int);
    let kind = (step(text, from)->Take_0);
    assert(kind == word_kind(word));
    let yes = seq!['t', 'r', 'u', 'e'];
    let no = seq!['f', 'a', 'l', 's', 'e'];
    if word == yes || word == no {
        assert(word[0] == 't' || word[0] == 'f');
        assert(word[1] == 'r' || word[1] == 'a');
        if keyword_of(word) is Some {
            lemma_reserved(word, keyword_of(word)->0);
        }
    }
    assert forall|k: Keyword|
        (kind == TokenKind::Keyword(k)) <==> (#[trigger] spelling(TokenKind::Keyword(k))) == Some(
            word,
        ) by {
        lemma_reserved(word, k);
    }
}

/// A word reaches as far as letters, digits and underscores do, does not start
/// with a digit, and is what it is written like.
pub proof fn law_word_token(text: Seq<char>, at: nat)
    requires
        at <= text.len(),
    ensures
        lex(text, at) matches Lexed::Found(kind, from, to) ==> (is_word(kind) ==> {
            &&& is_word_between(text, from, to)
            &&& is_read_as(text.subrange(from as int, to as int), kind)
        }),
{
    law_skipped_text(text, at);
    if let Lexed::Found(kind, from, to) = lex(text, at) {
        lemma_step_bounds(text, from);
        if is_word(kind) {
            assert(step(text, from) == word_step(text, from));
            lemma_word_step(text, from);
        }
    }
}

/// Where a letter or an underscore stands that is not in front of the quote of a
/// literal, a word is read.
pub proof fn law_word_found(text: Seq<char>, from: nat)
    requires
        from < text.len(),
        starts_word(text[from as int]),
        !starts_literal(text, from as int, TokenKind::ByteStringLiteral),
        !starts_literal(text, from as int, TokenKind::ByteLiteral),
        !starts_literal(text, from as int, TokenKind::CStringLiteral),
    ensures
        lex(text, from) matches Lexed::Found(kind, start, _) && start == from && is_word(kind),
{
    assert(step(text, from) == word_step(text, from));
    lemma_word_step(text, from);
}

/// Whether only digits stand between two places.
pub open spec fn all_decimal(text: Seq<char>, from: nat, to: nat) -> bool {
    forall|k: int| from <= k < to ==> is_decimal(#[trigger] text[k])
}

/// Whether no digit stands at a place.
pub open spec fn digits_stop(text: Seq<char>, at: nat) -> bool {
    at < text.len() ==> !is_decimal(text[at as int])
}

/// A whole number is made of all the digits there are, with no point behind
/// them. A number with a point has digits before it or behind it, and those
/// behind it are all there are.
pub proof fn law_number_token(text: Seq<char>, at: nat)
    requires
        at <= text.len(),
    ensures
        lex(text, at) matches Lexed::Found(kind, from, to) ==> {
            &&& kind is IntegerLiteral ==> {
                &&& from < to
                &&& all_decimal(text, from, to)
                &&& digits_stop(text, to)
                &&& to < text.len() ==> text[to as int] != '.'
            }
            &&& kind is FloatLiteral ==> {
                &&& digits_stop(text, to)
                &&& exists|p: nat|
                    from <= p < to && #[trigger] text[p as int] == '.' && all_decimal(text, from, p)
                        && all_decimal(text, p + 1, to) && from + 1 < to
            }
        },
{
    law_skipped_text(text, at);
    if let Lexed::Found(kind, from, to) = lex(text, at) {
        lemma_step_bounds(text, from);
        lemma_run_end(text, from, |c: char| is_digit(c));
        lemma_run_end(text, from + 1, |c: char| is_digit(c));
        lemma_run_end(text, digits_end(text, from) + 1, |c: char| is_digit(c));
        if kind is FloatLiteral {
            if is_digit(text[from as int]) {
                let p = digits_end(text, from);
                assert(text[p as int] == '.');
                assert(all_decimal(text, from, p) && all_decimal(text, p + 1, to));
            } else {
                assert(text[from as int] == '.');
                assert(all_decimal(text, from, from) && all_decimal(text, from + 1, to));
                assert(is_decimal(text[from as int + 1]));
                assert(to > from + 1);
            }
        }
    }
}

/// Where a digit stands, or a point before one, a number is read.
pub proof fn law_number_found(text: Seq<char>, from: nat)
    requires
        from < text.len(),
        is_decimal(text[from as int]) || (text[from as int] == '.' && from + 1 < text.len()
            && is_decimal(text[from as int + 1])),
    ensures
        lex(text, from) matches Lexed::Found(kind, start, _) && start == from && (
        kind is IntegerLiteral || kind is FloatLiteral),
{
}

/// A character that cannot be read starts no token and is not skipped: it is no
/// letter, digit, quote or blank, no operator or delimiter is written with it
/// first, and it is reported where it stands. One that is not ASCII is reported
/// as such.
pub proof fn law_unreadable_character(text: Seq<char>, at: nat)
    requires
        at <= text.len(),
    ensures
        lex(text, at) matches Lexed::Failed(fault, n) ==> {
            &&& fault matches LexErrorKind::NonAsciiCharacter(c) ==> n < text.len() && text[n as int]
                == c && c as u32 >= 128
            &&& fault matches LexErrorKind::UnexpectedCharacter(c) ==> {
                &&& n < text.len() && text[n as int] == c && (c as u32) < 128
                &&& !goes_on_word(c) && c != '"' && c != '\''
                &&& c != ' ' && c != '\t' && c != '\n' && c != '\r'
                &&& forall|kind: TokenKind| #[trigger]
                    is_sign(kind) ==> spelling(kind)->0[0] != c
            }
        },
    decreases text.len() - at,
{
    lemma_step_bounds(text, at);
    match step(text, at) {
        Step::Skip(n) => law_unreadable_character(text, n),
        Step::Fail(fault, n) => {
            if let LexErrorKind::UnexpectedCharacter(c) = fault {
                assert forall|kind: TokenKind| #[trigger] is_sign(kind) implies spelling(
                    kind,
                )->0[0] != c by {
                    assert(single_kind(c) is None);
                    if spelling(kind)->0[0] == c {
                        assert(single_kind(spelling(kind)->0[0]) is Some);
                    }
                }
            }
        },
        _ => {},
    }
}

} // verus!
