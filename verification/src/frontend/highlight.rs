//! Shows a place in a source file, with the lines before it.

use crate::frontend::lexer::{
    answer, lex, lemma_step_bounds, place_after, Keyword, LexError, Lexed, Lexer, Span, Token,
    TokenKind,
};
use crate::frontend::lexer::{law_token_spans_select, law_tokens_in_order};
use crate::frontend::source::{byte_at, width};
use crate::frontend::source::{lemma_encode_concat, lemma_encode_injective};
use crate::frontend::{SourceFile, SourceFileOrigin};
use crate::style::{colored_text, doc, push_colored, push_text, Shade, Styled, StyledView};
use crate::text::{decimal, decimal_text, push_repeated, repeated};
use vstd::prelude::*;
use vstd::utf8::encode_utf8;

verus! {

/// A line without the carriage return at its end.
pub open spec fn without_return(line: Seq<char>) -> Seq<char> {
    if line.len() > 0 && line.last() == '\r' {
        line.drop_last()
    } else {
        line
    }
}

/// The lines of a text of which `begun` is the start of the first line.
pub open spec fn lines_from(begun: Seq<char>, rest: Seq<char>) -> Seq<Seq<char>>
    decreases rest.len(),
{
    if rest.len() == 0 {
        if begun.len() == 0 {
            Seq::empty()
        } else {
            seq![begun]
        }
    } else if rest[0] == '\n' {
        seq![without_return(begun)] + lines_from(Seq::empty(), rest.drop_first())
    } else {
        lines_from(begun.push(rest[0]), rest.drop_first())
    }
}

/// The lines of a text, without their line breaks.
pub open spec fn lines_of(text: Seq<char>) -> Seq<Seq<char>> {
    lines_from(Seq::empty(), text)
}

/// The color of a token, by the kinds of the tokens around it.
pub open spec fn token_shade(
    kind: TokenKind,
    next: Option<TokenKind>,
    last: Option<TokenKind>,
) -> Shade {
    match kind {
        TokenKind::Keyword(_) => Shade::Magenta,
        TokenKind::Identifier => if next == Some(TokenKind::OpenParen) {
            Shade::Blue
        } else if last == Some(TokenKind::Colon) || last == Some(TokenKind::Arrow) || last == Some(
            TokenKind::Keyword(Keyword::As),
        ) {
            Shade::Yellow
        } else {
            Shade::BrightWhite
        },
        TokenKind::BooleanLiteral
        | TokenKind::ByteLiteral
        | TokenKind::CharLiteral
        | TokenKind::IntegerLiteral
        | TokenKind::FloatLiteral => Shade::BrightYellow,
        TokenKind::StringLiteral
        | TokenKind::ByteStringLiteral
        | TokenKind::CStringLiteral => Shade::Green,
        _ => Shade::White,
    }
}

fn shade_of_token(kind: TokenKind, next: Option<TokenKind>, last: Option<TokenKind>) -> (r: Shade)
    ensures
        r == token_shade(kind, next, last),
{
    match kind {
        TokenKind::Keyword(_) => Shade::Magenta,
        TokenKind::Identifier => {
            if next == Some(TokenKind::OpenParen) {
                Shade::Blue
            } else if last == Some(TokenKind::Colon) || last == Some(TokenKind::Arrow) || last
                == Some(TokenKind::Keyword(Keyword::As)) {
                Shade::Yellow
            } else {
                Shade::BrightWhite
            }
        }
        TokenKind::BooleanLiteral
        | TokenKind::ByteLiteral
        | TokenKind::CharLiteral
        | TokenKind::IntegerLiteral
        | TokenKind::FloatLiteral => Shade::BrightYellow,
        TokenKind::StringLiteral
        | TokenKind::ByteStringLiteral
        | TokenKind::CStringLiteral => Shade::Green,
        _ => Shade::White,
    }
}

/// What is shown of a text, up to the error that ends it.
pub struct Shown {
    pub parts: Seq<StyledView>,
    pub error: Option<LexError>,
    /// Whether reading would never end.
    pub stalled: bool,
}

/// The kind of the token that comes next.
pub open spec fn kind_ahead(line: Seq<char>, at: nat) -> Option<TokenKind> {
    match lex(line, at) {
        Lexed::Found(kind, _, _) => Some(kind),
        _ => None,
    }
}

/// The tokens of a line from a place on, each in its color and behind as many
/// spaces as there were bytes before it.
pub open spec fn shown_tokens(line: Seq<char>, at: nat, last: Option<TokenKind>) -> Shown
    decreases line.len() - at,
{
    proof {
        lemma_lex_advances(line, at);
    }
    match lex(line, at) {
        Lexed::Over => Shown { parts: Seq::empty(), error: None, stalled: false },
        Lexed::Stalled => Shown { parts: Seq::empty(), error: None, stalled: true },
        Lexed::Failed(kind, n) => Shown {
            parts: Seq::empty(),
            error: Some(crate::frontend::lexer::error_at(line, kind, n)),
            stalled: false,
        },
        Lexed::Found(kind, from, to) => {
            let gap = StyledView::Text(
                repeated(' ', (byte_at(line, from as int) - byte_at(line, at as int)) as nat),
            );
            if kind is Identifier && lex(line, to) is Stalled {
                Shown { parts: seq![gap], error: None, stalled: true }
            } else if kind is Identifier && answer(line, lex(line, to)) is Err {
                Shown {
                    parts: seq![gap],
                    error: Some(answer(line, lex(line, to))->Err_0),
                    stalled: false,
                }
            } else {
                let word = colored_text(
                    line.subrange(from as int, to as int),
                    token_shade(kind, kind_ahead(line, to), last),
                );
                let rest = shown_tokens(line, to, Some(kind));
                Shown { parts: seq![gap, word] + rest.parts, ..rest }
            }
        },
    }
}

/// A token lies behind the place where reading stood.
pub proof fn lemma_lex_advances(line: Seq<char>, at: nat)
    ensures
        lex(line, at) matches Lexed::Found(_, from, to) ==> at <= from < to <= line.len(),
    decreases line.len() - at,
{
    lemma_step_bounds(line, at);
    if let crate::frontend::lexer::Step::Skip(n) = crate::frontend::lexer::step(line, at) {
        lemma_lex_advances(line, n);
    }
}

/// A number that is moved to the right within three columns.
pub open spec fn line_label(n: nat) -> Seq<char> {
    let digits = decimal(n);
    repeated(' ', if digits.len() < 3 { (3 - digits.len()) as nat } else { 0 }) + digits + ": "@
}

/// The lines with the numbers from `from` up to `to`, which are counted from
/// zero, each behind its number counted from one.
pub open spec fn shown_lines(lines: Seq<Seq<char>>, from: nat, to: nat) -> Shown
    decreases to - from,
{
    if from >= to || from >= lines.len() {
        Shown { parts: Seq::empty(), error: None, stalled: false }
    } else {
        let label = colored_text(line_label(from + 1), Shade::White);
        let tokens = shown_tokens(lines[from as int], 0, None);
        if tokens.stalled || tokens.error is Some {
            Shown { parts: seq![label] + tokens.parts, ..tokens }
        } else {
            let rest = shown_lines(lines, from + 1, to);
            Shown {
                parts: seq![label] + tokens.parts + seq![StyledView::Text(seq!['\n'])] + rest.parts,
                ..rest
            }
        }
    }
}

/// The mark below a place: `width` carets behind `indent` spaces, and a word.
pub open spec fn shown_mark(indent: nat, width: nat) -> Seq<StyledView> {
    seq![
        StyledView::Text(repeated(' ', indent)),
        colored_text(repeated('^', if width > 0 { width } else { 1 }), Shade::Red),
        StyledView::Text(seq!['\n']),
        StyledView::Text(repeated(' ', indent)),
        colored_text("here"@, Shade::Red),
        StyledView::Text(seq!['\n']),
    ]
}

impl SourceFile {
    /// How wide the mark below a span is, in bytes.
    pub open spec fn mark_width(&self, span: Span) -> int {
        if self.row(span.end as int) == self.row(span.start as int) {
            self.column(span.end as int) - self.column(span.start as int)
        } else {
            1
        }
    }

    /// The first line that is shown of the surroundings of a span.
    pub open spec fn first_shown(&self, span: Span) -> nat {
        let row = self.row(span.start as int);
        if row >= 3 {
            (row - 3) as nat
        } else {
            0
        }
    }

    /// What is shown of a span: the line in which it starts behind up to two
    /// lines before it, and a mark.
    pub open spec fn highlighted(&self, span: Span) -> Shown {
        let lines = shown_lines(
            lines_of(self.contents@),
            self.first_shown(span),
            self.row(span.start as int),
        );
        if lines.stalled || lines.error is Some {
            lines
        } else {
            Shown {
                parts: lines.parts + shown_mark(
                    self.column(span.start as int) + 4,
                    self.mark_width(span) as nat,
                ),
                ..lines
            }
        }
    }
}


/// The lines of a text, without their line breaks.
fn split_lines(text: &str) -> (r: Vec<String>)
    ensures
        r@.map_values(|s: String| s@) == lines_of(text@),
{
    let mut stream = crate::frontend::lexer::stream_of(text);
    let mut lines: Vec<String> = Vec::new();
    let mut line = String::new();
    let ghost all = lines_of(text@);
    let ghost mut rest = text@;
    proof {
        assert(line@ =~= Seq::<char>::empty());
        assert(lines@.map_values(|s: String| s@) + lines_from(line@, rest) =~= all);
    }
    loop
        invariant
            rest == crate::frontend::lexer::upcoming(stream),
            lines@.map_values(|s: String| s@) + lines_from(line@, rest) == all,
        ensures
            rest.len() == 0,
        decreases rest.len(),
    {
        let ghost before = lines@.map_values(|s: String| s@);
        let ghost begun = line@;
        match crate::frontend::lexer::stream_next(&mut stream) {
            Some(c) => {
                if c == '\n' {
                    let done = trimmed(line);
                    lines.push(done);
                    line = String::new();
                    proof {
                        assert(line@ =~= Seq::<char>::empty());
                        assert(lines@.map_values(|s: String| s@) =~= before.push(
                            without_return(begun),
                        ));
                        assert(before + (seq![without_return(begun)] + lines_from(
                            Seq::empty(),
                            rest.drop_first(),
                        )) =~= before.push(without_return(begun)) + lines_from(
                            Seq::empty(),
                            rest.drop_first(),
                        ));
                    }
                } else {
                    line.push(c);
                }
                proof {
                    rest = rest.drop_first();
                }
            }
            None => {
                break;
            }
        }
    }
    if !line.as_str().is_empty() {
        let ghost before = lines@.map_values(|s: String| s@);
        let ghost last = line@;
        lines.push(line);
        assert(lines@.map_values(|s: String| s@) =~= before + seq![last]);
    }
    assert(lines@.map_values(|s: String| s@) =~= all);
    lines
}

/// A line without the carriage return at its end.
fn trimmed(line: String) -> (r: String)
    ensures
        r@ == without_return(line@),
{
    let n: usize = line.as_str().unicode_len();
    if n > 0 && line.as_str().get_char(n - 1) == '\r' {
        let r = line.as_str().substring_char(0, n - 1).to_owned();
        assert(r@ =~= line@.drop_last());
        r
    } else {
        line
    }
}

fn spaces(n: usize) -> (r: String)
    ensures
        r@ == repeated(' ', n as nat),
{
    let mut out = String::new();
    push_repeated(&mut out, ' ', n);
    assert(out@ =~= repeated(' ', n as nat));
    out
}

/// Appends the tokens of a line.
#[verifier::rlimit(60)]
fn show_tokens(source: &SourceFile, parts: &mut Vec<Styled>) -> (r: Option<LexError>)
    requires
        source.countable(),
        !shown_tokens(source.contents@, 0, None).stalled,
    ensures
        ({
            let shown = shown_tokens(source.contents@, 0, None);
            &&& doc(final(parts)@) == doc(old(parts)@) + shown.parts
            &&& r == shown.error
        }),
{
    let ghost line = source.contents@;
    let ghost goal = shown_tokens(line, 0, None);
    let ghost start = doc(parts@);
    let mut lexer = Lexer::new(source);
    let mut last_end: usize = 0;
    let mut last_token_kind: Option<TokenKind> = None;
    let ghost mut at: nat = 0;
    proof {
        assert(line.take(0) =~= Seq::<char>::empty());
        assert(encode_utf8(line.take(0)) =~= Seq::<u8>::empty());
        assert(start + goal.parts =~= doc(parts@) + shown_tokens(line, at, last_token_kind).parts);
    }
    loop
        invariant
            line == source.contents@,
            width(line) <= isize::MAX,
            start == doc(old(parts)@),
            goal == shown_tokens(line, 0, None),
            lexer.well_formed(),
            lexer.text() == line,
            at <= line.len(),
            last_end as int == byte_at(line, at as int),
            lexer.pending().len() == 0 ==> lex(line, lexer.at()) == lex(line, at),
            lexer.pending().len() > 0 ==> lexer.pending().len() == 1 && answer(
                line,
                lex(line, at),
            ) == Ok::<Option<Token>, LexError>(Some(lexer.pending()[0])) && lexer.at()
                == place_after(line, lex(line, at)),
            ({
                let rest = shown_tokens(line, at, last_token_kind);
                &&& start + goal.parts == doc(parts@) + rest.parts
                &&& goal.error == rest.error
                &&& !rest.stalled
            }),
        decreases line.len() - at,
    {
        proof {
            lemma_lex_advances(line, at);
            law_tokens_in_order(line, at);
            law_token_spans_select(line, at);
        }
        let ghost shown = doc(parts@);
        match lexer.next() {
            Err(error) => {
                assert(shown + Seq::<StyledView>::empty() =~= shown);
                return Some(error);
            }
            Ok(None) => {
                assert(shown + Seq::<StyledView>::empty() =~= shown);
                return None;
            }
            Ok(Some(token)) => {
                let ghost from = lex(line, at)->Found_1;
                let ghost to = lex(line, at)->Found_2;
                push_text(parts, spaces(token.span.start - last_end));
                last_end = token.span.end;
                let ghost gap = StyledView::Text(
                    repeated(' ', (byte_at(line, from as int) - byte_at(line, at as int)) as nat),
                );
                assert(doc(parts@) == shown.push(gap));
                let mut next: Option<TokenKind> = None;
                if let TokenKind::Identifier = token.kind {
                    match lexer.peek() {
                        Err(error) => {
                            assert(shown.push(gap) =~= shown + seq![gap]);
                            return Some(error);
                        }
                        Ok(Some(following)) => {
                            next = Some(following.kind);
                        }
                        Ok(None) => {}
                    }
                }
                let color = shade_of_token(token.kind, next, last_token_kind);
                let value = source.value_of_span(token.span);
                proof {
                    lemma_encode_injective(value@, line.subrange(from as int, to as int));
                }
                push_colored(parts, value.to_owned(), color);
                proof {
                    let word = colored_text(
                        line.subrange(from as int, to as int),
                        token_shade(token.kind, kind_ahead(line, to), last_token_kind),
                    );
                    let rest = shown_tokens(line, to, Some(token.kind));
                    assert(doc(parts@) == shown.push(gap).push(word));
                    assert(shown.push(gap).push(word) + rest.parts =~= shown + (seq![gap, word]
                        + rest.parts));
                    at = to;
                }
                last_token_kind = Some(token.kind);
            }
        }
    }
}

proof fn lemma_line_widths(begun: Seq<char>, rest: Seq<char>, i: int)
    requires
        0 <= i < lines_from(begun, rest).len(),
    ensures
        width(lines_from(begun, rest)[i]) <= width(begun + rest),
    decreases rest.len(),
{
    lemma_encode_concat(begun, rest);
    if rest.len() == 0 {
        assert(begun + rest =~= begun);
    } else {
        let one = seq![rest[0]];
        let tail = rest.drop_first();
        assert(rest =~= one + tail);
        lemma_encode_concat(one, tail);
        if rest[0] == '\n' {
            if i == 0 {
                if begun.len() > 0 {
                    assert(begun =~= begun.drop_last() + seq![begun.last()]);
                    lemma_encode_concat(begun.drop_last(), seq![begun.last()]);
                }
            } else {
                lemma_line_widths(Seq::empty(), tail, i - 1);
                assert(Seq::<char>::empty() + tail =~= tail);
            }
        } else {
            lemma_line_widths(begun.push(rest[0]), tail, i);
            assert(begun.push(rest[0]) + tail =~= begun + rest);
        }
    }
}

impl SourceFile {
    /// Shows a span: the line in which it starts behind up to two lines before
    /// it, and a mark. Where a line cannot be split into tokens, what precedes
    /// the error is shown.
    #[verifier::rlimit(60)]
    pub fn highlight_span(&self, span: Span) -> (r: (Vec<Styled>, Option<LexError>))
        requires
            !span.is_invalid(),
            self.countable(),
            self.row(span.start as int) <= lines_of(self.contents@).len(),
            self.mark_width(span) >= 0,
            !self.highlighted(span).stalled,
        ensures
            doc(r.0@) == self.highlighted(span).parts,
            r.1 == self.highlighted(span).error,
    {
        let lines = split_lines(self.contents.as_str());
        let ghost all = lines_of(self.contents@);
        assert(lines@.map_values(|s: String| s@) == all);
        let span_starting_row: usize = self.row_for_position(span.start);
        let span_ending_row: usize = self.row_for_position(span.end);
        let span_starting_column: usize = self.column_for_position(span.start);
        let span_ending_column: usize = self.column_for_position(span.end);
        let start_idx: usize = if span_starting_row >= 3 {
            span_starting_row - 3
        } else {
            0
        };
        let ghost goal = shown_lines(all, start_idx as nat, span_starting_row as nat);
        let mut parts: Vec<Styled> = Vec::new();
        let mut n: usize = start_idx;
        assert(doc(parts@) + goal.parts =~= goal.parts);
        while n < span_starting_row
            invariant
                start_idx <= n <= span_starting_row,
                span_starting_row <= lines@.len(),
                self.countable(),
                all == lines_of(self.contents@),
                lines@.map_values(|s: String| s@) == all,
                goal == shown_lines(all, start_idx as nat, span_starting_row as nat),
                ({
                    let rest = shown_lines(all, n as nat, span_starting_row as nat);
                    &&& goal.parts == doc(parts@) + rest.parts
                    &&& goal.error == rest.error
                    &&& !rest.stalled
                }),
                span_starting_row as nat == self.row(span.start as int),
                start_idx as nat == self.first_shown(span),
            decreases span_starting_row - n,
        {
            let ghost shown = doc(parts@);
            let number = decimal_text((n + 1) as u64);
            let digits: usize = number.as_str().unicode_len();
            let mut label = spaces(
                if digits < 3 {
                    3 - digits
                } else {
                    0
                },
            );
            label.append(number.as_str());
            label.append(": ");
            push_colored(&mut parts, label, Shade::White);
            let ghost tag = colored_text(line_label(n as nat + 1), Shade::White);
            assert(doc(parts@) == shown.push(tag));
            assert(lines@[n as int]@ == all[n as int]);
            proof {
                lemma_line_widths(Seq::empty(), self.contents@, n as int);
                assert(Seq::<char>::empty() + self.contents@ =~= self.contents@);
            }
            let source = SourceFile {
                contents: lines[n].clone(),
                origin: SourceFileOrigin::Memory,
            };
            let ghost tokens = shown_tokens(all[n as int], 0, None);
            match show_tokens(&source, &mut parts) {
                Some(error) => {
                    assert(shown.push(tag) + tokens.parts =~= shown + (seq![tag] + tokens.parts));
                    return (parts, Some(error));
                }
                None => {}
            }
            let mut line_break = String::new();
            line_break.push('\n');
            assert(line_break@ =~= seq!['\n']);
            push_text(&mut parts, line_break);
            proof {
                let rest = shown_lines(all, n as nat + 1, span_starting_row as nat);
                let br = StyledView::Text(seq!['\n']);
                assert((shown.push(tag) + tokens.parts).push(br) + rest.parts =~= shown + (seq![tag]
                    + tokens.parts + seq![br] + rest.parts));
            }
            n = n + 1;
        }
        let ghost shown = doc(parts@);
        assert(goal.parts =~= shown);
        let prepending_count: usize = span_starting_column + 4;
        let token_width: usize = if span_ending_row == span_starting_row {
            span_ending_column - span_starting_column
        } else {
            1
        };
        let mut carets = String::new();
        push_repeated(
            &mut carets,
            '^',
            if token_width > 0 {
                token_width
            } else {
                1
            },
        );
        assert(carets@ =~= repeated('^', if token_width > 0 { token_width as nat } else { 1 }));
        let mut first_break = String::new();
        first_break.push('\n');
        assert(first_break@ =~= seq!['\n']);
        let mut second_break = String::new();
        second_break.push('\n');
        assert(second_break@ =~= seq!['\n']);
        push_text(&mut parts, spaces(prepending_count));
        push_colored(&mut parts, carets, Shade::Red);
        push_text(&mut parts, first_break);
        push_text(&mut parts, spaces(prepending_count));
        push_colored(&mut parts, "here".to_owned(), Shade::Red);
        push_text(&mut parts, second_break);
        assert(doc(parts@) =~= shown + shown_mark(
            prepending_count as nat,
            self.mark_width(span) as nat,
        ));
        (parts, None)
    }
}

} // verus!
