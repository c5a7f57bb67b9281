//! What is shown of a source file, and where.

use crate::frontend::highlight::{
    lemma_lex_advances, line_label, lines_from, lines_of, shown_lines, shown_mark, shown_tokens,
};
use crate::frontend::lexer::{
    is_gap, is_skippable, law_skipped_text, lex, Lexed, Span, TokenKind,
};
use crate::frontend::source::{before, byte_at, lemma_width_push};
use crate::frontend::SourceFile;
use crate::style::{plain, plain_upto, StyledView};
use crate::text::{decimal, repeated};
use vstd::prelude::*;

verus! {

/// A text starts in the first line and in the first column. Behind a line break a
/// new line starts in its first column, and behind every other byte the column is
/// one further. A position behind the end is where the end is.
pub proof fn law_rows_and_columns(source: SourceFile, position: int)
    ensures
        source.row(0) == 1,
        source.column(0) == 1,
        0 <= position < source.bytes().len() && source.bytes()[position] == 10 ==> {
            &&& source.row(position + 1) == source.row(position) + 1
            &&& source.column(position + 1) == 1
        },
        0 <= position < source.bytes().len() && source.bytes()[position] != 10 ==> {
            &&& source.row(position + 1) == source.row(position)
            &&& source.column(position + 1) == source.column(position) + 1
        },
        position > source.bytes().len() ==> {
            &&& source.row(position) == source.row(source.bytes().len() as int)
            &&& source.column(position) == source.column(source.bytes().len() as int)
        },
{
    let bytes = source.bytes();
    assert(before(bytes, 0) =~= Seq::empty());
    if 0 <= position < bytes.len() {
        assert(before(bytes, position + 1).drop_last() =~= before(bytes, position));
        assert(before(bytes, position + 1).last() == bytes[position]);
    }
    assert(before(bytes, bytes.len() as int) =~= bytes);
}

/// A text of which the first line break is known falls into the line before it,
/// without one carriage return at its end, and the lines behind it. A text without
/// a line break is one line, and an empty text has none.
pub proof fn law_lines(line: Seq<char>, rest: Seq<char>)
    requires
        forall|i: int| 0 <= i < line.len() ==> (#[trigger] line[i]) != '\n',
    ensures
        lines_of(line) == (if line.len() == 0 {
            Seq::empty()
        } else {
            seq![line]
        }),
        lines_of(line + seq!['\n'] + rest) == seq![
            if line.len() > 0 && line.last() == '\r' {
                line.take(line.len() - 1)
            } else {
                line
            },
        ] + lines_of(rest),
{
    let all = line + seq!['\n'] + rest;
    lemma_begun(Seq::empty(), line, Seq::empty());
    assert(line + Seq::empty() =~= line);
    assert(Seq::empty() + line =~= line);
    lemma_begun(Seq::empty(), line, seq!['\n'] + rest);
    assert(line + (seq!['\n'] + rest) =~= all);
    assert((seq!['\n'] + rest).drop_first() =~= rest);
    if line.len() > 0 {
        assert(line.drop_last() =~= line.take(line.len() - 1));
    }
}

/// What precedes the first line break is begun.
proof fn lemma_begun(begun: Seq<char>, line: Seq<char>, rest: Seq<char>)
    requires
        forall|i: int| 0 <= i < line.len() ==> (#[trigger] line[i]) != '\n',
    ensures
        lines_from(begun, line + rest) == lines_from(begun + line, rest),
    decreases line.len(),
{
    if line.len() == 0 {
        assert(line + rest =~= rest);
        assert(begun + line =~= begun);
    } else {
        let tail = line.drop_first();
        assert forall|i: int| 0 <= i < tail.len() implies (#[trigger] tail[i]) != '\n' by {
            assert(line[i + 1] != '\n');
        }
        assert(line[0] != '\n');
        assert((line + rest)[0] == line[0]);
        assert((line + rest).drop_first() =~= tail + rest);
        lemma_begun(begun.push(line[0]), tail, rest);
        assert(begun.push(line[0]) + tail =~= begun + line);
    }
}

proof fn lemma_plain_prefix(a: Seq<StyledView>, b: Seq<StyledView>, n: nat)
    requires
        n <= a.len(),
    ensures
        plain_upto(a + b, n) == plain_upto(a, n),
    decreases n,
{
    if n > 0 {
        lemma_plain_prefix(a, b, (n - 1) as nat);
        assert((a + b)[n - 1] == a[n - 1]);
    }
}

proof fn lemma_plain_concat(a: Seq<StyledView>, b: Seq<StyledView>, n: nat)
    requires
        n <= b.len(),
    ensures
        plain_upto(a + b, a.len() + n) == plain(a) + plain_upto(b, n),
    decreases n,
{
    if n == 0 {
        lemma_plain_prefix(a, b, a.len());
        assert(plain(a) + plain_upto(b, 0) =~= plain(a));
    } else {
        lemma_plain_concat(a, b, (n - 1) as nat);
        assert((a + b)[a.len() + n - 1] == b[n - 1]);
        let last = match b[n - 1] {
            StyledView::Text(text) => text,
            StyledView::Paint(_, inner) => plain_upto(inner, inner.len()),
        };
        assert(plain(a) + (plain_upto(b, (n - 1) as nat) + last) =~= plain(a) + plain_upto(
            b,
            (n - 1) as nat,
        ) + last);
    }
}

/// Without colors, pieces behind pieces are text behind text.
proof fn lemma_plain(a: Seq<StyledView>, b: Seq<StyledView>)
    ensures
        plain(a + b) == plain(a) + plain(b),
{
    lemma_plain_concat(a, b, b.len());
}

/// Without colors, a piece is its text.
proof fn lemma_plain_one(part: StyledView, text: Seq<char>)
    requires
        part == StyledView::Text(text) || exists|shade: crate::style::Shade|
            part == #[trigger] crate::style::colored_text(text, shade),
    ensures
        plain(seq![part]) == text,
{
    let parts = seq![part];
    reveal_with_fuel(plain_upto, 2);
    assert(plain_upto(parts, 0) =~= Seq::empty());
    assert(plain_upto(seq![StyledView::Text(text)], 0) =~= Seq::empty());
    assert(plain_upto(seq![StyledView::Text(text)], 1) =~= text);
    assert(Seq::<char>::empty() + text =~= text);
}

/// Whether every character is one byte long.
pub open spec fn is_ascii(text: Seq<char>) -> bool {
    forall|i: int| 0 <= i < text.len() ==> (#[trigger] text[i] as u32) < 0x80
}

proof fn lemma_ascii_bytes(text: Seq<char>, n: int)
    requires
        is_ascii(text),
        0 <= n <= text.len(),
    ensures
        byte_at(text, n) == n,
    decreases n,
{
    if n == 0 {
        assert(text.take(0) =~= Seq::empty());
    } else {
        lemma_ascii_bytes(text, n - 1);
        lemma_width_push(text.take(n - 1), text[n - 1]);
        assert(text.take(n - 1).push(text[n - 1]) =~= text.take(n));
        assert((text[n - 1] as u32) < 0x80);
    }
}

/// Whether a character belongs to a blank or to a comment.
pub open spec fn is_skipped(line: Seq<char>, i: int) -> bool {
    exists|a: nat, b: nat| a <= i < b && #[trigger] is_gap(line, a, b)
}

proof fn lemma_skipped(line: Seq<char>, from: nat, to: nat, i: int)
    requires
        is_skippable(line, from, to),
        from <= i < to,
    ensures
        is_skipped(line, i),
    decreases to - from,
{
    let mid = choose|mid: nat|
        from < mid <= to && #[trigger] is_gap(line, from, mid) && is_skippable(line, mid, to);
    if i >= mid {
        lemma_skipped(line, mid, to, i);
    }
}

/// Whether a text has the characters of a line from a place on, or spaces where
/// there are blanks and comments, up to where nothing else follows.
pub open spec fn stays(line: Seq<char>, at: nat, text: Seq<char>) -> bool {
    &&& at + text.len() <= line.len()
    &&& forall|i: int|
        0 <= i < text.len() ==> #[trigger] text[i] == line[at + i] || (text[i] == ' '
            && is_skipped(line, at + i))
    &&& is_skippable(line, at + text.len(), line.len())
}

/// Without colors, the tokens of a line of ASCII characters that can be read are
/// shown in the columns that they have in the line: what is shown differs from it
/// only in that blanks and comments are spaces, and left off at the end.
pub proof fn law_tokens_stay_in_place(line: Seq<char>, at: nat, last: Option<TokenKind>)
    requires
        is_ascii(line),
        at <= line.len(),
        shown_tokens(line, at, last).error is None,
        !shown_tokens(line, at, last).stalled,
    ensures
        stays(line, at, plain(shown_tokens(line, at, last).parts)),
    decreases line.len() - at,
{
    lemma_lex_advances(line, at);
    law_skipped_text(line, at);
    let shown = shown_tokens(line, at, last);
    match lex(line, at) {
        Lexed::Found(kind, from, to) => {
            let gap = StyledView::Text(
                repeated(' ', (byte_at(line, from as int) - byte_at(line, at as int)) as nat),
            );
            lemma_ascii_bytes(line, from as int);
            lemma_ascii_bytes(line, at as int);
            let word = shown.parts[1];
            let token = line.subrange(from as int, to as int);
            let rest = shown_tokens(line, to, Some(kind));
            assert(shown.parts =~= seq![gap, word] + rest.parts);
            assert(seq![gap, word] =~= seq![gap] + seq![word]);
            law_tokens_stay_in_place(line, to, Some(kind));
            lemma_plain(seq![gap, word], rest.parts);
            lemma_plain(seq![gap], seq![word]);
            lemma_plain_one(gap, repeated(' ', (from - at) as nat));
            lemma_plain_one(word, token);
            let text = plain(shown.parts);
            let tail = plain(rest.parts);
            assert(text == repeated(' ', (from - at) as nat) + token + tail);
            assert forall|i: int| 0 <= i < text.len() implies #[trigger] text[i] == line[at + i]
                || (text[i] == ' ' && is_skipped(line, at + i)) by {
                if i < from - at {
                    lemma_skipped(line, at, from, at + i);
                } else if i < to - at {
                    assert(text[i] == token[i - (from - at)]);
                } else {
                    let j = i - (to - at);
                    assert(text[i] == tail[j]);
                    assert(at + i == to + j);
                }
            }
        },
        _ => {},
    }
}

/// What is shown of a line, behind its number.
pub open spec fn shown_row(source: SourceFile, row: nat) -> Seq<char> {
    let digits = decimal(row);
    (if digits.len() == 1 {
        "  "@
    } else if digits.len() == 2 {
        " "@
    } else {
        ""@
    }) + digits + ": "@ + plain(
        shown_tokens(lines_of(source.contents@)[row - 1], 0, None).parts,
    ) + "\n"@
}

proof fn lemma_shown_row(source: SourceFile, row: nat, to: nat)
    requires
        1 <= row <= to <= lines_of(source.contents@).len(),
        shown_lines(lines_of(source.contents@), (row - 1) as nat, to).error is None,
        !shown_lines(lines_of(source.contents@), (row - 1) as nat, to).stalled,
    ensures
        ({
            let lines = lines_of(source.contents@);
            let rest = shown_lines(lines, row, to);
            &&& plain(shown_lines(lines, (row - 1) as nat, to).parts) == shown_row(source, row)
                + plain(rest.parts)
            &&& rest.error is None
            &&& !rest.stalled
        }),
{
    let lines = lines_of(source.contents@);
    let tokens = shown_tokens(lines[row - 1], 0, None);
    let rest = shown_lines(lines, row, to);
    let label = crate::style::colored_text(line_label(row), crate::style::Shade::White);
    let stop = StyledView::Text(seq!['\n']);
    lemma_plain(seq![label] + tokens.parts + seq![stop], rest.parts);
    lemma_plain(seq![label] + tokens.parts, seq![stop]);
    lemma_plain(seq![label], tokens.parts);
    lemma_plain_one(label, line_label(row));
    lemma_plain_one(stop, seq!['\n']);
    reveal_strlit("  ");
    reveal_strlit(" ");
    reveal_strlit("");
    reveal_strlit("\n");
    assert(decimal(row).len() > 0);
    assert(repeated(' ', 2) =~= "  "@);
    assert(repeated(' ', 1) =~= " "@);
    assert(repeated(' ', 0) =~= ""@);
    assert("\n"@ =~= seq!['\n']);
    assert(plain(shown_lines(lines, (row - 1) as nat, to).parts) =~= shown_row(source, row)
        + plain(rest.parts));
}

/// Of a span, the line in which it starts is shown with its number, below the two
/// lines before it as far as there are any. Below follow the mark and a word.
pub proof fn law_shown_rows(source: SourceFile, span: Span)
    requires
        source.row(span.start as int) <= lines_of(source.contents@).len(),
        source.highlighted(span).error is None,
        !source.highlighted(span).stalled,
    ensures
        ({
            let row = source.row(span.start as int);
            let mark = shown_mark(
                source.column(span.start as int) + 4,
                source.mark_width(span) as nat,
            );
            let text = plain(source.highlighted(span).parts);
            &&& row == 1 ==> text == shown_row(source, 1) + plain(mark)
            &&& row == 2 ==> text == shown_row(source, 1) + shown_row(source, 2) + plain(mark)
            &&& row >= 3 ==> text == shown_row(source, (row - 2) as nat) + shown_row(
                source,
                (row - 1) as nat,
            ) + shown_row(source, row) + plain(mark)
        }),
{
    let row = source.row(span.start as int);
    let lines = lines_of(source.contents@);
    let shown = shown_lines(lines, source.first_shown(span), row);
    let mark = shown_mark(source.column(span.start as int) + 4, source.mark_width(span) as nat);
    lemma_plain(shown.parts, mark);
    assert(plain(shown_lines(lines, row, row).parts) =~= Seq::empty());
    if row >= 3 {
        lemma_shown_row(source, (row - 2) as nat, row);
        lemma_shown_row(source, (row - 1) as nat, row);
        lemma_shown_row(source, row, row);
        assert(plain(shown.parts) =~= shown_row(source, (row - 2) as nat) + shown_row(
            source,
            (row - 1) as nat,
        ) + shown_row(source, row));
    } else if row == 2 {
        lemma_shown_row(source, 1, row);
        lemma_shown_row(source, 2, row);
        assert(plain(shown.parts) =~= shown_row(source, 1) + shown_row(source, 2));
    } else {
        lemma_shown_row(source, 1, row);
        assert(plain(shown.parts) =~= shown_row(source, 1));
    }
}

/// Up to the line 999, a line is shown behind five characters, and so the mark of a
/// span stands right below it: with a caret below each of its bytes where it ends
/// in the line, and at least one.
pub proof fn law_mark_is_below(source: SourceFile, span: Span, row: nat)
    requires
        row <= 999,
    ensures
        line_label(row).len() == 5,
        ({
            let column = source.column(span.start as int);
            let wide = source.column(span.end as int) - column;
            let one_line = source.row(span.end as int) == source.row(span.start as int);
            let carets: nat = if one_line && wide > 1 {
                wide as nat
            } else {
                1
            };
            (one_line ==> wide >= 0) ==> plain(
                shown_mark(column + 4, source.mark_width(span) as nat),
            ) == repeated(' ', (5 + (column - 1)) as nat) + repeated('^', carets) + "\n"@
                + repeated(' ', (5 + (column - 1)) as nat) + "here\n"@
        }),
{
    reveal_with_fuel(decimal, 3);
    reveal_strlit(": ");
    reveal_strlit("\n");
    reveal_strlit("here");
    reveal_strlit("here\n");
    let column = source.column(span.start as int);
    let wide = source.mark_width(span) as nat;
    let mark = shown_mark(column + 4, wide);
    lemma_plain_mark(mark);
    let carets = repeated('^', if wide > 0 { wide } else { 1 });
    lemma_plain_one(mark[0], repeated(' ', column + 4));
    lemma_plain_one(mark[1], carets);
    lemma_plain_one(mark[2], seq!['\n']);
    lemma_plain_one(mark[3], repeated(' ', column + 4));
    lemma_plain_one(mark[4], "here"@);
    lemma_plain_one(mark[5], seq!['\n']);
    assert(plain(mark) =~= repeated(' ', column + 4) + carets + "\n"@ + repeated(' ', column + 4)
        + "here\n"@);
}

proof fn lemma_plain_mark(m: Seq<StyledView>)
    requires
        m.len() == 6,
    ensures
        plain(m) == plain(seq![m[0]]) + plain(seq![m[1]]) + plain(seq![m[2]]) + plain(seq![m[3]])
            + plain(seq![m[4]]) + plain(seq![m[5]]),
{
    assert(m =~= seq![m[0]] + seq![m[1]] + seq![m[2]] + seq![m[3]] + seq![m[4]] + seq![m[5]]);
    lemma_plain(seq![m[0]] + seq![m[1]] + seq![m[2]] + seq![m[3]] + seq![m[4]], seq![m[5]]);
    lemma_plain(seq![m[0]] + seq![m[1]] + seq![m[2]] + seq![m[3]], seq![m[4]]);
    lemma_plain(seq![m[0]] + seq![m[1]] + seq![m[2]], seq![m[3]]);
    lemma_plain(seq![m[0]] + seq![m[1]], seq![m[2]]);
    lemma_plain(seq![m[0]], seq![m[1]]);
}

} // verus!
