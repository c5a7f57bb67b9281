//! Source files, and the stages that read them.

use crate::frontend::lexer::Span;
use crate::frontend::source::{before, byte_newlines, bytes_since_newline};
use crate::index::{low_word, Index};
use crate::text::{decimal, push_decimal};
use vstd::prelude::*;
use vstd::utf8::{encode_utf8, is_char_boundary};

pub mod ast;
pub mod grammar;
pub mod highlight;
pub mod intern;
pub mod lexer;
pub mod places;
pub mod report;
pub mod source;

verus! {

/// The number of a source file within a session.
#[derive(Clone, Copy, Debug, PartialEq, Eq, Structural, PartialOrd, Ord, Hash)]
pub struct SourceFileId(pub u32);

impl Index for SourceFileId {
    open spec fn ix(self) -> int {
        self.0 as int
    }

    fn new(idx: usize) -> (r: Self) {
        SourceFileId(low_word(idx))
    }

    fn index(self) -> (r: usize) {
        self.0 as usize
    }
}

/// A text to be compiled, and where it came from.
#[derive(Debug, Clone)]
pub struct SourceFile {
    pub contents: String,
    pub origin: SourceFileOrigin,
}

/// Where a source text came from.
#[derive(Debug, Clone)]
pub enum SourceFileOrigin {
    Memory,
    /// The path of the file.
    File(String),
}

impl SourceFileOrigin {
    /// How the origin is written in messages.
    pub open spec fn shown(&self) -> Seq<char> {
        match *self {
            SourceFileOrigin::Memory => "<memory>"@,
            SourceFileOrigin::File(path) => path@,
        }
    }

    /// How the origin is written in messages.
    pub fn display(&self) -> (r: &str)
        ensures
            r@ == self.shown(),
    {
        match self {
            SourceFileOrigin::Memory => "<memory>",
            SourceFileOrigin::File(path) => path.as_str(),
        }
    }
}

impl SourceFile {
    /// The bytes of the text.
    pub open spec fn bytes(&self) -> Seq<u8> {
        encode_utf8(self.contents@)
    }

    /// The text is as short as any string is, so that its lines and columns
    /// can be counted from one.
    pub open spec fn countable(&self) -> bool {
        self.bytes().len() <= isize::MAX
    }

    /// The line of a byte position, counted from one.
    pub open spec fn row(&self, position: int) -> nat {
        1 + byte_newlines(before(self.bytes(), position))
    }

    /// The column of a byte position in its line, in bytes and counted from
    /// one.
    pub open spec fn column(&self, position: int) -> nat {
        1 + bytes_since_newline(before(self.bytes(), position))
    }

    /// Whether a span selects a piece of the text.
    pub open spec fn has_span(&self, span: Span) -> bool {
        &&& span.start <= span.end <= self.bytes().len()
        &&& is_char_boundary(self.bytes(), span.start as int)
        &&& is_char_boundary(self.bytes(), span.end as int)
    }

    /// The path of a source file that was read from one.
    pub fn as_path(&self) -> (r: &String)
        requires
            self.origin is File,
        ensures
            *r == self.origin->File_0,
    {
        match &self.origin {
            SourceFileOrigin::File(path) => path,
            _ => vstd::pervasive::unreached(),
        }
    }

    /// The text that a span selects.
    pub fn value_of_span(&self, span: Span) -> (r: &str)
        requires
            !span.is_invalid(),
            self.has_span(span),
        ensures
            encode_utf8(r@) == self.bytes().subrange(span.start as int, span.end as int),
    {
        proof {
            let b = self.bytes();
            vstd::utf8::encode_utf8_valid_utf8(self.contents@);
            lemma_boundary_in_suffix(self.contents@, span.start as int, span.end as int);
        }
        let (_head, tail) = self.contents.as_str().split_at(span.start);
        let (middle, _rest) = tail.split_at(span.end - span.start);
        assert(encode_utf8(middle@) =~= self.bytes().subrange(span.start as int, span.end as int));
        middle
    }

    /// Where a span starts, for messages: origin, line and column.
    pub fn format_span_position(&self, span: Span) -> (r: String)
        requires
            !span.is_invalid(),
            self.countable(),
        ensures
            r@ == self.origin.shown() + seq![':'] + decimal(self.row(span.start as int)) + seq![
                ':',
            ] + decimal(self.column(span.start as int)),
    {
        let mut out = self.origin.display().to_owned();
        out.push(':');
        push_decimal(&mut out, self.row_for_position(span.start) as u64);
        out.push(':');
        push_decimal(&mut out, self.column_for_position(span.start) as u64);
        assert(out@ =~= self.origin.shown() + seq![':'] + decimal(
            self.row(span.start as int),
        ) + seq![':'] + decimal(self.column(span.start as int)));
        out
    }

    /// The line of a byte position, counted from one.
    pub fn row_for_position(&self, position: usize) -> (r: usize)
        requires
            self.countable(),
        ensures
            r as nat == self.row(position as int),
    {
        let bytes = self.contents.as_str().as_bytes();
        let mut row: usize = 1;
        let mut i: usize = 0;
        while i < bytes.len() && i < position
            invariant
                bytes@ == self.bytes(),
                bytes@.len() <= isize::MAX,
                0 <= i <= bytes@.len(),
                i <= position,
                row == 1 + byte_newlines(bytes@.take(i as int)),
                row <= i + 1,
            decreases bytes@.len() - i,
        {
            assert(bytes@.take(i + 1).drop_last() =~= bytes@.take(i as int));
            if bytes[i] == 10u8 {
                row = row + 1;
            }
            i = i + 1;
        }
        assert(bytes@.take(i as int) =~= before(bytes@, position as int));
        row
    }

    /// The column of a byte position in its line, in bytes and counted from
    /// one.
    pub fn column_for_position(&self, position: usize) -> (r: usize)
        requires
            self.countable(),
        ensures
            r as nat == self.column(position as int),
            r <= self.bytes().len() + 1,
    {
        let bytes = self.contents.as_str().as_bytes();
        let mut col: usize = 1;
        let mut i: usize = 0;
        while i < bytes.len() && i < position
            invariant
                bytes@ == self.bytes(),
                bytes@.len() <= isize::MAX,
                0 <= i <= bytes@.len(),
                i <= position,
                col == 1 + bytes_since_newline(bytes@.take(i as int)),
                1 <= col <= i + 1,
            decreases bytes@.len() - i,
        {
            assert(bytes@.take(i + 1).drop_last() =~= bytes@.take(i as int));
            if bytes[i] == 10u8 {
                col = 0;
            }
            col = col + 1;
            i = i + 1;
        }
        assert(bytes@.take(i as int) =~= before(bytes@, position as int));
        col
    }
}

/// Behind a character boundary, the later boundaries are boundaries still.
proof fn lemma_boundary_in_suffix(text: Seq<char>, i: int, j: int)
    requires
        0 <= i <= j <= encode_utf8(text).len(),
        is_char_boundary(encode_utf8(text), i),
        is_char_boundary(encode_utf8(text), j),
    ensures
        is_char_boundary(encode_utf8(text).subrange(i, encode_utf8(text).len() as int), j - i),
    decreases text.len(),
{
    let b = encode_utf8(text);
    vstd::utf8::encode_utf8_valid_utf8(text);
    if i == 0 {
        assert(b.subrange(0, b.len() as int) =~= b);
    } else {
        reveal_with_fuel(is_char_boundary, 2);
        if text.len() == 0 {
            assert(b =~= Seq::<u8>::empty());
        } else {
            let tail = text.drop_first();
            vstd::utf8::encode_utf8_first_scalar(text);
            let n = vstd::utf8::length_of_first_scalar(b);
            assert(vstd::utf8::pop_first_scalar(b) =~= encode_utf8(tail));
            lemma_boundary_in_suffix(tail, i - n, j - n);
            assert(encode_utf8(tail).subrange(i - n, encode_utf8(tail).len() as int) =~= b.subrange(
                i,
                b.len() as int,
            ));
        }
    }
}

} // verus!
