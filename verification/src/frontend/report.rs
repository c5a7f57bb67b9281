//! Reports of errors in source files.

use crate::frontend::highlight::lines_of;
use crate::frontend::lexer::{LexError, Span};
use crate::frontend::source::lemma_encode_injective;
use crate::frontend::SourceFile;
use crate::style::{
    colored_text, doc, push_colored, push_colored_str, push_str, Shade, Styled, StyledView,
};
use crate::text::decimal;
use vstd::prelude::*;
use vstd::utf8::encode_utf8;

verus! {

/// Appends pieces.
pub(crate) fn push_all(parts: &mut Vec<Styled>, mut more: Vec<Styled>)
    ensures
        doc(final(parts)@) == doc(old(parts)@) + doc(more@),
{
    let ghost before = parts@;
    let ghost added = more@;
    parts.append(&mut more);
    assert(parts@ =~= before + added);
    assert(doc(parts@) =~= doc(before) + doc(added));
}

impl SourceFile {
    /// The text that a span selects.
    pub open spec fn selected(&self, span: Span) -> Seq<char> {
        choose|t: Seq<char>| #[trigger]
            encode_utf8(t) == self.bytes().subrange(span.start as int, span.end as int)
    }

    /// Where a span starts.
    pub open spec fn position(&self, span: Span) -> Seq<char> {
        self.origin.shown() + seq![':'] + decimal(self.row(span.start as int)) + seq![':']
            + decimal(self.column(span.start as int))
    }

    /// Whether a span can be shown.
    pub open spec fn can_show(&self, span: Span) -> bool {
        &&& !span.is_invalid()
        &&& self.countable()
        &&& self.row(span.start as int) <= lines_of(self.contents@).len()
        &&& self.mark_width(span) >= 0
        &&& !self.highlighted(span).stalled
    }

    /// The text that a span selects.
    pub(crate) fn text_of(&self, span: Span) -> (r: &str)
        requires
            !span.is_invalid(),
            self.has_span(span),
        ensures
            r@ == self.selected(span),
    {
        let r = self.value_of_span(span);
        proof {
            lemma_encode_injective(r@, self.selected(span));
        }
        r
    }

    /// Where a span starts, between brackets.
    pub open spec fn place(&self, span: Span) -> Seq<char> {
        "(at "@ + self.position(span) + ")"@
    }

    /// Where a span starts, between brackets.
    pub(crate) fn place_text(&self, span: Span) -> (r: String)
        requires
            !span.is_invalid(),
            self.countable(),
        ensures
            r@ == self.place(span),
    {
        let mut text = "(at ".to_owned();
        text.append(self.format_span_position(span).as_str());
        text.append(")");
        text
    }

    /// What is reported of an error: what is said of it, where it is, and the
    /// lines around it.
    pub open spec fn reported(&self, message: Seq<StyledView>, span: Span) -> Seq<StyledView> {
        seq![colored_text("error"@, Shade::Red), StyledView::Text(": "@)] + message + seq![
            StyledView::Text(" "@),
            colored_text(self.place(span), Shade::White),
            StyledView::Text("\n"@),
        ] + self.highlighted(span).parts
    }

    /// Reports an error.
    pub fn report_error(&self, message: Vec<Styled>, span: Span) -> (r: (
        Vec<Styled>,
        Option<LexError>,
    ))
        requires
            self.can_show(span),
        ensures
            doc(r.0@) == self.reported(doc(message@), span),
            r.1 == self.highlighted(span).error,
    {
        let ghost words = doc(message@);
        let mut parts: Vec<Styled> = Vec::new();
        assert(doc(parts@) =~= Seq::<StyledView>::empty());
        push_colored_str(&mut parts, "error", Shade::Red);
        push_str(&mut parts, ": ");
        push_all(&mut parts, message);
        push_str(&mut parts, " ");
        push_colored(&mut parts, self.place_text(span), Shade::White);
        push_str(&mut parts, "\n");
        let (lines, error) = self.highlight_span(span);
        push_all(&mut parts, lines);
        assert(doc(parts@) =~= self.reported(words, span));
        (parts, error)
    }
}

} // verus!
