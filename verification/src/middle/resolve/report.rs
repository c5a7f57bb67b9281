//! What is reported of errors in names.

use crate::frontend::lexer::{LexError, Span};
use crate::frontend::report::push_all;
use crate::frontend::SourceFile;
use crate::middle::resolve::rules::{NameError, NameFault};
use crate::style::{
    colored_text, doc, push_colored, push_colored_str, push_str, Shade, Styled, StyledView,
};
use vstd::prelude::*;

verus! {

/// What is said of an error in front of the name.
pub open spec fn fault_text(fault: NameFault) -> Seq<char> {
    match fault {
        NameFault::DuplicateDefinition => ": duplicate definition for global identifier `"@,
        NameFault::IllegalFunctionName => ": function name `"@,
        NameFault::UnresolvedImport => ": failed to resolve import `"@,
        NameFault::DuplicateBinding => ": duplicate definition for identifier `"@,
        NameFault::UnresolvedName => ": unresolved name for identifier `"@,
    }
}

/// What is said of an error behind the name.
pub open spec fn fault_place(source: SourceFile, fault: NameFault, span: Span) -> Seq<StyledView> {
    match fault {
        NameFault::DuplicateDefinition | NameFault::DuplicateBinding => seq![
            StyledView::Text("` "@),
            StyledView::Text(source.place(span)),
        ],
        NameFault::IllegalFunctionName => seq![
            StyledView::Text("` is malformed at "@),
            StyledView::Text(source.position(span)),
        ],
        NameFault::UnresolvedImport | NameFault::UnresolvedName => seq![
            StyledView::Text("` "@),
            colored_text(source.place(span), Shade::White),
        ],
    }
}

/// What is reported of an error.
pub open spec fn name_reported(source: SourceFile, error: NameError) -> Seq<StyledView> {
    seq![
        colored_text("error"@, Shade::Red),
        StyledView::Text(fault_text(error.fault)),
        StyledView::Text(source.selected(error.span)),
    ] + fault_place(source, error.fault, error.span) + seq![StyledView::Text("\n"@)]
        + source.highlighted(error.span).parts
}

impl NameError {
    /// What is said of the error in front of the name.
    fn head(&self) -> (r: &'static str)
        ensures
            r@ == fault_text(self.fault),
    {
        match self.fault {
            NameFault::DuplicateDefinition => ": duplicate definition for global identifier `",
            NameFault::IllegalFunctionName => ": function name `",
            NameFault::UnresolvedImport => ": failed to resolve import `",
            NameFault::DuplicateBinding => ": duplicate definition for identifier `",
            NameFault::UnresolvedName => ": unresolved name for identifier `",
        }
    }

    /// Reports the error, which is in `source`.
    pub fn report(&self, source: &SourceFile) -> (r: (Vec<Styled>, Option<LexError>))
        requires
            source.has_span(self.span),
            source.can_show(self.span),
        ensures
            doc(r.0@) == name_reported(*source, *self),
            r.1 == source.highlighted(self.span).error,
    {
        let mut parts: Vec<Styled> = Vec::new();
        assert(doc(parts@) =~= Seq::<StyledView>::empty());
        push_colored_str(&mut parts, "error", Shade::Red);
        push_str(&mut parts, self.head());
        push_str(&mut parts, source.text_of(self.span));
        match self.fault {
            NameFault::DuplicateDefinition | NameFault::DuplicateBinding => {
                push_str(&mut parts, "` ");
                push_str(&mut parts, source.place_text(self.span).as_str());
            }
            NameFault::IllegalFunctionName => {
                push_str(&mut parts, "` is malformed at ");
                push_str(&mut parts, source.format_span_position(self.span).as_str());
            }
            NameFault::UnresolvedImport | NameFault::UnresolvedName => {
                push_str(&mut parts, "` ");
                push_colored(&mut parts, source.place_text(self.span), Shade::White);
            }
        }
        push_str(&mut parts, "\n");
        let (lines, error) = source.highlight_span(self.span);
        push_all(&mut parts, lines);
        assert(doc(parts@) =~= name_reported(*source, *self));
        (parts, error)
    }
}

} // verus!
