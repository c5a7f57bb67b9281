//! What is reported of errors in types.

use crate::frontend::intern::Interner;
use crate::frontend::lexer::LexError;
use crate::frontend::SourceFile;
use crate::middle::type_check::error::TypeError;
use crate::middle::type_check::message::{can_say, message_of};
use crate::middle::type_check::{Complaint, Remark};
use crate::style::{doc, push_text, Styled, StyledView};
use crate::text::{decimal, push_decimal};
use vstd::prelude::*;

verus! {

/// Whether a complaint can be reported.
pub open spec fn can_report(names: Seq<Seq<char>>, source: SourceFile, remark: Remark) -> bool {
    match remark {
        Remark::Error(mistake) => can_say(names, mistake) && source.can_show(mistake.origin.span),
        Remark::UnknownType(_) => true,
    }
}

/// What is reported of a complaint.
pub open spec fn complaint_reported(names: Seq<Seq<char>>, source: SourceFile, remark: Remark) -> Seq<
    StyledView,
> {
    match remark {
        Remark::Error(mistake) => source.reported(message_of(names, mistake), mistake.origin.span),
        Remark::UnknownType(id) => seq![
            StyledView::Text(
                "ERROR: unknown type left after type checking without any errors being reported (local_def_id = ItemLocalId("@
                    + decimal(id.0 as nat) + "))\n"@,
            ),
        ],
    }
}

impl TypeError {
    /// Reports the error, which is in `source`.
    pub fn report(&self, source: &SourceFile, names: &Interner) -> (r: (
        Vec<Styled>,
        Option<LexError>,
    ))
        requires
            can_say(names@, self@),
            source.can_show(self.origin.span),
        ensures
            doc(r.0@) == source.reported(message_of(names@, self@), self.origin.span),
            r.1 == source.highlighted(self.origin.span).error,
    {
        source.report_error(self.message(names), self.origin.span)
    }
}

impl Complaint {
    /// Reports the complaint, which is about `source`.
    pub fn report(&self, source: &SourceFile, names: &Interner) -> (r: (
        Vec<Styled>,
        Option<LexError>,
    ))
        requires
            can_report(names@, *source, self@),
        ensures
            doc(r.0@) == complaint_reported(names@, *source, self@),
            r.1 == (match self@ {
                Remark::Error(mistake) => source.highlighted(mistake.origin.span).error,
                Remark::UnknownType(_) => None,
            }),
    {
        match self {
            Complaint::Error(error) => error.report(source, names),
            Complaint::UnknownType(id) => {
                let mut text =
                    "ERROR: unknown type left after type checking without any errors being reported (local_def_id = ItemLocalId(".to_owned();
                push_decimal(&mut text, id.0 as u64);
                text.append("))\n");
                let mut parts: Vec<Styled> = Vec::new();
                assert(doc(parts@) =~= Seq::<StyledView>::empty());
                push_text(&mut parts, text);
                assert(doc(parts@) =~= complaint_reported(names@, *source, self@));
                (parts, None)
            }
        }
    }
}

} // verus!
