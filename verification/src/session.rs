//! Global compiler session state

use crate::frontend::{SourceFile, SourceFileId};
use crate::index::{wrap32, Index, IndexVec};
use vstd::prelude::*;

verus! {

/// Global compiler session state
pub struct Session {
    /// Stores all of the source files discovered during parsing. Used for error
    /// reporting.
    source_map: IndexVec<SourceFileId, SourceFile>,
}

impl View for Session {
    type V = Seq<SourceFile>;

    closed spec fn view(&self) -> Seq<SourceFile> {
        self.source_map@
    }
}

impl Session {
    /// A session without source files.
    pub fn new() -> (r: Session)
        ensures
            r@ == Seq::<SourceFile>::empty(),
    {
        Session { source_map: IndexVec::new() }
    }

    /// Adds a source file.
    pub fn insert_source_file(&mut self, file: SourceFile) -> (r: SourceFileId)
        ensures
            final(self)@ == old(self)@.push(file),
            r.ix() == wrap32(old(self)@.len() as int),
    {
        self.source_map.push(file)
    }

    /// The source file with an ID.
    pub fn get_source_file(&self, id: SourceFileId) -> (r: Option<&SourceFile>)
        ensures
            0 <= id.ix() < self@.len() ==> r == Some(&self@[id.ix()]),
            !(0 <= id.ix() < self@.len()) ==> r is None,
    {
        self.source_map.get(id)
    }
}

} // verus!
