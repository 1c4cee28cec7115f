//! Undoing the preparation of a display group.

use vstd::prelude::*;

use crate::lists::reversed;

verus! {

/// Reversible mutations accumulated while preparing a display group.
///
/// The host records created resources and changed pre-existing resources before each mutation.
/// Failed formation consumes the journal and applies both lists in reverse order; successful
/// formation consumes it without producing rollback work.
#[derive(Debug)]
pub struct FormationJournal<Created, Changed> {
    created: Vec<Created>,
    changed: Vec<Changed>,
}

impl<Created, Changed> Default for FormationJournal<Created, Changed> {
    fn default() -> (journal: Self)
        ensures
            journal.all_created() == Seq::<Created>::empty(),
            journal.all_changed() == Seq::<Changed>::empty(),
    {
        FormationJournal { created: Vec::new(), changed: Vec::new() }
    }
}

impl<Created, Changed> FormationJournal<Created, Changed> {
    /// The created resources, in the order in which they were recorded.
    pub closed spec fn all_created(self) -> Seq<Created> {
        self.created@
    }

    /// The changed resources, in the order in which they were recorded.
    pub closed spec fn all_changed(self) -> Seq<Changed> {
        self.changed@
    }

    pub fn record_created(&mut self, entry: Created)
        ensures
            final(self).all_created() == old(self).all_created().push(entry),
            final(self).all_changed() == old(self).all_changed(),
    {
        self.created.push(entry);
    }

    pub fn record_changed(&mut self, entry: Changed)
        ensures
            final(self).all_changed() == old(self).all_changed().push(entry),
            final(self).all_created() == old(self).all_created(),
    {
        self.changed.push(entry);
    }

    /// Ends a successful formation: nothing is undone.
    pub fn commit(self) {
    }

    /// Ends a failed formation: what was changed and what was created, the latest first.
    pub fn rollback(self) -> (undo: (Vec<Changed>, Vec<Created>))
        ensures
            undo.0@ == self.all_changed().reverse(),
            undo.1@ == self.all_created().reverse(),
    {
        (reversed(self.changed), reversed(self.created))
    }
}

} // verus!
