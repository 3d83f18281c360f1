//! Equality between records, stores and databases, as displays and tests
//! compare them: a task by its identity alone, a note by every field, a
//! store by group identity, group name and records in order.

use vstd::prelude::*;

use crate::db::Database;
use crate::note::{Note, Notes};
use crate::task::{Task, Tasks};

verus! {

impl PartialEq for Task {
    /// Identity is the sole equality key of a task; content is not part of
    /// identity.
    fn eq(&self, other: &Task) -> (r: bool) {
        self.id == other.id
    }
}

impl vstd::std_specs::cmp::PartialEqSpecImpl for Task {
    open spec fn obeys_eq_spec() -> bool {
        true
    }

    open spec fn eq_spec(&self, other: &Task) -> bool {
        self.id == other.id
    }
}

impl PartialEq for Tasks {
    /// Stores compare by group identity, group name, and their tasks in
    /// order, tasks comparing by identity.
    fn eq(&self, other: &Tasks) -> (r: bool) {
        self.id == other.id && self.group_name == other.group_name && self.tasks == other.tasks
    }
}

impl vstd::std_specs::cmp::PartialEqSpecImpl for Tasks {
    open spec fn obeys_eq_spec() -> bool {
        true
    }

    open(crate) spec fn eq_spec(&self, other: &Tasks) -> bool {
        &&& self.id == other.id
        &&& self.group_name@ == other.group_name@
        &&& <Vec<Task> as vstd::std_specs::cmp::PartialEqSpec<Vec<Task>>>::eq_spec(&self.tasks, &other.tasks)
    }
}

impl PartialEq for Note {
    /// Notes compare by every field.
    fn eq(&self, other: &Note) -> (r: bool) {
        self.id == other.id && self.created == other.created && self.content == other.content
    }
}

impl vstd::std_specs::cmp::PartialEqSpecImpl for Note {
    open spec fn obeys_eq_spec() -> bool {
        true
    }

    open spec fn eq_spec(&self, other: &Note) -> bool {
        &&& self.id == other.id
        &&& self.created == other.created
        &&& self.content@ == other.content@
    }
}

impl PartialEq for Notes {
    /// Stores compare by group identity, group name, and their notes in
    /// order.
    fn eq(&self, other: &Notes) -> (r: bool) {
        self.id == other.id && self.group_name == other.group_name && self.notes == other.notes
    }
}

impl vstd::std_specs::cmp::PartialEqSpecImpl for Notes {
    open spec fn obeys_eq_spec() -> bool {
        true
    }

    open(crate) spec fn eq_spec(&self, other: &Notes) -> bool {
        &&& self.id == other.id
        &&& self.group_name@ == other.group_name@
        &&& <Vec<Note> as vstd::std_specs::cmp::PartialEqSpec<Vec<Note>>>::eq_spec(&self.notes, &other.notes)
    }
}

impl PartialEq for Database {
    /// Databases compare store by store.
    fn eq(&self, other: &Database) -> (r: bool) {
        self.tasks == other.tasks && self.notes == other.notes
    }
}

impl vstd::std_specs::cmp::PartialEqSpecImpl for Database {
    open spec fn obeys_eq_spec() -> bool {
        true
    }

    open spec fn eq_spec(&self, other: &Database) -> bool {
        &&& <Tasks as vstd::std_specs::cmp::PartialEqSpec<Tasks>>::eq_spec(&self.tasks, &other.tasks)
        &&& <Notes as vstd::std_specs::cmp::PartialEqSpec<Notes>>::eq_spec(&self.notes, &other.notes)
    }
}

} // verus!
