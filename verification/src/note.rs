//! Notes and the identity-sorted note store.

use vstd::prelude::*;
use vstd::string::StringExecFns;

use crate::clock::now_micros;
use crate::ident::fresh_identity;
use crate::store::{sorted_keys, Keyed};
use crate::store::{lemma_sorted_insert, lemma_sorted_remove, lemma_sorted_update};

verus! {

/// A note record: identity, creation time, free text. Never mutated after
/// construction.
#[derive(Debug, Clone)]
pub struct Note {
    /// The 128-bit identity that orders and distinguishes records.
    pub id: u128,
    /// Creation time, microseconds since the Unix epoch, UTC.
    pub created: i64,
    /// Free text.
    pub content: String,
}

/// The mathematical shape of a note.
pub struct NoteView {
    pub id: u128,
    pub created: i64,
    pub content: Seq<char>,
}

impl View for Note {
    type V = NoteView;

    open spec fn view(&self) -> NoteView {
        NoteView { id: self.id, created: self.created, content: self.content@ }
    }
}

impl Keyed for NoteView {
    open spec fn key(self) -> u128 {
        self.id
    }
}

/// The views of a sequence of notes.
pub open spec fn note_views(s: Seq<Note>) -> Seq<NoteView> {
    Seq::new(s.len(), |i: int| s[i]@)
}

impl Note {
    /// A fresh note: new identity, creation time now, the given text.
    pub fn new(content: &str) -> (n: Note)
        ensures
            n@.content == content@,
    {
        Note { id: fresh_identity(), created: now_micros(), content: content.to_owned() }
    }

    /// The display text of the note.
    pub fn fmt(&self) -> (r: String)
        ensures
            r@ == "* "@ + self@.content,
    {
        String::from_str("* ").concat(self.content.as_str())
    }
}

/// Lower-bound binary search over a note store's strictly ascending
/// sequence.
fn find_note(v: &Vec<Note>, key: u128) -> (r: (bool, usize))
    requires
        sorted_keys(note_views(v@)),
    ensures
        r.1 <= v@.len(),
        r.0 <==> (r.1 < v@.len() && note_views(v@)[r.1 as int].id == key),
        forall|k: int| 0 <= k < r.1 ==> #[trigger] note_views(v@)[k].id < key,
        forall|k: int| r.1 <= k < v@.len() ==> #[trigger] note_views(v@)[k].id >= key,
        !r.0 ==> forall|k: int| r.1 <= k < v@.len() ==> #[trigger] note_views(v@)[k].id > key,
{
    let ghost vs = note_views(v@);
    let mut lo: usize = 0;
    let mut hi: usize = v.len();
    while lo < hi
        invariant
            lo <= hi <= v@.len(),
            vs == note_views(v@),
            vs.len() == v@.len(),
            sorted_keys(vs),
            forall|k: int| 0 <= k < lo ==> #[trigger] vs[k].id < key,
            forall|k: int| hi <= k < vs.len() ==> #[trigger] vs[k].id >= key,
        decreases hi - lo,
    {
        let mid = lo + (hi - lo) / 2;
        let probe = v[mid].id;
        assert(probe == vs[mid as int].id);
        if probe < key {
            assert forall|k: int| 0 <= k < mid + 1 implies #[trigger] vs[k].id < key by {
                if k < mid {
                    assert(vs[k].key() < vs[mid as int].key());
                }
            }
            lo = mid + 1;
        } else {
            assert forall|k: int| mid <= k < vs.len() implies #[trigger] vs[k].id >= key by {
                if k > mid {
                    assert(vs[mid as int].key() < vs[k].key());
                }
            }
            hi = mid;
        }
    }
    let found = lo < v.len() && v[lo].id == key;
    proof {
        assert(lo < v@.len() ==> note_views(v@)[lo as int].id == v@[lo as int]@.id);
        if !found {
            assert forall|k: int| lo <= k < v@.len() implies #[trigger] vs[k].id > key by {
                if k > lo {
                    assert(vs[lo as int].key() < vs[k].key());
                }
            }
        }
    }
    (found, lo)
}

/// The note store: a group identity, a group name, and the notes in
/// strictly ascending identity order.
#[derive(Debug, Clone)]
pub struct Notes {
    pub(crate) id: u128,
    pub(crate) group_name: String,
    pub(crate) notes: Vec<Note>,
}

/// The mathematical shape of a note store.
pub struct NotesView {
    pub id: u128,
    pub group_name: Seq<char>,
    pub notes: Seq<NoteView>,
}

impl View for Notes {
    type V = NotesView;

    open(crate) spec fn view(&self) -> NotesView {
        NotesView { id: self.id, group_name: self.group_name@, notes: note_views(self.notes@) }
    }
}

impl NotesView {
    /// The store invariant: strictly ascending identities.
    pub open spec fn wf(self) -> bool {
        sorted_keys(self.notes)
    }

    /// Whether some note in the sequence carries the identity.
    pub open spec fn has_id(self, id: u128) -> bool {
        exists|k: int| 0 <= k < self.notes.len() && (#[trigger] self.notes[k]).id == id
    }
}

impl Notes {
    /// The store invariant, on the executable value.
    pub open spec fn wf(self) -> bool {
        self@.wf()
    }
}

impl Default for Notes {
    /// A fresh empty store named "root" under a new group identity.
    fn default() -> (r: Notes)
        ensures
            r.wf(),
            r@.group_name == "root"@,
            r@.notes.len() == 0,
    {
        Notes { id: fresh_identity(), group_name: String::from_str("root"), notes: Vec::new() }
    }
}

impl Notes {
    /// The full ordered sequence of notes, a read-only view: in a
    /// well-formed store it comes back in strictly ascending identity
    /// order, whatever sequence of insertions built it.
    pub fn get_notes(&self) -> (r: &Vec<Note>)
        ensures
            note_views(r@) == self@.notes,
            self.wf() ==> sorted_keys(note_views(r@)),
    {
        &self.notes
    }

    /// Looks the identity up by binary search; returns the note that
    /// carries it, or nothing when no note does.
    pub fn get_note(&self, id: u128) -> (r: Option<&Note>)
        requires
            self.wf(),
        ensures
            match r {
                Some(n) => self@.notes.contains(n@) && n@.id == id,
                None => !self@.has_id(id),
            },
    {
        let (found, i) = find_note(&self.notes, id);
        if found {
            let n = &self.notes[i];
            assert(self@.notes[i as int] == n@);
            assert(self@.notes.contains(n@));
            Some(n)
        } else {
            proof {
                if self@.has_id(id) {
                    let k = choose|k: int|
                        0 <= k < self@.notes.len() && (#[trigger] self@.notes[k]).id == id;
                    assert(note_views(self.notes@)[k].id == id);
                }
            }
            None
        }
    }

    /// Inserts the note, keeping ascending identity order. A note already
    /// carrying the same identity is replaced; every other note stays.
    pub fn add(&mut self, note: Note)
        requires
            old(self).wf(),
        ensures
            final(self).wf(),
            final(self)@.id == old(self)@.id,
            final(self)@.group_name == old(self)@.group_name,
            forall|v: NoteView| #[trigger]
                final(self)@.notes.contains(v) <==> (old(self)@.notes.contains(v) && v.id
                    != note@.id) || v == note@,
    {
        let ghost pre = note_views(self.notes@);
        let ghost nv = note@;
        let (found, i) = find_note(&self.notes, note.id);
        if found {
            let ghost pre_vec = self.notes@;
            self.notes.remove(i);
            let ghost mid_vec = self.notes@;
            self.notes.insert(i, note);
            proof {
                pre_vec.remove_ensures(i as int);
                mid_vec.insert_ensures(i as int, note);
                assert forall|k: int| 0 <= k < pre.len() implies note_views(self.notes@)[k]
                    == pre.update(i as int, nv)[k] by {
                    if k > i {
                        assert(mid_vec[k - 1] == pre_vec[k]);
                    }
                }
                assert(note_views(self.notes@) =~= pre.update(i as int, nv));
                lemma_sorted_update(pre, i as int, nv);
            }
        } else {
            let ghost pre_vec = self.notes@;
            self.notes.insert(i, note);
            proof {
                pre_vec.insert_ensures(i as int, note);
                assert(note_views(self.notes@) =~= pre.insert(i as int, nv));
                lemma_sorted_insert(pre, i as int, nv);
                assert forall|v: NoteView| #[trigger] pre.contains(v) implies v.id != nv.id by {
                    let k = choose|k: int| 0 <= k < pre.len() && pre[k] == v;
                }
            }
        }
    }

    /// Removes the note carrying the identity, preserving the order of the
    /// rest; when no note carries it, the store is left unchanged.
    pub fn remove(&mut self, note_id: u128)
        requires
            old(self).wf(),
        ensures
            final(self).wf(),
            final(self)@.id == old(self)@.id,
            final(self)@.group_name == old(self)@.group_name,
            forall|v: NoteView| #[trigger]
                final(self)@.notes.contains(v) <==> old(self)@.notes.contains(v) && v.id
                    != note_id,
            !old(self)@.has_id(note_id) ==> final(self)@ == old(self)@,
    {
        let ghost pre = note_views(self.notes@);
        let (found, i) = find_note(&self.notes, note_id);
        if found {
            let ghost pre_vec = self.notes@;
            self.notes.remove(i);
            proof {
                pre_vec.remove_ensures(i as int);
                assert(note_views(self.notes@) =~= pre.remove(i as int));
                lemma_sorted_remove(pre, i as int);
                assert(pre[i as int].id == note_id);
            }
        } else {
            proof {
                assert forall|v: NoteView| #[trigger]
                    pre.contains(v) implies v.id != note_id by {
                    let k = choose|k: int| 0 <= k < pre.len() && pre[k] == v;
                }
                if old(self)@.has_id(note_id) {
                    let k = choose|k: int|
                        0 <= k < pre.len() && (#[trigger] pre[k]).id == note_id;
                    assert(pre.contains(pre[k]));
                }
            }
        }
    }
}

} // verus!
