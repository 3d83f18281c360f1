//! The database aggregate: one task store and one note store, persisted as
//! a single versioned byte buffer.

use vstd::prelude::*;

use crate::codec::{dec_notes_store, dec_tasks_store, dec_u8, enc_notes_store, enc_tasks_store,
    enc_u8};
use crate::codec::{lemma_rt_notes_store, lemma_rt_tasks_store, notes_store_bounded,
    spec_dec_notes_store, spec_dec_tasks_store, spec_dec_u8, spec_enc_notes_store,
    spec_enc_tasks_store, tasks_store_bounded};
use crate::errors::DbError;
use crate::note::{Notes, NotesView};
use crate::task::{Tasks, TasksView};

verus! {

/// The version byte the codec writes and the only one it accepts back.
pub const FORMAT_VERSION: u8 = 1;

/// The persisted unit: exactly one task store and one note store. The
/// aggregate is the unit of encoding; neither store persists alone.
#[derive(Debug, Clone)]
pub struct Database {
    pub tasks: Tasks,
    pub notes: Notes,
}

/// The mathematical shape of a database.
pub struct DatabaseView {
    pub tasks: TasksView,
    pub notes: NotesView,
}

impl View for Database {
    type V = DatabaseView;

    open spec fn view(&self) -> DatabaseView {
        DatabaseView { tasks: self.tasks@, notes: self.notes@ }
    }
}

impl DatabaseView {
    /// Both stores hold their sorted, duplicate-free invariant.
    pub open spec fn wf(self) -> bool {
        &&& self.tasks.wf()
        &&& self.notes.wf()
    }

    /// Every count in the database fits the wire format; every database
    /// held in memory is bounded.
    pub open spec fn bounded(self) -> bool {
        &&& tasks_store_bounded(self.tasks)
        &&& notes_store_bounded(self.notes)
    }
}

impl Database {
    /// The database invariant, on the executable value.
    pub open spec fn wf(self) -> bool {
        self@.wf()
    }
}

impl Default for Database {
    /// A fresh database of two empty stores.
    fn default() -> (r: Database)
        ensures
            r.wf(),
            r@.tasks.tasks.len() == 0,
            r@.notes.notes.len() == 0,
    {
        Database { tasks: Tasks::default(), notes: Notes::default() }
    }
}

/// The encoding of a database: the version byte, the task store, the note
/// store.
pub open spec fn spec_enc_db(d: DatabaseView) -> Seq<u8> {
    seq![FORMAT_VERSION] + spec_enc_tasks_store(d.tasks) + spec_enc_notes_store(d.notes)
}

/// The decoding of a database prefix: how many bytes it takes and what it
/// holds, or nothing when the bytes are not a valid encoding.
pub open spec fn spec_dec_db(s: Seq<u8>) -> Option<(DatabaseView, int)> {
    match spec_dec_u8(s) {
        None => None,
        Some((b, _)) => if b == FORMAT_VERSION {
            match spec_dec_tasks_store(s.skip(1)) {
                None => None,
                Some((tasks, d2)) => match spec_dec_notes_store(s.skip(1 + d2)) {
                    None => None,
                    Some((notes, d3)) => Some((DatabaseView { tasks, notes }, 1 + d2 + d3)),
                },
            }
        } else {
            None
        },
    }
}

/// What a whole byte buffer decodes to: a database whose encoding takes
/// exactly the buffer, or nothing.
pub open spec fn spec_decode(bytes: Seq<u8>) -> Option<DatabaseView> {
    match spec_dec_db(bytes) {
        None => None,
        Some((d, n)) => if n == bytes.len() {
            Some(d)
        } else {
            None
        },
    }
}

impl Database {
    /// Deterministically encodes the whole aggregate into a byte buffer;
    /// succeeds for every well-formed database.
    pub fn encode(&self) -> (r: Vec<u8>)
        requires
            self.wf(),
        ensures
            r@ == spec_enc_db(self@),
            self@.bounded(),
    {
        let mut out: Vec<u8> = Vec::new();
        enc_u8(&mut out, FORMAT_VERSION);
        enc_tasks_store(&mut out, &self.tasks);
        enc_notes_store(&mut out, &self.notes);
        proof {
            assert(out@ =~= spec_enc_db(self@));
        }
        out
    }

    /// The exact inverse of `encode` on the bytes it produces; on any
    /// other bytes it fails with a decode fault, and with nothing else.
    pub fn decode(input: &[u8]) -> (r: Result<Database, DbError>)
        ensures
            match r {
                Ok(db) => db.wf() && spec_decode(input@) == Some(db@),
                Err(e) => e == DbError::DecodeFault && spec_decode(input@) is None,
            },
    {
        proof {
            assert(input@.skip(0) =~= input@);
        }
        match dec_u8(input, 0) {
            None => Err(DbError::DecodeFault),
            Some((b, p1)) => {
                if b != FORMAT_VERSION {
                    Err(DbError::DecodeFault)
                } else {
                    match dec_tasks_store(input, p1) {
                        None => Err(DbError::DecodeFault),
                        Some((tasks, p2)) => {
                            match dec_notes_store(input, p2) {
                                None => Err(DbError::DecodeFault),
                                Some((notes, p3)) => {
                                    if p3 == input.len() {
                                        Ok(Database { tasks, notes })
                                    } else {
                                        Err(DbError::DecodeFault)
                                    }
                                },
                            }
                        },
                    }
                }
            },
        }
    }
}

impl Database {
    /// The decision a load makes once the disk has answered. A read fault
    /// passes through unchanged, so a missing file stays `NotFound`,
    /// distinguished from the `DecodeFault` a corrupt existing file earns;
    /// bytes that were read are decoded.
    pub fn from_read(outcome: Result<Vec<u8>, DbError>) -> (r: Result<Database, DbError>)
        ensures
            match outcome {
                Err(e) => r == Err::<Database, DbError>(e),
                Ok(bytes) => match r {
                    Ok(db) => db.wf() && spec_decode(bytes@) == Some(db@),
                    Err(e) => e == DbError::DecodeFault && spec_decode(bytes@) is None,
                },
            },
    {
        match outcome {
            Err(e) => Err(e),
            Ok(bytes) => Database::decode(bytes.as_slice()),
        }
    }
}

/// Decoding the encoding of any well-formed database yields a database
/// equal to it field for field: identities, timestamps, optional fields,
/// dependency sets and record order all round-trip.
pub proof fn lemma_encode_decode_round_trip(d: DatabaseView)
    requires
        d.wf(),
        d.bounded(),
    ensures
        spec_decode(spec_enc_db(d)) == Some(d),
{
    let e2 = spec_enc_tasks_store(d.tasks);
    let e3 = spec_enc_notes_store(d.notes);
    let s = spec_enc_db(d);
    lemma_rt_tasks_store(d.tasks, e3);
    lemma_rt_notes_store(d.notes, Seq::empty());
    assert(e3 + Seq::<u8>::empty() =~= e3);
    assert(s[0] == FORMAT_VERSION);
    assert(s.skip(1) =~= e2 + e3);
    assert(s.skip(1 + e2.len() as int) =~= e3);
}

} // verus!
