//! The vault: two ordered record collections plus inert metadata.

use vstd::prelude::*;

use crate::records::Credential;
use crate::records::CredentialView;
use crate::records::Note;
use crate::records::NoteView;
use crate::sorting;
use crate::sorting::sort_creds;
use crate::sorting::sort_notes;

verus! {

/// The failures the vault reports.
///
/// `NotFound` comes from removal with an unknown identifier; the vault is
/// left unchanged. `MalformedDocument` comes from loading a document that
/// does not match the vault schema.
#[derive(Clone, Copy, PartialEq, Eq, Structural, Debug)]
pub enum VaultError {
    NotFound,
    MalformedDocument,
}

/// The aggregate root: credentials, notes, and metadata.
///
/// `salt`, `nonce` and `encrypted` are reserved for a key-derivation and
/// encryption scheme that is not implemented: no operation ever sets them,
/// and the records are stored and persisted in plain text. The fields are
/// kept as inert metadata so that the persisted document keeps its shape.
#[derive(Debug, Clone, PartialEq, Eq)]
pub struct Vault {
    pub salt: u128,
    pub nonce: u128,
    pub encrypted: bool,
    pub credentials: Vec<Credential>,
    pub notes: Vec<Note>,
    pub version: String,
}

/// The mathematical value of a `Vault`.
pub ghost struct VaultView {
    pub salt: u128,
    pub nonce: u128,
    pub encrypted: bool,
    pub credentials: Seq<CredentialView>,
    pub notes: Seq<NoteView>,
    pub version: Seq<char>,
}

/// The mathematical values of a credential sequence.
pub open spec fn creds_view(s: Seq<Credential>) -> Seq<CredentialView> {
    s.map_values(|c: Credential| c@)
}

/// The mathematical values of a note sequence.
pub open spec fn notes_view(s: Seq<Note>) -> Seq<NoteView> {
    s.map_values(|n: Note| n@)
}

impl View for Vault {
    type V = VaultView;

    open spec fn view(&self) -> VaultView {
        VaultView {
            salt: self.salt,
            nonce: self.nonce,
            encrypted: self.encrypted,
            credentials: creds_view(self.credentials@),
            notes: notes_view(self.notes@),
            version: self.version@,
        }
    }
}

/// All identifiers across both collections are pairwise distinct.
pub open spec fn ids_unique(v: VaultView) -> bool {
    &&& forall|i: int, j: int|
        0 <= i < j < v.credentials.len() ==> #[trigger] v.credentials[i].id != #[trigger] v.credentials[j].id
    &&& forall|i: int, j: int|
        0 <= i < j < v.notes.len() ==> #[trigger] v.notes[i].id != #[trigger] v.notes[j].id
    &&& forall|i: int, j: int|
        0 <= i < v.credentials.len() && 0 <= j < v.notes.len() ==> #[trigger] v.credentials[i].id
            != #[trigger] v.notes[j].id
}

/// An identifier that occurs nowhere in the vault.
pub open spec fn id_fresh(v: VaultView, id: Seq<char>) -> bool {
    &&& forall|i: int| 0 <= i < v.credentials.len() ==> #[trigger] v.credentials[i].id != id
    &&& forall|i: int| 0 <= i < v.notes.len() ==> #[trigger] v.notes[i].id != id
}

impl Vault {
    /// A fresh vault: empty collections, zeroed metadata, the given version
    /// stamp.
    pub fn new(version: &str) -> (r: Vault)
        ensures
            r.salt == 0u128,
            r.nonce == 0u128,
            r.encrypted == false,
            r.credentials@ == Seq::<Credential>::empty(),
            r.notes@ == Seq::<Note>::empty(),
            r.version@ == version@,
    {
        Vault {
            salt: 0,
            nonce: 0,
            encrypted: false,
            credentials: Vec::new(),
            notes: Vec::new(),
            version: version.to_owned(),
        }
    }

    /// Appends the credential; everything else is untouched.
    pub fn add_credential(&mut self, credential: Credential)
        ensures
            final(self).credentials@ == old(self).credentials@.push(credential),
            final(self).notes@ == old(self).notes@,
            final(self).salt == old(self).salt,
            final(self).nonce == old(self).nonce,
            final(self).encrypted == old(self).encrypted,
            final(self).version == old(self).version,
    {
        self.credentials.push(credential);
    }

    /// Appends the note; everything else is untouched.
    pub fn add_note(&mut self, note: Note)
        ensures
            final(self).notes@ == old(self).notes@.push(note),
            final(self).credentials@ == old(self).credentials@,
            final(self).salt == old(self).salt,
            final(self).nonce == old(self).nonce,
            final(self).encrypted == old(self).encrypted,
            final(self).version == old(self).version,
    {
        self.notes.push(note);
    }

    /// The position of the first credential whose id matches, if any.
    pub fn find_credential(&self, id: &str) -> (r: Option<usize>)
        ensures
            match r {
                Some(i) => i < self.credentials@.len() && self.credentials@[i as int].id@ == id@
                    && forall|j: int| 0 <= j < i ==> #[trigger] self.credentials@[j].id@ != id@,
                None => forall|j: int|
                    0 <= j < self.credentials@.len() ==> #[trigger] self.credentials@[j].id@ != id@,
            },
    {
        let n = self.credentials.len();
        let mut index: usize = 0;
        while index < n
            invariant
                index <= n,
                n == self.credentials@.len(),
                forall|j: int| 0 <= j < index ==> #[trigger] self.credentials@[j].id@ != id@,
            decreases n - index,
        {
            if crate::order::string_eq(self.credentials[index].id.as_str(), id) {
                return Some(index);
            }
            index = index + 1;
        }
        None
    }

    /// The position of the first note whose id matches, if any.
    pub fn find_note(&self, id: &str) -> (r: Option<usize>)
        ensures
            match r {
                Some(i) => i < self.notes@.len() && self.notes@[i as int].id@ == id@
                    && forall|j: int| 0 <= j < i ==> #[trigger] self.notes@[j].id@ != id@,
                None => forall|j: int|
                    0 <= j < self.notes@.len() ==> #[trigger] self.notes@[j].id@ != id@,
            },
    {
        let n = self.notes.len();
        let mut index: usize = 0;
        while index < n
            invariant
                index <= n,
                n == self.notes@.len(),
                forall|j: int| 0 <= j < index ==> #[trigger] self.notes@[j].id@ != id@,
            decreases n - index,
        {
            if crate::order::string_eq(self.notes[index].id.as_str(), id) {
                return Some(index);
            }
            index = index + 1;
        }
        None
    }

    /// Removes the first credential with the given id. If no credential has
    /// it, reports `NotFound` and changes nothing.
    pub fn remove_credential_by_id(&mut self, id: &str) -> (r: Result<(), VaultError>)
        ensures
            match r {
                Ok(_) => exists|i: int|
                    {
                        &&& 0 <= i < old(self).credentials@.len()
                        &&& old(self).credentials@[i].id@ == id@
                        &&& forall|j: int| 0 <= j < i ==> #[trigger] old(self).credentials@[j].id@ != id@
                        &&& final(self).credentials@ == old(self).credentials@.remove(i)
                    },
                Err(e) => {
                    &&& e == VaultError::NotFound
                    &&& final(self).credentials@ == old(self).credentials@
                    &&& forall|j: int|
                        0 <= j < old(self).credentials@.len()
                            ==> #[trigger] old(self).credentials@[j].id@ != id@
                },
            },
            final(self).notes@ == old(self).notes@,
            final(self).salt == old(self).salt,
            final(self).nonce == old(self).nonce,
            final(self).encrypted == old(self).encrypted,
            final(self).version == old(self).version,
    {
        match self.find_credential(id) {
            Some(index) => {
                self.credentials.remove(index);
                Ok(())
            },
            None => Err(VaultError::NotFound),
        }
    }

    /// Removes the first note with the given id. If no note has it, reports
    /// `NotFound` and changes nothing.
    pub fn remove_note_by_id(&mut self, id: &str) -> (r: Result<(), VaultError>)
        ensures
            match r {
                Ok(_) => exists|i: int|
                    {
                        &&& 0 <= i < old(self).notes@.len()
                        &&& old(self).notes@[i].id@ == id@
                        &&& forall|j: int| 0 <= j < i ==> #[trigger] old(self).notes@[j].id@ != id@
                        &&& final(self).notes@ == old(self).notes@.remove(i)
                    },
                Err(e) => {
                    &&& e == VaultError::NotFound
                    &&& final(self).notes@ == old(self).notes@
                    &&& forall|j: int|
                        0 <= j < old(self).notes@.len() ==> #[trigger] old(self).notes@[j].id@ != id@
                },
            },
            final(self).credentials@ == old(self).credentials@,
            final(self).salt == old(self).salt,
            final(self).nonce == old(self).nonce,
            final(self).encrypted == old(self).encrypted,
            final(self).version == old(self).version,
    {
        match self.find_note(id) {
            Some(index) => {
                self.notes.remove(index);
                Ok(())
            },
            None => Err(VaultError::NotFound),
        }
    }

    /// Reorders the credentials favorite-first, then by name ascending; the
    /// result is exactly the spec-level insertion sort of the old sequence.
    pub fn sort_credentials(&mut self)
        ensures
            final(self).credentials@ == sort_creds(old(self).credentials@),
            final(self).notes@ == old(self).notes@,
            final(self).salt == old(self).salt,
            final(self).nonce == old(self).nonce,
            final(self).encrypted == old(self).encrypted,
            final(self).version == old(self).version,
    {
        let ghost orig = self.credentials@;
        let mut sorted: Vec<Credential> = Vec::new();
        while self.credentials.len() > 0
            invariant
                sorted@ == sort_creds(orig.take(orig.len() - self.credentials@.len())),
                self.credentials@ =~= orig.skip(orig.len() - self.credentials@.len()),
                self.credentials@.len() <= orig.len(),
                self.notes@ == old(self).notes@,
                self.salt == old(self).salt,
                self.nonce == old(self).nonce,
                self.encrypted == old(self).encrypted,
                self.version == old(self).version,
            decreases self.credentials@.len(),
        {
            let ghost k = orig.len() - self.credentials@.len();
            let c = self.credentials.remove(0);
            proof {
                assert(c == orig[k]);
                assert(orig.skip(k).remove(0) =~= orig.skip(k + 1));
                assert(orig.take(k + 1).drop_last() =~= orig.take(k));
                assert(orig.take(k + 1).last() == orig[k]);
            }
            sorting::insert_cred(&mut sorted, c);
        }
        proof {
            assert(orig.take(orig.len() as int) =~= orig);
        }
        self.credentials = sorted;
    }

    /// Reorders the notes favorite-first, then by name ascending; the result
    /// is exactly the spec-level insertion sort of the old sequence.
    pub fn sort_notes(&mut self)
        ensures
            final(self).notes@ == sort_notes(old(self).notes@),
            final(self).credentials@ == old(self).credentials@,
            final(self).salt == old(self).salt,
            final(self).nonce == old(self).nonce,
            final(self).encrypted == old(self).encrypted,
            final(self).version == old(self).version,
    {
        let ghost orig = self.notes@;
        let mut sorted: Vec<Note> = Vec::new();
        while self.notes.len() > 0
            invariant
                sorted@ == sort_notes(orig.take(orig.len() - self.notes@.len())),
                self.notes@ =~= orig.skip(orig.len() - self.notes@.len()),
                self.notes@.len() <= orig.len(),
                self.credentials@ == old(self).credentials@,
                self.salt == old(self).salt,
                self.nonce == old(self).nonce,
                self.encrypted == old(self).encrypted,
                self.version == old(self).version,
            decreases self.notes@.len(),
        {
            let ghost k = orig.len() - self.notes@.len();
            let n = self.notes.remove(0);
            proof {
                assert(n == orig[k]);
                assert(orig.skip(k).remove(0) =~= orig.skip(k + 1));
                assert(orig.take(k + 1).drop_last() =~= orig.take(k));
                assert(orig.take(k + 1).last() == orig[k]);
            }
            sorting::insert_note(&mut sorted, n);
        }
        proof {
            assert(orig.take(orig.len() as int) =~= orig);
        }
        self.notes = sorted;
    }
}

/// Uniqueness is preserved by insertion: adding a record whose identifier is
/// fresh for the vault keeps all identifiers pairwise distinct. The
/// identifiers themselves come from a random generator, so their freshness
/// is a statistical property of the generator, not of this library.
pub proof fn lemma_add_credential_keeps_ids_unique(v: VaultView, c: CredentialView)
    requires
        ids_unique(v),
        id_fresh(v, c.id),
    ensures
        ids_unique(VaultView { credentials: v.credentials.push(c), ..v }),
{
    let w = VaultView { credentials: v.credentials.push(c), ..v };
    assert(forall|i: int|
        0 <= i < v.credentials.len() ==> #[trigger] w.credentials[i] == v.credentials[i]);
    assert(w.credentials[v.credentials.len() as int] == c);
}

/// Uniqueness is preserved by insertion, stated for notes.
pub proof fn lemma_add_note_keeps_ids_unique(v: VaultView, n: NoteView)
    requires
        ids_unique(v),
        id_fresh(v, n.id),
    ensures
        ids_unique(VaultView { notes: v.notes.push(n), ..v }),
{
    let w = VaultView { notes: v.notes.push(n), ..v };
    assert(forall|i: int| 0 <= i < v.notes.len() ==> #[trigger] w.notes[i] == v.notes[i]);
    assert(w.notes[v.notes.len() as int] == n);
}

} // verus!
