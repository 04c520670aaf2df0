//! The two record kinds a vault stores: credentials and notes.
//!
//! Every record carries an opaque identifier that is drawn once, at
//! construction, and never changes afterwards.

use vstd::prelude::*;

verus! {

/// A username/password/URL record with a display name and favorite flag.
#[derive(Debug, Clone, PartialEq, Eq)]
pub struct Credential {
    pub id: String,
    pub name: String,
    pub favorite: bool,
    pub username: String,
    pub password: String,
    pub url: String,
}

/// The mathematical value of a `Credential`: its fields as sequences.
pub ghost struct CredentialView {
    pub id: Seq<char>,
    pub name: Seq<char>,
    pub favorite: bool,
    pub username: Seq<char>,
    pub password: Seq<char>,
    pub url: Seq<char>,
}

impl View for Credential {
    type V = CredentialView;

    open spec fn view(&self) -> CredentialView {
        CredentialView {
            id: self.id@,
            name: self.name@,
            favorite: self.favorite,
            username: self.username@,
            password: self.password@,
            url: self.url@,
        }
    }
}

/// A free-text record with a display name and favorite flag.
#[derive(Debug, Clone, PartialEq, Eq)]
pub struct Note {
    pub id: String,
    pub name: String,
    pub favorite: bool,
    pub content: String,
}

/// The mathematical value of a `Note`.
pub ghost struct NoteView {
    pub id: Seq<char>,
    pub name: Seq<char>,
    pub favorite: bool,
    pub content: Seq<char>,
}

impl View for Note {
    type V = NoteView;

    open spec fn view(&self) -> NoteView {
        NoteView { id: self.id@, name: self.name@, favorite: self.favorite, content: self.content@ }
    }
}

/// Relies on `uuid::Uuid::new_v4` and its hyphenated rendering through
/// `Display`/`ToString`: a freshly drawn random version-4 UUID printed in
/// hyphenated form, which is always 36 characters long. The value itself is
/// random, so nothing more is promised of it.
#[verifier::external_body]
fn fresh_id() -> (r: String)
    ensures
        r@.len() == 36,
{
    uuid::Uuid::new_v4().to_string()
}

impl Credential {
    /// Builds a credential from its field values, drawing a fresh identifier.
    pub fn new(name: &str, username: &str, password: &str, url: &str) -> (r: Credential)
        ensures
            r.id@.len() == 36,
            r.name@ == name@,
            r.favorite == false,
            r.username@ == username@,
            r.password@ == password@,
            r.url@ == url@,
    {
        Credential {
            id: fresh_id(),
            name: name.to_owned(),
            favorite: false,
            username: username.to_owned(),
            password: password.to_owned(),
            url: url.to_owned(),
        }
    }
}

impl Note {
    /// Builds a note from its field values, drawing a fresh identifier.
    pub fn new(name: &str, content: &str) -> (r: Note)
        ensures
            r.id@.len() == 36,
            r.name@ == name@,
            r.favorite == false,
            r.content@ == content@,
    {
        Note { id: fresh_id(), name: name.to_owned(), favorite: false, content: content.to_owned() }
    }
}

} // verus!
