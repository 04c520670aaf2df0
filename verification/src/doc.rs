//! The vault's persisted document format, as a mathematical grammar.
//!
//! `vault_doc` states, character by character, the compact document a
//! vault is persisted as: a key-value object holding `salt`, `nonce`,
//! `encrypted`, `credentials`, `notes` and `version`, with strings quoted
//! and escaped. `parse_document` states which character sequences load
//! back into a vault value: the same objects with the fields in any order
//! and optional whitespace between tokens. `lemma_document_round_trip`
//! proves the persistence contract: every rendered vault parses back to
//! itself.

use vstd::prelude::*;

use crate::records::CredentialView;
use crate::records::NoteView;
use crate::vault::VaultView;

verus! {

// ---------------------------------------------------------------------------
// Rendering
// ---------------------------------------------------------------------------
/// The decimal digit character for `d` (`d < 10`).
pub open spec fn dec_digit(d: nat) -> char {
    if d == 0 {
        '0'
    } else if d == 1 {
        '1'
    } else if d == 2 {
        '2'
    } else if d == 3 {
        '3'
    } else if d == 4 {
        '4'
    } else if d == 5 {
        '5'
    } else if d == 6 {
        '6'
    } else if d == 7 {
        '7'
    } else if d == 8 {
        '8'
    } else {
        '9'
    }
}

/// The lowercase hexadecimal digit character for `d` (`d < 16`).
pub open spec fn hex_digit(d: nat) -> char {
    if d < 10 {
        dec_digit(d)
    } else if d == 10 {
        'a'
    } else if d == 11 {
        'b'
    } else if d == 12 {
        'c'
    } else if d == 13 {
        'd'
    } else if d == 14 {
        'e'
    } else {
        'f'
    }
}

/// The decimal rendering of `n`, most significant digit first.
pub open spec fn dec_doc(n: nat) -> Seq<char>
    decreases n,
{
    if n < 10 {
        seq![dec_digit(n)]
    } else {
        dec_doc(n / 10).push(dec_digit(n % 10))
    }
}

/// The escape of one string character: quotes and backslashes get a
/// backslash escape, control characters a short or `\u00XX` escape, and
/// every other character stands for itself.
pub open spec fn esc_char(c: char) -> Seq<char> {
    if c == '"' {
        seq!['\\', '"']
    } else if c == '\\' {
        seq!['\\', '\\']
    } else if c == '\u{8}' {
        seq!['\\', 'b']
    } else if c == '\t' {
        seq!['\\', 't']
    } else if c == '\n' {
        seq!['\\', 'n']
    } else if c == '\u{c}' {
        seq!['\\', 'f']
    } else if c == '\r' {
        seq!['\\', 'r']
    } else if (c as u32) < 32 {
        seq!['\\', 'u', '0', '0', hex_digit((c as u32 / 16) as nat), hex_digit((c as u32 % 16) as nat)]
    } else {
        seq![c]
    }
}

/// The escape of a whole string.
pub open spec fn esc(s: Seq<char>) -> Seq<char>
    decreases s.len(),
{
    if s.len() == 0 {
        Seq::empty()
    } else {
        esc_char(s[0]) + esc(s.skip(1))
    }
}

/// A quoted, escaped string literal.
pub open spec fn str_doc(s: Seq<char>) -> Seq<char> {
    seq!['"'] + esc(s) + seq!['"']
}

/// A boolean literal.
pub open spec fn bool_doc(b: bool) -> Seq<char> {
    if b {
        "true"@
    } else {
        "false"@
    }
}

/// One credential as an object.
pub open spec fn cred_doc(c: CredentialView) -> Seq<char> {
    "{\"id\":"@ + str_doc(c.id) + ",\"name\":"@ + str_doc(c.name) + ",\"favorite\":"@ + bool_doc(
        c.favorite,
    ) + ",\"username\":"@ + str_doc(c.username) + ",\"password\":"@ + str_doc(c.password)
        + ",\"url\":"@ + str_doc(c.url) + "}"@
}

/// One note as an object.
pub open spec fn note_doc(n: NoteView) -> Seq<char> {
    "{\"id\":"@ + str_doc(n.id) + ",\"name\":"@ + str_doc(n.name) + ",\"favorite\":"@ + bool_doc(
        n.favorite,
    ) + ",\"content\":"@ + str_doc(n.content) + "}"@
}

/// The comma-separated items of the credentials array.
pub open spec fn cred_items_doc(s: Seq<CredentialView>) -> Seq<char>
    decreases s.len(),
{
    if s.len() == 0 {
        Seq::empty()
    } else if s.len() == 1 {
        cred_doc(s[0])
    } else {
        cred_doc(s[0]) + seq![','] + cred_items_doc(s.skip(1))
    }
}

/// The comma-separated items of the notes array.
pub open spec fn note_items_doc(s: Seq<NoteView>) -> Seq<char>
    decreases s.len(),
{
    if s.len() == 0 {
        Seq::empty()
    } else if s.len() == 1 {
        note_doc(s[0])
    } else {
        note_doc(s[0]) + seq![','] + note_items_doc(s.skip(1))
    }
}

/// The credentials array.
pub open spec fn creds_doc(s: Seq<CredentialView>) -> Seq<char> {
    seq!['['] + cred_items_doc(s) + seq![']']
}

/// The notes array.
pub open spec fn notes_doc(s: Seq<NoteView>) -> Seq<char> {
    seq!['['] + note_items_doc(s) + seq![']']
}

/// The whole persisted document of a vault.
pub open spec fn vault_doc(v: VaultView) -> Seq<char> {
    "{\"salt\":"@ + dec_doc(v.salt as nat) + ",\"nonce\":"@ + dec_doc(v.nonce as nat)
        + ",\"encrypted\":"@ + bool_doc(v.encrypted) + ",\"credentials\":"@ + creds_doc(
        v.credentials,
    ) + ",\"notes\":"@ + notes_doc(v.notes) + ",\"version\":"@ + str_doc(v.version) + "}"@
}

// ---------------------------------------------------------------------------
// Parsing
// ---------------------------------------------------------------------------
/// Consumes one expected character.
pub open spec fn scan_char(s: Seq<char>, c: char) -> Option<Seq<char>> {
    if s.len() > 0 && s[0] == c {
        Some(s.skip(1))
    } else {
        None
    }
}

/// Consumes an expected literal.
pub open spec fn scan_lit(s: Seq<char>, t: Seq<char>) -> Option<Seq<char>> {
    if t.is_prefix_of(s) {
        Some(s.skip(t.len() as int))
    } else {
        None
    }
}

/// The value of a hexadecimal digit character, if it is one.
pub open spec fn hex_val(c: char) -> Option<nat> {
    let u = c as u32;
    if 48 <= u && u <= 57 {
        Some((u - 48) as nat)
    } else if 97 <= u && u <= 102 {
        Some((u - 87) as nat)
    } else if 65 <= u && u <= 70 {
        Some((u - 55) as nat)
    } else {
        None
    }
}

/// Consumes the remainder of an escape, after the backslash.
pub open spec fn scan_escape(s: Seq<char>) -> Option<(char, Seq<char>)> {
    if s.len() == 0 {
        None
    } else if s[0] == '"' {
        Some(('"', s.skip(1)))
    } else if s[0] == '\\' {
        Some(('\\', s.skip(1)))
    } else if s[0] == '/' {
        Some(('/', s.skip(1)))
    } else if s[0] == 'b' {
        Some(('\u{8}', s.skip(1)))
    } else if s[0] == 't' {
        Some(('\t', s.skip(1)))
    } else if s[0] == 'n' {
        Some(('\n', s.skip(1)))
    } else if s[0] == 'f' {
        Some(('\u{c}', s.skip(1)))
    } else if s[0] == 'r' {
        Some(('\r', s.skip(1)))
    } else if s[0] == 'u' && s.len() >= 5 && s[1] == '0' && s[2] == '0' && hex_val(s[3]) is Some
        && hex_val(s[4]) is Some {
        Some(((((hex_val(s[3])->Some_0 * 16 + hex_val(s[4])->Some_0) as u8) as char), s.skip(5)))
    } else {
        None
    }
}

/// Consumes string characters up to and including the closing quote.
pub open spec fn scan_str_body(s: Seq<char>) -> Option<(Seq<char>, Seq<char>)>
    decreases s.len(),
{
    if s.len() == 0 {
        None
    } else if s[0] == '"' {
        Some((Seq::empty(), s.skip(1)))
    } else if s[0] == '\\' {
        match scan_escape(s.skip(1)) {
            Some((c, rest)) => match scan_str_body(rest) {
                Some((t, r2)) => Some((seq![c] + t, r2)),
                None => None,
            },
            None => None,
        }
    } else if (s[0] as u32) >= 32 {
        match scan_str_body(s.skip(1)) {
            Some((t, r2)) => Some((seq![s[0]] + t, r2)),
            None => None,
        }
    } else {
        None
    }
}

/// Consumes a quoted string literal.
pub open spec fn scan_string(s: Seq<char>) -> Option<(Seq<char>, Seq<char>)> {
    match scan_char(s, '"') {
        Some(r) => scan_str_body(r),
        None => None,
    }
}

pub open spec fn is_digit(c: char) -> bool {
    48 <= (c as u32) && (c as u32) <= 57
}

pub open spec fn digit_val(c: char) -> nat {
    ((c as u32) - 48) as nat
}

/// Splits off the longest leading run of decimal digits.
pub open spec fn scan_digits(s: Seq<char>) -> (Seq<char>, Seq<char>)
    decreases s.len(),
{
    if s.len() == 0 || !is_digit(s[0]) {
        (Seq::empty(), s)
    } else {
        let (d, r) = scan_digits(s.skip(1));
        (seq![s[0]] + d, r)
    }
}

/// The number a digit run denotes.
pub open spec fn digits_val(d: Seq<char>) -> nat
    decreases d.len(),
{
    if d.len() == 0 {
        0
    } else {
        digits_val(d.drop_last()) * 10 + digit_val(d.last())
    }
}

/// Consumes an unsigned decimal number that fits in 128 bits, with no
/// leading zero.
pub open spec fn scan_u128(s: Seq<char>) -> Option<(u128, Seq<char>)> {
    let (d, r) = scan_digits(s);
    if d.len() == 0 {
        None
    } else if d.len() > 1 && d[0] == '0' {
        None
    } else if digits_val(d) > u128::MAX as nat {
        None
    } else {
        Some((digits_val(d) as u128, r))
    }
}

/// Consumes a boolean literal.
pub open spec fn scan_bool(s: Seq<char>) -> Option<(bool, Seq<char>)> {
    if "true"@.is_prefix_of(s) {
        Some((true, s.skip(4)))
    } else if "false"@.is_prefix_of(s) {
        Some((false, s.skip(5)))
    } else {
        None
    }
}

/// A JSON whitespace character.
pub open spec fn is_ws(c: char) -> bool {
    c == ' ' || c == '\t' || c == '\n' || c == '\r'
}

/// Skips leading whitespace.
pub open spec fn scan_ws(s: Seq<char>) -> Seq<char>
    decreases s.len(),
{
    if s.len() > 0 && is_ws(s[0]) {
        scan_ws(s.skip(1))
    } else {
        s
    }
}

/// Skipping whitespace never grows the input.
proof fn lemma_scan_ws_le(s: Seq<char>)
    ensures
        scan_ws(s).len() <= s.len(),
    decreases s.len(),
{
    if s.len() > 0 && is_ws(s[0]) {
        lemma_scan_ws_le(s.skip(1));
    }
}

/// On input that does not start with whitespace, skipping is the identity.
proof fn lemma_scan_ws_id(s: Seq<char>)
    requires
        s.len() == 0 || !is_ws(s[0]),
    ensures
        scan_ws(s) == s,
{
}

/// `scan_str_body` always consumes at least the closing quote.
proof fn lemma_scan_str_body_consumes(s: Seq<char>)
    ensures
        scan_str_body(s) matches Some((t, r)) ==> r.len() < s.len(),
    decreases s.len(),
{
    if s.len() == 0 {
    } else if s[0] == '"' {
    } else if s[0] == '\\' {
        if let Some((c, rest)) = scan_escape(s.skip(1)) {
            lemma_scan_str_body_consumes(rest);
        }
    } else if (s[0] as u32) >= 32 {
        lemma_scan_str_body_consumes(s.skip(1));
    }
}

/// `scan_digits` splits the input: run plus rest is the whole.
proof fn lemma_scan_digits_split(s: Seq<char>)
    ensures
        scan_digits(s).0.len() + scan_digits(s).1.len() == s.len(),
    decreases s.len(),
{
    if s.len() == 0 || !is_digit(s[0]) {
    } else {
        lemma_scan_digits_split(s.skip(1));
    }
}

/// A successful string scan strictly consumes input.
proof fn lemma_scan_string_consumes(s: Seq<char>)
    ensures
        scan_string(s) matches Some((t, r)) ==> r.len() < s.len(),
{
    if scan_string(s) is Some {
        assert(scan_char(s, '"') is Some);
        assert(scan_string(s) == scan_str_body(s.skip(1)));
        lemma_scan_str_body_consumes(s.skip(1));
    }
}

/// A successful literal scan does not grow the input.
proof fn lemma_scan_lit_consumes(s: Seq<char>, t: Seq<char>)
    ensures
        scan_lit(s, t) matches Some(r) ==> r.len() <= s.len(),
{
}

/// A successful boolean scan strictly consumes input.
proof fn lemma_scan_bool_consumes(s: Seq<char>)
    ensures
        scan_bool(s) matches Some((b, r)) ==> r.len() < s.len(),
{
    reveal_strlit("true");
    reveal_strlit("false");
}

/// Consumes a field's opening: optional whitespace, the quoted key,
/// optional whitespace, the colon, optional whitespace.
pub open spec fn scan_field_start(s: Seq<char>, key: Seq<char>) -> Option<Seq<char>> {
    match scan_lit(scan_ws(s), key) {
        Some(r) => match scan_char(scan_ws(r), ':') {
            Some(r2) => Some(scan_ws(r2)),
            None => None,
        },
        None => None,
    }
}

/// A successful field opening strictly consumes input.
proof fn lemma_scan_field_start_consumes(s: Seq<char>, key: Seq<char>)
    ensures
        scan_field_start(s, key) matches Some(r) ==> r.len() < s.len(),
{
    lemma_scan_ws_le(s);
    if let Some(r1) = scan_lit(scan_ws(s), key) {
        lemma_scan_lit_consumes(scan_ws(s), key);
        lemma_scan_ws_le(r1);
        if let Some(r2) = scan_char(scan_ws(r1), ':') {
            lemma_scan_ws_le(r2);
        }
    }
}

/// A field opening followed by a string value strictly consumes input.
proof fn lemma_field_start_string_consumes(s: Seq<char>, key: Seq<char>)
    ensures
        scan_field_start(s, key) matches Some(r1) ==> (scan_string(r1) matches Some((x, r2))
            ==> r2.len() < s.len()),
{
    if let Some(r1) = scan_field_start(s, key) {
        lemma_scan_field_start_consumes(s, key);
        lemma_scan_string_consumes(r1);
    }
}

/// The fields of a credential object read so far.
pub ghost struct CredPartial {
    pub id: Option<Seq<char>>,
    pub name: Option<Seq<char>>,
    pub favorite: Option<bool>,
    pub username: Option<Seq<char>>,
    pub password: Option<Seq<char>>,
    pub url: Option<Seq<char>>,
}

/// The empty credential partial.
pub open spec fn cred_empty() -> CredPartial {
    CredPartial { id: None, name: None, favorite: None, username: None, password: None, url: None }
}

/// The credential a completed partial denotes, if every field was read.
pub open spec fn cred_of_partial(p: CredPartial) -> Option<CredentialView> {
    if p.id is Some && p.name is Some && p.favorite is Some && p.username is Some && p.password
        is Some && p.url is Some {
        Some(
            CredentialView {
                id: p.id->Some_0,
                name: p.name->Some_0,
                favorite: p.favorite->Some_0,
                username: p.username->Some_0,
                password: p.password->Some_0,
                url: p.url->Some_0,
            },
        )
    } else {
        None
    }
}

/// Consumes the fields of a credential object, in any order, each at most
/// once, up to and including the closing brace. All six fields must be
/// present.
pub open spec fn scan_cred_fields(s: Seq<char>, p: CredPartial) -> Option<
    (CredentialView, Seq<char>),
>
    decreases s.len(),
    via scan_cred_fields_decreases
{
    if p.id is None && scan_field_start(s, "\"id\""@) is Some {
        match scan_string(scan_field_start(s, "\"id\""@)->Some_0) {
            Some((x, r)) => cred_fields_more(CredPartial { id: Some(x), ..p }, r),
            None => None,
        }
    } else if p.name is None && scan_field_start(s, "\"name\""@) is Some {
        match scan_string(scan_field_start(s, "\"name\""@)->Some_0) {
            Some((x, r)) => cred_fields_more(CredPartial { name: Some(x), ..p }, r),
            None => None,
        }
    } else if p.favorite is None && scan_field_start(s, "\"favorite\""@) is Some {
        match scan_bool(scan_field_start(s, "\"favorite\""@)->Some_0) {
            Some((x, r)) => cred_fields_more(CredPartial { favorite: Some(x), ..p }, r),
            None => None,
        }
    } else if p.username is None && scan_field_start(s, "\"username\""@) is Some {
        match scan_string(scan_field_start(s, "\"username\""@)->Some_0) {
            Some((x, r)) => cred_fields_more(CredPartial { username: Some(x), ..p }, r),
            None => None,
        }
    } else if p.password is None && scan_field_start(s, "\"password\""@) is Some {
        match scan_string(scan_field_start(s, "\"password\""@)->Some_0) {
            Some((x, r)) => cred_fields_more(CredPartial { password: Some(x), ..p }, r),
            None => None,
        }
    } else if p.url is None && scan_field_start(s, "\"url\""@) is Some {
        match scan_string(scan_field_start(s, "\"url\""@)->Some_0) {
            Some((x, r)) => cred_fields_more(CredPartial { url: Some(x), ..p }, r),
            None => None,
        }
    } else {
        None
    }
}

/// The separator step shared by the branches of `scan_cred_fields`: a comma
/// continues the object, a closing brace ends it.
pub open spec fn cred_fields_more(p: CredPartial, r: Seq<char>) -> Option<
    (CredentialView, Seq<char>),
>
    decreases r.len(),
    via cred_fields_more_decreases
{
    let r1 = scan_ws(r);
    if r1.len() > 0 && r1[0] == ',' {
        scan_cred_fields(r1.skip(1), p)
    } else if r1.len() > 0 && r1[0] == '}' {
        match cred_of_partial(p) {
            Some(c) => Some((c, r1.skip(1))),
            None => None,
        }
    } else {
        None
    }
}

#[via_fn]
proof fn scan_cred_fields_decreases(s: Seq<char>, p: CredPartial) {
    lemma_field_start_string_consumes(s, "\"id\""@);
    lemma_field_start_string_consumes(s, "\"name\""@);
    lemma_field_start_string_consumes(s, "\"username\""@);
    lemma_field_start_string_consumes(s, "\"password\""@);
    lemma_field_start_string_consumes(s, "\"url\""@);
    if scan_field_start(s, "\"favorite\""@) is Some {
        lemma_scan_field_start_consumes(s, "\"favorite\""@);
        lemma_scan_bool_consumes(scan_field_start(s, "\"favorite\""@)->Some_0);
    }
}

#[via_fn]
proof fn cred_fields_more_decreases(p: CredPartial, r: Seq<char>) {
    lemma_scan_ws_le(r);
}

/// Consumes one credential object.
pub open spec fn scan_cred(s: Seq<char>) -> Option<(CredentialView, Seq<char>)> {
    match scan_char(s, '{') {
        Some(r) => scan_cred_fields(r, cred_empty()),
        None => None,
    }
}

/// The fields of a note object read so far.
pub ghost struct NotePartial {
    pub id: Option<Seq<char>>,
    pub name: Option<Seq<char>>,
    pub favorite: Option<bool>,
    pub content: Option<Seq<char>>,
}

/// The empty note partial.
pub open spec fn note_empty() -> NotePartial {
    NotePartial { id: None, name: None, favorite: None, content: None }
}

/// The note a completed partial denotes, if every field was read.
pub open spec fn note_of_partial(p: NotePartial) -> Option<NoteView> {
    if p.id is Some && p.name is Some && p.favorite is Some && p.content is Some {
        Some(
            NoteView {
                id: p.id->Some_0,
                name: p.name->Some_0,
                favorite: p.favorite->Some_0,
                content: p.content->Some_0,
            },
        )
    } else {
        None
    }
}

/// Consumes the fields of a note object, in any order, each at most once,
/// up to and including the closing brace. All four fields must be present.
pub open spec fn scan_note_fields(s: Seq<char>, p: NotePartial) -> Option<(NoteView, Seq<char>)>
    decreases s.len(),
    via scan_note_fields_decreases
{
    if p.id is None && scan_field_start(s, "\"id\""@) is Some {
        match scan_string(scan_field_start(s, "\"id\""@)->Some_0) {
            Some((x, r)) => note_fields_more(NotePartial { id: Some(x), ..p }, r),
            None => None,
        }
    } else if p.name is None && scan_field_start(s, "\"name\""@) is Some {
        match scan_string(scan_field_start(s, "\"name\""@)->Some_0) {
            Some((x, r)) => note_fields_more(NotePartial { name: Some(x), ..p }, r),
            None => None,
        }
    } else if p.favorite is None && scan_field_start(s, "\"favorite\""@) is Some {
        match scan_bool(scan_field_start(s, "\"favorite\""@)->Some_0) {
            Some((x, r)) => note_fields_more(NotePartial { favorite: Some(x), ..p }, r),
            None => None,
        }
    } else if p.content is None && scan_field_start(s, "\"content\""@) is Some {
        match scan_string(scan_field_start(s, "\"content\""@)->Some_0) {
            Some((x, r)) => note_fields_more(NotePartial { content: Some(x), ..p }, r),
            None => None,
        }
    } else {
        None
    }
}

/// The separator step shared by the branches of `scan_note_fields`.
pub open spec fn note_fields_more(p: NotePartial, r: Seq<char>) -> Option<(NoteView, Seq<char>)>
    decreases r.len(),
    via note_fields_more_decreases
{
    let r1 = scan_ws(r);
    if r1.len() > 0 && r1[0] == ',' {
        scan_note_fields(r1.skip(1), p)
    } else if r1.len() > 0 && r1[0] == '}' {
        match note_of_partial(p) {
            Some(n) => Some((n, r1.skip(1))),
            None => None,
        }
    } else {
        None
    }
}

#[via_fn]
proof fn scan_note_fields_decreases(s: Seq<char>, p: NotePartial) {
    lemma_field_start_string_consumes(s, "\"id\""@);
    lemma_field_start_string_consumes(s, "\"name\""@);
    lemma_field_start_string_consumes(s, "\"content\""@);
    if scan_field_start(s, "\"favorite\""@) is Some {
        lemma_scan_field_start_consumes(s, "\"favorite\""@);
        lemma_scan_bool_consumes(scan_field_start(s, "\"favorite\""@)->Some_0);
    }
}

#[via_fn]
proof fn note_fields_more_decreases(p: NotePartial, r: Seq<char>) {
    lemma_scan_ws_le(r);
}

/// Consumes one note object.
pub open spec fn scan_note(s: Seq<char>) -> Option<(NoteView, Seq<char>)> {
    match scan_char(s, '{') {
        Some(r) => scan_note_fields(r, note_empty()),
        None => None,
    }
}

/// A successful field scan strictly consumes the input.
proof fn lemma_scan_cred_fields_consumes(s: Seq<char>, p: CredPartial)
    ensures
        scan_cred_fields(s, p) matches Some((c, r)) ==> r.len() < s.len(),
    decreases s.len(),
{
    if p.id is None && scan_field_start(s, "\"id\""@) is Some {
        let r1 = scan_field_start(s, "\"id\""@)->Some_0;
        lemma_scan_field_start_consumes(s, "\"id\""@);
        lemma_scan_string_consumes(r1);
        if let Some((x, r)) = scan_string(r1) {
            lemma_scan_ws_le(r);
            let r2 = scan_ws(r);
            if r2.len() > 0 && r2[0] == ',' {
                lemma_scan_cred_fields_consumes(r2.skip(1), CredPartial { id: Some(x), ..p });
            }
        }
    } else if p.name is None && scan_field_start(s, "\"name\""@) is Some {
        let r1 = scan_field_start(s, "\"name\""@)->Some_0;
        lemma_scan_field_start_consumes(s, "\"name\""@);
        lemma_scan_string_consumes(r1);
        if let Some((x, r)) = scan_string(r1) {
            lemma_scan_ws_le(r);
            let r2 = scan_ws(r);
            if r2.len() > 0 && r2[0] == ',' {
                lemma_scan_cred_fields_consumes(r2.skip(1), CredPartial { name: Some(x), ..p });
            }
        }
    } else if p.favorite is None && scan_field_start(s, "\"favorite\""@) is Some {
        let r1 = scan_field_start(s, "\"favorite\""@)->Some_0;
        lemma_scan_field_start_consumes(s, "\"favorite\""@);
        lemma_scan_bool_consumes(r1);
        if let Some((x, r)) = scan_bool(r1) {
            lemma_scan_ws_le(r);
            let r2 = scan_ws(r);
            if r2.len() > 0 && r2[0] == ',' {
                lemma_scan_cred_fields_consumes(r2.skip(1), CredPartial { favorite: Some(x), ..p });
            }
        }
    } else if p.username is None && scan_field_start(s, "\"username\""@) is Some {
        let r1 = scan_field_start(s, "\"username\""@)->Some_0;
        lemma_scan_field_start_consumes(s, "\"username\""@);
        lemma_scan_string_consumes(r1);
        if let Some((x, r)) = scan_string(r1) {
            lemma_scan_ws_le(r);
            let r2 = scan_ws(r);
            if r2.len() > 0 && r2[0] == ',' {
                lemma_scan_cred_fields_consumes(r2.skip(1), CredPartial { username: Some(x), ..p });
            }
        }
    } else if p.password is None && scan_field_start(s, "\"password\""@) is Some {
        let r1 = scan_field_start(s, "\"password\""@)->Some_0;
        lemma_scan_field_start_consumes(s, "\"password\""@);
        lemma_scan_string_consumes(r1);
        if let Some((x, r)) = scan_string(r1) {
            lemma_scan_ws_le(r);
            let r2 = scan_ws(r);
            if r2.len() > 0 && r2[0] == ',' {
                lemma_scan_cred_fields_consumes(r2.skip(1), CredPartial { password: Some(x), ..p });
            }
        }
    } else if p.url is None && scan_field_start(s, "\"url\""@) is Some {
        let r1 = scan_field_start(s, "\"url\""@)->Some_0;
        lemma_scan_field_start_consumes(s, "\"url\""@);
        lemma_scan_string_consumes(r1);
        if let Some((x, r)) = scan_string(r1) {
            lemma_scan_ws_le(r);
            let r2 = scan_ws(r);
            if r2.len() > 0 && r2[0] == ',' {
                lemma_scan_cred_fields_consumes(r2.skip(1), CredPartial { url: Some(x), ..p });
            }
        }
    }
}

/// A successful credential scan consumes at least one character.
proof fn lemma_scan_cred_consumes(s: Seq<char>)
    ensures
        scan_cred(s) matches Some((c, r)) ==> r.len() < s.len(),
{
    if scan_cred(s) is Some {
        lemma_scan_cred_fields_consumes(s.skip(1), cred_empty());
    }
}

/// A successful field scan strictly consumes the input.
proof fn lemma_scan_note_fields_consumes(s: Seq<char>, p: NotePartial)
    ensures
        scan_note_fields(s, p) matches Some((n, r)) ==> r.len() < s.len(),
    decreases s.len(),
{
    if p.id is None && scan_field_start(s, "\"id\""@) is Some {
        let r1 = scan_field_start(s, "\"id\""@)->Some_0;
        lemma_scan_field_start_consumes(s, "\"id\""@);
        lemma_scan_string_consumes(r1);
        if let Some((x, r)) = scan_string(r1) {
            lemma_scan_ws_le(r);
            let r2 = scan_ws(r);
            if r2.len() > 0 && r2[0] == ',' {
                lemma_scan_note_fields_consumes(r2.skip(1), NotePartial { id: Some(x), ..p });
            }
        }
    } else if p.name is None && scan_field_start(s, "\"name\""@) is Some {
        let r1 = scan_field_start(s, "\"name\""@)->Some_0;
        lemma_scan_field_start_consumes(s, "\"name\""@);
        lemma_scan_string_consumes(r1);
        if let Some((x, r)) = scan_string(r1) {
            lemma_scan_ws_le(r);
            let r2 = scan_ws(r);
            if r2.len() > 0 && r2[0] == ',' {
                lemma_scan_note_fields_consumes(r2.skip(1), NotePartial { name: Some(x), ..p });
            }
        }
    } else if p.favorite is None && scan_field_start(s, "\"favorite\""@) is Some {
        let r1 = scan_field_start(s, "\"favorite\""@)->Some_0;
        lemma_scan_field_start_consumes(s, "\"favorite\""@);
        lemma_scan_bool_consumes(r1);
        if let Some((x, r)) = scan_bool(r1) {
            lemma_scan_ws_le(r);
            let r2 = scan_ws(r);
            if r2.len() > 0 && r2[0] == ',' {
                lemma_scan_note_fields_consumes(r2.skip(1), NotePartial { favorite: Some(x), ..p });
            }
        }
    } else if p.content is None && scan_field_start(s, "\"content\""@) is Some {
        let r1 = scan_field_start(s, "\"content\""@)->Some_0;
        lemma_scan_field_start_consumes(s, "\"content\""@);
        lemma_scan_string_consumes(r1);
        if let Some((x, r)) = scan_string(r1) {
            lemma_scan_ws_le(r);
            let r2 = scan_ws(r);
            if r2.len() > 0 && r2[0] == ',' {
                lemma_scan_note_fields_consumes(r2.skip(1), NotePartial { content: Some(x), ..p });
            }
        }
    }
}

/// A successful note scan consumes at least one character.
proof fn lemma_scan_note_consumes(s: Seq<char>)
    ensures
        scan_note(s) matches Some((n, r)) ==> r.len() < s.len(),
{
    if scan_note(s) is Some {
        lemma_scan_note_fields_consumes(s.skip(1), note_empty());
    }
}

/// Consumes the items of a non-empty credentials array, including the
/// closing bracket.
pub open spec fn scan_cred_items(s: Seq<char>) -> Option<(Seq<CredentialView>, Seq<char>)>
    decreases s.len(),
    via scan_cred_items_decreases
{
    match scan_cred(scan_ws(s)) {
        Some((c, r)) => {
            let r1 = scan_ws(r);
            if r1.len() > 0 && r1[0] == ',' {
                match scan_cred_items(r1.skip(1)) {
                    Some((cs, r2)) => Some((seq![c] + cs, r2)),
                    None => None,
                }
            } else if r1.len() > 0 && r1[0] == ']' {
                Some((seq![c], r1.skip(1)))
            } else {
                None
            }
        },
        None => None,
    }
}

#[via_fn]
proof fn scan_cred_items_decreases(s: Seq<char>) {
    lemma_scan_ws_le(s);
    lemma_scan_cred_consumes(scan_ws(s));
    if let Some((c, r)) = scan_cred(scan_ws(s)) {
        lemma_scan_ws_le(r);
    }
}

/// Consumes the items of a non-empty notes array, including the closing
/// bracket.
pub open spec fn scan_note_items(s: Seq<char>) -> Option<(Seq<NoteView>, Seq<char>)>
    decreases s.len(),
    via scan_note_items_decreases
{
    match scan_note(scan_ws(s)) {
        Some((n, r)) => {
            let r1 = scan_ws(r);
            if r1.len() > 0 && r1[0] == ',' {
                match scan_note_items(r1.skip(1)) {
                    Some((ns, r2)) => Some((seq![n] + ns, r2)),
                    None => None,
                }
            } else if r1.len() > 0 && r1[0] == ']' {
                Some((seq![n], r1.skip(1)))
            } else {
                None
            }
        },
        None => None,
    }
}

#[via_fn]
proof fn scan_note_items_decreases(s: Seq<char>) {
    lemma_scan_ws_le(s);
    lemma_scan_note_consumes(scan_ws(s));
    if let Some((n, r)) = scan_note(scan_ws(s)) {
        lemma_scan_ws_le(r);
    }
}

/// Consumes a credentials array.
pub open spec fn scan_creds(s: Seq<char>) -> Option<(Seq<CredentialView>, Seq<char>)> {
    match scan_char(s, '[') {
        Some(r) => {
            let r1 = scan_ws(r);
            if r1.len() > 0 && r1[0] == ']' {
                Some((Seq::empty(), r1.skip(1)))
            } else {
                scan_cred_items(r)
            }
        },
        None => None,
    }
}

/// Consumes a notes array.
pub open spec fn scan_notes(s: Seq<char>) -> Option<(Seq<NoteView>, Seq<char>)> {
    match scan_char(s, '[') {
        Some(r) => {
            let r1 = scan_ws(r);
            if r1.len() > 0 && r1[0] == ']' {
                Some((Seq::empty(), r1.skip(1)))
            } else {
                scan_note_items(r)
            }
        },
        None => None,
    }
}

/// A successful number scan strictly consumes input.
proof fn lemma_scan_u128_consumes(s: Seq<char>)
    ensures
        scan_u128(s) matches Some((v, r)) ==> r.len() < s.len(),
{
    lemma_scan_digits_split(s);
}

/// A successful credential-items scan strictly consumes the input.
proof fn lemma_scan_cred_items_consumes(s: Seq<char>)
    ensures
        scan_cred_items(s) matches Some((cs, r)) ==> r.len() < s.len(),
    decreases s.len(),
{
    lemma_scan_ws_le(s);
    lemma_scan_cred_consumes(scan_ws(s));
    if let Some((c, r)) = scan_cred(scan_ws(s)) {
        lemma_scan_ws_le(r);
        let r1 = scan_ws(r);
        if r1.len() > 0 && r1[0] == ',' {
            lemma_scan_cred_items_consumes(r1.skip(1));
        }
    }
}

/// A successful note-items scan strictly consumes the input.
proof fn lemma_scan_note_items_consumes(s: Seq<char>)
    ensures
        scan_note_items(s) matches Some((ns, r)) ==> r.len() < s.len(),
    decreases s.len(),
{
    lemma_scan_ws_le(s);
    lemma_scan_note_consumes(scan_ws(s));
    if let Some((n, r)) = scan_note(scan_ws(s)) {
        lemma_scan_ws_le(r);
        let r1 = scan_ws(r);
        if r1.len() > 0 && r1[0] == ',' {
            lemma_scan_note_items_consumes(r1.skip(1));
        }
    }
}

/// A successful credentials-array scan strictly consumes the input.
proof fn lemma_scan_creds_consumes(s: Seq<char>)
    ensures
        scan_creds(s) matches Some((cs, r)) ==> r.len() < s.len(),
{
    if scan_creds(s) is Some {
        lemma_scan_ws_le(s.skip(1));
        lemma_scan_cred_items_consumes(s.skip(1));
    }
}

/// A successful notes-array scan strictly consumes the input.
proof fn lemma_scan_notes_consumes(s: Seq<char>)
    ensures
        scan_notes(s) matches Some((ns, r)) ==> r.len() < s.len(),
{
    if scan_notes(s) is Some {
        lemma_scan_ws_le(s.skip(1));
        lemma_scan_note_items_consumes(s.skip(1));
    }
}

/// The fields of the vault object read so far.
pub ghost struct VaultPartial {
    pub salt: Option<u128>,
    pub nonce: Option<u128>,
    pub encrypted: Option<bool>,
    pub credentials: Option<Seq<CredentialView>>,
    pub notes: Option<Seq<NoteView>>,
    pub version: Option<Seq<char>>,
}

/// The empty vault partial.
pub open spec fn vault_empty() -> VaultPartial {
    VaultPartial {
        salt: None,
        nonce: None,
        encrypted: None,
        credentials: None,
        notes: None,
        version: None,
    }
}

/// The vault a completed partial denotes, if every field was read.
pub open spec fn vault_of_partial(p: VaultPartial) -> Option<VaultView> {
    if p.salt is Some && p.nonce is Some && p.encrypted is Some && p.credentials is Some && p.notes
        is Some && p.version is Some {
        Some(
            VaultView {
                salt: p.salt->Some_0,
                nonce: p.nonce->Some_0,
                encrypted: p.encrypted->Some_0,
                credentials: p.credentials->Some_0,
                notes: p.notes->Some_0,
                version: p.version->Some_0,
            },
        )
    } else {
        None
    }
}

/// Consumes the fields of the vault object, in any order, each at most
/// once, up to and including the closing brace. All six fields must be
/// present.
pub open spec fn scan_vault_fields(s: Seq<char>, p: VaultPartial) -> Option<(VaultView, Seq<char>)>
    decreases s.len(),
    via scan_vault_fields_decreases
{
    if p.salt is None && scan_field_start(s, "\"salt\""@) is Some {
        match scan_u128(scan_field_start(s, "\"salt\""@)->Some_0) {
            Some((x, r)) => vault_fields_more(VaultPartial { salt: Some(x), ..p }, r),
            None => None,
        }
    } else if p.nonce is None && scan_field_start(s, "\"nonce\""@) is Some {
        match scan_u128(scan_field_start(s, "\"nonce\""@)->Some_0) {
            Some((x, r)) => vault_fields_more(VaultPartial { nonce: Some(x), ..p }, r),
            None => None,
        }
    } else if p.encrypted is None && scan_field_start(s, "\"encrypted\""@) is Some {
        match scan_bool(scan_field_start(s, "\"encrypted\""@)->Some_0) {
            Some((x, r)) => vault_fields_more(VaultPartial { encrypted: Some(x), ..p }, r),
            None => None,
        }
    } else if p.credentials is None && scan_field_start(s, "\"credentials\""@) is Some {
        match scan_creds(scan_field_start(s, "\"credentials\""@)->Some_0) {
            Some((x, r)) => vault_fields_more(VaultPartial { credentials: Some(x), ..p }, r),
            None => None,
        }
    } else if p.notes is None && scan_field_start(s, "\"notes\""@) is Some {
        match scan_notes(scan_field_start(s, "\"notes\""@)->Some_0) {
            Some((x, r)) => vault_fields_more(VaultPartial { notes: Some(x), ..p }, r),
            None => None,
        }
    } else if p.version is None && scan_field_start(s, "\"version\""@) is Some {
        match scan_string(scan_field_start(s, "\"version\""@)->Some_0) {
            Some((x, r)) => vault_fields_more(VaultPartial { version: Some(x), ..p }, r),
            None => None,
        }
    } else {
        None
    }
}

/// The separator step shared by the branches of `scan_vault_fields`.
pub open spec fn vault_fields_more(p: VaultPartial, r: Seq<char>) -> Option<(VaultView, Seq<char>)>
    decreases r.len(),
    via vault_fields_more_decreases
{
    let r1 = scan_ws(r);
    if r1.len() > 0 && r1[0] == ',' {
        scan_vault_fields(r1.skip(1), p)
    } else if r1.len() > 0 && r1[0] == '}' {
        match vault_of_partial(p) {
            Some(v) => Some((v, r1.skip(1))),
            None => None,
        }
    } else {
        None
    }
}

#[via_fn]
proof fn scan_vault_fields_decreases(s: Seq<char>, p: VaultPartial) {
    if scan_field_start(s, "\"salt\""@) is Some {
        lemma_scan_field_start_consumes(s, "\"salt\""@);
        lemma_scan_u128_consumes(scan_field_start(s, "\"salt\""@)->Some_0);
    }
    if scan_field_start(s, "\"nonce\""@) is Some {
        lemma_scan_field_start_consumes(s, "\"nonce\""@);
        lemma_scan_u128_consumes(scan_field_start(s, "\"nonce\""@)->Some_0);
    }
    if scan_field_start(s, "\"encrypted\""@) is Some {
        lemma_scan_field_start_consumes(s, "\"encrypted\""@);
        lemma_scan_bool_consumes(scan_field_start(s, "\"encrypted\""@)->Some_0);
    }
    if scan_field_start(s, "\"credentials\""@) is Some {
        lemma_scan_field_start_consumes(s, "\"credentials\""@);
        lemma_scan_creds_consumes(scan_field_start(s, "\"credentials\""@)->Some_0);
    }
    if scan_field_start(s, "\"notes\""@) is Some {
        lemma_scan_field_start_consumes(s, "\"notes\""@);
        lemma_scan_notes_consumes(scan_field_start(s, "\"notes\""@)->Some_0);
    }
    lemma_field_start_string_consumes(s, "\"version\""@);
}

#[via_fn]
proof fn vault_fields_more_decreases(p: VaultPartial, r: Seq<char>) {
    lemma_scan_ws_le(r);
}

/// Consumes a whole vault object.
pub open spec fn scan_vault(s: Seq<char>) -> Option<(VaultView, Seq<char>)> {
    match scan_char(s, '{') {
        Some(r) => scan_vault_fields(r, vault_empty()),
        None => None,
    }
}

/// The documents that load into a vault: a single vault object.
///
/// Each object's fields may come in any order, each exactly once and all
/// present; JSON whitespace is allowed between tokens, including before and
/// after the object; nothing but whitespace may follow it. Strings may not
/// hold raw control characters; escapes are read in the short forms, as
/// `\/`, and as `\u00XX`.
pub open spec fn parse_document(s: Seq<char>) -> Option<VaultView> {
    match scan_vault(scan_ws(s)) {
        Some((v, r)) => {
            if scan_ws(r).len() == 0 {
                Some(v)
            } else {
                None
            }
        },
        None => None,
    }
}

// ---------------------------------------------------------------------------
// Round trip: everything rendered parses back to itself
// ---------------------------------------------------------------------------
proof fn lemma_scan_lit_of(t: Seq<char>, rest: Seq<char>)
    ensures
        scan_lit(t + rest, t) == Some(rest),
{
    assert(t.is_prefix_of(t + rest)) by {
        assert((t + rest).subrange(0, t.len() as int) =~= t);
    }
    assert((t + rest).skip(t.len() as int) =~= rest);
}

proof fn lemma_scan_bool_of(b: bool, rest: Seq<char>)
    ensures
        scan_bool(bool_doc(b) + rest) == Some((b, rest)),
{
    reveal_strlit("true");
    reveal_strlit("false");
    if b {
        assert("true"@.is_prefix_of("true"@ + rest)) by {
            assert(("true"@ + rest).subrange(0, 4) =~= "true"@);
        }
        assert(("true"@ + rest).skip(4) =~= rest);
    } else {
        assert(!"true"@.is_prefix_of("false"@ + rest)) by {
            let w = "false"@ + rest;
            if "true"@.is_prefix_of(w) {
                assert("true"@ == w.subrange(0, 4));
                assert("true"@[0] == w[0]);
                assert(w[0] == 'f');
            }
        }
        assert("false"@.is_prefix_of("false"@ + rest)) by {
            assert(("false"@ + rest).subrange(0, 5) =~= "false"@);
        }
        assert(("false"@ + rest).skip(5) =~= rest);
    }
}

proof fn lemma_dec_digit_val(m: nat)
    requires
        m < 10,
    ensures
        is_digit(dec_digit(m)),
        digit_val(dec_digit(m)) == m,
{
}

proof fn lemma_hex_val_digit(m: nat)
    requires
        m < 16,
    ensures
        hex_val(hex_digit(m)) == Some(m),
{
}

proof fn lemma_dec_doc_props(n: nat)
    ensures
        dec_doc(n).len() >= 1,
        forall|k: int| 0 <= k < dec_doc(n).len() ==> is_digit(#[trigger] dec_doc(n)[k]),
        n >= 1 ==> dec_doc(n)[0] != '0',
    decreases n,
{
    if n < 10 {
        lemma_dec_digit_val(n);
    } else {
        lemma_dec_doc_props(n / 10);
        lemma_dec_digit_val(n % 10);
        assert(dec_doc(n) == dec_doc(n / 10).push(dec_digit(n % 10)));
        assert(forall|k: int|
            0 <= k < dec_doc(n / 10).len() ==> #[trigger] dec_doc(n)[k] == dec_doc(n / 10)[k]);
        assert(dec_doc(n)[dec_doc(n).len() - 1] == dec_digit(n % 10));
    }
}

proof fn lemma_scan_digits_of(d: Seq<char>, rest: Seq<char>)
    requires
        forall|k: int| 0 <= k < d.len() ==> is_digit(#[trigger] d[k]),
        rest.len() == 0 || !is_digit(rest[0]),
    ensures
        scan_digits(d + rest) == (d, rest),
    decreases d.len(),
{
    if d.len() == 0 {
        assert(d + rest =~= rest);
    } else {
        let s = d + rest;
        assert(s[0] == d[0]);
        assert(s.skip(1) =~= d.skip(1) + rest);
        assert(forall|k: int| 0 <= k < d.skip(1).len() ==> is_digit(#[trigger] d.skip(1)[k]));
        lemma_scan_digits_of(d.skip(1), rest);
        assert(seq![s[0]] + d.skip(1) =~= d);
    }
}

proof fn lemma_digits_val_dec(n: nat)
    ensures
        digits_val(dec_doc(n)) == n,
    decreases n,
{
    if n < 10 {
        lemma_dec_digit_val(n);
        assert(dec_doc(n) == seq![dec_digit(n)]);
        assert(dec_doc(n).drop_last() =~= Seq::<char>::empty());
        assert(digits_val(Seq::<char>::empty()) == 0);
        assert(dec_doc(n).last() == dec_digit(n));
    } else {
        lemma_digits_val_dec(n / 10);
        lemma_dec_digit_val(n % 10);
        assert(dec_doc(n).drop_last() =~= dec_doc(n / 10));
        assert(dec_doc(n).last() == dec_digit(n % 10));
        assert(digits_val(dec_doc(n)) == digits_val(dec_doc(n / 10)) * 10 + digit_val(
            dec_digit(n % 10),
        ));
    }
}

/// A maximal digit run at position `i` is exactly what `scan_digits` takes.
pub proof fn lemma_scan_digits_run(s: Seq<char>, i: int, e: int)
    requires
        0 <= i <= e <= s.len(),
        forall|q: int| i <= q < e ==> is_digit(#[trigger] s[q]),
        e == s.len() || !is_digit(s[e]),
    ensures
        scan_digits(s.skip(i)) == (s.subrange(i, e), s.skip(e)),
    decreases e - i,
{
    if i == e {
        assert(s.subrange(i, e) =~= Seq::<char>::empty());
        if s.skip(i).len() > 0 {
            assert(s.skip(i)[0] == s[i]);
        }
    } else {
        assert(s.skip(i)[0] == s[i]);
        assert(s.skip(i).skip(1) =~= s.skip(i + 1));
        lemma_scan_digits_run(s, i + 1, e);
        assert(seq![s[i]] + s.subrange(i + 1, e) =~= s.subrange(i, e));
    }
}

/// A prefix of a digit run never denotes a larger number than the run.
pub proof fn lemma_digits_val_prefix(d: Seq<char>, m: int)
    requires
        0 <= m <= d.len(),
    ensures
        digits_val(d.take(m)) <= digits_val(d),
    decreases d.len(),
{
    if m == d.len() {
        assert(d.take(m) =~= d);
    } else {
        assert(d.take(m) =~= d.drop_last().take(m));
        lemma_digits_val_prefix(d.drop_last(), m);
    }
}

proof fn lemma_scan_u128_of(n: u128, rest: Seq<char>)
    requires
        rest.len() == 0 || !is_digit(rest[0]),
    ensures
        scan_u128(dec_doc(n as nat) + rest) == Some((n, rest)),
{
    let d = dec_doc(n as nat);
    lemma_dec_doc_props(n as nat);
    lemma_scan_digits_of(d, rest);
    lemma_digits_val_dec(n as nat);
    if n >= 10 {
        assert(d[0] != '0');
    }
}

/// One escaped character scans back to the character it encodes, whatever
/// follows it.
proof fn lemma_scan_body_esc_char(c: char, tail: Seq<char>)
    ensures
        scan_str_body(esc_char(c) + tail) == match scan_str_body(tail) {
            Some((t, r)) => Some::<(Seq<char>, Seq<char>)>((seq![c] + t, r)),
            None => None::<(Seq<char>, Seq<char>)>,
        },
{
    let s = esc_char(c) + tail;
    if c == '"' || c == '\\' || c == '\u{8}' || c == '\t' || c == '\n' || c == '\u{c}' || c == '\r' {
        assert(s[0] == '\\');
        assert(s.skip(1) =~= esc_char(c).skip(1) + tail);
        assert(s.skip(1)[0] == esc_char(c)[1]);
        assert(s.skip(1).skip(1) =~= tail);
        assert(scan_escape(s.skip(1)) == Some((c, tail)));
    } else if (c as u32) < 32 {
        let hi = (c as u32 / 16) as nat;
        let lo = (c as u32 % 16) as nat;
        assert(s[0] == '\\');
        let e = s.skip(1);
        assert(e =~= seq!['u', '0', '0', hex_digit(hi), hex_digit(lo)] + tail);
        assert(e[0] == 'u' && e[1] == '0' && e[2] == '0' && e[3] == hex_digit(hi) && e[4]
            == hex_digit(lo));
        lemma_hex_val_digit(hi);
        lemma_hex_val_digit(lo);
        assert(e.skip(5) =~= tail);
        assert(hi * 16 + lo == c as u32);
        assert((((hi * 16 + lo) as u8) as char) == c);
        assert(scan_escape(e) == Some((c, tail)));
    } else {
        assert(s[0] == c);
        assert(s[0] != '"' && s[0] != '\\');
        assert(s.skip(1) =~= tail);
    }
    if let Some((t, r)) = scan_str_body(tail) {
        assert(scan_str_body(s) == Some((seq![c] + t, r)));
    }
}

/// An escaped string followed by its closing quote scans back to itself.
proof fn lemma_scan_body_of(x: Seq<char>, rest: Seq<char>)
    ensures
        scan_str_body(esc(x) + seq!['"'] + rest) == Some((x, rest)),
    decreases x.len(),
{
    if x.len() == 0 {
        let s = esc(x) + seq!['"'] + rest;
        assert(s =~= seq!['"'] + rest);
        assert(s[0] == '"');
        assert(s.skip(1) =~= rest);
    } else {
        let tail = esc(x.skip(1)) + seq!['"'] + rest;
        lemma_scan_body_of(x.skip(1), rest);
        assert(esc(x) + seq!['"'] + rest =~= esc_char(x[0]) + tail);
        lemma_scan_body_esc_char(x[0], tail);
        assert(seq![x[0]] + x.skip(1) =~= x);
    }
}

/// A rendered string literal scans back to the string it encodes.
proof fn lemma_scan_string_of(x: Seq<char>, rest: Seq<char>)
    ensures
        scan_string(str_doc(x) + rest) == Some((x, rest)),
{
    let s = str_doc(x) + rest;
    assert(s[0] == '"');
    assert(s.skip(1) =~= esc(x) + seq!['"'] + rest);
    lemma_scan_body_of(x, rest);
}

/// Concatenation is associative.
pub proof fn lemma_assoc<T>(x: Seq<T>, y: Seq<T>, z: Seq<T>)
    ensures
        (x + y) + z == x + (y + z),
{
    assert((x + y) + z =~= x + (y + z));
}

/// The escape of a concatenation is the concatenation of the escapes.
pub proof fn lemma_esc_concat(a: Seq<char>, b: Seq<char>)
    ensures
        esc(a + b) == esc(a) + esc(b),
    decreases a.len(),
{
    if a.len() == 0 {
        assert(a + b =~= b);
        assert(Seq::<char>::empty() + esc(b) =~= esc(b));
    } else {
        assert((a + b)[0] == a[0]);
        assert((a + b).skip(1) =~= a.skip(1) + b);
        lemma_esc_concat(a.skip(1), b);
        lemma_assoc(esc_char(a[0]), esc(a.skip(1)), esc(b));
    }
}

/// Appending one more item to the credentials list appends a comma and its
/// rendering.
pub proof fn lemma_cred_items_snoc(s: Seq<CredentialView>, c: CredentialView)
    ensures
        cred_items_doc(s.push(c)) == if s.len() == 0 {
            cred_doc(c)
        } else {
            cred_items_doc(s) + seq![','] + cred_doc(c)
        },
    decreases s.len(),
{
    reveal_with_fuel(cred_items_doc, 3);
    if s.len() == 0 {
        assert(s.push(c) =~= seq![c]);
    } else if s.len() == 1 {
        assert(s.push(c).skip(1) =~= seq![c]);
        assert(s.push(c)[0] == s[0]);
    } else {
        assert(s.push(c)[0] == s[0]);
        assert(s.push(c).skip(1) =~= s.skip(1).push(c));
        lemma_cred_items_snoc(s.skip(1), c);
        let a = cred_doc(s[0]) + seq![','];
        let b = cred_items_doc(s.skip(1));
        let d = cred_doc(c);
        assert(a + ((b + seq![',']) + d) =~= ((a + b) + seq![',']) + d);
    }
}

/// Appending one more item to the notes list appends a comma and its
/// rendering.
pub proof fn lemma_note_items_snoc(s: Seq<NoteView>, n: NoteView)
    ensures
        note_items_doc(s.push(n)) == if s.len() == 0 {
            note_doc(n)
        } else {
            note_items_doc(s) + seq![','] + note_doc(n)
        },
    decreases s.len(),
{
    reveal_with_fuel(note_items_doc, 3);
    if s.len() == 0 {
        assert(s.push(n) =~= seq![n]);
    } else if s.len() == 1 {
        assert(s.push(n).skip(1) =~= seq![n]);
        assert(s.push(n)[0] == s[0]);
    } else {
        assert(s.push(n)[0] == s[0]);
        assert(s.push(n).skip(1) =~= s.skip(1).push(n));
        lemma_note_items_snoc(s.skip(1), n);
        let a = note_doc(s[0]) + seq![','];
        let b = note_items_doc(s.skip(1));
        let d = note_doc(n);
        assert(a + ((b + seq![',']) + d) =~= ((a + b) + seq![',']) + d);
    }
}

// Small alignment facts about the literals, each proved in its own query
// so that the object lemmas stay cheap.
proof fn lemma_align_brace()
    ensures
        "}"@ == seq!['}'],
{
    reveal_strlit("}");
    assert("}"@ =~= seq!['}']);
}

proof fn lemma_align_open_id()
    ensures
        "{\"id\":"@ == seq!['{'] + "\"id\":"@,
{
    reveal_strlit("{\"id\":");
    reveal_strlit("\"id\":");
    assert("{\"id\":"@ =~= seq!['{'] + "\"id\":"@);
}

proof fn lemma_align_open_salt()
    ensures
        "{\"salt\":"@ == seq!['{'] + "\"salt\":"@,
{
    reveal_strlit("{\"salt\":");
    reveal_strlit("\"salt\":");
    assert("{\"salt\":"@ =~= seq!['{'] + "\"salt\":"@);
}

proof fn lemma_align_name()
    ensures
        ",\"name\":"@ == seq![','] + "\"name\":"@,
{
    reveal_strlit(",\"name\":");
    reveal_strlit("\"name\":");
    assert(",\"name\":"@ =~= seq![','] + "\"name\":"@);
}

proof fn lemma_align_favorite()
    ensures
        ",\"favorite\":"@ == seq![','] + "\"favorite\":"@,
{
    reveal_strlit(",\"favorite\":");
    reveal_strlit("\"favorite\":");
    assert(",\"favorite\":"@ =~= seq![','] + "\"favorite\":"@);
}

proof fn lemma_align_username()
    ensures
        ",\"username\":"@ == seq![','] + "\"username\":"@,
{
    reveal_strlit(",\"username\":");
    reveal_strlit("\"username\":");
    assert(",\"username\":"@ =~= seq![','] + "\"username\":"@);
}

proof fn lemma_align_password()
    ensures
        ",\"password\":"@ == seq![','] + "\"password\":"@,
{
    reveal_strlit(",\"password\":");
    reveal_strlit("\"password\":");
    assert(",\"password\":"@ =~= seq![','] + "\"password\":"@);
}

proof fn lemma_align_url()
    ensures
        ",\"url\":"@ == seq![','] + "\"url\":"@,
{
    reveal_strlit(",\"url\":");
    reveal_strlit("\"url\":");
    assert(",\"url\":"@ =~= seq![','] + "\"url\":"@);
}

proof fn lemma_align_content()
    ensures
        ",\"content\":"@ == seq![','] + "\"content\":"@,
{
    reveal_strlit(",\"content\":");
    reveal_strlit("\"content\":");
    assert(",\"content\":"@ =~= seq![','] + "\"content\":"@);
}

proof fn lemma_align_nonce()
    ensures
        ",\"nonce\":"@ == seq![','] + "\"nonce\":"@,
{
    reveal_strlit(",\"nonce\":");
    reveal_strlit("\"nonce\":");
    assert(",\"nonce\":"@ =~= seq![','] + "\"nonce\":"@);
}

proof fn lemma_align_encrypted()
    ensures
        ",\"encrypted\":"@ == seq![','] + "\"encrypted\":"@,
{
    reveal_strlit(",\"encrypted\":");
    reveal_strlit("\"encrypted\":");
    assert(",\"encrypted\":"@ =~= seq![','] + "\"encrypted\":"@);
}

proof fn lemma_align_credentials()
    ensures
        ",\"credentials\":"@ == seq![','] + "\"credentials\":"@,
{
    reveal_strlit(",\"credentials\":");
    reveal_strlit("\"credentials\":");
    assert(",\"credentials\":"@ =~= seq![','] + "\"credentials\":"@);
}

proof fn lemma_align_notes()
    ensures
        ",\"notes\":"@ == seq![','] + "\"notes\":"@,
{
    reveal_strlit(",\"notes\":");
    reveal_strlit("\"notes\":");
    assert(",\"notes\":"@ =~= seq![','] + "\"notes\":"@);
}

proof fn lemma_align_version()
    ensures
        ",\"version\":"@ == seq![','] + "\"version\":"@,
{
    reveal_strlit(",\"version\":");
    reveal_strlit("\"version\":");
    assert(",\"version\":"@ =~= seq![','] + "\"version\":"@);
}

// Each key-with-colon literal splits into the quoted key and the colon.
proof fn lemma_key_id()
    ensures
        "\"id\":"@ == "\"id\""@ + seq![':'],
        "\"id\""@.len() > 0 && "\"id\""@[0] == '"',
{
    reveal_strlit("\"id\":");
    reveal_strlit("\"id\"");
    assert("\"id\":"@ =~= "\"id\""@ + seq![':']);
}

proof fn lemma_key_name()
    ensures
        "\"name\":"@ == "\"name\""@ + seq![':'],
        "\"name\""@.len() > 0 && "\"name\""@[0] == '"',
{
    reveal_strlit("\"name\":");
    reveal_strlit("\"name\"");
    assert("\"name\":"@ =~= "\"name\""@ + seq![':']);
}

proof fn lemma_key_favorite()
    ensures
        "\"favorite\":"@ == "\"favorite\""@ + seq![':'],
        "\"favorite\""@.len() > 0 && "\"favorite\""@[0] == '"',
{
    reveal_strlit("\"favorite\":");
    reveal_strlit("\"favorite\"");
    assert("\"favorite\":"@ =~= "\"favorite\""@ + seq![':']);
}

proof fn lemma_key_username()
    ensures
        "\"username\":"@ == "\"username\""@ + seq![':'],
        "\"username\""@.len() > 0 && "\"username\""@[0] == '"',
{
    reveal_strlit("\"username\":");
    reveal_strlit("\"username\"");
    assert("\"username\":"@ =~= "\"username\""@ + seq![':']);
}

proof fn lemma_key_password()
    ensures
        "\"password\":"@ == "\"password\""@ + seq![':'],
        "\"password\""@.len() > 0 && "\"password\""@[0] == '"',
{
    reveal_strlit("\"password\":");
    reveal_strlit("\"password\"");
    assert("\"password\":"@ =~= "\"password\""@ + seq![':']);
}

proof fn lemma_key_url()
    ensures
        "\"url\":"@ == "\"url\""@ + seq![':'],
        "\"url\""@.len() > 0 && "\"url\""@[0] == '"',
{
    reveal_strlit("\"url\":");
    reveal_strlit("\"url\"");
    assert("\"url\":"@ =~= "\"url\""@ + seq![':']);
}

proof fn lemma_key_content()
    ensures
        "\"content\":"@ == "\"content\""@ + seq![':'],
        "\"content\""@.len() > 0 && "\"content\""@[0] == '"',
{
    reveal_strlit("\"content\":");
    reveal_strlit("\"content\"");
    assert("\"content\":"@ =~= "\"content\""@ + seq![':']);
}

proof fn lemma_key_salt()
    ensures
        "\"salt\":"@ == "\"salt\""@ + seq![':'],
        "\"salt\""@.len() > 0 && "\"salt\""@[0] == '"',
{
    reveal_strlit("\"salt\":");
    reveal_strlit("\"salt\"");
    assert("\"salt\":"@ =~= "\"salt\""@ + seq![':']);
}

proof fn lemma_key_nonce()
    ensures
        "\"nonce\":"@ == "\"nonce\""@ + seq![':'],
        "\"nonce\""@.len() > 0 && "\"nonce\""@[0] == '"',
{
    reveal_strlit("\"nonce\":");
    reveal_strlit("\"nonce\"");
    assert("\"nonce\":"@ =~= "\"nonce\""@ + seq![':']);
}

proof fn lemma_key_encrypted()
    ensures
        "\"encrypted\":"@ == "\"encrypted\""@ + seq![':'],
        "\"encrypted\""@.len() > 0 && "\"encrypted\""@[0] == '"',
{
    reveal_strlit("\"encrypted\":");
    reveal_strlit("\"encrypted\"");
    assert("\"encrypted\":"@ =~= "\"encrypted\""@ + seq![':']);
}

proof fn lemma_key_credentials()
    ensures
        "\"credentials\":"@ == "\"credentials\""@ + seq![':'],
        "\"credentials\""@.len() > 0 && "\"credentials\""@[0] == '"',
{
    reveal_strlit("\"credentials\":");
    reveal_strlit("\"credentials\"");
    assert("\"credentials\":"@ =~= "\"credentials\""@ + seq![':']);
}

proof fn lemma_key_notes()
    ensures
        "\"notes\":"@ == "\"notes\""@ + seq![':'],
        "\"notes\""@.len() > 0 && "\"notes\""@[0] == '"',
{
    reveal_strlit("\"notes\":");
    reveal_strlit("\"notes\"");
    assert("\"notes\":"@ =~= "\"notes\""@ + seq![':']);
}

proof fn lemma_key_version()
    ensures
        "\"version\":"@ == "\"version\""@ + seq![':'],
        "\"version\""@.len() > 0 && "\"version\""@[0] == '"',
{
    reveal_strlit("\"version\":");
    reveal_strlit("\"version\"");
    assert("\"version\":"@ =~= "\"version\""@ + seq![':']);
}

/// On the canonical text, a field opening is the key-with-colon literal.
proof fn lemma_field_start_of(key_colon: Seq<char>, key: Seq<char>, v: Seq<char>)
    requires
        key_colon == key + seq![':'],
        key.len() > 0 && key[0] == '"',
        v.len() > 0 && !is_ws(v[0]),
    ensures
        scan_field_start(key_colon + v, key) == Some(v),
{
    let u = key_colon + v;
    let m = seq![':'] + v;
    assert(u == key + m) by {
        lemma_assoc(key, seq![':'], v);
    }
    assert(u.len() > 0 && !is_ws(u[0])) by {
        assert(u[0] == key[0]);
    }
    lemma_scan_ws_id(u);
    lemma_scan_lit_of(key, m);
    assert(m.len() > 0 && !is_ws(m[0]));
    lemma_scan_ws_id(m);
    assert(m.skip(1) =~= v);
    lemma_scan_ws_id(v);
}

/// A string value starts with a quote, which is not whitespace.
proof fn lemma_str_doc_first(x: Seq<char>, tail: Seq<char>)
    ensures
        (str_doc(x) + tail).len() > 0,
        !is_ws((str_doc(x) + tail)[0]),
{
    assert((str_doc(x) + tail)[0] == '"');
}

// One field step of each object scan, each proved in its own query.
proof fn lemma_cred_take_id(x: Seq<char>, tail: Seq<char>, p: CredPartial)
    requires
        p.id is None,
    ensures
        scan_cred_fields("\"id\":"@ + (str_doc(x) + tail), p) == cred_fields_more(
            CredPartial { id: Some(x), ..p },
            tail,
        ),
{
    lemma_key_id();
    lemma_str_doc_first(x, tail);
    lemma_field_start_of("\"id\":"@, "\"id\""@, str_doc(x) + tail);
    lemma_scan_string_of(x, tail);
}

proof fn lemma_cred_take_name(x: Seq<char>, tail: Seq<char>, p: CredPartial)
    requires
        p.id is Some,
        p.name is None,
    ensures
        scan_cred_fields("\"name\":"@ + (str_doc(x) + tail), p) == cred_fields_more(
            CredPartial { name: Some(x), ..p },
            tail,
        ),
{
    lemma_key_name();
    lemma_str_doc_first(x, tail);
    lemma_field_start_of("\"name\":"@, "\"name\""@, str_doc(x) + tail);
    lemma_scan_string_of(x, tail);
}

proof fn lemma_cred_take_favorite(b: bool, tail: Seq<char>, p: CredPartial)
    requires
        p.id is Some,
        p.name is Some,
        p.favorite is None,
    ensures
        scan_cred_fields("\"favorite\":"@ + (bool_doc(b) + tail), p) == cred_fields_more(
            CredPartial { favorite: Some(b), ..p },
            tail,
        ),
{
    lemma_key_favorite();
    assert((bool_doc(b) + tail).len() > 0 && !is_ws((bool_doc(b) + tail)[0])) by {
        reveal_strlit("true");
        reveal_strlit("false");
        assert((bool_doc(b) + tail)[0] == bool_doc(b)[0]);
    }
    lemma_field_start_of("\"favorite\":"@, "\"favorite\""@, bool_doc(b) + tail);
    lemma_scan_bool_of(b, tail);
}

proof fn lemma_cred_take_username(x: Seq<char>, tail: Seq<char>, p: CredPartial)
    requires
        p.id is Some,
        p.name is Some,
        p.favorite is Some,
        p.username is None,
    ensures
        scan_cred_fields("\"username\":"@ + (str_doc(x) + tail), p) == cred_fields_more(
            CredPartial { username: Some(x), ..p },
            tail,
        ),
{
    lemma_key_username();
    lemma_str_doc_first(x, tail);
    lemma_field_start_of("\"username\":"@, "\"username\""@, str_doc(x) + tail);
    lemma_scan_string_of(x, tail);
}

proof fn lemma_cred_take_password(x: Seq<char>, tail: Seq<char>, p: CredPartial)
    requires
        p.id is Some,
        p.name is Some,
        p.favorite is Some,
        p.username is Some,
        p.password is None,
    ensures
        scan_cred_fields("\"password\":"@ + (str_doc(x) + tail), p) == cred_fields_more(
            CredPartial { password: Some(x), ..p },
            tail,
        ),
{
    lemma_key_password();
    lemma_str_doc_first(x, tail);
    lemma_field_start_of("\"password\":"@, "\"password\""@, str_doc(x) + tail);
    lemma_scan_string_of(x, tail);
}

proof fn lemma_cred_take_url(x: Seq<char>, tail: Seq<char>, p: CredPartial)
    requires
        p.id is Some,
        p.name is Some,
        p.favorite is Some,
        p.username is Some,
        p.password is Some,
        p.url is None,
    ensures
        scan_cred_fields("\"url\":"@ + (str_doc(x) + tail), p) == cred_fields_more(
            CredPartial { url: Some(x), ..p },
            tail,
        ),
{
    lemma_key_url();
    lemma_str_doc_first(x, tail);
    lemma_field_start_of("\"url\":"@, "\"url\""@, str_doc(x) + tail);
    lemma_scan_string_of(x, tail);
}

proof fn lemma_note_take_id(x: Seq<char>, tail: Seq<char>, p: NotePartial)
    requires
        p.id is None,
    ensures
        scan_note_fields("\"id\":"@ + (str_doc(x) + tail), p) == note_fields_more(
            NotePartial { id: Some(x), ..p },
            tail,
        ),
{
    lemma_key_id();
    lemma_str_doc_first(x, tail);
    lemma_field_start_of("\"id\":"@, "\"id\""@, str_doc(x) + tail);
    lemma_scan_string_of(x, tail);
}

proof fn lemma_note_take_name(x: Seq<char>, tail: Seq<char>, p: NotePartial)
    requires
        p.id is Some,
        p.name is None,
    ensures
        scan_note_fields("\"name\":"@ + (str_doc(x) + tail), p) == note_fields_more(
            NotePartial { name: Some(x), ..p },
            tail,
        ),
{
    lemma_key_name();
    lemma_str_doc_first(x, tail);
    lemma_field_start_of("\"name\":"@, "\"name\""@, str_doc(x) + tail);
    lemma_scan_string_of(x, tail);
}

proof fn lemma_note_take_favorite(b: bool, tail: Seq<char>, p: NotePartial)
    requires
        p.id is Some,
        p.name is Some,
        p.favorite is None,
    ensures
        scan_note_fields("\"favorite\":"@ + (bool_doc(b) + tail), p) == note_fields_more(
            NotePartial { favorite: Some(b), ..p },
            tail,
        ),
{
    lemma_key_favorite();
    assert((bool_doc(b) + tail).len() > 0 && !is_ws((bool_doc(b) + tail)[0])) by {
        reveal_strlit("true");
        reveal_strlit("false");
        assert((bool_doc(b) + tail)[0] == bool_doc(b)[0]);
    }
    lemma_field_start_of("\"favorite\":"@, "\"favorite\""@, bool_doc(b) + tail);
    lemma_scan_bool_of(b, tail);
}

proof fn lemma_note_take_content(x: Seq<char>, tail: Seq<char>, p: NotePartial)
    requires
        p.id is Some,
        p.name is Some,
        p.favorite is Some,
        p.content is None,
    ensures
        scan_note_fields("\"content\":"@ + (str_doc(x) + tail), p) == note_fields_more(
            NotePartial { content: Some(x), ..p },
            tail,
        ),
{
    lemma_key_content();
    lemma_str_doc_first(x, tail);
    lemma_field_start_of("\"content\":"@, "\"content\""@, str_doc(x) + tail);
    lemma_scan_string_of(x, tail);
}

proof fn lemma_vault_take_salt(x: u128, tail: Seq<char>, p: VaultPartial)
    requires
        p.salt is None,
        tail.len() == 0 || !is_digit(tail[0]),
    ensures
        scan_vault_fields("\"salt\":"@ + (dec_doc(x as nat) + tail), p) == vault_fields_more(
            VaultPartial { salt: Some(x), ..p },
            tail,
        ),
{
    lemma_key_salt();
    lemma_dec_doc_props(x as nat);
    assert((dec_doc(x as nat) + tail).len() > 0 && !is_ws((dec_doc(x as nat) + tail)[0])) by {
        lemma_dec_doc_props(x as nat);
        assert((dec_doc(x as nat) + tail)[0] == dec_doc(x as nat)[0]);
        assert(is_digit(dec_doc(x as nat)[0]));
    }
    lemma_field_start_of("\"salt\":"@, "\"salt\""@, dec_doc(x as nat) + tail);
    lemma_scan_u128_of(x, tail);
}

proof fn lemma_vault_take_nonce(x: u128, tail: Seq<char>, p: VaultPartial)
    requires
        p.salt is Some,
        p.nonce is None,
        tail.len() == 0 || !is_digit(tail[0]),
    ensures
        scan_vault_fields("\"nonce\":"@ + (dec_doc(x as nat) + tail), p) == vault_fields_more(
            VaultPartial { nonce: Some(x), ..p },
            tail,
        ),
{
    lemma_key_nonce();
    lemma_dec_doc_props(x as nat);
    assert((dec_doc(x as nat) + tail).len() > 0 && !is_ws((dec_doc(x as nat) + tail)[0])) by {
        lemma_dec_doc_props(x as nat);
        assert((dec_doc(x as nat) + tail)[0] == dec_doc(x as nat)[0]);
        assert(is_digit(dec_doc(x as nat)[0]));
    }
    lemma_field_start_of("\"nonce\":"@, "\"nonce\""@, dec_doc(x as nat) + tail);
    lemma_scan_u128_of(x, tail);
}

proof fn lemma_vault_take_encrypted(b: bool, tail: Seq<char>, p: VaultPartial)
    requires
        p.salt is Some,
        p.nonce is Some,
        p.encrypted is None,
    ensures
        scan_vault_fields("\"encrypted\":"@ + (bool_doc(b) + tail), p) == vault_fields_more(
            VaultPartial { encrypted: Some(b), ..p },
            tail,
        ),
{
    lemma_key_encrypted();
    assert((bool_doc(b) + tail).len() > 0 && !is_ws((bool_doc(b) + tail)[0])) by {
        reveal_strlit("true");
        reveal_strlit("false");
        assert((bool_doc(b) + tail)[0] == bool_doc(b)[0]);
    }
    lemma_field_start_of("\"encrypted\":"@, "\"encrypted\""@, bool_doc(b) + tail);
    lemma_scan_bool_of(b, tail);
}

proof fn lemma_vault_take_credentials(x: Seq<CredentialView>, tail: Seq<char>, p: VaultPartial)
    requires
        p.salt is Some,
        p.nonce is Some,
        p.encrypted is Some,
        p.credentials is None,
    ensures
        scan_vault_fields("\"credentials\":"@ + (creds_doc(x) + tail), p) == vault_fields_more(
            VaultPartial { credentials: Some(x), ..p },
            tail,
        ),
{
    lemma_key_credentials();
    assert((creds_doc(x) + tail).len() > 0 && !is_ws((creds_doc(x) + tail)[0])) by {
        assert((creds_doc(x) + tail)[0] == '[');
    }
    lemma_field_start_of("\"credentials\":"@, "\"credentials\""@, creds_doc(x) + tail);
    lemma_scan_creds_of(x, tail);
}

proof fn lemma_vault_take_notes(x: Seq<NoteView>, tail: Seq<char>, p: VaultPartial)
    requires
        p.salt is Some,
        p.nonce is Some,
        p.encrypted is Some,
        p.credentials is Some,
        p.notes is None,
    ensures
        scan_vault_fields("\"notes\":"@ + (notes_doc(x) + tail), p) == vault_fields_more(
            VaultPartial { notes: Some(x), ..p },
            tail,
        ),
{
    lemma_key_notes();
    assert((notes_doc(x) + tail).len() > 0 && !is_ws((notes_doc(x) + tail)[0])) by {
        assert((notes_doc(x) + tail)[0] == '[');
    }
    lemma_field_start_of("\"notes\":"@, "\"notes\""@, notes_doc(x) + tail);
    lemma_scan_notes_of(x, tail);
}

proof fn lemma_vault_take_version(x: Seq<char>, tail: Seq<char>, p: VaultPartial)
    requires
        p.salt is Some,
        p.nonce is Some,
        p.encrypted is Some,
        p.credentials is Some,
        p.notes is Some,
        p.version is None,
    ensures
        scan_vault_fields("\"version\":"@ + (str_doc(x) + tail), p) == vault_fields_more(
            VaultPartial { version: Some(x), ..p },
            tail,
        ),
{
    lemma_key_version();
    lemma_str_doc_first(x, tail);
    lemma_field_start_of("\"version\":"@, "\"version\""@, str_doc(x) + tail);
    lemma_scan_string_of(x, tail);
}

/// A rendered credential scans back to itself.
#[verifier::rlimit(100)]
#[verifier::spinoff_prover]
proof fn lemma_scan_cred_of(c: CredentialView, rest: Seq<char>)
    ensures
        scan_cred(cred_doc(c) + rest) == Some((c, rest)),
{
    let t12 = "}"@ + rest;
    let t11 = str_doc(c.url) + t12;
    let t10 = ",\"url\":"@ + t11;
    let t9 = str_doc(c.password) + t10;
    let t8 = ",\"password\":"@ + t9;
    let t7 = str_doc(c.username) + t8;
    let t6 = ",\"username\":"@ + t7;
    let t5 = bool_doc(c.favorite) + t6;
    let t4 = ",\"favorite\":"@ + t5;
    let t3 = str_doc(c.name) + t4;
    let t2 = ",\"name\":"@ + t3;
    let t1 = str_doc(c.id) + t2;
    let p0 = "{\"id\":"@;
    let p1 = p0 + str_doc(c.id);
    let p2 = p1 + ",\"name\":"@;
    let p3 = p2 + str_doc(c.name);
    let p4 = p3 + ",\"favorite\":"@;
    let p5 = p4 + bool_doc(c.favorite);
    let p6 = p5 + ",\"username\":"@;
    let p7 = p6 + str_doc(c.username);
    let p8 = p7 + ",\"password\":"@;
    let p9 = p8 + str_doc(c.password);
    let p10 = p9 + ",\"url\":"@;
    let p11 = p10 + str_doc(c.url);
    let p12 = p11 + "}"@;
    assert(cred_doc(c) == p12);
    lemma_assoc(p11, "}"@, rest);
    lemma_assoc(p10, str_doc(c.url), t12);
    lemma_assoc(p9, ",\"url\":"@, t11);
    lemma_assoc(p8, str_doc(c.password), t10);
    lemma_assoc(p7, ",\"password\":"@, t9);
    lemma_assoc(p6, str_doc(c.username), t8);
    lemma_assoc(p5, ",\"username\":"@, t7);
    lemma_assoc(p4, bool_doc(c.favorite), t6);
    lemma_assoc(p3, ",\"favorite\":"@, t5);
    lemma_assoc(p2, str_doc(c.name), t4);
    lemma_assoc(p1, ",\"name\":"@, t3);
    lemma_assoc(p0, str_doc(c.id), t2);
    assert(cred_doc(c) + rest == p0 + t1);
    let w = cred_doc(c) + rest;
    lemma_align_open_id();
    lemma_align_name();
    lemma_align_favorite();
    lemma_align_username();
    lemma_align_password();
    lemma_align_url();
    lemma_align_brace();
    let u1 = "\"id\":"@ + t1;
    assert(w.len() > 0 && w[0] == '{' && w.skip(1) =~= u1) by {
        assert(w == (seq!['{'] + "\"id\":"@) + t1);
    }
    let u2 = "\"name\":"@ + t3;
    assert(t2.len() > 0 && t2[0] == ',' && t2.skip(1) =~= u2) by {
        assert(t2 == (seq![','] + "\"name\":"@) + t3);
    }
    let u3 = "\"favorite\":"@ + t5;
    assert(t4.len() > 0 && t4[0] == ',' && t4.skip(1) =~= u3) by {
        assert(t4 == (seq![','] + "\"favorite\":"@) + t5);
    }
    let u4 = "\"username\":"@ + t7;
    assert(t6.len() > 0 && t6[0] == ',' && t6.skip(1) =~= u4) by {
        assert(t6 == (seq![','] + "\"username\":"@) + t7);
    }
    let u5 = "\"password\":"@ + t9;
    assert(t8.len() > 0 && t8[0] == ',' && t8.skip(1) =~= u5) by {
        assert(t8 == (seq![','] + "\"password\":"@) + t9);
    }
    let u6 = "\"url\":"@ + t11;
    assert(t10.len() > 0 && t10[0] == ',' && t10.skip(1) =~= u6) by {
        assert(t10 == (seq![','] + "\"url\":"@) + t11);
    }
    assert(t12.len() > 0 && t12[0] == '}' && t12.skip(1) =~= rest) by {
        assert(t12 == seq!['}'] + rest);
    }
    lemma_scan_ws_id(t2);
    lemma_scan_ws_id(t4);
    lemma_scan_ws_id(t6);
    lemma_scan_ws_id(t8);
    lemma_scan_ws_id(t10);
    lemma_scan_ws_id(t12);
    let q0 = cred_empty();
    let q1 = CredPartial { id: Some(c.id), ..q0 };
    let q2 = CredPartial { name: Some(c.name), ..q1 };
    let q3 = CredPartial { favorite: Some(c.favorite), ..q2 };
    let q4 = CredPartial { username: Some(c.username), ..q3 };
    let q5 = CredPartial { password: Some(c.password), ..q4 };
    let q6 = CredPartial { url: Some(c.url), ..q5 };
    lemma_cred_take_id(c.id, t2, q0);
    lemma_cred_take_name(c.name, t4, q1);
    lemma_cred_take_favorite(c.favorite, t6, q2);
    lemma_cred_take_username(c.username, t8, q3);
    lemma_cred_take_password(c.password, t10, q4);
    lemma_cred_take_url(c.url, t12, q5);
    assert(cred_fields_more(q1, t2) == scan_cred_fields(u2, q1));
    assert(cred_fields_more(q2, t4) == scan_cred_fields(u3, q2));
    assert(cred_fields_more(q3, t6) == scan_cred_fields(u4, q3));
    assert(cred_fields_more(q4, t8) == scan_cred_fields(u5, q4));
    assert(cred_fields_more(q5, t10) == scan_cred_fields(u6, q5));
    assert(cred_of_partial(q6) == Some(c));
    assert(cred_fields_more(q6, t12) == Some((c, rest)));
    assert(scan_cred(w) == Some((c, rest)));
}

/// A rendered note scans back to itself.
#[verifier::rlimit(100)]
#[verifier::spinoff_prover]
proof fn lemma_scan_note_of(n: NoteView, rest: Seq<char>)
    ensures
        scan_note(note_doc(n) + rest) == Some((n, rest)),
{
    let t8 = "}"@ + rest;
    let t7 = str_doc(n.content) + t8;
    let t6 = ",\"content\":"@ + t7;
    let t5 = bool_doc(n.favorite) + t6;
    let t4 = ",\"favorite\":"@ + t5;
    let t3 = str_doc(n.name) + t4;
    let t2 = ",\"name\":"@ + t3;
    let t1 = str_doc(n.id) + t2;
    assert(note_doc(n) + rest =~= "{\"id\":"@ + t1);
    let w = note_doc(n) + rest;
    lemma_align_open_id();
    lemma_align_name();
    lemma_align_favorite();
    lemma_align_content();
    lemma_align_brace();
    let u1 = "\"id\":"@ + t1;
    assert(w.len() > 0 && w[0] == '{' && w.skip(1) =~= u1) by {
        assert(w =~= (seq!['{'] + "\"id\":"@) + t1);
    }
    let u2 = "\"name\":"@ + t3;
    assert(t2.len() > 0 && t2[0] == ',' && t2.skip(1) =~= u2) by {
        assert(t2 == (seq![','] + "\"name\":"@) + t3);
    }
    let u3 = "\"favorite\":"@ + t5;
    assert(t4.len() > 0 && t4[0] == ',' && t4.skip(1) =~= u3) by {
        assert(t4 == (seq![','] + "\"favorite\":"@) + t5);
    }
    let u4 = "\"content\":"@ + t7;
    assert(t6.len() > 0 && t6[0] == ',' && t6.skip(1) =~= u4) by {
        assert(t6 == (seq![','] + "\"content\":"@) + t7);
    }
    assert(t8.len() > 0 && t8[0] == '}' && t8.skip(1) =~= rest) by {
        assert(t8 == seq!['}'] + rest);
    }
    lemma_scan_ws_id(t2);
    lemma_scan_ws_id(t4);
    lemma_scan_ws_id(t6);
    lemma_scan_ws_id(t8);
    let q0 = note_empty();
    let q1 = NotePartial { id: Some(n.id), ..q0 };
    let q2 = NotePartial { name: Some(n.name), ..q1 };
    let q3 = NotePartial { favorite: Some(n.favorite), ..q2 };
    let q4 = NotePartial { content: Some(n.content), ..q3 };
    lemma_note_take_id(n.id, t2, q0);
    lemma_note_take_name(n.name, t4, q1);
    lemma_note_take_favorite(n.favorite, t6, q2);
    lemma_note_take_content(n.content, t8, q3);
    assert(note_fields_more(q1, t2) == scan_note_fields(u2, q1));
    assert(note_fields_more(q2, t4) == scan_note_fields(u3, q2));
    assert(note_fields_more(q3, t6) == scan_note_fields(u4, q3));
    assert(note_of_partial(q4) == Some(n));
    assert(note_fields_more(q4, t8) == Some((n, rest)));
    assert(scan_note(w) == Some((n, rest)));
}

#[verifier::rlimit(100)]
#[verifier::spinoff_prover]
proof fn lemma_scan_cred_items_of(s: Seq<CredentialView>, rest: Seq<char>)
    requires
        s.len() >= 1,
    ensures
        scan_cred_items(cred_items_doc(s) + seq![']'] + rest) == Some((s, rest)),
    decreases s.len(),
{
    lemma_align_open_id();
    let w = cred_items_doc(s) + seq![']'] + rest;
    if s.len() == 1 {
        let r = seq![']'] + rest;
        assert(w =~= cred_doc(s[0]) + r);
        assert(w.len() > 0 && !is_ws(w[0])) by {
            assert(w[0] == cred_doc(s[0])[0]);
            assert(cred_doc(s[0])[0] == '{') by {
                assert(cred_doc(s[0])[0] == "{\"id\":"@[0]);
            }
        }
        lemma_scan_ws_id(w);
        lemma_scan_cred_of(s[0], r);
        assert(r[0] == ']');
        lemma_scan_ws_id(r);
        assert(r.skip(1) =~= rest);
        assert(seq![s[0]] =~= s);
    } else {
        let r = seq![','] + (cred_items_doc(s.skip(1)) + seq![']'] + rest);
        assert(w =~= cred_doc(s[0]) + r);
        assert(w.len() > 0 && !is_ws(w[0])) by {
            assert(w[0] == cred_doc(s[0])[0]);
            assert(cred_doc(s[0])[0] == '{') by {
                assert(cred_doc(s[0])[0] == "{\"id\":"@[0]);
            }
        }
        lemma_scan_ws_id(w);
        lemma_scan_cred_of(s[0], r);
        assert(r[0] == ',');
        lemma_scan_ws_id(r);
        assert(r.skip(1) =~= cred_items_doc(s.skip(1)) + seq![']'] + rest);
        lemma_scan_cred_items_of(s.skip(1), rest);
        assert(seq![s[0]] + s.skip(1) =~= s);
    }
}

#[verifier::rlimit(100)]
#[verifier::spinoff_prover]
proof fn lemma_scan_note_items_of(s: Seq<NoteView>, rest: Seq<char>)
    requires
        s.len() >= 1,
    ensures
        scan_note_items(note_items_doc(s) + seq![']'] + rest) == Some((s, rest)),
    decreases s.len(),
{
    lemma_align_open_id();
    let w = note_items_doc(s) + seq![']'] + rest;
    if s.len() == 1 {
        let r = seq![']'] + rest;
        assert(w =~= note_doc(s[0]) + r);
        assert(w.len() > 0 && !is_ws(w[0])) by {
            assert(w[0] == note_doc(s[0])[0]);
            assert(note_doc(s[0])[0] == '{') by {
                assert(note_doc(s[0])[0] == "{\"id\":"@[0]);
            }
        }
        lemma_scan_ws_id(w);
        lemma_scan_note_of(s[0], r);
        assert(r[0] == ']');
        lemma_scan_ws_id(r);
        assert(r.skip(1) =~= rest);
        assert(seq![s[0]] =~= s);
    } else {
        let r = seq![','] + (note_items_doc(s.skip(1)) + seq![']'] + rest);
        assert(w =~= note_doc(s[0]) + r);
        assert(w.len() > 0 && !is_ws(w[0])) by {
            assert(w[0] == note_doc(s[0])[0]);
            assert(note_doc(s[0])[0] == '{') by {
                assert(note_doc(s[0])[0] == "{\"id\":"@[0]);
            }
        }
        lemma_scan_ws_id(w);
        lemma_scan_note_of(s[0], r);
        assert(r[0] == ',');
        lemma_scan_ws_id(r);
        assert(r.skip(1) =~= note_items_doc(s.skip(1)) + seq![']'] + rest);
        lemma_scan_note_items_of(s.skip(1), rest);
        assert(seq![s[0]] + s.skip(1) =~= s);
    }
}

#[verifier::rlimit(100)]
#[verifier::spinoff_prover]
proof fn lemma_scan_creds_of(s: Seq<CredentialView>, rest: Seq<char>)
    ensures
        scan_creds(creds_doc(s) + rest) == Some((s, rest)),
{
    let w = creds_doc(s) + rest;
    assert(w[0] == '[');
    let r = w.skip(1);
    assert(r =~= cred_items_doc(s) + seq![']'] + rest);
    if s.len() == 0 {
        assert(r =~= seq![']'] + rest);
        assert(r[0] == ']');
        lemma_scan_ws_id(r);
        assert(r.skip(1) =~= rest);
    } else {
        lemma_align_open_id();
        assert(cred_doc(s[0])[0] == '{') by {
            assert(cred_doc(s[0])[0] == "{\"id\":"@[0]);
        }
        assert(r[0] == cred_items_doc(s)[0]);
        assert(cred_items_doc(s)[0] == cred_doc(s[0])[0]);
        assert(r.len() > 0 && r[0] != ']' && !is_ws(r[0]));
        lemma_scan_ws_id(r);
        lemma_scan_cred_items_of(s, rest);
    }
}

#[verifier::rlimit(100)]
#[verifier::spinoff_prover]
proof fn lemma_scan_notes_of(s: Seq<NoteView>, rest: Seq<char>)
    ensures
        scan_notes(notes_doc(s) + rest) == Some((s, rest)),
{
    let w = notes_doc(s) + rest;
    assert(w[0] == '[');
    let r = w.skip(1);
    assert(r =~= note_items_doc(s) + seq![']'] + rest);
    if s.len() == 0 {
        assert(r =~= seq![']'] + rest);
        assert(r[0] == ']');
        lemma_scan_ws_id(r);
        assert(r.skip(1) =~= rest);
    } else {
        lemma_align_open_id();
        assert(note_doc(s[0])[0] == '{') by {
            assert(note_doc(s[0])[0] == "{\"id\":"@[0]);
        }
        assert(r[0] == note_items_doc(s)[0]);
        assert(note_items_doc(s)[0] == note_doc(s[0])[0]);
        assert(r.len() > 0 && r[0] != ']' && !is_ws(r[0]));
        lemma_scan_ws_id(r);
        lemma_scan_note_items_of(s, rest);
    }
}

#[verifier::rlimit(100)]
#[verifier::spinoff_prover]
proof fn lemma_scan_vault_walk_head(v: VaultView, rest: Seq<char>, w: Seq<char>)
    requires
        w == "{\"salt\":"@ + (dec_doc(v.salt as nat) + (",\"nonce\":"@ + (dec_doc(
            v.nonce as nat,
        ) + (",\"encrypted\":"@ + (bool_doc(v.encrypted) + (",\"credentials\":"@ + (creds_doc(
            v.credentials,
        ) + (",\"notes\":"@ + (notes_doc(v.notes) + (",\"version\":"@ + (str_doc(v.version) + (
        "}"@ + rest)))))))))))),
    ensures
        scan_vault(w) == scan_vault_fields(
            "\"credentials\":"@ + (creds_doc(v.credentials) + (",\"notes\":"@ + (notes_doc(
                v.notes,
            ) + (",\"version\":"@ + (str_doc(v.version) + ("}"@ + rest)))))),
            VaultPartial {
                salt: Some(v.salt),
                nonce: Some(v.nonce),
                encrypted: Some(v.encrypted),
                credentials: None,
                notes: None,
                version: None,
            },
        ),
{
    let t12 = "}"@ + rest;
    let t11 = str_doc(v.version) + t12;
    let t10 = ",\"version\":"@ + t11;
    let t9 = notes_doc(v.notes) + t10;
    let t8 = ",\"notes\":"@ + t9;
    let t7 = creds_doc(v.credentials) + t8;
    let t6 = ",\"credentials\":"@ + t7;
    let t5 = bool_doc(v.encrypted) + t6;
    let t4 = ",\"encrypted\":"@ + t5;
    let t3 = dec_doc(v.nonce as nat) + t4;
    let t2 = ",\"nonce\":"@ + t3;
    let t1 = dec_doc(v.salt as nat) + t2;
    lemma_align_open_salt();
    lemma_align_nonce();
    lemma_align_encrypted();
    lemma_align_credentials();
    let u1 = "\"salt\":"@ + t1;
    assert(w.len() > 0 && w[0] == '{' && w.skip(1) =~= u1) by {
        assert(w == (seq!['{'] + "\"salt\":"@) + t1);
    }
    let u2 = "\"nonce\":"@ + t3;
    assert(t2.len() > 0 && t2[0] == ',' && t2.skip(1) =~= u2) by {
        assert(t2 == (seq![','] + "\"nonce\":"@) + t3);
    }
    let u3 = "\"encrypted\":"@ + t5;
    assert(t4.len() > 0 && t4[0] == ',' && t4.skip(1) =~= u3) by {
        assert(t4 == (seq![','] + "\"encrypted\":"@) + t5);
    }
    let u4 = "\"credentials\":"@ + t7;
    assert(t6.len() > 0 && t6[0] == ',' && t6.skip(1) =~= u4) by {
        assert(t6 == (seq![','] + "\"credentials\":"@) + t7);
    }
    lemma_scan_ws_id(t2);
    lemma_scan_ws_id(t4);
    lemma_scan_ws_id(t6);
    let q0 = vault_empty();
    let q1 = VaultPartial { salt: Some(v.salt), ..q0 };
    let q2 = VaultPartial { nonce: Some(v.nonce), ..q1 };
    let q3 = VaultPartial { encrypted: Some(v.encrypted), ..q2 };
    lemma_vault_take_salt(v.salt, t2, q0);
    lemma_vault_take_nonce(v.nonce, t4, q1);
    lemma_vault_take_encrypted(v.encrypted, t6, q2);
    assert(vault_fields_more(q1, t2) == scan_vault_fields(u2, q1));
    assert(vault_fields_more(q2, t4) == scan_vault_fields(u3, q2));
    assert(vault_fields_more(q3, t6) == scan_vault_fields(u4, q3));
    assert(scan_vault(w) == scan_vault_fields(u4, q3));
}

#[verifier::rlimit(100)]
#[verifier::spinoff_prover]
proof fn lemma_scan_vault_walk_creds(v: VaultView, rest: Seq<char>)
    ensures
        scan_vault_fields(
            "\"credentials\":"@ + (creds_doc(v.credentials) + (",\"notes\":"@ + (notes_doc(
                v.notes,
            ) + (",\"version\":"@ + (str_doc(v.version) + ("}"@ + rest)))))),
            VaultPartial {
                salt: Some(v.salt),
                nonce: Some(v.nonce),
                encrypted: Some(v.encrypted),
                credentials: None,
                notes: None,
                version: None,
            },
        ) == scan_vault_fields(
            "\"notes\":"@ + (notes_doc(v.notes) + (",\"version\":"@ + (str_doc(v.version) + (
            "}"@ + rest)))),
            VaultPartial {
                salt: Some(v.salt),
                nonce: Some(v.nonce),
                encrypted: Some(v.encrypted),
                credentials: Some(v.credentials),
                notes: None,
                version: None,
            },
        ),
{
    let t12 = "}"@ + rest;
    let t11 = str_doc(v.version) + t12;
    let t10 = ",\"version\":"@ + t11;
    let t9 = notes_doc(v.notes) + t10;
    let t8 = ",\"notes\":"@ + t9;
    lemma_align_notes();
    let q3 = VaultPartial {
        salt: Some(v.salt),
        nonce: Some(v.nonce),
        encrypted: Some(v.encrypted),
        credentials: None,
        notes: None,
        version: None,
    };
    let u5 = "\"notes\":"@ + t9;
    assert(t8.len() > 0 && t8[0] == ',' && t8.skip(1) =~= u5) by {
        assert(t8 == (seq![','] + "\"notes\":"@) + t9);
    }
    lemma_scan_ws_id(t8);
    let q4 = VaultPartial { credentials: Some(v.credentials), ..q3 };
    lemma_vault_take_credentials(v.credentials, t8, q3);
    assert(vault_fields_more(q4, t8) == scan_vault_fields(u5, q4));
}

#[verifier::rlimit(100)]
#[verifier::spinoff_prover]
proof fn lemma_scan_vault_walk_notes(v: VaultView, rest: Seq<char>)
    ensures
        scan_vault_fields(
            "\"notes\":"@ + (notes_doc(v.notes) + (",\"version\":"@ + (str_doc(v.version) + (
            "}"@ + rest)))),
            VaultPartial {
                salt: Some(v.salt),
                nonce: Some(v.nonce),
                encrypted: Some(v.encrypted),
                credentials: Some(v.credentials),
                notes: None,
                version: None,
            },
        ) == scan_vault_fields(
            "\"version\":"@ + (str_doc(v.version) + ("}"@ + rest)),
            VaultPartial {
                salt: Some(v.salt),
                nonce: Some(v.nonce),
                encrypted: Some(v.encrypted),
                credentials: Some(v.credentials),
                notes: Some(v.notes),
                version: None,
            },
        ),
{
    let t12 = "}"@ + rest;
    let t11 = str_doc(v.version) + t12;
    let t10 = ",\"version\":"@ + t11;
    lemma_align_version();
    let q4 = VaultPartial {
        salt: Some(v.salt),
        nonce: Some(v.nonce),
        encrypted: Some(v.encrypted),
        credentials: Some(v.credentials),
        notes: None,
        version: None,
    };
    let u6 = "\"version\":"@ + t11;
    assert(t10.len() > 0 && t10[0] == ',' && t10.skip(1) =~= u6) by {
        assert(t10 == (seq![','] + "\"version\":"@) + t11);
    }
    lemma_scan_ws_id(t10);
    let q5 = VaultPartial { notes: Some(v.notes), ..q4 };
    lemma_vault_take_notes(v.notes, t10, q4);
    assert(vault_fields_more(q5, t10) == scan_vault_fields(u6, q5));
}

#[verifier::rlimit(100)]
#[verifier::spinoff_prover]
proof fn lemma_scan_vault_walk_version(v: VaultView, rest: Seq<char>)
    ensures
        scan_vault_fields(
            "\"version\":"@ + (str_doc(v.version) + ("}"@ + rest)),
            VaultPartial {
                salt: Some(v.salt),
                nonce: Some(v.nonce),
                encrypted: Some(v.encrypted),
                credentials: Some(v.credentials),
                notes: Some(v.notes),
                version: None,
            },
        ) == Some((v, rest)),
{
    let t12 = "}"@ + rest;
    lemma_align_brace();
    let q5 = VaultPartial {
        salt: Some(v.salt),
        nonce: Some(v.nonce),
        encrypted: Some(v.encrypted),
        credentials: Some(v.credentials),
        notes: Some(v.notes),
        version: None,
    };
    assert(t12.len() > 0 && t12[0] == '}' && t12.skip(1) =~= rest) by {
        assert(t12 == seq!['}'] + rest);
    }
    lemma_scan_ws_id(t12);
    let q6 = VaultPartial { version: Some(v.version), ..q5 };
    lemma_vault_take_version(v.version, t12, q5);
    assert(vault_of_partial(q6) == Some(v));
    assert(vault_fields_more(q6, t12) == Some((v, rest)));
}

#[verifier::rlimit(100)]
#[verifier::spinoff_prover]
proof fn lemma_scan_vault_of(v: VaultView, rest: Seq<char>)
    ensures
        scan_vault(vault_doc(v) + rest) == Some((v, rest)),
{
    let t12 = "}"@ + rest;
    let t11 = str_doc(v.version) + t12;
    let t10 = ",\"version\":"@ + t11;
    let t9 = notes_doc(v.notes) + t10;
    let t8 = ",\"notes\":"@ + t9;
    let t7 = creds_doc(v.credentials) + t8;
    let t6 = ",\"credentials\":"@ + t7;
    let t5 = bool_doc(v.encrypted) + t6;
    let t4 = ",\"encrypted\":"@ + t5;
    let t3 = dec_doc(v.nonce as nat) + t4;
    let t2 = ",\"nonce\":"@ + t3;
    let t1 = dec_doc(v.salt as nat) + t2;
    let p0 = "{\"salt\":"@;
    let p1 = p0 + dec_doc(v.salt as nat);
    let p2 = p1 + ",\"nonce\":"@;
    let p3 = p2 + dec_doc(v.nonce as nat);
    let p4 = p3 + ",\"encrypted\":"@;
    let p5 = p4 + bool_doc(v.encrypted);
    let p6 = p5 + ",\"credentials\":"@;
    let p7 = p6 + creds_doc(v.credentials);
    let p8 = p7 + ",\"notes\":"@;
    let p9 = p8 + notes_doc(v.notes);
    let p10 = p9 + ",\"version\":"@;
    let p11 = p10 + str_doc(v.version);
    let p12 = p11 + "}"@;
    assert(vault_doc(v) == p12);
    lemma_assoc(p11, "}"@, rest);
    lemma_assoc(p10, str_doc(v.version), t12);
    lemma_assoc(p9, ",\"version\":"@, t11);
    lemma_assoc(p8, notes_doc(v.notes), t10);
    lemma_assoc(p7, ",\"notes\":"@, t9);
    lemma_assoc(p6, creds_doc(v.credentials), t8);
    lemma_assoc(p5, ",\"credentials\":"@, t7);
    lemma_assoc(p4, bool_doc(v.encrypted), t6);
    lemma_assoc(p3, ",\"encrypted\":"@, t5);
    lemma_assoc(p2, dec_doc(v.nonce as nat), t4);
    lemma_assoc(p1, ",\"nonce\":"@, t3);
    lemma_assoc(p0, dec_doc(v.salt as nat), t2);
    assert(vault_doc(v) + rest == p0 + t1);
    lemma_scan_vault_walk_head(v, rest, vault_doc(v) + rest);
    lemma_scan_vault_walk_creds(v, rest);
    lemma_scan_vault_walk_notes(v, rest);
    lemma_scan_vault_walk_version(v, rest);
}

/// The persistence round trip: the document a vault renders to parses back
/// to exactly that vault, all fields and all records, in order.
pub proof fn lemma_document_round_trip(v: VaultView)
    ensures
        parse_document(vault_doc(v)) == Some(v),
{
    lemma_scan_vault_of(v, Seq::empty());
    assert(vault_doc(v) + Seq::<char>::empty() =~= vault_doc(v));
    assert(vault_doc(v).len() > 0 && !is_ws(vault_doc(v)[0])) by {
        lemma_align_open_salt();
        assert(vault_doc(v)[0] == "{\"salt\":"@[0]);
    }
    lemma_scan_ws_id(vault_doc(v));
    lemma_scan_ws_id(Seq::<char>::empty());
}

/// The encoding is lossless: two different vaults never render to the same
/// document.
pub proof fn lemma_document_injective(a: VaultView, b: VaultView)
    requires
        vault_doc(a) == vault_doc(b),
    ensures
        a == b,
{
    lemma_document_round_trip(a);
    lemma_document_round_trip(b);
}

} // verus!
