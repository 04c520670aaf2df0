//! The executable document codec.
//!
//! `Vault::to_document` renders a vault as exactly the character sequence
//! `vault_doc` states; `Vault::struct_from_document` parses a document as
//! exactly `parse_document` states, reporting `MalformedDocument` on every
//! other input. Together with `lemma_document_round_trip`, saving and
//! loading a vault is proved lossless.

use vstd::prelude::*;

use crate::doc::bool_doc;
use crate::doc::cred_doc;
use crate::doc::cred_items_doc;
use crate::doc::creds_doc;
use crate::doc::dec_digit;
use crate::doc::dec_doc;
use crate::doc::esc;
use crate::doc::esc_char;
use crate::doc::hex_digit;
use crate::doc::lemma_assoc;
use crate::doc::lemma_cred_items_snoc;
use crate::doc::lemma_esc_concat;
use crate::doc::lemma_note_items_snoc;
use crate::doc::note_doc;
use crate::doc::note_items_doc;
use crate::doc::notes_doc;
use crate::doc::hex_val;
use crate::doc::is_digit;
use crate::doc::digits_val;
use crate::doc::lemma_digits_val_prefix;
use crate::doc::lemma_scan_digits_run;
use crate::doc::parse_document;
use crate::doc::scan_bool;
use crate::doc::scan_char;
use crate::doc::scan_cred;
use crate::doc::scan_cred_items;
use crate::doc::scan_creds;
use crate::doc::scan_digits;
use crate::doc::scan_escape;
use crate::doc::scan_lit;
use crate::doc::scan_note;
use crate::doc::scan_note_items;
use crate::doc::scan_notes;
use crate::doc::scan_str_body;
use crate::doc::scan_string;
use crate::doc::scan_ws;
use crate::doc::scan_field_start;
use crate::doc::scan_cred_fields;
use crate::doc::scan_note_fields;
use crate::doc::scan_vault_fields;
use crate::doc::is_ws;
use crate::doc::cred_empty;
use crate::doc::note_empty;
use crate::doc::vault_empty;
use crate::doc::CredPartial;
use crate::doc::NotePartial;
use crate::doc::VaultPartial;
use crate::doc::scan_u128;
use crate::doc::str_doc;
use crate::doc::vault_doc;
use crate::records::Credential;
use crate::records::CredentialView;
use crate::records::Note;
use crate::records::NoteView;
use crate::vault::creds_view;
use crate::vault::notes_view;
use crate::vault::Vault;
use crate::vault::VaultError;

verus! {

/// Relies on `String::push`: appends exactly the given character to the
/// string.
#[verifier::external_body]
fn push_char(out: &mut String, c: char)
    ensures
        final(out)@ == old(out)@.push(c),
{
    out.push(c);
}

/// The decimal digit character for `d`.
fn dec_digit_char(d: u128) -> (r: char)
    requires
        d < 10,
    ensures
        r == dec_digit(d as nat),
{
    if d == 0 {
        '0'
    } else if d == 1 {
        '1'
    } else if d == 2 {
        '2'
    } else if d == 3 {
        '3'
    } else if d == 4 {
        '4'
    } else if d == 5 {
        '5'
    } else if d == 6 {
        '6'
    } else if d == 7 {
        '7'
    } else if d == 8 {
        '8'
    } else {
        '9'
    }
}

/// The lowercase hexadecimal digit character for `d`.
fn hex_digit_char(d: u32) -> (r: char)
    requires
        d < 16,
    ensures
        r == hex_digit(d as nat),
{
    if d < 10 {
        dec_digit_char(d as u128)
    } else if d == 10 {
        'a'
    } else if d == 11 {
        'b'
    } else if d == 12 {
        'c'
    } else if d == 13 {
        'd'
    } else if d == 14 {
        'e'
    } else {
        'f'
    }
}

/// Appends the decimal rendering of `n`.
fn push_u128(out: &mut String, n: u128)
    ensures
        final(out)@ == old(out)@ + dec_doc(n as nat),
    decreases n,
{
    if n < 10 {
        push_char(out, dec_digit_char(n));
        proof {
            assert(old(out)@.push(dec_digit(n as nat)) =~= old(out)@ + dec_doc(n as nat));
        }
    } else {
        push_u128(out, n / 10);
        push_char(out, dec_digit_char(n % 10));
        proof {
            assert((n / 10) as nat == n as nat / 10);
            assert((n % 10) as nat == n as nat % 10);
            assert((old(out)@ + dec_doc(n as nat / 10)).push(dec_digit(n as nat % 10)) =~= old(
                out,
            )@ + dec_doc(n as nat));
        }
    }
}

/// Appends a boolean literal.
fn push_bool(out: &mut String, b: bool)
    ensures
        final(out)@ == old(out)@ + bool_doc(b),
{
    if b {
        out.append("true");
    } else {
        out.append("false");
    }
}

/// Appends the escaped form of `s`.
fn push_escaped(out: &mut String, s: &str)
    ensures
        final(out)@ == old(out)@ + esc(s@),
{
    let n = s.unicode_len();
    let mut i: usize = 0;
    proof {
        assert(s@.take(0) =~= Seq::<char>::empty());
        assert(old(out)@ + esc(Seq::<char>::empty()) =~= old(out)@);
    }
    while i < n
        invariant
            i <= n,
            n == s@.len(),
            out@ == old(out)@ + esc(s@.take(i as int)),
        decreases n - i,
    {
        let ghost pre = out@;
        let c = s.get_char(i);
        let u = c as u32;
        if c == '"' {
            push_char(out, '\\');
            push_char(out, '"');
            proof {
                assert(out@ =~= pre + esc_char(c));
            }
        } else if c == '\\' {
            push_char(out, '\\');
            push_char(out, '\\');
            proof {
                assert(out@ =~= pre + esc_char(c));
            }
        } else if u < 32 {
            if u == 8 {
                push_char(out, '\\');
                push_char(out, 'b');
            } else if u == 9 {
                push_char(out, '\\');
                push_char(out, 't');
            } else if u == 10 {
                push_char(out, '\\');
                push_char(out, 'n');
            } else if u == 12 {
                push_char(out, '\\');
                push_char(out, 'f');
            } else if u == 13 {
                push_char(out, '\\');
                push_char(out, 'r');
            } else {
                push_char(out, '\\');
                push_char(out, 'u');
                push_char(out, '0');
                push_char(out, '0');
                push_char(out, hex_digit_char(u / 16));
                push_char(out, hex_digit_char(u % 16));
            }
            proof {
                assert(out@ =~= pre + esc_char(c));
            }
        } else {
            push_char(out, c);
            proof {
                assert(out@ =~= pre + esc_char(c));
            }
        }
        proof {
            assert(s@.take(i + 1) =~= s@.take(i as int) + seq![c]);
            lemma_esc_concat(s@.take(i as int), seq![c]);
            assert(seq![c][0] == c && seq![c].skip(1) =~= Seq::<char>::empty());
            assert(esc(seq![c]) == esc_char(c) + esc(Seq::<char>::empty()));
            assert(esc(seq![c]) =~= esc_char(c));
            lemma_assoc(old(out)@, esc(s@.take(i as int)), esc_char(c));
        }
        i = i + 1;
    }
    proof {
        assert(s@.take(n as int) =~= s@);
    }
}

/// Appends a quoted, escaped string literal.
fn push_str_doc(out: &mut String, s: &str)
    ensures
        final(out)@ == old(out)@ + str_doc(s@),
{
    push_char(out, '"');
    push_escaped(out, s);
    push_char(out, '"');
    proof {
        assert(((old(out)@.push('"')) + esc(s@)).push('"') =~= old(out)@ + str_doc(s@));
    }
}

/// Renders one credential object.
fn render_cred(c: &Credential) -> (r: String)
    ensures
        r@ == cred_doc(c@),
{
    let mut out = String::new();
    out.append("{\"id\":");
    proof {
        assert(Seq::<char>::empty() + "{\"id\":"@ =~= "{\"id\":"@);
    }
    push_str_doc(&mut out, c.id.as_str());
    out.append(",\"name\":");
    push_str_doc(&mut out, c.name.as_str());
    out.append(",\"favorite\":");
    push_bool(&mut out, c.favorite);
    out.append(",\"username\":");
    push_str_doc(&mut out, c.username.as_str());
    out.append(",\"password\":");
    push_str_doc(&mut out, c.password.as_str());
    out.append(",\"url\":");
    push_str_doc(&mut out, c.url.as_str());
    out.append("}");
    out
}

/// Renders one note object.
fn render_note(n: &Note) -> (r: String)
    ensures
        r@ == note_doc(n@),
{
    let mut out = String::new();
    out.append("{\"id\":");
    proof {
        assert(Seq::<char>::empty() + "{\"id\":"@ =~= "{\"id\":"@);
    }
    push_str_doc(&mut out, n.id.as_str());
    out.append(",\"name\":");
    push_str_doc(&mut out, n.name.as_str());
    out.append(",\"favorite\":");
    push_bool(&mut out, n.favorite);
    out.append(",\"content\":");
    push_str_doc(&mut out, n.content.as_str());
    out.append("}");
    out
}

/// Renders the credentials array.
fn render_creds(v: &Vec<Credential>) -> (r: String)
    ensures
        r@ == creds_doc(creds_view(v@)),
{
    let mut out = String::new();
    push_char(&mut out, '[');
    proof {
        assert(Seq::<char>::empty().push('[') =~= seq!['[']);
        assert(cred_items_doc(creds_view(v@.take(0))) =~= Seq::<char>::empty()) by {
            assert(creds_view(v@.take(0)) =~= Seq::<CredentialView>::empty());
        }
        assert(seq!['['] + Seq::<char>::empty() =~= seq!['[']);
    }
    let n = v.len();
    let mut i: usize = 0;
    while i < n
        invariant
            i <= n,
            n == v@.len(),
            out@ == seq!['['] + cred_items_doc(creds_view(v@.take(i as int))),
        decreases n - i,
    {
        let ghost pre = creds_view(v@.take(i as int));
        let ghost items = cred_items_doc(pre);
        if i > 0 {
            push_char(&mut out, ',');
        }
        let cs = render_cred(&v[i]);
        out.append(cs.as_str());
        proof {
            assert(creds_view(v@.take(i + 1)) =~= pre.push(v@[i as int]@)) by {
                assert(v@.take(i + 1) =~= v@.take(i as int).push(v@[i as int]));
            }
            lemma_cred_items_snoc(pre, v@[i as int]@);
            if i == 0 {
                assert(pre.len() == 0);
                assert(out@ =~= seq!['['] + cred_items_doc(creds_view(v@.take(i + 1))));
            } else {
                assert(pre.len() > 0);
                assert((((seq!['['] + items).push(',')) + cred_doc(v@[i as int]@)) =~= seq!['[']
                    + ((items + seq![',']) + cred_doc(v@[i as int]@)));
            }
        }
        i = i + 1;
    }
    push_char(&mut out, ']');
    proof {
        assert(v@.take(n as int) =~= v@);
        assert((seq!['['] + cred_items_doc(creds_view(v@))).push(']') =~= creds_doc(
            creds_view(v@),
        ));
    }
    out
}

/// Renders the notes array.
fn render_notes(v: &Vec<Note>) -> (r: String)
    ensures
        r@ == notes_doc(notes_view(v@)),
{
    let mut out = String::new();
    push_char(&mut out, '[');
    proof {
        assert(Seq::<char>::empty().push('[') =~= seq!['[']);
        assert(note_items_doc(notes_view(v@.take(0))) =~= Seq::<char>::empty()) by {
            assert(notes_view(v@.take(0)) =~= Seq::<NoteView>::empty());
        }
        assert(seq!['['] + Seq::<char>::empty() =~= seq!['[']);
    }
    let n = v.len();
    let mut i: usize = 0;
    while i < n
        invariant
            i <= n,
            n == v@.len(),
            out@ == seq!['['] + note_items_doc(notes_view(v@.take(i as int))),
        decreases n - i,
    {
        let ghost pre = notes_view(v@.take(i as int));
        let ghost items = note_items_doc(pre);
        if i > 0 {
            push_char(&mut out, ',');
        }
        let ns = render_note(&v[i]);
        out.append(ns.as_str());
        proof {
            assert(notes_view(v@.take(i + 1)) =~= pre.push(v@[i as int]@)) by {
                assert(v@.take(i + 1) =~= v@.take(i as int).push(v@[i as int]));
            }
            lemma_note_items_snoc(pre, v@[i as int]@);
            if i == 0 {
                assert(pre.len() == 0);
                assert(out@ =~= seq!['['] + note_items_doc(notes_view(v@.take(i + 1))));
            } else {
                assert(pre.len() > 0);
                assert((((seq!['['] + items).push(',')) + note_doc(v@[i as int]@)) =~= seq!['[']
                    + ((items + seq![',']) + note_doc(v@[i as int]@)));
            }
        }
        i = i + 1;
    }
    push_char(&mut out, ']');
    proof {
        assert(v@.take(n as int) =~= v@);
        assert((seq!['['] + note_items_doc(notes_view(v@))).push(']') =~= notes_doc(
            notes_view(v@),
        ));
    }
    out
}

// ---------------------------------------------------------------------------
// Parsing
// ---------------------------------------------------------------------------
/// Consumes one expected character, as `scan_char` states.
fn parse_one(s: &str, i: usize, c: char) -> (r: Option<usize>)
    requires
        i <= s@.len(),
    ensures
        match r {
            Some(j) => i < j <= s@.len() && scan_char(s@.skip(i as int), c) == Some(
                s@.skip(j as int),
            ),
            None => scan_char(s@.skip(i as int), c) is None,
        },
{
    let n = s.unicode_len();
    if i == n {
        return None;
    }
    proof {
        assert(s@.skip(i as int)[0] == s@[i as int]);
        assert(s@.skip(i as int).skip(1) =~= s@.skip(i + 1));
    }
    if s.get_char(i) == c {
        Some(i + 1)
    } else {
        None
    }
}

/// Consumes an expected literal, as `scan_lit` states.
fn parse_lit(s: &str, i: usize, lit: &str) -> (r: Option<usize>)
    requires
        i <= s@.len(),
    ensures
        match r {
            Some(j) => i <= j <= s@.len() && scan_lit(s@.skip(i as int), lit@) == Some(
                s@.skip(j as int),
            ),
            None => scan_lit(s@.skip(i as int), lit@) is None,
        },
{
    let n = s.unicode_len();
    let m = lit.unicode_len();
    if n - i < m {
        proof {
            assert(!lit@.is_prefix_of(s@.skip(i as int)));
        }
        return None;
    }
    let mut k: usize = 0;
    while k < m
        invariant
            k <= m,
            i <= s@.len(),
            m == lit@.len(),
            n == s@.len(),
            m <= n - i,
            forall|q: int| 0 <= q < k ==> lit@[q] == #[trigger] s@.skip(i as int)[q],
        decreases m - k,
    {
        let cs = s.get_char(i + k);
        let cl = lit.get_char(k);
        proof {
            assert(s@.skip(i as int)[k as int] == s@[i + k]);
        }
        if cs != cl {
            proof {
                if lit@.is_prefix_of(s@.skip(i as int)) {
                    assert(lit@ == s@.skip(i as int).subrange(0, m as int));
                    assert(lit@[k as int] == s@.skip(i as int).subrange(0, m as int)[k as int]);
                    assert(lit@[k as int] == s@.skip(i as int)[k as int]);
                }
            }
            return None;
        }
        k = k + 1;
    }
    proof {
        assert(lit@ =~= s@.skip(i as int).subrange(0, m as int));
        assert(lit@.is_prefix_of(s@.skip(i as int)));
        assert(s@.skip(i as int).skip(m as int) =~= s@.skip(i + m));
    }
    Some(i + m)
}

/// The hexadecimal value of a digit character, as `hex_val` states.
fn hex_val_char(c: char) -> (r: Option<u32>)
    ensures
        match r {
            Some(v) => v < 16 && hex_val(c) == Some(v as nat),
            None => hex_val(c) is None,
        },
{
    let u = c as u32;
    if 48 <= u && u <= 57 {
        Some(u - 48)
    } else if 97 <= u && u <= 102 {
        Some(u - 87)
    } else if 65 <= u && u <= 70 {
        Some(u - 55)
    } else {
        None
    }
}

/// Consumes the remainder of an escape, as `scan_escape` states.
fn parse_escape(s: &str, i: usize) -> (r: Option<(char, usize)>)
    requires
        i <= s@.len(),
    ensures
        match r {
            Some((c, j)) => i < j <= s@.len() && scan_escape(s@.skip(i as int)) == Some(
                (c, s@.skip(j as int)),
            ),
            None => scan_escape(s@.skip(i as int)) is None,
        },
{
    let n = s.unicode_len();
    if i == n {
        return None;
    }
    let e = s.get_char(i);
    proof {
        assert(s@.skip(i as int)[0] == s@[i as int]);
        assert(s@.skip(i as int).skip(1) =~= s@.skip(i + 1));
    }
    if e == '"' {
        Some(('"', i + 1))
    } else if e == '\\' {
        Some(('\\', i + 1))
    } else if e == '/' {
        Some(('/', i + 1))
    } else if e == 'b' {
        Some(('\u{8}', i + 1))
    } else if e == 't' {
        Some(('\t', i + 1))
    } else if e == 'n' {
        Some(('\n', i + 1))
    } else if e == 'f' {
        Some(('\u{c}', i + 1))
    } else if e == 'r' {
        Some(('\r', i + 1))
    } else if e == 'u' {
        if n - i < 5 {
            return None;
        }
        let c1 = s.get_char(i + 1);
        let c2 = s.get_char(i + 2);
        let h1 = s.get_char(i + 3);
        let h2 = s.get_char(i + 4);
        proof {
            assert(s@.skip(i as int)[1] == s@[i + 1]);
            assert(s@.skip(i as int)[2] == s@[i + 2]);
            assert(s@.skip(i as int)[3] == s@[i + 3]);
            assert(s@.skip(i as int)[4] == s@[i + 4]);
            assert(s@.skip(i as int).skip(5) =~= s@.skip(i + 5));
        }
        if c1 != '0' || c2 != '0' {
            return None;
        }
        let v1 = match hex_val_char(h1) {
            Some(v) => v,
            None => {
                return None;
            },
        };
        let v2 = match hex_val_char(h2) {
            Some(v) => v,
            None => {
                return None;
            },
        };
        let v = v1 * 16 + v2;
        Some(((v as u8) as char, i + 5))
    } else {
        None
    }
}

/// Consumes a quoted string literal, as `scan_string` states.
fn parse_string(s: &str, i: usize) -> (r: Option<(String, usize)>)
    requires
        i <= s@.len(),
    ensures
        match r {
            Some((x, j)) => i < j <= s@.len() && scan_string(s@.skip(i as int)) == Some(
                (x@, s@.skip(j as int)),
            ),
            None => scan_string(s@.skip(i as int)) is None,
        },
{
    let n = s.unicode_len();
    if i == n || s.get_char(i) != '"' {
        proof {
            if i < n {
                assert(s@.skip(i as int)[0] == s@[i as int]);
            }
        }
        return None;
    }
    proof {
        assert(s@.skip(i as int)[0] == '"');
        assert(s@.skip(i as int).skip(1) =~= s@.skip(i + 1));
    }
    let mut out = String::new();
    let mut k: usize = i + 1;
    loop
        invariant
            i + 1 <= k <= s@.len(),
            n == s@.len(),
            i < n,
            s@[i as int] == '"',
            scan_str_body(s@.skip(i + 1)) == (match scan_str_body(s@.skip(k as int)) {
                Some((t, r2)) => Some::<(Seq<char>, Seq<char>)>((out@ + t, r2)),
                None => None::<(Seq<char>, Seq<char>)>,
            }),
        decreases s@.len() - k,
    {
        if k == n {
            proof {
                assert(s@.skip(k as int).len() == 0);
                assert(s@.skip(i as int)[0] == s@[i as int]);
                assert(s@.skip(i as int).skip(1) =~= s@.skip(i + 1));
            }
            return None;
        }
        let c = s.get_char(k);
        proof {
            assert(s@.skip(k as int)[0] == s@[k as int]);
            assert(s@.skip(k as int).skip(1) =~= s@.skip(k + 1));
        }
        if c == '"' {
            proof {
                assert(out@ + Seq::<char>::empty() =~= out@);
                assert(s@.skip(i as int).skip(1) =~= s@.skip(i + 1));
            }
            return Some((out, k + 1));
        } else if c == '\\' {
            match parse_escape(s, k + 1) {
                Some((ec, j2)) => {
                    let ghost out0 = out@;
                    push_char(&mut out, ec);
                    proof {
                        let sb = scan_str_body(s@.skip(j2 as int));
                        if sb is Some {
                            let (t, r2) = sb->Some_0;
                            lemma_assoc(out0, seq![ec], t);
                            assert(out0.push(ec) =~= out0 + seq![ec]);
                        }
                    }
                    k = j2;
                },
                None => {
                    proof {
                        assert(s@.skip(i as int)[0] == s@[i as int]);
                        assert(s@.skip(i as int).skip(1) =~= s@.skip(i + 1));
                    }
                    return None;
                },
            }
        } else if (c as u32) < 32 {
            proof {
                assert(s@.skip(i as int)[0] == s@[i as int]);
                assert(s@.skip(i as int).skip(1) =~= s@.skip(i + 1));
            }
            return None;
        } else {
            let ghost out0 = out@;
            push_char(&mut out, c);
            proof {
                let sb = scan_str_body(s@.skip(k + 1));
                if sb is Some {
                    let (t, r2) = sb->Some_0;
                    lemma_assoc(out0, seq![c], t);
                    assert(out0.push(c) =~= out0 + seq![c]);
                }
            }
            k = k + 1;
        }
    }
}

/// Whether `c` is a decimal digit.
fn is_digit_char(c: char) -> (r: bool)
    ensures
        r == is_digit(c),
{
    let u = c as u32;
    48 <= u && u <= 57
}

/// Consumes an unsigned decimal number, as `scan_u128` states.
fn parse_u128(s: &str, i: usize) -> (r: Option<(u128, usize)>)
    requires
        i <= s@.len(),
    ensures
        match r {
            Some((v, j)) => i < j <= s@.len() && scan_u128(s@.skip(i as int)) == Some(
                (v, s@.skip(j as int)),
            ),
            None => scan_u128(s@.skip(i as int)) is None,
        },
{
    let n = s.unicode_len();
    let mut e: usize = i;
    while e < n && is_digit_char(s.get_char(e))
        invariant
            i <= e <= n,
            n == s@.len(),
            forall|q: int| i <= q < e ==> is_digit(#[trigger] s@[q]),
        decreases n - e,
    {
        e = e + 1;
    }
    proof {
        lemma_scan_digits_run(s@, i as int, e as int);
    }
    let ghost d = s@.subrange(i as int, e as int);
    if e == i {
        proof {
            assert(d.len() == 0);
        }
        return None;
    }
    let first = s.get_char(i);
    if first == '0' && e > i + 1 {
        proof {
            assert(d[0] == '0' && d.len() > 1);
        }
        return None;
    }
    let mut acc: u128 = 0;
    let mut k: usize = i;
    proof {
        assert(s@.subrange(i as int, i as int) =~= Seq::<char>::empty());
    }
    while k < e
        invariant
            i <= k <= e <= n,
            n == s@.len(),
            forall|q: int| i <= q < e ==> is_digit(#[trigger] s@[q]),
            acc == digits_val(s@.subrange(i as int, k as int)),
            d == s@.subrange(i as int, e as int),
            scan_digits(s@.skip(i as int)) == (d, s@.skip(e as int)),
        decreases e - k,
    {
        let c = s.get_char(k);
        let dv = ((c as u32) - 48) as u128;
        proof {
            assert(is_digit(s@[k as int]));
            assert(s@.subrange(i as int, k + 1).drop_last() =~= s@.subrange(i as int, k as int));
            assert(s@.subrange(i as int, k + 1).last() == s@[k as int]);
            assert(digits_val(s@.subrange(i as int, k + 1)) == acc * 10 + dv);
        }
        if acc > (u128::MAX - dv) / 10 {
            proof {
                assert(acc * 10 + dv > u128::MAX) by {
                    assert(acc >= (u128::MAX - dv) / 10 + 1);
                    assert(((u128::MAX - dv) / 10 + 1) * 10 == ((u128::MAX - dv) / 10) * 10 + 10);
                    assert(((u128::MAX - dv) / 10) * 10 + 10 > u128::MAX - dv);
                };
                assert(d.take(k + 1 - i) =~= s@.subrange(i as int, k + 1));
                lemma_digits_val_prefix(d, k + 1 - i);
                assert(digits_val(d) > u128::MAX as nat);
            }
            return None;
        }
        proof {
            assert(acc * 10 + dv <= u128::MAX) by {
                assert(acc <= (u128::MAX - dv) / 10);
                assert(acc * 10 <= ((u128::MAX - dv) / 10) * 10);
                assert(((u128::MAX - dv) / 10) * 10 <= u128::MAX - dv);
            };
        }
        acc = acc * 10 + dv;
        k = k + 1;
    }
    proof {
        assert(s@.subrange(i as int, e as int) == d);
        assert(digits_val(d) == acc);
        assert(digits_val(d) <= u128::MAX as nat);
        if d.len() > 1 {
            assert(d[0] == s@[i as int]);
        }
    }
    Some((acc, e))
}

/// Consumes a boolean literal, as `scan_bool` states.
fn parse_bool(s: &str, i: usize) -> (r: Option<(bool, usize)>)
    requires
        i <= s@.len(),
    ensures
        match r {
            Some((b, j)) => i < j <= s@.len() && scan_bool(s@.skip(i as int)) == Some(
                (b, s@.skip(j as int)),
            ),
            None => scan_bool(s@.skip(i as int)) is None,
        },
{
    proof {
        reveal_strlit("true");
        reveal_strlit("false");
    }
    match parse_lit(s, i, "true") {
        Some(j) => {
            proof {
                assert(s@.skip(i as int).skip(4) =~= s@.skip(i + 4));
            }
            Some((true, j))
        },
        None => match parse_lit(s, i, "false") {
            Some(j) => {
                proof {
                    assert(s@.skip(i as int).skip(5) =~= s@.skip(i + 5));
                }
                Some((false, j))
            },
            None => None,
        },
    }
}

/// Whether `c` is JSON whitespace.
fn is_ws_char(c: char) -> (r: bool)
    ensures
        r == is_ws(c),
{
    c == ' ' || c == '\t' || c == '\n' || c == '\r'
}

/// Skips whitespace, as `scan_ws` states.
fn skip_ws(s: &str, i: usize) -> (j: usize)
    requires
        i <= s@.len(),
    ensures
        i <= j <= s@.len(),
        scan_ws(s@.skip(i as int)) == s@.skip(j as int),
{
    let n = s.unicode_len();
    let mut j: usize = i;
    while j < n && is_ws_char(s.get_char(j))
        invariant
            i <= j <= n,
            n == s@.len(),
            scan_ws(s@.skip(i as int)) == scan_ws(s@.skip(j as int)),
        decreases n - j,
    {
        proof {
            assert(s@.skip(j as int)[0] == s@[j as int]);
            assert(s@.skip(j as int).skip(1) =~= s@.skip(j + 1));
        }
        j = j + 1;
    }
    proof {
        if j < n {
            assert(s@.skip(j as int)[0] == s@[j as int]);
        }
        assert(scan_ws(s@.skip(j as int)) == s@.skip(j as int));
    }
    j
}

/// Consumes a field's opening, as `scan_field_start` states.
fn parse_field_start(s: &str, i: usize, key: &str) -> (r: Option<usize>)
    requires
        i <= s@.len(),
    ensures
        match r {
            Some(j) => i <= j <= s@.len() && scan_field_start(s@.skip(i as int), key@) == Some(
                s@.skip(j as int),
            ),
            None => scan_field_start(s@.skip(i as int), key@) is None,
        },
{
    let a = skip_ws(s, i);
    let b = match parse_lit(s, a, key) {
        Some(j) => j,
        None => {
            return None;
        },
    };
    let c0 = skip_ws(s, b);
    let d = match parse_one(s, c0, ':') {
        Some(j) => j,
        None => {
            return None;
        },
    };
    Some(skip_ws(s, d))
}

/// The field set of a credential parse in progress, as a partial record.
pub open spec fn opt_str_view(o: Option<String>) -> Option<Seq<char>> {
    match o {
        Some(x) => Some(x@),
        None => None,
    }
}

/// The credential fields read so far, as the grammar's partial record.
pub open spec fn cred_partial_of(
    id: Option<String>,
    name: Option<String>,
    favorite: Option<bool>,
    username: Option<String>,
    password: Option<String>,
    url: Option<String>,
) -> CredPartial {
    CredPartial {
        id: opt_str_view(id),
        name: opt_str_view(name),
        favorite: favorite,
        username: opt_str_view(username),
        password: opt_str_view(password),
        url: opt_str_view(url),
    }
}

/// Consumes one credential object, as `scan_cred` states.
#[verifier::rlimit(100)]
#[verifier::spinoff_prover]
fn parse_cred(s: &str, i: usize) -> (r: Option<(Credential, usize)>)
    requires
        i <= s@.len(),
    ensures
        match r {
            Some((c, j)) => i <= j <= s@.len() && scan_cred(s@.skip(i as int)) == Some(
                (c@, s@.skip(j as int)),
            ),
            None => scan_cred(s@.skip(i as int)) is None,
        },
{
    let n = s.unicode_len();
    let j0 = match parse_one(s, i, '{') {
        Some(j) => j,
        None => {
            return None;
        },
    };
    let mut f_id: Option<String> = None;
    let mut f_name: Option<String> = None;
    let mut f_favorite: Option<bool> = None;
    let mut f_username: Option<String> = None;
    let mut f_password: Option<String> = None;
    let mut f_url: Option<String> = None;
    let mut k: usize = j0;
    loop
        invariant
            i < j0 <= k <= n,
            n == s@.len(),
            scan_char(s@.skip(i as int), '{') == Some(s@.skip(j0 as int)),
            scan_cred_fields(s@.skip(j0 as int), cred_empty()) == scan_cred_fields(
                s@.skip(k as int),
                cred_partial_of(f_id, f_name, f_favorite, f_username, f_password, f_url),
            ),
        decreases n - k,
    {
        if f_id.is_none() {
            match parse_field_start(s, k, "\"id\"") {
                Some(vs) => {
                    let (x, j2) = match parse_string(s, vs) {
                    Some(p) => p,
                    None => {
                        return None;
                    },
                };
                    let k4 = skip_ws(s, j2);
                    if k4 == n {
                        return None;
                    }
                    let ch = s.get_char(k4);
                    proof {
                        assert(s@.skip(k4 as int)[0] == s@[k4 as int]);
                        assert(s@.skip(k4 as int).skip(1) =~= s@.skip(k4 + 1));
                    }
                    if ch == ',' {
                        f_id = Some(x);
                        k = k4 + 1;
                        continue ;
                    } else if ch == '}' {
                        f_id = Some(x);
                        match (f_id, f_name, f_favorite, f_username, f_password, f_url) {
                            (
                                Some(id),
                                Some(name),
                                Some(favorite),
                                Some(username),
                                Some(password),
                                Some(url),
                            ) => {
                                return Some(
                                    (Credential { id, name, favorite, username, password, url }, k4 + 1),
                                );
                            },
                            _ => {
                                return None;
                            },
                        }
                    } else {
                        return None;
                    }
                },
                None => {},
            }
        }
        if f_name.is_none() {
            match parse_field_start(s, k, "\"name\"") {
                Some(vs) => {
                    let (x, j2) = match parse_string(s, vs) {
                    Some(p) => p,
                    None => {
                        return None;
                    },
                };
                    let k4 = skip_ws(s, j2);
                    if k4 == n {
                        return None;
                    }
                    let ch = s.get_char(k4);
                    proof {
                        assert(s@.skip(k4 as int)[0] == s@[k4 as int]);
                        assert(s@.skip(k4 as int).skip(1) =~= s@.skip(k4 + 1));
                    }
                    if ch == ',' {
                        f_name = Some(x);
                        k = k4 + 1;
                        continue ;
                    } else if ch == '}' {
                        f_name = Some(x);
                        match (f_id, f_name, f_favorite, f_username, f_password, f_url) {
                            (
                                Some(id),
                                Some(name),
                                Some(favorite),
                                Some(username),
                                Some(password),
                                Some(url),
                            ) => {
                                return Some(
                                    (Credential { id, name, favorite, username, password, url }, k4 + 1),
                                );
                            },
                            _ => {
                                return None;
                            },
                        }
                    } else {
                        return None;
                    }
                },
                None => {},
            }
        }
        if f_favorite.is_none() {
            match parse_field_start(s, k, "\"favorite\"") {
                Some(vs) => {
                    let (x, j2) = match parse_bool(s, vs) {
                    Some(p) => p,
                    None => {
                        return None;
                    },
                };
                    let k4 = skip_ws(s, j2);
                    if k4 == n {
                        return None;
                    }
                    let ch = s.get_char(k4);
                    proof {
                        assert(s@.skip(k4 as int)[0] == s@[k4 as int]);
                        assert(s@.skip(k4 as int).skip(1) =~= s@.skip(k4 + 1));
                    }
                    if ch == ',' {
                        f_favorite = Some(x);
                        k = k4 + 1;
                        continue ;
                    } else if ch == '}' {
                        f_favorite = Some(x);
                        match (f_id, f_name, f_favorite, f_username, f_password, f_url) {
                            (
                                Some(id),
                                Some(name),
                                Some(favorite),
                                Some(username),
                                Some(password),
                                Some(url),
                            ) => {
                                return Some(
                                    (Credential { id, name, favorite, username, password, url }, k4 + 1),
                                );
                            },
                            _ => {
                                return None;
                            },
                        }
                    } else {
                        return None;
                    }
                },
                None => {},
            }
        }
        if f_username.is_none() {
            match parse_field_start(s, k, "\"username\"") {
                Some(vs) => {
                    let (x, j2) = match parse_string(s, vs) {
                    Some(p) => p,
                    None => {
                        return None;
                    },
                };
                    let k4 = skip_ws(s, j2);
                    if k4 == n {
                        return None;
                    }
                    let ch = s.get_char(k4);
                    proof {
                        assert(s@.skip(k4 as int)[0] == s@[k4 as int]);
                        assert(s@.skip(k4 as int).skip(1) =~= s@.skip(k4 + 1));
                    }
                    if ch == ',' {
                        f_username = Some(x);
                        k = k4 + 1;
                        continue ;
                    } else if ch == '}' {
                        f_username = Some(x);
                        match (f_id, f_name, f_favorite, f_username, f_password, f_url) {
                            (
                                Some(id),
                                Some(name),
                                Some(favorite),
                                Some(username),
                                Some(password),
                                Some(url),
                            ) => {
                                return Some(
                                    (Credential { id, name, favorite, username, password, url }, k4 + 1),
                                );
                            },
                            _ => {
                                return None;
                            },
                        }
                    } else {
                        return None;
                    }
                },
                None => {},
            }
        }
        if f_password.is_none() {
            match parse_field_start(s, k, "\"password\"") {
                Some(vs) => {
                    let (x, j2) = match parse_string(s, vs) {
                    Some(p) => p,
                    None => {
                        return None;
                    },
                };
                    let k4 = skip_ws(s, j2);
                    if k4 == n {
                        return None;
                    }
                    let ch = s.get_char(k4);
                    proof {
                        assert(s@.skip(k4 as int)[0] == s@[k4 as int]);
                        assert(s@.skip(k4 as int).skip(1) =~= s@.skip(k4 + 1));
                    }
                    if ch == ',' {
                        f_password = Some(x);
                        k = k4 + 1;
                        continue ;
                    } else if ch == '}' {
                        f_password = Some(x);
                        match (f_id, f_name, f_favorite, f_username, f_password, f_url) {
                            (
                                Some(id),
                                Some(name),
                                Some(favorite),
                                Some(username),
                                Some(password),
                                Some(url),
                            ) => {
                                return Some(
                                    (Credential { id, name, favorite, username, password, url }, k4 + 1),
                                );
                            },
                            _ => {
                                return None;
                            },
                        }
                    } else {
                        return None;
                    }
                },
                None => {},
            }
        }
        if f_url.is_none() {
            match parse_field_start(s, k, "\"url\"") {
                Some(vs) => {
                    let (x, j2) = match parse_string(s, vs) {
                    Some(p) => p,
                    None => {
                        return None;
                    },
                };
                    let k4 = skip_ws(s, j2);
                    if k4 == n {
                        return None;
                    }
                    let ch = s.get_char(k4);
                    proof {
                        assert(s@.skip(k4 as int)[0] == s@[k4 as int]);
                        assert(s@.skip(k4 as int).skip(1) =~= s@.skip(k4 + 1));
                    }
                    if ch == ',' {
                        f_url = Some(x);
                        k = k4 + 1;
                        continue ;
                    } else if ch == '}' {
                        f_url = Some(x);
                        match (f_id, f_name, f_favorite, f_username, f_password, f_url) {
                            (
                                Some(id),
                                Some(name),
                                Some(favorite),
                                Some(username),
                                Some(password),
                                Some(url),
                            ) => {
                                return Some(
                                    (Credential { id, name, favorite, username, password, url }, k4 + 1),
                                );
                            },
                            _ => {
                                return None;
                            },
                        }
                    } else {
                        return None;
                    }
                },
                None => {},
            }
        }
        return None;
    }
}

/// The note fields read so far, as the grammar's partial record.
pub open spec fn note_partial_of(
    id: Option<String>,
    name: Option<String>,
    favorite: Option<bool>,
    content: Option<String>,
) -> NotePartial {
    NotePartial {
        id: opt_str_view(id),
        name: opt_str_view(name),
        favorite: favorite,
        content: opt_str_view(content),
    }
}

/// Consumes one note object, as `scan_note` states.
#[verifier::rlimit(100)]
#[verifier::spinoff_prover]
fn parse_note(s: &str, i: usize) -> (r: Option<(Note, usize)>)
    requires
        i <= s@.len(),
    ensures
        match r {
            Some((x, j)) => i <= j <= s@.len() && scan_note(s@.skip(i as int)) == Some(
                (x@, s@.skip(j as int)),
            ),
            None => scan_note(s@.skip(i as int)) is None,
        },
{
    let n = s.unicode_len();
    let j0 = match parse_one(s, i, '{') {
        Some(j) => j,
        None => {
            return None;
        },
    };
    let mut f_id: Option<String> = None;
    let mut f_name: Option<String> = None;
    let mut f_favorite: Option<bool> = None;
    let mut f_content: Option<String> = None;
    let mut k: usize = j0;
    loop
        invariant
            i < j0 <= k <= n,
            n == s@.len(),
            scan_char(s@.skip(i as int), '{') == Some(s@.skip(j0 as int)),
            scan_note_fields(s@.skip(j0 as int), note_empty()) == scan_note_fields(
                s@.skip(k as int),
                note_partial_of(f_id, f_name, f_favorite, f_content),
            ),
        decreases n - k,
    {
        if f_id.is_none() {
            match parse_field_start(s, k, "\"id\"") {
                Some(vs) => {
                    let (x, j2) = match parse_string(s, vs) {
                    Some(p) => p,
                    None => {
                        return None;
                    },
                };
                    let k4 = skip_ws(s, j2);
                    if k4 == n {
                        return None;
                    }
                    let ch = s.get_char(k4);
                    proof {
                        assert(s@.skip(k4 as int)[0] == s@[k4 as int]);
                        assert(s@.skip(k4 as int).skip(1) =~= s@.skip(k4 + 1));
                    }
                    if ch == ',' {
                        f_id = Some(x);
                        k = k4 + 1;
                        continue ;
                    } else if ch == '}' {
                        f_id = Some(x);
                        match (f_id, f_name, f_favorite, f_content) {
                            (Some(id), Some(name), Some(favorite), Some(content)) => {
                                return Some((Note { id, name, favorite, content }, k4 + 1));
                            },
                            _ => {
                                return None;
                            },
                        }
                    } else {
                        return None;
                    }
                },
                None => {},
            }
        }
        if f_name.is_none() {
            match parse_field_start(s, k, "\"name\"") {
                Some(vs) => {
                    let (x, j2) = match parse_string(s, vs) {
                    Some(p) => p,
                    None => {
                        return None;
                    },
                };
                    let k4 = skip_ws(s, j2);
                    if k4 == n {
                        return None;
                    }
                    let ch = s.get_char(k4);
                    proof {
                        assert(s@.skip(k4 as int)[0] == s@[k4 as int]);
                        assert(s@.skip(k4 as int).skip(1) =~= s@.skip(k4 + 1));
                    }
                    if ch == ',' {
                        f_name = Some(x);
                        k = k4 + 1;
                        continue ;
                    } else if ch == '}' {
                        f_name = Some(x);
                        match (f_id, f_name, f_favorite, f_content) {
                            (Some(id), Some(name), Some(favorite), Some(content)) => {
                                return Some((Note { id, name, favorite, content }, k4 + 1));
                            },
                            _ => {
                                return None;
                            },
                        }
                    } else {
                        return None;
                    }
                },
                None => {},
            }
        }
        if f_favorite.is_none() {
            match parse_field_start(s, k, "\"favorite\"") {
                Some(vs) => {
                    let (x, j2) = match parse_bool(s, vs) {
                    Some(p) => p,
                    None => {
                        return None;
                    },
                };
                    let k4 = skip_ws(s, j2);
                    if k4 == n {
                        return None;
                    }
                    let ch = s.get_char(k4);
                    proof {
                        assert(s@.skip(k4 as int)[0] == s@[k4 as int]);
                        assert(s@.skip(k4 as int).skip(1) =~= s@.skip(k4 + 1));
                    }
                    if ch == ',' {
                        f_favorite = Some(x);
                        k = k4 + 1;
                        continue ;
                    } else if ch == '}' {
                        f_favorite = Some(x);
                        match (f_id, f_name, f_favorite, f_content) {
                            (Some(id), Some(name), Some(favorite), Some(content)) => {
                                return Some((Note { id, name, favorite, content }, k4 + 1));
                            },
                            _ => {
                                return None;
                            },
                        }
                    } else {
                        return None;
                    }
                },
                None => {},
            }
        }
        if f_content.is_none() {
            match parse_field_start(s, k, "\"content\"") {
                Some(vs) => {
                    let (x, j2) = match parse_string(s, vs) {
                    Some(p) => p,
                    None => {
                        return None;
                    },
                };
                    let k4 = skip_ws(s, j2);
                    if k4 == n {
                        return None;
                    }
                    let ch = s.get_char(k4);
                    proof {
                        assert(s@.skip(k4 as int)[0] == s@[k4 as int]);
                        assert(s@.skip(k4 as int).skip(1) =~= s@.skip(k4 + 1));
                    }
                    if ch == ',' {
                        f_content = Some(x);
                        k = k4 + 1;
                        continue ;
                    } else if ch == '}' {
                        f_content = Some(x);
                        match (f_id, f_name, f_favorite, f_content) {
                            (Some(id), Some(name), Some(favorite), Some(content)) => {
                                return Some((Note { id, name, favorite, content }, k4 + 1));
                            },
                            _ => {
                                return None;
                            },
                        }
                    } else {
                        return None;
                    }
                },
                None => {},
            }
        }
        return None;
    }
}

/// Consumes the credentials array, as `scan_creds` states.
fn parse_creds(s: &str, i: usize) -> (r: Option<(Vec<Credential>, usize)>)
    requires
        i <= s@.len(),
    ensures
        match r {
            Some((v, j)) => i < j <= s@.len() && scan_creds(s@.skip(i as int)) == Some(
                (creds_view(v@), s@.skip(j as int)),
            ),
            None => scan_creds(s@.skip(i as int)) is None,
        },
{
    let n = s.unicode_len();
    let j0 = match parse_one(s, i, '[') {
        Some(j) => j,
        None => {
            return None;
        },
    };
    let j1 = skip_ws(s, j0);
    if j1 < n && s.get_char(j1) == ']' {
        proof {
            assert(s@.skip(j1 as int)[0] == s@[j1 as int]);
            assert(s@.skip(j1 as int).skip(1) =~= s@.skip(j1 + 1));
            assert(creds_view(Seq::<Credential>::empty()) =~= Seq::<CredentialView>::empty());
        }
        let v: Vec<Credential> = Vec::new();
        return Some((v, j1 + 1));
    }
    proof {
        if j1 < n {
            assert(s@.skip(j1 as int)[0] == s@[j1 as int]);
        }
    }
    let mut acc: Vec<Credential> = Vec::new();
    let mut k: usize = j0;
    loop
        invariant
            i < j0 <= k <= n,
            n == s@.len(),
            scan_creds(s@.skip(i as int)) == (match scan_cred_items(s@.skip(k as int)) {
                Some((cs, r2)) => Some::<(Seq<CredentialView>, Seq<char>)>(
                    (creds_view(acc@) + cs, r2),
                ),
                None => None::<(Seq<CredentialView>, Seq<char>)>,
            }),
        decreases s@.len() - k,
    {
        let ki = skip_ws(s, k);
        let (c, k2) = match parse_cred(s, ki) {
            Some(p) => p,
            None => {
                return None;
            },
        };
        let k3 = skip_ws(s, k2);
        if k3 == n {
            return None;
        }
        let ch = s.get_char(k3);
        proof {
            assert(s@.skip(k3 as int)[0] == s@[k3 as int]);
            assert(s@.skip(k3 as int).skip(1) =~= s@.skip(k3 + 1));
        }
        if ch == ',' {
            let ghost acc0 = acc@;
            let ghost cv = c@;
            acc.push(c);
            proof {
                assert(creds_view(acc@) =~= creds_view(acc0) + seq![cv]) by {
                    assert(acc@ =~= acc0.push(c));
                }
                let it = scan_cred_items(s@.skip(k3 + 1));
                if it is Some {
                    let (cs, r2) = it->Some_0;
                    lemma_assoc(creds_view(acc0), seq![cv], cs);
                }
            }
            k = k3 + 1;
        } else if ch == ']' {
            let ghost acc0 = acc@;
            let ghost cv = c@;
            acc.push(c);
            proof {
                assert(creds_view(acc@) =~= creds_view(acc0) + seq![cv]) by {
                    assert(acc@ =~= acc0.push(c));
                }
                assert(scan_cred_items(s@.skip(k as int)) == Some((seq![cv], s@.skip(k3 + 1))));
            }
            return Some((acc, k3 + 1));
        } else {
            return None;
        }
    }
}

/// Consumes the notes array, as `scan_notes` states.
fn parse_notes(s: &str, i: usize) -> (r: Option<(Vec<Note>, usize)>)
    requires
        i <= s@.len(),
    ensures
        match r {
            Some((v, j)) => i < j <= s@.len() && scan_notes(s@.skip(i as int)) == Some(
                (notes_view(v@), s@.skip(j as int)),
            ),
            None => scan_notes(s@.skip(i as int)) is None,
        },
{
    let n = s.unicode_len();
    let j0 = match parse_one(s, i, '[') {
        Some(j) => j,
        None => {
            return None;
        },
    };
    let j1 = skip_ws(s, j0);
    if j1 < n && s.get_char(j1) == ']' {
        proof {
            assert(s@.skip(j1 as int)[0] == s@[j1 as int]);
            assert(s@.skip(j1 as int).skip(1) =~= s@.skip(j1 + 1));
            assert(notes_view(Seq::<Note>::empty()) =~= Seq::<NoteView>::empty());
        }
        let v: Vec<Note> = Vec::new();
        return Some((v, j1 + 1));
    }
    proof {
        if j1 < n {
            assert(s@.skip(j1 as int)[0] == s@[j1 as int]);
        }
    }
    let mut acc: Vec<Note> = Vec::new();
    let mut k: usize = j0;
    loop
        invariant
            i < j0 <= k <= n,
            n == s@.len(),
            scan_notes(s@.skip(i as int)) == (match scan_note_items(s@.skip(k as int)) {
                Some((ns, r2)) => Some::<(Seq<NoteView>, Seq<char>)>(
                    (notes_view(acc@) + ns, r2),
                ),
                None => None::<(Seq<NoteView>, Seq<char>)>,
            }),
        decreases s@.len() - k,
    {
        let ki = skip_ws(s, k);
        let (x, k2) = match parse_note(s, ki) {
            Some(p) => p,
            None => {
                return None;
            },
        };
        let k3 = skip_ws(s, k2);
        if k3 == n {
            return None;
        }
        let ch = s.get_char(k3);
        proof {
            assert(s@.skip(k3 as int)[0] == s@[k3 as int]);
            assert(s@.skip(k3 as int).skip(1) =~= s@.skip(k3 + 1));
        }
        if ch == ',' {
            let ghost acc0 = acc@;
            let ghost xv = x@;
            acc.push(x);
            proof {
                assert(notes_view(acc@) =~= notes_view(acc0) + seq![xv]) by {
                    assert(acc@ =~= acc0.push(x));
                }
                let it = scan_note_items(s@.skip(k3 + 1));
                if it is Some {
                    let (ns, r2) = it->Some_0;
                    lemma_assoc(notes_view(acc0), seq![xv], ns);
                }
            }
            k = k3 + 1;
        } else if ch == ']' {
            let ghost acc0 = acc@;
            let ghost xv = x@;
            acc.push(x);
            proof {
                assert(notes_view(acc@) =~= notes_view(acc0) + seq![xv]) by {
                    assert(acc@ =~= acc0.push(x));
                }
                assert(scan_note_items(s@.skip(k as int)) == Some((seq![xv], s@.skip(k3 + 1))));
            }
            return Some((acc, k3 + 1));
        } else {
            return None;
        }
    }
}

/// The view of an optional credential vector.
pub open spec fn opt_creds_view(o: Option<Vec<Credential>>) -> Option<Seq<CredentialView>> {
    match o {
        Some(v) => Some(creds_view(v@)),
        None => None,
    }
}

/// The view of an optional note vector.
pub open spec fn opt_notes_view(o: Option<Vec<Note>>) -> Option<Seq<NoteView>> {
    match o {
        Some(v) => Some(notes_view(v@)),
        None => None,
    }
}

/// The vault fields read so far, as the grammar's partial record.
pub open spec fn vault_partial_of(
    salt: Option<u128>,
    nonce: Option<u128>,
    encrypted: Option<bool>,
    credentials: Option<Vec<Credential>>,
    notes: Option<Vec<Note>>,
    version: Option<String>,
) -> VaultPartial {
    VaultPartial {
        salt: salt,
        nonce: nonce,
        encrypted: encrypted,
        credentials: opt_creds_view(credentials),
        notes: opt_notes_view(notes),
        version: opt_str_view(version),
    }
}

impl Vault {

    /// Loads a vault from its persisted document, as `parse_document`
    /// states: a vault object whose fields may come in any order, each
    /// exactly once, with optional whitespace between tokens. Every other
    /// input is reported as malformed, and nothing is loaded from it.
    #[verifier::rlimit(100)]
    #[verifier::spinoff_prover]
    pub fn struct_from_document(s: &str) -> (r: Result<Vault, VaultError>)
        ensures
            match r {
                Ok(v) => parse_document(s@) == Some(v@),
                Err(e) => parse_document(s@) is None && e == VaultError::MalformedDocument,
            },
    {
        let n = s.unicode_len();
        proof {
            assert(s@.skip(0) =~= s@);
        }
        let j00 = skip_ws(s, 0);
        let j0 = match parse_one(s, j00, '{') {
            Some(j) => j,
            None => {
                return Err(VaultError::MalformedDocument);
            },
        };
        let mut f_salt: Option<u128> = None;
        let mut f_nonce: Option<u128> = None;
        let mut f_encrypted: Option<bool> = None;
        let mut f_credentials: Option<Vec<Credential>> = None;
        let mut f_notes: Option<Vec<Note>> = None;
        let mut f_version: Option<String> = None;
        let mut k: usize = j0;
        loop
            invariant
                j00 < j0 <= k <= n,
                n == s@.len(),
                scan_ws(s@) == s@.skip(j00 as int),
                scan_char(s@.skip(j00 as int), '{') == Some(s@.skip(j0 as int)),
                scan_vault_fields(s@.skip(j0 as int), vault_empty()) == scan_vault_fields(
                    s@.skip(k as int),
                    vault_partial_of(
                        f_salt,
                        f_nonce,
                        f_encrypted,
                        f_credentials,
                        f_notes,
                        f_version,
                    ),
                ),
            decreases n - k,
        {
            if f_salt.is_none() {
                match parse_field_start(s, k, "\"salt\"") {
                    Some(vs) => {
                        let (x, j2) = match parse_u128(s, vs) {
                            Some(p) => p,
                            None => {
                                return Err(VaultError::MalformedDocument);
                            },
                        };
                        let k4 = skip_ws(s, j2);
                        if k4 == n {
                            return Err(VaultError::MalformedDocument);
                        }
                        let ch = s.get_char(k4);
                        proof {
                            assert(s@.skip(k4 as int)[0] == s@[k4 as int]);
                            assert(s@.skip(k4 as int).skip(1) =~= s@.skip(k4 + 1));
                        }
                        if ch == ',' {
                            f_salt = Some(x);
                            k = k4 + 1;
                            continue ;
                        } else if ch == '}' {
                            f_salt = Some(x);
                            let jw = skip_ws(s, k4 + 1);
                            if jw != n {
                                return Err(VaultError::MalformedDocument);
                            }
                            match (f_salt, f_nonce, f_encrypted, f_credentials, f_notes, f_version) {
                                (
                                    Some(salt),
                                    Some(nonce),
                                    Some(encrypted),
                                    Some(credentials),
                                    Some(notes),
                                    Some(version),
                                ) => {
                                    return Ok(
                                        Vault { salt, nonce, encrypted, credentials, notes, version },
                                    );
                                },
                                _ => {
                                    return Err(VaultError::MalformedDocument);
                                },
                            }
                        } else {
                            return Err(VaultError::MalformedDocument);
                        }
                    },
                    None => {},
                }
            }
            if f_nonce.is_none() {
                match parse_field_start(s, k, "\"nonce\"") {
                    Some(vs) => {
                        let (x, j2) = match parse_u128(s, vs) {
                            Some(p) => p,
                            None => {
                                return Err(VaultError::MalformedDocument);
                            },
                        };
                        let k4 = skip_ws(s, j2);
                        if k4 == n {
                            return Err(VaultError::MalformedDocument);
                        }
                        let ch = s.get_char(k4);
                        proof {
                            assert(s@.skip(k4 as int)[0] == s@[k4 as int]);
                            assert(s@.skip(k4 as int).skip(1) =~= s@.skip(k4 + 1));
                        }
                        if ch == ',' {
                            f_nonce = Some(x);
                            k = k4 + 1;
                            continue ;
                        } else if ch == '}' {
                            f_nonce = Some(x);
                            let jw = skip_ws(s, k4 + 1);
                            if jw != n {
                                return Err(VaultError::MalformedDocument);
                            }
                            match (f_salt, f_nonce, f_encrypted, f_credentials, f_notes, f_version) {
                                (
                                    Some(salt),
                                    Some(nonce),
                                    Some(encrypted),
                                    Some(credentials),
                                    Some(notes),
                                    Some(version),
                                ) => {
                                    return Ok(
                                        Vault { salt, nonce, encrypted, credentials, notes, version },
                                    );
                                },
                                _ => {
                                    return Err(VaultError::MalformedDocument);
                                },
                            }
                        } else {
                            return Err(VaultError::MalformedDocument);
                        }
                    },
                    None => {},
                }
            }
            if f_encrypted.is_none() {
                match parse_field_start(s, k, "\"encrypted\"") {
                    Some(vs) => {
                        let (x, j2) = match parse_bool(s, vs) {
                            Some(p) => p,
                            None => {
                                return Err(VaultError::MalformedDocument);
                            },
                        };
                        let k4 = skip_ws(s, j2);
                        if k4 == n {
                            return Err(VaultError::MalformedDocument);
                        }
                        let ch = s.get_char(k4);
                        proof {
                            assert(s@.skip(k4 as int)[0] == s@[k4 as int]);
                            assert(s@.skip(k4 as int).skip(1) =~= s@.skip(k4 + 1));
                        }
                        if ch == ',' {
                            f_encrypted = Some(x);
                            k = k4 + 1;
                            continue ;
                        } else if ch == '}' {
                            f_encrypted = Some(x);
                            let jw = skip_ws(s, k4 + 1);
                            if jw != n {
                                return Err(VaultError::MalformedDocument);
                            }
                            match (f_salt, f_nonce, f_encrypted, f_credentials, f_notes, f_version) {
                                (
                                    Some(salt),
                                    Some(nonce),
                                    Some(encrypted),
                                    Some(credentials),
                                    Some(notes),
                                    Some(version),
                                ) => {
                                    return Ok(
                                        Vault { salt, nonce, encrypted, credentials, notes, version },
                                    );
                                },
                                _ => {
                                    return Err(VaultError::MalformedDocument);
                                },
                            }
                        } else {
                            return Err(VaultError::MalformedDocument);
                        }
                    },
                    None => {},
                }
            }
            if f_credentials.is_none() {
                match parse_field_start(s, k, "\"credentials\"") {
                    Some(vs) => {
                        let (x, j2) = match parse_creds(s, vs) {
                            Some(p) => p,
                            None => {
                                return Err(VaultError::MalformedDocument);
                            },
                        };
                        let k4 = skip_ws(s, j2);
                        if k4 == n {
                            return Err(VaultError::MalformedDocument);
                        }
                        let ch = s.get_char(k4);
                        proof {
                            assert(s@.skip(k4 as int)[0] == s@[k4 as int]);
                            assert(s@.skip(k4 as int).skip(1) =~= s@.skip(k4 + 1));
                        }
                        if ch == ',' {
                            f_credentials = Some(x);
                            k = k4 + 1;
                            continue ;
                        } else if ch == '}' {
                            f_credentials = Some(x);
                            let jw = skip_ws(s, k4 + 1);
                            if jw != n {
                                return Err(VaultError::MalformedDocument);
                            }
                            match (f_salt, f_nonce, f_encrypted, f_credentials, f_notes, f_version) {
                                (
                                    Some(salt),
                                    Some(nonce),
                                    Some(encrypted),
                                    Some(credentials),
                                    Some(notes),
                                    Some(version),
                                ) => {
                                    return Ok(
                                        Vault { salt, nonce, encrypted, credentials, notes, version },
                                    );
                                },
                                _ => {
                                    return Err(VaultError::MalformedDocument);
                                },
                            }
                        } else {
                            return Err(VaultError::MalformedDocument);
                        }
                    },
                    None => {},
                }
            }
            if f_notes.is_none() {
                match parse_field_start(s, k, "\"notes\"") {
                    Some(vs) => {
                        let (x, j2) = match parse_notes(s, vs) {
                            Some(p) => p,
                            None => {
                                return Err(VaultError::MalformedDocument);
                            },
                        };
                        let k4 = skip_ws(s, j2);
                        if k4 == n {
                            return Err(VaultError::MalformedDocument);
                        }
                        let ch = s.get_char(k4);
                        proof {
                            assert(s@.skip(k4 as int)[0] == s@[k4 as int]);
                            assert(s@.skip(k4 as int).skip(1) =~= s@.skip(k4 + 1));
                        }
                        if ch == ',' {
                            f_notes = Some(x);
                            k = k4 + 1;
                            continue ;
                        } else if ch == '}' {
                            f_notes = Some(x);
                            let jw = skip_ws(s, k4 + 1);
                            if jw != n {
                                return Err(VaultError::MalformedDocument);
                            }
                            match (f_salt, f_nonce, f_encrypted, f_credentials, f_notes, f_version) {
                                (
                                    Some(salt),
                                    Some(nonce),
                                    Some(encrypted),
                                    Some(credentials),
                                    Some(notes),
                                    Some(version),
                                ) => {
                                    return Ok(
                                        Vault { salt, nonce, encrypted, credentials, notes, version },
                                    );
                                },
                                _ => {
                                    return Err(VaultError::MalformedDocument);
                                },
                            }
                        } else {
                            return Err(VaultError::MalformedDocument);
                        }
                    },
                    None => {},
                }
            }
            if f_version.is_none() {
                match parse_field_start(s, k, "\"version\"") {
                    Some(vs) => {
                        let (x, j2) = match parse_string(s, vs) {
                            Some(p) => p,
                            None => {
                                return Err(VaultError::MalformedDocument);
                            },
                        };
                        let k4 = skip_ws(s, j2);
                        if k4 == n {
                            return Err(VaultError::MalformedDocument);
                        }
                        let ch = s.get_char(k4);
                        proof {
                            assert(s@.skip(k4 as int)[0] == s@[k4 as int]);
                            assert(s@.skip(k4 as int).skip(1) =~= s@.skip(k4 + 1));
                        }
                        if ch == ',' {
                            f_version = Some(x);
                            k = k4 + 1;
                            continue ;
                        } else if ch == '}' {
                            f_version = Some(x);
                            let jw = skip_ws(s, k4 + 1);
                            if jw != n {
                                return Err(VaultError::MalformedDocument);
                            }
                            match (f_salt, f_nonce, f_encrypted, f_credentials, f_notes, f_version) {
                                (
                                    Some(salt),
                                    Some(nonce),
                                    Some(encrypted),
                                    Some(credentials),
                                    Some(notes),
                                    Some(version),
                                ) => {
                                    return Ok(
                                        Vault { salt, nonce, encrypted, credentials, notes, version },
                                    );
                                },
                                _ => {
                                    return Err(VaultError::MalformedDocument);
                                },
                            }
                        } else {
                            return Err(VaultError::MalformedDocument);
                        }
                    },
                    None => {},
                }
            }
            return Err(VaultError::MalformedDocument);
        }
    }

    /// Renders the whole vault as its persisted document.
    pub fn to_document(&self) -> (r: String)
        ensures
            r@ == vault_doc(self@),
    {
        let mut out = String::new();
        out.append("{\"salt\":");
        proof {
            assert(Seq::<char>::empty() + "{\"salt\":"@ =~= "{\"salt\":"@);
        }
        push_u128(&mut out, self.salt);
        out.append(",\"nonce\":");
        push_u128(&mut out, self.nonce);
        out.append(",\"encrypted\":");
        push_bool(&mut out, self.encrypted);
        out.append(",\"credentials\":");
        let cs = render_creds(&self.credentials);
        out.append(cs.as_str());
        out.append(",\"notes\":");
        let ns = render_notes(&self.notes);
        out.append(ns.as_str());
        out.append(",\"version\":");
        push_str_doc(&mut out, self.version.as_str());
        out.append("}");
        out
    }
}

} // verus!
