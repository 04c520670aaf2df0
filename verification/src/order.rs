//! The order used by the favorite-first sort.
//!
//! Records are ranked by a pair: favorites come first, and records with the
//! same favorite status are ranked by codepoint-wise lexicographic comparison
//! of their display names.

use vstd::prelude::*;

verus! {

/// Lexicographic `<=` on character sequences, comparing codepoints.
pub open spec fn str_le(a: Seq<char>, b: Seq<char>) -> bool
    decreases a.len(),
{
    if a.len() == 0 {
        true
    } else if b.len() == 0 {
        false
    } else if (a[0] as u32) == (b[0] as u32) {
        str_le(a.skip(1), b.skip(1))
    } else {
        (a[0] as u32) < (b[0] as u32)
    }
}

/// The rank used by the sort: favorites first, then names ascending.
pub open spec fn rank_le(fav_a: bool, name_a: Seq<char>, fav_b: bool, name_b: Seq<char>) -> bool {
    if fav_a == fav_b {
        str_le(name_a, name_b)
    } else {
        fav_a
    }
}

pub proof fn lemma_str_le_total(a: Seq<char>, b: Seq<char>)
    ensures
        str_le(a, b) || str_le(b, a),
    decreases a.len(),
{
    if a.len() != 0 && b.len() != 0 {
        lemma_str_le_total(a.skip(1), b.skip(1));
    }
}

pub proof fn lemma_str_le_trans(a: Seq<char>, b: Seq<char>, c: Seq<char>)
    requires
        str_le(a, b),
        str_le(b, c),
    ensures
        str_le(a, c),
    decreases a.len(),
{
    if a.len() != 0 && b.len() != 0 && c.len() != 0 {
        if (a[0] as u32) == (b[0] as u32) && (b[0] as u32) == (c[0] as u32) {
            lemma_str_le_trans(a.skip(1), b.skip(1), c.skip(1));
        }
    }
}

pub proof fn lemma_rank_le_total(fav_a: bool, name_a: Seq<char>, fav_b: bool, name_b: Seq<char>)
    ensures
        rank_le(fav_a, name_a, fav_b, name_b) || rank_le(fav_b, name_b, fav_a, name_a),
{
    lemma_str_le_total(name_a, name_b);
}

pub proof fn lemma_rank_le_trans(
    fav_a: bool,
    name_a: Seq<char>,
    fav_b: bool,
    name_b: Seq<char>,
    fav_c: bool,
    name_c: Seq<char>,
)
    requires
        rank_le(fav_a, name_a, fav_b, name_b),
        rank_le(fav_b, name_b, fav_c, name_c),
    ensures
        rank_le(fav_a, name_a, fav_c, name_c),
{
    if fav_a == fav_b && fav_b == fav_c {
        lemma_str_le_trans(name_a, name_b, name_c);
    }
}

/// Compares two strings codepoint by codepoint, starting at position `i`.
fn str_le_at(a: &str, b: &str, i: usize) -> (r: bool)
    requires
        i <= a@.len(),
        i <= b@.len(),
    ensures
        r == str_le(a@.skip(i as int), b@.skip(i as int)),
    decreases a@.len() - i,
{
    let a_len = a.unicode_len();
    let b_len = b.unicode_len();
    if i == a_len {
        true
    } else if i == b_len {
        false
    } else {
        let ca = a.get_char(i);
        let cb = b.get_char(i);
        proof {
            assert(a@.skip(i as int)[0] == a@[i as int]);
            assert(b@.skip(i as int)[0] == b@[i as int]);
            assert(a@.skip(i as int).skip(1) =~= a@.skip(i as int + 1));
            assert(b@.skip(i as int).skip(1) =~= b@.skip(i as int + 1));
        }
        if (ca as u32) == (cb as u32) {
            str_le_at(a, b, i + 1)
        } else {
            (ca as u32) < (cb as u32)
        }
    }
}

/// String equality, stated over the character sequences.
pub fn string_eq(a: &str, b: &str) -> (r: bool)
    ensures
        r == (a@ == b@),
{
    let a_len = a.unicode_len();
    let b_len = b.unicode_len();
    if a_len != b_len {
        return false;
    }
    let mut i: usize = 0;
    while i < a_len
        invariant
            i <= a_len,
            a@.len() == a_len,
            b@.len() == a_len,
            forall|j: int| 0 <= j < i ==> a@[j] == b@[j],
        decreases a_len - i,
    {
        if a.get_char(i) != b.get_char(i) {
            return false;
        }
        i = i + 1;
    }
    proof {
        assert(a@ =~= b@);
    }
    true
}

/// The executable rank comparison, as `rank_le` states it.
pub fn string_rank_le(fav_a: bool, name_a: &str, fav_b: bool, name_b: &str) -> (r: bool)
    ensures
        r == rank_le(fav_a, name_a@, fav_b, name_b@),
{
    if fav_a == fav_b {
        string_le(name_a, name_b)
    } else {
        fav_a
    }
}

/// Lexicographic `<=` on strings, as `str_le` states it.
pub fn string_le(a: &str, b: &str) -> (r: bool)
    ensures
        r == str_le(a@, b@),
{
    proof {
        assert(a@.skip(0) =~= a@);
        assert(b@.skip(0) =~= b@);
    }
    str_le_at(a, b, 0)
}

} // verus!
