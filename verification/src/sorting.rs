//! The favorite-first sort over credential and note sequences.
//!
//! `sort_creds` / `sort_notes` are insertion sorts written as spec
//! functions; the vault's executable sort produces exactly these sequences.
//! The lemmas state the sort laws: the result is sorted, it is a permutation
//! of the input, and sorting is idempotent.

use vstd::multiset::Multiset;
use vstd::prelude::*;

use crate::order::lemma_rank_le_total;
use crate::order::lemma_rank_le_trans;
use crate::order::rank_le;
use crate::records::Credential;
use crate::records::Note;

verus! {

/// The sort order on credentials: favorites first, then names ascending.
pub open spec fn cred_le(a: Credential, b: Credential) -> bool {
    rank_le(a.favorite, a.name@, b.favorite, b.name@)
}

/// The sort order on notes: favorites first, then names ascending.
pub open spec fn note_le(a: Note, b: Note) -> bool {
    rank_le(a.favorite, a.name@, b.favorite, b.name@)
}

/// Every adjacent pair of credentials is ordered.
pub open spec fn creds_sorted(s: Seq<Credential>) -> bool {
    forall|i: int| 0 <= i && i + 1 < s.len() ==> cred_le(#[trigger] s[i], s[i + 1])
}

/// Every adjacent pair of notes is ordered.
pub open spec fn notes_sorted(s: Seq<Note>) -> bool {
    forall|i: int| 0 <= i && i + 1 < s.len() ==> note_le(#[trigger] s[i], s[i + 1])
}

/// Inserts `c` behind every element that ranks at or below it.
pub open spec fn insert_sorted_cred(c: Credential, s: Seq<Credential>) -> Seq<Credential>
    decreases s.len(),
{
    if s.len() == 0 {
        seq![c]
    } else if cred_le(s[0], c) {
        seq![s[0]] + insert_sorted_cred(c, s.skip(1))
    } else {
        seq![c] + s
    }
}

/// Inserts `n` behind every element that ranks at or below it.
pub open spec fn insert_sorted_note(n: Note, s: Seq<Note>) -> Seq<Note>
    decreases s.len(),
{
    if s.len() == 0 {
        seq![n]
    } else if note_le(s[0], n) {
        seq![s[0]] + insert_sorted_note(n, s.skip(1))
    } else {
        seq![n] + s
    }
}

/// Insertion sort over credentials.
pub open spec fn sort_creds(s: Seq<Credential>) -> Seq<Credential>
    decreases s.len(),
{
    if s.len() == 0 {
        Seq::empty()
    } else {
        insert_sorted_cred(s.last(), sort_creds(s.drop_last()))
    }
}

/// Insertion sort over notes.
pub open spec fn sort_notes(s: Seq<Note>) -> Seq<Note>
    decreases s.len(),
{
    if s.len() == 0 {
        Seq::empty()
    } else {
        insert_sorted_note(s.last(), sort_notes(s.drop_last()))
    }
}

proof fn lemma_insert_sorted_cred_shape(c: Credential, s: Seq<Credential>, j: int)
    requires
        0 <= j <= s.len(),
        forall|k: int| 0 <= k < j ==> cred_le(#[trigger] s[k], c),
        j < s.len() ==> !cred_le(s[j], c),
    ensures
        insert_sorted_cred(c, s) == s.insert(j, c),
    decreases s.len(),
{
    if s.len() == 0 {
        assert(insert_sorted_cred(c, s) =~= s.insert(0, c));
    } else if j == 0 {
        assert(insert_sorted_cred(c, s) =~= s.insert(0, c));
    } else {
        assert(cred_le(s[0], c));
        assert(forall|k: int| 0 <= k < j - 1 ==> cred_le(#[trigger] s.skip(1)[k], c));
        lemma_insert_sorted_cred_shape(c, s.skip(1), j - 1);
        assert(seq![s[0]] + s.skip(1).insert(j - 1, c) =~= s.insert(j, c));
    }
}

proof fn lemma_insert_sorted_note_shape(n: Note, s: Seq<Note>, j: int)
    requires
        0 <= j <= s.len(),
        forall|k: int| 0 <= k < j ==> note_le(#[trigger] s[k], n),
        j < s.len() ==> !note_le(s[j], n),
    ensures
        insert_sorted_note(n, s) == s.insert(j, n),
    decreases s.len(),
{
    if s.len() == 0 {
        assert(insert_sorted_note(n, s) =~= s.insert(0, n));
    } else if j == 0 {
        assert(insert_sorted_note(n, s) =~= s.insert(0, n));
    } else {
        assert(note_le(s[0], n));
        assert(forall|k: int| 0 <= k < j - 1 ==> note_le(#[trigger] s.skip(1)[k], n));
        lemma_insert_sorted_note_shape(n, s.skip(1), j - 1);
        assert(seq![s[0]] + s.skip(1).insert(j - 1, n) =~= s.insert(j, n));
    }
}

proof fn lemma_insert_sorted_cred_sorted(c: Credential, s: Seq<Credential>)
    requires
        creds_sorted(s),
    ensures
        creds_sorted(insert_sorted_cred(c, s)),
    decreases s.len(),
{
    if s.len() == 0 {
    } else if cred_le(s[0], c) {
        assert(creds_sorted(s.skip(1))) by {
            assert(forall|i: int|
                0 <= i && i + 1 < s.skip(1).len() ==> #[trigger] s.skip(1)[i] == s[i + 1]
                    && s.skip(1)[i + 1] == s[i + 2]);
        }
        lemma_insert_sorted_cred_sorted(c, s.skip(1));
        let t = insert_sorted_cred(c, s.skip(1));
        let r = seq![s[0]] + t;
        assert(t.len() > 0);
        assert(t[0] == c || (s.skip(1).len() > 0 && t[0] == s.skip(1)[0]));
        assert(cred_le(s[0], t[0]));
        assert(forall|i: int| 0 <= i && i + 1 < t.len() ==> cred_le(#[trigger] t[i], t[i + 1]));
        assert(forall|i: int| 1 <= i && i + 1 < r.len() ==> #[trigger] r[i] == t[i - 1] && r[i + 1] == t[i]);
        assert(creds_sorted(r));
    } else {
        lemma_rank_le_total(c.favorite, c.name@, s[0].favorite, s[0].name@);
        let r = seq![c] + s;
        assert(cred_le(r[0], r[1]));
        assert(forall|i: int| 1 <= i && i + 1 < r.len() ==> #[trigger] r[i] == s[i - 1] && r[i + 1] == s[i]);
        assert(creds_sorted(r));
    }
}

proof fn lemma_insert_sorted_note_sorted(n: Note, s: Seq<Note>)
    requires
        notes_sorted(s),
    ensures
        notes_sorted(insert_sorted_note(n, s)),
    decreases s.len(),
{
    if s.len() == 0 {
    } else if note_le(s[0], n) {
        assert(notes_sorted(s.skip(1))) by {
            assert(forall|i: int|
                0 <= i && i + 1 < s.skip(1).len() ==> #[trigger] s.skip(1)[i] == s[i + 1]
                    && s.skip(1)[i + 1] == s[i + 2]);
        }
        lemma_insert_sorted_note_sorted(n, s.skip(1));
        let t = insert_sorted_note(n, s.skip(1));
        let r = seq![s[0]] + t;
        assert(t.len() > 0);
        assert(t[0] == n || (s.skip(1).len() > 0 && t[0] == s.skip(1)[0]));
        assert(note_le(s[0], t[0]));
        assert(forall|i: int| 0 <= i && i + 1 < t.len() ==> note_le(#[trigger] t[i], t[i + 1]));
        assert(forall|i: int| 1 <= i && i + 1 < r.len() ==> #[trigger] r[i] == t[i - 1] && r[i + 1] == t[i]);
        assert(notes_sorted(r));
    } else {
        lemma_rank_le_total(n.favorite, n.name@, s[0].favorite, s[0].name@);
        let r = seq![n] + s;
        assert(note_le(r[0], r[1]));
        assert(forall|i: int| 1 <= i && i + 1 < r.len() ==> #[trigger] r[i] == s[i - 1] && r[i + 1] == s[i]);
        assert(notes_sorted(r));
    }
}

proof fn lemma_insert_sorted_cred_multiset(c: Credential, s: Seq<Credential>)
    ensures
        insert_sorted_cred(c, s).to_multiset() == s.to_multiset().insert(c),
    decreases s.len(),
{
    broadcast use vstd::seq_lib::group_to_multiset_ensures;

    if s.len() == 0 {
        assert(seq![c] =~= Seq::<Credential>::empty().push(c));
    } else if cred_le(s[0], c) {
        lemma_insert_sorted_cred_multiset(c, s.skip(1));
        vstd::seq_lib::lemma_multiset_commutative(seq![s[0]], insert_sorted_cred(c, s.skip(1)));
        vstd::seq_lib::lemma_multiset_commutative(seq![s[0]], s.skip(1));
        assert(seq![s[0]] + s.skip(1) =~= s);
        assert(insert_sorted_cred(c, s).to_multiset() =~= s.to_multiset().insert(c));
    } else {
        vstd::seq_lib::lemma_multiset_commutative(seq![c], s);
        assert(seq![c].to_multiset() =~= Multiset::<Credential>::empty().insert(c)) by {
            assert(seq![c] =~= Seq::<Credential>::empty().push(c));
        }
        assert(insert_sorted_cred(c, s).to_multiset() =~= s.to_multiset().insert(c));
    }
}

proof fn lemma_insert_sorted_note_multiset(n: Note, s: Seq<Note>)
    ensures
        insert_sorted_note(n, s).to_multiset() == s.to_multiset().insert(n),
    decreases s.len(),
{
    broadcast use vstd::seq_lib::group_to_multiset_ensures;

    if s.len() == 0 {
        assert(seq![n] =~= Seq::<Note>::empty().push(n));
    } else if note_le(s[0], n) {
        lemma_insert_sorted_note_multiset(n, s.skip(1));
        vstd::seq_lib::lemma_multiset_commutative(seq![s[0]], insert_sorted_note(n, s.skip(1)));
        vstd::seq_lib::lemma_multiset_commutative(seq![s[0]], s.skip(1));
        assert(seq![s[0]] + s.skip(1) =~= s);
        assert(insert_sorted_note(n, s).to_multiset() =~= s.to_multiset().insert(n));
    } else {
        vstd::seq_lib::lemma_multiset_commutative(seq![n], s);
        assert(seq![n].to_multiset() =~= Multiset::<Note>::empty().insert(n)) by {
            assert(seq![n] =~= Seq::<Note>::empty().push(n));
        }
        assert(insert_sorted_note(n, s).to_multiset() =~= s.to_multiset().insert(n));
    }
}

/// Sort correctness for credentials: the sorted sequence has every adjacent
/// pair ordered (favorites first, then names ascending) and holds exactly the
/// records of the input.
pub proof fn lemma_sort_creds_correct(s: Seq<Credential>)
    ensures
        creds_sorted(sort_creds(s)),
        sort_creds(s).to_multiset() == s.to_multiset(),
        sort_creds(s).len() == s.len(),
    decreases s.len(),
{
    broadcast use vstd::seq_lib::group_to_multiset_ensures;

    if s.len() == 0 {
    } else {
        lemma_sort_creds_correct(s.drop_last());
        lemma_insert_sorted_cred_sorted(s.last(), sort_creds(s.drop_last()));
        lemma_insert_sorted_cred_multiset(s.last(), sort_creds(s.drop_last()));
        assert(s.drop_last().push(s.last()) =~= s);
        assert(sort_creds(s).to_multiset() =~= s.to_multiset());
        assert(sort_creds(s).to_multiset().len() == s.to_multiset().len());
    }
}

/// Sort correctness for notes, stated as for credentials.
pub proof fn lemma_sort_notes_correct(s: Seq<Note>)
    ensures
        notes_sorted(sort_notes(s)),
        sort_notes(s).to_multiset() == s.to_multiset(),
        sort_notes(s).len() == s.len(),
    decreases s.len(),
{
    broadcast use vstd::seq_lib::group_to_multiset_ensures;

    if s.len() == 0 {
    } else {
        lemma_sort_notes_correct(s.drop_last());
        lemma_insert_sorted_note_sorted(s.last(), sort_notes(s.drop_last()));
        lemma_insert_sorted_note_multiset(s.last(), sort_notes(s.drop_last()));
        assert(s.drop_last().push(s.last()) =~= s);
        assert(sort_notes(s).to_multiset() =~= s.to_multiset());
        assert(sort_notes(s).to_multiset().len() == s.to_multiset().len());
    }
}

proof fn lemma_creds_sorted_all_le(s: Seq<Credential>, i: int, j: int)
    requires
        creds_sorted(s),
        0 <= i <= j < s.len(),
    ensures
        cred_le(s[i], s[j]),
    decreases j - i,
{
    if i < j {
        lemma_creds_sorted_all_le(s, i, j - 1);
        lemma_rank_le_trans(
            s[i].favorite,
            s[i].name@,
            s[j - 1].favorite,
            s[j - 1].name@,
            s[j].favorite,
            s[j].name@,
        );
    } else {
        lemma_rank_le_total(s[i].favorite, s[i].name@, s[j].favorite, s[j].name@);
    }
}

proof fn lemma_notes_sorted_all_le(s: Seq<Note>, i: int, j: int)
    requires
        notes_sorted(s),
        0 <= i <= j < s.len(),
    ensures
        note_le(s[i], s[j]),
    decreases j - i,
{
    if i < j {
        lemma_notes_sorted_all_le(s, i, j - 1);
        lemma_rank_le_trans(
            s[i].favorite,
            s[i].name@,
            s[j - 1].favorite,
            s[j - 1].name@,
            s[j].favorite,
            s[j].name@,
        );
    } else {
        lemma_rank_le_total(s[i].favorite, s[i].name@, s[j].favorite, s[j].name@);
    }
}

/// Sorting a sequence that is already sorted leaves it unchanged.
pub proof fn lemma_sort_creds_of_sorted(s: Seq<Credential>)
    requires
        creds_sorted(s),
    ensures
        sort_creds(s) == s,
    decreases s.len(),
{
    if s.len() == 0 {
        assert(sort_creds(s) =~= s);
    } else {
        assert(creds_sorted(s.drop_last())) by {
            assert(forall|i: int|
                0 <= i && i + 1 < s.drop_last().len() ==> #[trigger] s.drop_last()[i] == s[i]
                    && s.drop_last()[i + 1] == s[i + 1]);
        }
        lemma_sort_creds_of_sorted(s.drop_last());
        assert(forall|k: int| 0 <= k < s.drop_last().len() ==> cred_le(
            #[trigger] s.drop_last()[k],
            s.last(),
        )) by {
            assert forall|k: int| 0 <= k < s.drop_last().len() implies cred_le(
                #[trigger] s.drop_last()[k],
                s.last(),
            ) by {
                lemma_creds_sorted_all_le(s, k, s.len() - 1);
            }
        }
        lemma_insert_sorted_cred_shape(s.last(), s.drop_last(), s.len() - 1);
        assert(s.drop_last().insert(s.len() - 1, s.last()) =~= s);
    }
}

/// Sorting a sequence that is already sorted leaves it unchanged.
pub proof fn lemma_sort_notes_of_sorted(s: Seq<Note>)
    requires
        notes_sorted(s),
    ensures
        sort_notes(s) == s,
    decreases s.len(),
{
    if s.len() == 0 {
        assert(sort_notes(s) =~= s);
    } else {
        assert(notes_sorted(s.drop_last())) by {
            assert(forall|i: int|
                0 <= i && i + 1 < s.drop_last().len() ==> #[trigger] s.drop_last()[i] == s[i]
                    && s.drop_last()[i + 1] == s[i + 1]);
        }
        lemma_sort_notes_of_sorted(s.drop_last());
        assert(forall|k: int| 0 <= k < s.drop_last().len() ==> note_le(
            #[trigger] s.drop_last()[k],
            s.last(),
        )) by {
            assert forall|k: int| 0 <= k < s.drop_last().len() implies note_le(
                #[trigger] s.drop_last()[k],
                s.last(),
            ) by {
                lemma_notes_sorted_all_le(s, k, s.len() - 1);
            }
        }
        lemma_insert_sorted_note_shape(s.last(), s.drop_last(), s.len() - 1);
        assert(s.drop_last().insert(s.len() - 1, s.last()) =~= s);
    }
}

/// Sort idempotence: sorting twice yields the same sequence as sorting once.
pub proof fn lemma_sort_creds_idempotent(s: Seq<Credential>)
    ensures
        sort_creds(sort_creds(s)) == sort_creds(s),
{
    lemma_sort_creds_correct(s);
    lemma_sort_creds_of_sorted(sort_creds(s));
}

/// Sort idempotence: sorting twice yields the same sequence as sorting once.
pub proof fn lemma_sort_notes_idempotent(s: Seq<Note>)
    ensures
        sort_notes(sort_notes(s)) == sort_notes(s),
{
    lemma_sort_notes_correct(s);
    lemma_sort_notes_of_sorted(sort_notes(s));
}

/// Inserts `c` into the sorted vector, keeping it sorted, exactly as the
/// spec-level insertion does.
pub(crate) fn insert_cred(sorted: &mut Vec<Credential>, c: Credential)
    ensures
        final(sorted)@ == insert_sorted_cred(c, old(sorted)@),
{
    let ghost s = sorted@;
    let mut j: usize = 0;
    while j < sorted.len() && crate::order::string_rank_le(
        sorted[j].favorite,
        sorted[j].name.as_str(),
        c.favorite,
        c.name.as_str(),
    )
        invariant
            sorted@ == s,
            j <= s.len(),
            forall|k: int| 0 <= k < j ==> cred_le(#[trigger] s[k], c),
        decreases s.len() - j,
    {
        j = j + 1;
    }
    proof {
        lemma_insert_sorted_cred_shape(c, s, j as int);
    }
    sorted.insert(j, c);
}

/// Inserts `n` into the sorted vector, keeping it sorted, exactly as the
/// spec-level insertion does.
pub(crate) fn insert_note(sorted: &mut Vec<Note>, n: Note)
    ensures
        final(sorted)@ == insert_sorted_note(n, old(sorted)@),
{
    let ghost s = sorted@;
    let mut j: usize = 0;
    while j < sorted.len() && crate::order::string_rank_le(
        sorted[j].favorite,
        sorted[j].name.as_str(),
        n.favorite,
        n.name.as_str(),
    )
        invariant
            sorted@ == s,
            j <= s.len(),
            forall|k: int| 0 <= k < j ==> note_le(#[trigger] s[k], n),
        decreases s.len() - j,
    {
        j = j + 1;
    }
    proof {
        lemma_insert_sorted_note_shape(n, s, j as int);
    }
    sorted.insert(j, n);
}

} // verus!
