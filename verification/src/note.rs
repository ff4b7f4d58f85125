//! The note list: a small CRUD surface kept apart from the version-control
//! engine.  All operations work on an in-memory list; callers persist it.

use vstd::prelude::*;

use crate::error::AppError;
use crate::text::contains_seq;
use crate::text::str_contains;

verus! {

/// A single note.
#[derive(Debug, Clone)]
pub struct Note {
    pub id: u64,
    pub text: String,
    pub done: bool,
}

/// Which notes a listing should include.
pub enum NoteStatusFilter {
    All,
    Done,
    Todo,
}

/// Index of the first note with the given id, or `-1` if there is none.
pub open spec fn find_idx(notes: Seq<Note>, id: u64) -> int
    decreases notes.len(),
{
    if notes.len() == 0 {
        -1
    } else if notes[0].id == id {
        0
    } else {
        let r = find_idx(notes.drop_first(), id);
        if r == -1 {
            -1
        } else {
            r + 1
        }
    }
}

pub proof fn lemma_find_idx(notes: Seq<Note>, id: u64)
    ensures
        find_idx(notes, id) == -1 ==> forall|k: int|
            0 <= k < notes.len() ==> notes[k].id != id,
        find_idx(notes, id) != -1 ==> {
            let j = find_idx(notes, id);
            &&& 0 <= j < notes.len()
            &&& notes[j].id == id
            &&& forall|k: int| 0 <= k < j ==> notes[k].id != id
        },
    decreases notes.len(),
{
    if notes.len() > 0 && notes[0].id != id {
        lemma_find_idx(notes.drop_first(), id);
        assert(forall|k: int| 1 <= k < notes.len() ==> notes[k] == notes.drop_first()[k - 1]);
    }
}

/// Helper mirroring the scan the callers of [`find_idx`] perform.
fn find_note_index(notes: &Vec<Note>, id: u64) -> (r: Option<usize>)
    ensures
        match r {
            Some(j) => find_idx(notes@, id) == j as int,
            None => find_idx(notes@, id) == -1,
        },
{
    let n = notes.len();
    let mut i: usize = 0;
    while i < n
        invariant
            i <= n,
            n == notes@.len(),
            forall|k: int| 0 <= k < i ==> notes@[k].id != id,
        decreases n - i,
    {
        if notes[i].id == id {
            proof {
                lemma_find_idx(notes@, id);
            }
            return Some(i);
        }
        i = i + 1;
    }
    proof {
        lemma_find_idx(notes@, id);
    }
    None
}

/// Replaces the text of the first note with the given id; fails with
/// `InvalidId` and leaves the list unchanged when no note has it.
pub fn edit_note(notes: &mut Vec<Note>, id: u64, text: String) -> (r: Result<(), AppError>)
    ensures
        r is Ok <==> find_idx(old(notes)@, id) != -1,
        r is Ok ==> {
            let j = find_idx(old(notes)@, id);
            final(notes)@ == old(notes)@.update(
                j,
                Note { id: old(notes)@[j].id, text: text, done: old(notes)@[j].done },
            )
        },
        r is Err ==> final(notes)@ == old(notes)@ && r == Err::<(), AppError>(
            AppError::InvalidId(id),
        ),
{
    match find_note_index(notes, id) {
        Some(j) => {
            proof {
                lemma_find_idx(notes@, id);
            }
            let old_id = notes[j].id;
            let old_done = notes[j].done;
            notes.set(j, Note { id: old_id, text, done: old_done });
            Ok(())
        },
        None => Err(AppError::InvalidId(id)),
    }
}

/// The id the next note should get: one past the last note's id, or 1 for an
/// empty list.
pub fn next_note_id(notes: &Vec<Note>) -> (r: u64)
    requires
        notes@.len() > 0 ==> notes@.last().id < u64::MAX,
    ensures
        r == if notes@.len() == 0 {
            1u64
        } else {
            (notes@.last().id + 1) as u64
        },
{
    if notes.len() == 0 {
        1
    } else {
        notes[notes.len() - 1].id + 1
    }
}

/// Marks the first note with the given id as done; fails with `InvalidId`
/// and leaves the list unchanged when no note has it.
pub fn mark_done(notes: &mut Vec<Note>, id: u64) -> (r: Result<(), AppError>)
    ensures
        r is Ok <==> find_idx(old(notes)@, id) != -1,
        r is Ok ==> {
            let j = find_idx(old(notes)@, id);
            final(notes)@ == old(notes)@.update(
                j,
                Note { id: old(notes)@[j].id, text: old(notes)@[j].text, done: true },
            )
        },
        r is Err ==> final(notes)@ == old(notes)@ && r == Err::<(), AppError>(
            AppError::InvalidId(id),
        ),
{
    match find_note_index(notes, id) {
        Some(j) => {
            proof {
                lemma_find_idx(notes@, id);
            }
            let old_id = notes[j].id;
            let old_text = notes[j].text.clone();
            notes.set(j, Note { id: old_id, text: old_text, done: true });
            Ok(())
        },
        None => Err(AppError::InvalidId(id)),
    }
}

/// Removes the first note with the given id; fails with `InvalidId` and
/// leaves the list unchanged when no note has it.
pub fn remove_note(notes: &mut Vec<Note>, id: u64) -> (r: Result<(), AppError>)
    ensures
        r is Ok <==> find_idx(old(notes)@, id) != -1,
        r is Ok ==> final(notes)@ == old(notes)@.remove(find_idx(old(notes)@, id)),
        r is Err ==> final(notes)@ == old(notes)@ && r == Err::<(), AppError>(
            AppError::InvalidId(id),
        ),
{
    match find_note_index(notes, id) {
        Some(j) => {
            proof {
                lemma_find_idx(notes@, id);
            }
            notes.remove(j);
            Ok(())
        },
        None => Err(AppError::InvalidId(id)),
    }
}

/// Whether a note passes the status filter and the optional text filter.
pub open spec fn note_matches(n: Note, status: NoteStatusFilter, contains: Option<&str>) -> bool {
    let status_match = match status {
        NoteStatusFilter::All => true,
        NoteStatusFilter::Done => n.done,
        NoteStatusFilter::Todo => !n.done,
    };
    let contains_match = match contains {
        Some(t) => contains_seq(n.text@, t@),
        None => true,
    };
    status_match && contains_match
}

/// The filter predicate over whole notes, as a single function value.
pub open spec fn note_pred(status: NoteStatusFilter, contains: Option<&str>) -> spec_fn(Note) -> bool {
    |n: Note| note_matches(n, status, contains)
}

/// The notes that pass both filters, in their original order.
pub fn filter_notes<'a>(
    notes: &'a Vec<Note>,
    status: NoteStatusFilter,
    contains: Option<&str>,
) -> (r: Vec<&'a Note>)
    ensures
        r@.map_values(|n: &Note| *n) == notes@.filter(note_pred(status, contains)),
{
    let n = notes.len();
    let mut r: Vec<&'a Note> = Vec::new();
    let mut i: usize = 0;
    proof {
        assert(notes@.take(0).filter(note_pred(status, contains)) =~= Seq::<Note>::empty());
        assert(r@.map_values(|n: &Note| *n) =~= Seq::<Note>::empty());
    }
    while i < n
        invariant
            i <= n,
            n == notes@.len(),
            r@.map_values(|n: &Note| *n) == notes@.take(i as int).filter(
                note_pred(status, contains),
            ),
        decreases n - i,
    {
        let note = &notes[i];
        let status_match = match status {
            NoteStatusFilter::All => true,
            NoteStatusFilter::Done => note.done,
            NoteStatusFilter::Todo => !note.done,
        };
        let contains_match = match contains {
            Some(t) => str_contains(note.text.as_str(), t),
            None => true,
        };
        let ghost prev = r@;
        proof {
            reveal_with_fuel(Seq::<Note>::filter, 3);
            let pred = note_pred(status, contains);
            let x = notes@[i as int];
            assert(notes@.take(i + 1 as int) =~= notes@.take(i as int) + seq![x]);
            Seq::filter_distributes_over_add(notes@.take(i as int), seq![x], pred);
            assert(seq![x].drop_last() =~= Seq::<Note>::empty());
            assert(Seq::<Note>::empty().filter(pred) =~= Seq::<Note>::empty());
            assert(pred(x) == (status_match && contains_match));
            if pred(x) {
                assert(seq![x].filter(pred) =~= seq![x]);
            } else {
                assert(seq![x].filter(pred) =~= Seq::<Note>::empty());
                assert(notes@.take(i + 1 as int).filter(pred) =~= notes@.take(i as int).filter(
                    pred,
                ));
            }
        }
        if status_match && contains_match {
            r.push(note);
            proof {
                assert(r@.map_values(|n: &Note| *n) =~= prev.map_values(|n: &Note| *n) + seq![
                    notes@[i as int],
                ]);
            }
        }
        i = i + 1;
    }
    proof {
        assert(notes@.take(n as int) =~= notes@);
    }
    r
}

} // verus!
