use workspace_core::edit_note;
use workspace_core::filter_notes;
use workspace_core::mark_done;
use workspace_core::next_note_id;
use workspace_core::remove_note;
use workspace_core::AppError;
use workspace_core::Note;
use workspace_core::NoteStatusFilter;

fn sample_notes() -> Vec<Note> {
    vec![
        Note {
            id: 1,
            text: "first".to_string(),
            done: false,
        },
        Note {
            id: 2,
            text: "second".to_string(),
            done: false,
        },
        Note {
            id: 3,
            text: "third".to_string(),
            done: true,
        },
    ]
}

// The first note ID should start at 1 when the list is emtpy
#[test]
fn next_note_id_empty_starts_at_one() {
    let notes = Vec::new();
    assert_eq!(next_note_id(&notes), 1);
}

// The next note ID should be the last ID + 1
#[test]
fn next_note_id_increments_last_id() {
    let notes = sample_notes();
    assert_eq!(next_note_id(&notes), 4);
}

// Marking a valid ID as done should set its done field to true.
#[test]
fn mark_done_success() {
    let mut notes = sample_notes();
    mark_done(&mut notes, 1).unwrap();
    assert!(notes[0].done);
}

// Marking a missing ID as done should return InvalidId error.
#[test]
fn mark_done_invalid_id() {
    let mut notes = sample_notes();
    let result = mark_done(&mut notes, 999);
    assert!(matches!(result, Err(AppError::InvalidId(999))));
}

// Editing a valid ID should update that note's text.
#[test]
fn edit_note_success() {
    let mut notes = sample_notes();
    edit_note(&mut notes, 2, "updated".to_string()).unwrap();
    assert_eq!(notes[1].text, "updated");
}

// Editing a missing ID should return InvalidId error.
#[test]
fn edit_note_invalid_id() {
    let mut notes = sample_notes();
    let error = edit_note(&mut notes, 99, "xx".to_string()).unwrap_err();
    assert!(matches!(error, AppError::InvalidId(99)));
}

// done filter should only return done notes
#[test]
fn filter_notes_done() {
    let notes = sample_notes();
    let filtered_notes = filter_notes(&notes, NoteStatusFilter::Done, None);
    assert_eq!(filtered_notes.len(), 1);
}

// todo filter should only return todo notes
#[test]
fn filter_notes_todo() {
    let notes = sample_notes();
    let filtered_notes = filter_notes(&notes, NoteStatusFilter::Todo, None);
    assert_eq!(filtered_notes.len(), 2);
}

// contains filter should only return notes that contain the given text
#[test]
fn filter_notes_contains() {
    let notes = sample_notes();
    let filtered_notes = filter_notes(&notes, NoteStatusFilter::All, Some("second"));
    assert_eq!(filtered_notes.len(), 1);
}

// Removing a valid ID should drop exactly that note.
#[test]
fn remove_note_drops_entry() {
    let mut notes = sample_notes();
    remove_note(&mut notes, 2).unwrap();
    assert_eq!(notes.len(), 2);
    assert_eq!(notes[0].id, 1);
    assert_eq!(notes[1].id, 3);
}

// Removing a missing ID should return InvalidId error.
#[test]
fn remove_note_invalid_id() {
    let mut notes = sample_notes();
    let error = remove_note(&mut notes, 42).unwrap_err();
    assert!(matches!(error, AppError::InvalidId(42)));
    assert_eq!(notes.len(), 3);
}
