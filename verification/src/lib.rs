//! An embedded, file-based version-control engine for a single project
//! workspace, together with the small note list that shares its storage.
//!
//! The engine models the persistent store as an explicit [`store::Store`]
//! value: commits append immutable nodes, blobs and file associations to it,
//! `checkout` turns a stored snapshot into a plan of filesystem writes and
//! deletions, and `diff` classifies the per-file changes between two
//! snapshots.  Callers perform the actual filesystem and database traffic and
//! hand the engine plain values.

pub mod checkout;
pub mod commit;
pub mod diff;
pub mod digest;
pub mod error;
pub mod log;
pub mod note;
pub mod paths;
pub mod snapshot;
pub mod store;
pub mod text;
pub mod types;

pub use checkout::checkout;
pub use checkout::CheckoutPlan;
pub use commit::commit;
pub use commit::new_node_id;
pub use diff::build_file_diff;
pub use diff::diff_nodes;
pub use diff::is_probably_binary;
pub use diff::normalize_text_for_line_diff;
pub use error::AppError;
pub use error::WorkSpaceError;
pub use log::log;
pub use note::edit_note;
pub use note::filter_notes;
pub use note::mark_done;
pub use note::next_note_id;
pub use note::remove_note;
pub use note::Note;
pub use note::NoteStatusFilter;
pub use paths::resolve_path;
pub use snapshot::blob_id_for_content;
pub use snapshot::normalize_rel_path;
pub use snapshot::snapshot_is_sorted;
pub use snapshot::SnapshotFile;
pub use store::advance_head;
pub use store::check_wf;
pub use store::from_rows;
pub use store::init_repo;
pub use store::node_exists;
pub use store::repo_state;
pub use store::BlobRecord;
pub use store::FileLink;
pub use store::NodeRecord;
pub use store::ParentLink;
pub use store::Store;
pub use types::DiffKind;
pub use types::FileDiff;
pub use types::NodeDiff;
pub use types::NodeId;
pub use types::RepoState;
pub use types::VersionNode;
