use sha2::Digest;
use workspace_core::advance_head;
use workspace_core::blob_id_for_content;
use workspace_core::checkout;
use workspace_core::commit;
use workspace_core::from_rows;
use workspace_core::init_repo;
use workspace_core::log;
use workspace_core::new_node_id;
use workspace_core::normalize_rel_path;
use workspace_core::normalize_text_for_line_diff;
use workspace_core::repo_state;
use workspace_core::resolve_path;
use workspace_core::NodeRecord;
use workspace_core::SnapshotFile;
use workspace_core::WorkSpaceError;

fn snapshot(entries: &[(&str, &[u8])]) -> Vec<SnapshotFile> {
    entries
        .iter()
        .map(|(path, content)| SnapshotFile {
            path: path.to_string(),
            content: content.to_vec(),
        })
        .collect()
}

// The blob id must be the hex SHA-256 digest of the prefixed bytes, not
// anything derived from the input alone.
#[test]
fn blob_id_matches_prefixed_digest() {
    let expected = hex::encode(sha2::Sha256::digest(b"blob hello"));
    assert_eq!(blob_id_for_content(b"hello"), expected);
    assert_ne!(
        blob_id_for_content(b"hello"),
        hex::encode(sha2::Sha256::digest(b"hello"))
    );
}

// The node id must hash the version tag, trimmed message, decimal
// timestamp and parent id with newline separators.
#[test]
fn node_id_matches_header_digest() {
    let expected = hex::encode(sha2::Sha256::digest(b"v1\nmsg\n42\n"));
    assert_eq!(new_node_id("msg", None, 42), expected);

    let parent = "abc".to_string();
    let expected_child = hex::encode(sha2::Sha256::digest(b"v1\nmsg\n-7\nabc"));
    assert_eq!(new_node_id("msg", Some(&parent), -7), expected_child);
}

// Committing stores the trimmed message and derives the id from it.
#[test]
fn commit_trims_message() {
    let mut store = init_repo();
    let id = commit(&mut store, &snapshot(&[]), "  spaced out \t", 5).unwrap();
    assert_eq!(id, new_node_id("spaced out", None, 5));

    let nodes = log(&store);
    assert_eq!(nodes.len(), 1);
    assert_eq!(nodes[0].message, "spaced out");
}

// A whitespace-only message is rejected without touching the store.
#[test]
fn commit_rejects_whitespace_message() {
    let mut store = init_repo();
    let err = commit(&mut store, &snapshot(&[]), "   ", 1).unwrap_err();
    assert!(matches!(err, WorkSpaceError::InvalidInput(_)));
    assert_eq!(repo_state(&store).node_count, 0);
    assert!(repo_state(&store).head.is_none());
}

// A commit whose derived id already exists is refused like a violated
// unique-id constraint.
#[test]
fn commit_rejects_duplicate_node_id() {
    let clashing = new_node_id("msg", None, 0);
    let store = from_rows(
        vec![NodeRecord {
            id: clashing,
            message: "msg".to_string(),
            created_at_unix_ms: 0,
        }],
        Vec::new(),
        Vec::new(),
        Vec::new(),
        None,
    )
    .unwrap();
    let mut store = store;
    let err = commit(&mut store, &snapshot(&[]), "msg", 0).unwrap_err();
    assert!(matches!(err, WorkSpaceError::StorageFailure(_)));
    assert_eq!(repo_state(&store).node_count, 1);
}

// Rows that break the store invariants are rejected as a whole.
#[test]
fn from_rows_rejects_duplicate_ids() {
    let row = NodeRecord {
        id: "same".to_string(),
        message: "a".to_string(),
        created_at_unix_ms: 0,
    };
    let dup = NodeRecord {
        id: "same".to_string(),
        message: "b".to_string(),
        created_at_unix_ms: 1,
    };
    assert!(from_rows(vec![row, dup], Vec::new(), Vec::new(), Vec::new(), None).is_none());
}

// The head pointer may only move to an existing commit.
#[test]
fn advance_head_rejects_unknown_id() {
    let mut store = init_repo();
    let err = advance_head(&mut store, "nowhere").unwrap_err();
    assert!(matches!(err, WorkSpaceError::NotFound(ref m) if m == "nowhere"));
    assert!(repo_state(&store).head.is_none());
}

// Checkout of an unknown id fails with NotFound naming it.
#[test]
fn checkout_rejects_unknown_id() {
    let store = init_repo();
    let err = checkout(&store, "nowhere", &Vec::new()).unwrap_err();
    assert!(matches!(err, WorkSpaceError::NotFound(ref m) if m == "nowhere"));
}

// Round trip: committed bytes come back verbatim from a checkout plan.
#[test]
fn checkout_round_trip_returns_committed_bytes() {
    let mut store = init_repo();
    let content: Vec<u8> = b"line one\nline two\n".to_vec();
    let id = commit(
        &mut store,
        &snapshot(&[("dir/file.txt", &content)]),
        "snap",
        1,
    )
    .unwrap();
    commit(&mut store, &snapshot(&[]), "empty", 2).unwrap();

    let plan = checkout(&store, &id, &Vec::new()).unwrap();
    assert_eq!(plan.writes.len(), 1);
    assert_eq!(plan.writes[0].path, "dir/file.txt");
    assert_eq!(plan.writes[0].content, content);
}

// Identical content under two different blob references is deduplicated.
#[test]
fn identical_content_shares_one_blob() {
    let mut store = init_repo();
    commit(
        &mut store,
        &snapshot(&[("a.txt", b"same"), ("b.txt", b"same")]),
        "two paths",
        1,
    )
    .unwrap();
    assert_eq!(store.blobs.len(), 1);
    assert_eq!(store.node_files.len(), 2);
}

// The log is ordered newest first even when commits arrive with
// out-of-order timestamps.
#[test]
fn log_orders_by_creation_time_descending() {
    let mut store = init_repo();
    let older = commit(&mut store, &snapshot(&[]), "first", 50).unwrap();
    let newest = commit(&mut store, &snapshot(&[]), "second", 90).unwrap();
    let middle = commit(&mut store, &snapshot(&[]), "third", 70).unwrap();

    let nodes = log(&store);
    let ids: Vec<String> = nodes.iter().map(|n| n.id.clone()).collect();
    assert_eq!(ids, vec![newest, middle, older]);
}

// Normalization rewrites CRLF pairs and guarantees a final newline.
#[test]
fn normalize_text_handles_crlf_and_trailing_newline() {
    assert_eq!(normalize_text_for_line_diff("a\r\nb"), "a\nb\n");
    assert_eq!(normalize_text_for_line_diff(""), "\n");
    assert_eq!(normalize_text_for_line_diff("x\n"), "x\n");
    assert_eq!(normalize_text_for_line_diff("\r\r\n"), "\r\n");
}

// Walker paths are normalized to forward slashes.
#[test]
fn normalize_rel_path_rewrites_backslashes() {
    assert_eq!(normalize_rel_path("docs\\memo.txt"), "docs/memo.txt");
    assert_eq!(normalize_rel_path("docs/memo.txt"), "docs/memo.txt");
}

// A canonical path below the root resolves; an outside path is refused.
#[test]
fn resolve_path_blocks_parent_traversal() {
    let escaped = resolve_path("/tmp/ws", "/tmp/outside.txt").unwrap_err();
    assert!(matches!(escaped, WorkSpaceError::PathEscape(ref m) if m == "/tmp/outside.txt"));

    let inside = resolve_path("/tmp/ws", "/tmp/ws/notes/memo.txt").unwrap();
    assert_eq!(inside, "/tmp/ws/notes/memo.txt");

    // a sibling directory sharing a name prefix is outside the root
    let sibling = resolve_path("/tmp/ws", "/tmp/ws2/memo.txt").unwrap_err();
    assert!(matches!(sibling, WorkSpaceError::PathEscape(_)));

    let itself = resolve_path("/tmp/ws", "/tmp/ws").unwrap();
    assert_eq!(itself, "/tmp/ws");
}

// Two successful commits always get distinct ids.
#[test]
fn commit_ids_are_distinct() {
    let mut store = init_repo();
    let first = commit(&mut store, &snapshot(&[]), "same message", 1).unwrap();
    let second = commit(&mut store, &snapshot(&[]), "same message", 1).unwrap();
    assert_ne!(first, second);
}
