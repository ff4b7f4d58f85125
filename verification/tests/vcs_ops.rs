use workspace_core::advance_head;
use workspace_core::checkout;
use workspace_core::commit;
use workspace_core::diff_nodes;
use workspace_core::init_repo;
use workspace_core::log;
use workspace_core::repo_state;
use workspace_core::DiffKind;
use workspace_core::SnapshotFile;
use workspace_core::WorkSpaceError;

fn snapshot(entries: &[(&str, &[u8])]) -> Vec<SnapshotFile> {
    entries
        .iter()
        .map(|(path, content)| SnapshotFile {
            path: path.to_string(),
            content: content.to_vec(),
        })
        .collect()
}

#[test]
fn init_repo_creates_state() {
    let store = init_repo();

    let state = repo_state(&store);

    assert_eq!(state.node_count, 0);
    assert!(state.head.is_none());
}

#[test]
fn commit_sets_head_and_increments_count() {
    let mut store = init_repo();

    let first_commit_id = commit(&mut store, &snapshot(&[]), "initial commit", 1).unwrap();

    let state = repo_state(&store);

    assert_eq!(state.node_count, 1);
    assert_eq!(state.head, Some(first_commit_id));
}

#[test]
fn second_commit_links_first_as_parent() {
    let mut store = init_repo();

    let first_commit_id = commit(&mut store, &snapshot(&[]), "initial commit", 1).unwrap();
    let second_commit_id = commit(&mut store, &snapshot(&[]), "second commit", 2).unwrap();

    let nodes = log(&store);

    let second_node = nodes.iter().find(|n| n.id == second_commit_id).unwrap();

    assert_eq!(second_node.parents, vec![first_commit_id]);
}

#[test]
fn commit_rejects_empty_message() {
    let mut store = init_repo();

    let first_commit_err = commit(&mut store, &snapshot(&[]), "", 1).unwrap_err();

    assert!(matches!(first_commit_err, WorkSpaceError::InvalidInput(_)));
    assert_eq!(repo_state(&store).node_count, 0);
}

#[test]
fn checkout_restores_file_contents() {
    let mut store = init_repo();

    let first_commit_id = commit(
        &mut store,
        &snapshot(&[("hello.txt", b"hello world")]),
        "initial commit",
        1,
    )
    .unwrap();

    // the file is removed from the working tree before the second commit
    commit(&mut store, &snapshot(&[]), "second commit", 2).unwrap();

    let plan = checkout(&store, &first_commit_id, &Vec::new()).unwrap();
    advance_head(&mut store, &first_commit_id).unwrap();

    assert_eq!(plan.deletes.len(), 0);
    assert_eq!(plan.writes.len(), 1);
    assert_eq!(plan.writes[0].path, "hello.txt");
    assert_eq!(plan.writes[0].content, b"hello world".to_vec());
    assert_eq!(repo_state(&store).head, Some(first_commit_id));
}

#[test]
fn checkout_removes_files_not_in_target_snapshot() {
    let mut store = init_repo();

    let first_commit_id = commit(&mut store, &snapshot(&[]), "initial commit", 1).unwrap();

    commit(
        &mut store,
        &snapshot(&[("a.txt", b"hello")]),
        "second commit",
        2,
    )
    .unwrap();

    let current = vec!["a.txt".to_string()];
    let plan = checkout(&store, &first_commit_id, &current).unwrap();

    assert_eq!(plan.writes.len(), 0);
    assert_eq!(plan.deletes, vec!["a.txt".to_string()]);
}

#[test]
fn diff_nodes_return_added() {
    let mut store = init_repo();

    let first_commit_id = commit(&mut store, &snapshot(&[]), "initial commit", 1).unwrap();

    let second_commit_id = commit(
        &mut store,
        &snapshot(&[("hello.txt", b"hello world")]),
        "second commit",
        2,
    )
    .unwrap();

    let diff = diff_nodes(&store, &first_commit_id, &second_commit_id).unwrap();

    assert_eq!(diff.files.len(), 1);
    assert_eq!(diff.files[0].kind, DiffKind::Added);
    assert_eq!(diff.files[0].path, "hello.txt");
    assert_eq!(diff.files[0].before_text, None);
    assert_eq!(diff.files[0].after_text, Some("hello world".to_string()));
}

#[test]
fn diff_nodes_return_removed() {
    let mut store = init_repo();

    let first_commit_id = commit(
        &mut store,
        &snapshot(&[("hello.txt", b"hello world")]),
        "initial commit",
        1,
    )
    .unwrap();

    let second_commit_id = commit(&mut store, &snapshot(&[]), "second commit", 2).unwrap();

    let diff = diff_nodes(&store, &first_commit_id, &second_commit_id).unwrap();

    assert_eq!(diff.files.len(), 1);
    assert_eq!(diff.files[0].kind, DiffKind::Removed);
    assert_eq!(diff.files[0].path, "hello.txt");
    assert_eq!(diff.files[0].before_text, Some("hello world".to_string()));
    assert_eq!(diff.files[0].after_text, None);
}

#[test]
fn diff_nodes_return_modified() {
    let mut store = init_repo();

    let first_commit_id = commit(
        &mut store,
        &snapshot(&[("hello.txt", b"hello world")]),
        "initial commit",
        1,
    )
    .unwrap();

    let second_commit_id = commit(
        &mut store,
        &snapshot(&[("hello.txt", b"hello world modified")]),
        "second commit",
        2,
    )
    .unwrap();

    let diff = diff_nodes(&store, &first_commit_id, &second_commit_id).unwrap();

    assert_eq!(diff.files.len(), 1);
    assert_eq!(diff.files[0].kind, DiffKind::Modified);
    assert_eq!(diff.files[0].path, "hello.txt");
    assert_eq!(diff.files[0].before_text, Some("hello world".to_string()));
    assert_eq!(
        diff.files[0].after_text,
        Some("hello world modified".to_string())
    );
    assert_eq!(
        diff.files[0].unified,
        Some("@@ -1 +1 @@\n-hello world\n+hello world modified\n".to_string())
    );
}

#[test]
fn diff_nodes_return_no_diff() {
    let mut store = init_repo();

    let first_commit_id = commit(
        &mut store,
        &snapshot(&[("hello.txt", b"hello world")]),
        "initial commit",
        1,
    )
    .unwrap();

    let second_commit_id = commit(
        &mut store,
        &snapshot(&[("hello.txt", b"hello world")]),
        "second commit",
        2,
    )
    .unwrap();

    let diff = diff_nodes(&store, &first_commit_id, &second_commit_id).unwrap();

    assert_eq!(diff.files.len(), 0);
}

#[test]
fn diff_nodes_rejects_nonexistent_to_node() {
    let mut store = init_repo();

    let first_commit_id = commit(&mut store, &snapshot(&[]), "initial commit", 1).unwrap();

    let diff_error = diff_nodes(&store, &first_commit_id, "nonexistent").unwrap_err();

    assert!(matches!(diff_error, WorkSpaceError::NotFound(ref m) if m == "nonexistent"));
}

#[test]
fn diff_nodes_rejects_nonexistent_from_node() {
    let mut store = init_repo();

    let first_commit_id = commit(&mut store, &snapshot(&[]), "initial commit", 1).unwrap();

    let diff_error = diff_nodes(&store, "nonexistent", &first_commit_id).unwrap_err();

    assert!(matches!(diff_error, WorkSpaceError::NotFound(ref m) if m == "nonexistent"));
}

#[test]
fn binary_file_diff_is_detected() {
    let mut store = init_repo();

    let first_commit_id = commit(
        &mut store,
        &snapshot(&[("binary.bin", &[0u8, 1, 2, 3])]),
        "initial commit",
        1,
    )
    .unwrap();

    let second_commit_id = commit(
        &mut store,
        &snapshot(&[("binary.bin", &[0u8, 1, 2, 3, 4])]),
        "second commit",
        2,
    )
    .unwrap();

    let diff = diff_nodes(&store, &first_commit_id, &second_commit_id).unwrap();

    assert_eq!(diff.files.len(), 1);
    assert_eq!(diff.files[0].kind, DiffKind::Modified);
    assert_eq!(diff.files[0].path, "binary.bin");
    assert_eq!(diff.files[0].before_text, None);
    assert_eq!(diff.files[0].after_text, None);
    assert_eq!(diff.files[0].unified, None);
    assert!(diff.files[0].is_binary);
}
