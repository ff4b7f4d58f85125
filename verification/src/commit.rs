//! The commit engine: turns a workspace snapshot into a new immutable
//! history node, atomically from the caller's point of view.
//!
//! A commit appends exactly one node row, at most one parent link, the
//! missing blobs, and one file association per snapshot file, then advances
//! the head.  Nothing is ever mutated or deleted; a failed commit leaves the
//! store untouched.

use vstd::prelude::*;
use vstd::string::StrSliceExecFns;
use vstd::utf8::encode_utf8;

use crate::digest::hex_encode;
use crate::digest::hex_of;
use crate::digest::sha256;
use crate::digest::sha256_of;
use crate::error::WorkSpaceError;
use crate::snapshot::blob_id_spec;
use crate::snapshot::blob_id_for_content;
use crate::snapshot::snapshot_sorted;
use crate::snapshot::SnapshotFile;
use crate::snapshot::SnapshotFileView;
use crate::store::blob_lookup;
use crate::store::BlobView;
use crate::store::FileLinkView;
use crate::store::NodeRecord;
use crate::store::NodeView;
use crate::store::ParentLink;
use crate::store::ParentLinkView;
use crate::store::BlobRecord;
use crate::store::FileLink;
use crate::store::node_exists;
use crate::store::parent_ids_filter;
use crate::store::Store;
use crate::store::StoreView;
use crate::text::copy_bytes;
use crate::text::dec_bytes;
use crate::text::push_bytes;
use crate::text::push_dec_i64;
use crate::text::str_eq_exec;
use crate::text::trim_spec;
use crate::text::str_lt;
use crate::text::trim_str;
use crate::types::NodeId;
use vstd::string::StringExecFns;

verus! {

/// The view of an optional parent id.
pub open spec fn parent_view(parent: Option<&String>) -> Option<Seq<char>> {
    match parent {
        Some(p) => Some(p@),
        None => None,
    }
}

/// The bytes a node id is derived from: a version tag, the trimmed message,
/// the creation time in decimal, and the parent id if one exists, separated
/// by newlines.
pub open spec fn node_header(msg: Seq<char>, parent: Option<Seq<char>>, ms: int) -> Seq<u8> {
    seq![118u8, 49u8, 10u8] + encode_utf8(msg) + seq![10u8] + dec_bytes(ms) + seq![10u8] + match parent {
        Some(p) => encode_utf8(p),
        None => Seq::empty(),
    }
}

/// A node's id: the lowercase hex SHA-256 digest of its header bytes.
pub open spec fn node_id_spec(msg: Seq<char>, parent: Option<Seq<char>>, ms: int) -> Seq<char> {
    hex_of(sha256_of(node_header(msg, parent, ms)))
}

/// Derives the id of a new node.
pub fn new_node_id(message_text: &str, parent: Option<&String>, created_at_ms: i64) -> (r: String)
    ensures
        r@ == node_id_spec(message_text@, parent_view(parent), created_at_ms as int),
{
    let mut data: Vec<u8> = Vec::new();
    data.push(118u8);
    data.push(49u8);
    data.push(10u8);
    proof {
        assert(data@ =~= seq![118u8, 49u8, 10u8]);
    }
    push_bytes(&mut data, message_text.as_bytes());
    data.push(10u8);
    push_dec_i64(created_at_ms, &mut data);
    data.push(10u8);
    match parent {
        Some(p) => {
            push_bytes(&mut data, p.as_str().as_bytes());
        },
        None => {},
    }
    proof {
        assert(data@ =~= node_header(
            message_text@,
            parent_view(parent),
            created_at_ms as int,
        ));
    }
    let digest = sha256(data.as_slice());
    hex_encode(digest.as_slice())
}

/// The blob table after storing one content: unchanged when a blob with the
/// content's id already exists, extended by the new blob otherwise.
pub open spec fn upsert_blob(blobs: Seq<BlobView>, content: Seq<u8>) -> Seq<BlobView> {
    if blob_lookup(blobs, blob_id_spec(content)) is Some {
        blobs
    } else {
        blobs.push(BlobView { id: blob_id_spec(content), content: content })
    }
}

/// The blob table after storing every snapshot file's content in order.
pub open spec fn add_blobs(blobs: Seq<BlobView>, files: Seq<SnapshotFileView>) -> Seq<BlobView>
    decreases files.len(),
{
    if files.len() == 0 {
        blobs
    } else {
        add_blobs(upsert_blob(blobs, files[0].content), files.drop_first())
    }
}

/// The file association rows a snapshot contributes to one commit.
pub open spec fn links_of_snapshot(files: Seq<SnapshotFileView>, id: Seq<char>) -> Seq<
    FileLinkView,
>
    decreases files.len(),
{
    if files.len() == 0 {
        Seq::empty()
    } else {
        seq![
            FileLinkView { node_id: id, path: files[0].path, blob_id: blob_id_spec(
                files[0].content,
            ) },
        ] + links_of_snapshot(files.drop_first(), id)
    }
}

/// The views of a snapshot vector.
pub open spec fn snap_views(files: Seq<SnapshotFile>) -> Seq<SnapshotFileView> {
    files.map_values(|f: SnapshotFile| f@)
}

pub proof fn lemma_links_of_snapshot_elts(files: Seq<SnapshotFileView>, id: Seq<char>)
    ensures
        links_of_snapshot(files, id).len() == files.len(),
        forall|k: int|
            0 <= k < files.len() ==> #[trigger] links_of_snapshot(files, id)[k]
                == (FileLinkView { node_id: id, path: files[k].path, blob_id: blob_id_spec(
                files[k].content,
            ) }),
    decreases files.len(),
{
    if files.len() > 0 {
        lemma_links_of_snapshot_elts(files.drop_first(), id);
    }
}

pub proof fn lemma_links_of_snapshot_concat(a: Seq<SnapshotFileView>, b: Seq<SnapshotFileView>, id: Seq<char>)
    ensures
        links_of_snapshot(a + b, id) == links_of_snapshot(a, id) + links_of_snapshot(b, id),
    decreases a.len(),
{
    if a.len() == 0 {
        assert(a + b =~= b);
        assert(links_of_snapshot(a, id) + links_of_snapshot(b, id) =~= links_of_snapshot(b, id));
    } else {
        lemma_links_of_snapshot_concat(a.drop_first(), b, id);
        assert((a + b).drop_first() =~= a.drop_first() + b);
        assert(seq![
            FileLinkView { node_id: id, path: a[0].path, blob_id: blob_id_spec(a[0].content) },
        ] + (links_of_snapshot(a.drop_first(), id) + links_of_snapshot(b, id)) =~= (seq![
            FileLinkView { node_id: id, path: a[0].path, blob_id: blob_id_spec(a[0].content) },
        ] + links_of_snapshot(a.drop_first(), id)) + links_of_snapshot(b, id));
    }
}

pub proof fn lemma_blob_lookup_iff_exists(blobs: Seq<BlobView>, id: Seq<char>)
    ensures
        (blob_lookup(blobs, id) is Some) <==> (exists|i: int|
            0 <= i < blobs.len() && (#[trigger] blobs[i]).id == id),
        blob_lookup(blobs, id) matches Some(c) ==> exists|i: int|
            0 <= i < blobs.len() && (#[trigger] blobs[i]).id == id && blobs[i].content == c,
    decreases blobs.len(),
{
    if blobs.len() > 0 {
        lemma_blob_lookup_iff_exists(blobs.drop_first(), id);
        if blobs[0].id != id {
            assert(forall|i: int|
                1 <= i < blobs.len() ==> #[trigger] blobs[i] == blobs.drop_first()[i - 1]);
        }
    }
}

/// What a successful commit did to the store: one node appended, the old
/// head linked as the single parent when there was one, the head advanced,
/// missing blobs stored, and one association per snapshot file.
pub open spec fn commit_ok(
    pre: StoreView,
    post: StoreView,
    files: Seq<SnapshotFileView>,
    message: Seq<char>,
    now_ms: int,
    id: Seq<char>,
) -> bool {
    &&& trim_spec(message).len() > 0
    &&& id == node_id_spec(trim_spec(message), pre.head, now_ms)
    &&& !pre.has_node(id)
    &&& post.nodes == pre.nodes.push(
        NodeView { id: id, message: trim_spec(message), created_at_unix_ms: now_ms },
    )
    &&& post.parents == (match pre.head {
        Some(h) => pre.parents.push(ParentLinkView { node_id: id, parent_id: h, ord: 0 }),
        None => pre.parents,
    })
    &&& post.head == Some(id)
    &&& post.blobs == add_blobs(pre.blobs, files)
    &&& post.node_files == pre.node_files + links_of_snapshot(files, id)
}

/// Whether a blob with the given id exists.
pub(crate) fn blob_exists(store: &Store, id: &str) -> (r: bool)
    ensures
        r == (blob_lookup(store@.blobs, id@) is Some),
{
    let n = store.blobs.len();
    let mut i: usize = 0;
    while i < n
        invariant
            i <= n,
            n == store@.blobs.len(),
            store@.blobs.len() == store.blobs@.len(),
            forall|k: int| 0 <= k < i ==> (#[trigger] store@.blobs[k]).id != id@,
        decreases n - i,
    {
        if str_eq_exec(store.blobs[i].id.as_str(), id) {
            proof {
                assert((#[trigger] store@.blobs[i as int]).id == id@);
                lemma_blob_lookup_iff_exists(store@.blobs, id@);
            }
            return true;
        }
        i = i + 1;
    }
    proof {
        lemma_blob_lookup_iff_exists(store@.blobs, id@);
    }
    false
}

/// Records a snapshot of the workspace as a new commit.
///
/// The message must have non-whitespace content, or the commit is rejected
/// with `InvalidInput`; a derived id that collides with an existing node is
/// rejected with `StorageFailure`, as the store's unique-id constraint
/// would.  On any failure the store is unchanged.
pub fn commit(
    store: &mut Store,
    files: &Vec<SnapshotFile>,
    message: &str,
    now_unix_ms: i64,
) -> (r: Result<NodeId, WorkSpaceError>)
    requires
        old(store)@.wf(),
        snapshot_sorted(snap_views(files@)),
    ensures
        final(store)@.wf(),
        r matches Ok(id) ==> commit_ok(
            old(store)@,
            final(store)@,
            snap_views(files@),
            message@,
            now_unix_ms as int,
            id@,
        ),
        r is Ok <==> trim_spec(message@).len() > 0 && !old(store)@.has_node(
            node_id_spec(trim_spec(message@), old(store)@.head, now_unix_ms as int),
        ),
        r is Err ==> final(store)@ == old(store)@,
        trim_spec(message@).len() == 0 ==> (r matches Err(WorkSpaceError::InvalidInput(m))
            && m@ == "empty commit message"@),
        trim_spec(message@).len() > 0 && old(store)@.has_node(
            node_id_spec(trim_spec(message@), old(store)@.head, now_unix_ms as int),
        ) ==> (r matches Err(WorkSpaceError::StorageFailure(m)) && m@ == "duplicate node id"@),
{
    let message_text = trim_str(message);
    if message_text.as_str().is_empty() {
        return Err(WorkSpaceError::InvalidInput(String::from_str("empty commit message")));
    }
    let parent: Option<String> = match &store.head {
        Some(h) => Some(h.clone()),
        None => None,
    };
    let parent_ref: Option<&String> = match &parent {
        Some(h) => Some(h),
        None => None,
    };
    let new_id = new_node_id(message_text.as_str(), parent_ref, now_unix_ms);
    if node_exists(store, new_id.as_str()) {
        return Err(WorkSpaceError::StorageFailure(String::from_str("duplicate node id")));
    }
    let ghost pre = store@;
    let ghost id = new_id@;
    let ghost sv = snap_views(files@);

    store.nodes.push(
        NodeRecord {
            id: new_id.clone(),
            message: message_text,
            created_at_unix_ms: now_unix_ms,
        },
    );
    proof {
        assert(store@.nodes =~= pre.nodes.push(
            NodeView { id: id, message: trim_spec(message@), created_at_unix_ms: now_unix_ms as int },
        ));
        assert(store@.parents =~= pre.parents);
        assert(store@.blobs =~= pre.blobs);
        assert(store@.node_files =~= pre.node_files);
    }
    match parent {
        Some(h) => {
            let ghost blobs0 = store@.blobs;
            let ghost nodes0 = store@.nodes;
            let ghost nf0 = store@.node_files;
            let ghost hv = h@;
            store.parents.push(ParentLink { node_id: new_id.clone(), parent_id: h, ord: 0 });
            proof {
                assert(pre.head == Some(hv));
                assert(store@.parents =~= pre.parents.push(
                    ParentLinkView { node_id: id, parent_id: hv, ord: 0 },
                ));
                assert(store@.blobs =~= blobs0);
                assert(store@.nodes =~= nodes0);
                assert(store@.node_files =~= nf0);
            }
        },
        None => {},
    }
    store.head = Some(new_id.clone());

    let n = files.len();
    let mut k: usize = 0;
    proof {
        assert(sv.skip(0) =~= sv);
        assert(store@.node_files + links_of_snapshot(sv.take(0), id) =~= pre.node_files);
        assert(sv.take(0) =~= Seq::<SnapshotFileView>::empty());
    }
    while k < n
        invariant
            k <= n,
            n == files@.len(),
            sv == snap_views(files@),
            sv.len() == n,
            id == new_id@,
            store@.nodes == pre.nodes.push(
                NodeView {
                    id: id,
                    message: trim_spec(message@),
                    created_at_unix_ms: now_unix_ms as int,
                },
            ),
            store@.parents == (match pre.head {
                Some(h) => pre.parents.push(ParentLinkView { node_id: id, parent_id: h, ord: 0 }),
                None => pre.parents,
            }),
            store@.head == Some(id),
            add_blobs(pre.blobs, sv) == add_blobs(store@.blobs, sv.skip(k as int)),
            store@.node_files == pre.node_files + links_of_snapshot(sv.take(k as int), id),
            store.nodes@.len() == store@.nodes.len(),
            store.blobs@.len() == store@.blobs.len(),
            store.node_files@.len() == store@.node_files.len(),
            forall|i: int, j: int|
                0 <= i < j < store@.blobs.len() ==> (#[trigger] store@.blobs[i]).id != (
                #[trigger] store@.blobs[j]).id,
            forall|i: int|
                0 <= i < store@.blobs.len() ==> (#[trigger] store@.blobs[i]).id == blob_id_spec(
                    store@.blobs[i].content,
                ),
            forall|i: int|
                0 <= i < pre.blobs.len() ==> #[trigger] store@.blobs[i] == pre.blobs[i],
            pre.blobs.len() <= store@.blobs.len(),
        decreases n - k,
    {
        let file = &files[k];
        let bid = blob_id_for_content(file.content.as_slice());
        proof {
            assert(sv[k as int] == files@[k as int]@);
            assert(bid@ == blob_id_spec(sv[k as int].content));
        }
        let ghost blobs_before = store@.blobs;
        if !blob_exists(store, bid.as_str()) {
            store.blobs.push(BlobRecord { id: bid.clone(), content: copy_bytes(&file.content) });
            proof {
                assert(store@.blobs =~= upsert_blob(blobs_before, sv[k as int].content));
                assert(store@.nodes =~= pre.nodes.push(
                    NodeView {
                        id: id,
                        message: trim_spec(message@),
                        created_at_unix_ms: now_unix_ms as int,
                    },
                ));
                assert(store@.parents =~= (match pre.head {
                    Some(h) => pre.parents.push(
                        ParentLinkView { node_id: id, parent_id: h, ord: 0 },
                    ),
                    None => pre.parents,
                }));
                assert(store@.node_files =~= pre.node_files + links_of_snapshot(
                    sv.take(k as int),
                    id,
                ));
                lemma_blob_lookup_iff_exists(blobs_before, blob_id_spec(sv[k as int].content));
            }
        } else {
            proof {
                assert(store@.blobs == upsert_blob(blobs_before, sv[k as int].content));
            }
        }
        let ghost nf_before = store@.node_files;
        let ghost blobs_after = store@.blobs;
        let link_node_id = new_id.clone();
        let link_path = file.path.clone();
        proof {
            assert(link_node_id@ == id);
            assert(link_path@ == sv[k as int].path);
            assert(bid@ == blob_id_spec(sv[k as int].content));
        }
        store.node_files.push(FileLink { node_id: link_node_id, path: link_path, blob_id: bid });
        proof {
            assert(store@.blobs =~= blobs_after);
            assert(store@.nodes =~= pre.nodes.push(
                NodeView {
                    id: id,
                    message: trim_spec(message@),
                    created_at_unix_ms: now_unix_ms as int,
                },
            ));
            assert(store@.parents =~= (match pre.head {
                Some(h) => pre.parents.push(ParentLinkView { node_id: id, parent_id: h, ord: 0 }),
                None => pre.parents,
            }));
            let link = FileLinkView {
                node_id: id,
                path: sv[k as int].path,
                blob_id: blob_id_spec(sv[k as int].content),
            };
            assert(store@.node_files =~= nf_before.push(link));
            assert(sv.take(k + 1 as int) =~= sv.take(k as int) + seq![sv[k as int]]);
            lemma_links_of_snapshot_concat(sv.take(k as int), seq![sv[k as int]], id);
            assert(seq![sv[k as int]].drop_first() =~= Seq::<SnapshotFileView>::empty());
            assert(links_of_snapshot(Seq::<SnapshotFileView>::empty(), id) =~= Seq::<
                FileLinkView,
            >::empty());
            assert(links_of_snapshot(seq![sv[k as int]], id) =~= seq![link]);
            assert(store@.node_files =~= pre.node_files + links_of_snapshot(
                sv.take(k + 1 as int),
                id,
            ));
            // the suffix of files still to store
            assert(sv.skip(k as int).drop_first() =~= sv.skip(k + 1 as int));
            assert(sv.skip(k as int)[0] == sv[k as int]);
        }
        k = k + 1;
    }
    proof {
        assert(sv.skip(n as int) =~= Seq::<SnapshotFileView>::empty());
        assert(sv.take(n as int) =~= sv);
        assert(commit_ok(pre, store@, sv, message@, now_unix_ms as int, id));
        lemma_commit_wf(pre, store@, sv, message@, now_unix_ms as int, id);
    }
    Ok(new_id)
}

/// A successful commit preserves every store invariant.
proof fn lemma_commit_wf(
    pre: StoreView,
    post: StoreView,
    files: Seq<SnapshotFileView>,
    message: Seq<char>,
    now_ms: int,
    id: Seq<char>,
)
    requires
        pre.wf(),
        snapshot_sorted(files),
        commit_ok(pre, post, files, message, now_ms, id),
        forall|i: int, j: int|
            0 <= i < j < post.blobs.len() ==> (#[trigger] post.blobs[i]).id != (
            #[trigger] post.blobs[j]).id,
        forall|i: int|
            0 <= i < post.blobs.len() ==> (#[trigger] post.blobs[i]).id == blob_id_spec(
                post.blobs[i].content,
            ),
        forall|i: int| 0 <= i < pre.blobs.len() ==> #[trigger] post.blobs[i] == pre.blobs[i],
        pre.blobs.len() <= post.blobs.len(),
    ensures
        post.wf(),
{
    let new_node = NodeView { id: id, message: trim_spec(message), created_at_unix_ms: now_ms };
    assert(post.nodes[post.nodes.len() - 1] == new_node);
    assert(forall|i: int|
        0 <= i < pre.nodes.len() ==> #[trigger] post.nodes[i] == pre.nodes[i]);
    // node ids stay unique: the new id was checked to be fresh
    assert forall|i: int, j: int|
        0 <= i < j < post.nodes.len() implies (#[trigger] post.nodes[i]).id != (
    #[trigger] post.nodes[j]).id by {
        if j == post.nodes.len() - 1 {
            if post.nodes[i].id == id {
                assert(pre.has_node(id));
            }
        }
    }
    // the head points at the new node
    assert(post.has_node(id));
    // every old node still exists
    assert forall|nid: Seq<char>| pre.has_node(nid) implies post.has_node(nid) by {
        let i = choose|i: int| 0 <= i < pre.nodes.len() && (#[trigger] pre.nodes[i]).id == nid;
        assert((#[trigger] post.nodes[i]).id == nid);
    }
    // every blob referenced before is still present
    assert forall|bid: Seq<char>| pre.has_blob(bid) implies post.has_blob(bid) by {
        let i = choose|i: int| 0 <= i < pre.blobs.len() && (#[trigger] pre.blobs[i]).id == bid;
        assert((#[trigger] post.blobs[i]).id == bid);
    }
    lemma_links_of_snapshot_elts(files, id);
    let new_links = links_of_snapshot(files, id);
    lemma_add_blobs_prefix(pre.blobs, files);
    // every association row references an existing node and blob
    assert forall|i: int|
        0 <= i < post.node_files.len() implies post.has_node(
        (#[trigger] post.node_files[i]).node_id,
    ) && post.has_blob(post.node_files[i].blob_id) by {
        if i < pre.node_files.len() {
            assert(post.node_files[i] == pre.node_files[i]);
            assert(pre.has_node(pre.node_files[i].node_id));
            assert(pre.has_blob(pre.node_files[i].blob_id));
        } else {
            let k = i - pre.node_files.len();
            assert(post.node_files[i] == new_links[k]);
            assert(new_links[k].node_id == id);
            assert(new_links[k].blob_id == blob_id_spec(files[k].content));
            lemma_add_blobs_covers(pre.blobs, files, k);
            lemma_blob_lookup_iff_exists(post.blobs, blob_id_spec(files[k].content));
            assert(post.has_blob(new_links[k].blob_id));
        }
    }
    // old nodes never carry the fresh id, so the sorting of each commit's
    // paths is untouched, and the new commit's paths are the snapshot's
    assert forall|i: int, j: int|
        0 <= i < j < post.node_files.len() && (#[trigger] post.node_files[i]).node_id == (
    #[trigger] post.node_files[j]).node_id implies crate::text::str_lt(
        post.node_files[i].path,
        post.node_files[j].path,
    ) by {
        if j < pre.node_files.len() {
        } else if i >= pre.node_files.len() {
            let a = i - pre.node_files.len();
            let b = j - pre.node_files.len();
            assert(post.node_files[i] == new_links[a]);
            assert(post.node_files[j] == new_links[b]);
            assert(crate::text::str_lt(files[a].path, files[b].path));
        } else {
            // an old row would have to reference the fresh id
            let b = j - pre.node_files.len();
            assert(post.node_files[j] == new_links[b]);
            assert(post.node_files[i] == pre.node_files[i]);
            if pre.node_files[i].node_id == id {
                assert(pre.has_node(id));
            }
        }
    }
    // parent links reference existing nodes and stay strictly ordered
    match pre.head {
        Some(h) => {
            let new_link = ParentLinkView { node_id: id, parent_id: h, ord: 0 };
            assert(post.parents[post.parents.len() - 1] == new_link);
            assert(forall|i: int|
                0 <= i < pre.parents.len() ==> #[trigger] post.parents[i] == pre.parents[i]);
            assert forall|i: int|
                0 <= i < post.parents.len() implies post.has_node(
                (#[trigger] post.parents[i]).node_id,
            ) && post.has_node(post.parents[i].parent_id) by {
                if i < pre.parents.len() {
                    assert(pre.has_node(pre.parents[i].node_id));
                    assert(pre.has_node(pre.parents[i].parent_id));
                } else {
                    assert(pre.has_node(h));
                }
            }
            assert forall|i: int, j: int|
                0 <= i < j < post.parents.len() && (#[trigger] post.parents[i]).node_id == (
            #[trigger] post.parents[j]).node_id implies post.parents[i].ord
                < post.parents[j].ord by {
                if j == post.parents.len() - 1 {
                    if pre.parents[i].node_id == id {
                        assert(pre.has_node(id));
                    }
                }
            }
        },
        None => {
            assert(forall|i: int|
                0 <= i < post.parents.len() ==> #[trigger] post.parents[i] == pre.parents[i]);
            assert forall|i: int|
                0 <= i < post.parents.len() implies post.has_node(
                (#[trigger] post.parents[i]).node_id,
            ) && post.has_node(post.parents[i].parent_id) by {
                assert(pre.has_node(pre.parents[i].node_id));
                assert(pre.has_node(pre.parents[i].parent_id));
            }
        },
    }
}

/// Every blob row present before `add_blobs` keeps its position.
pub proof fn lemma_add_blobs_prefix(blobs: Seq<BlobView>, files: Seq<SnapshotFileView>)
    ensures
        blobs.len() <= add_blobs(blobs, files).len(),
        forall|i: int|
            0 <= i < blobs.len() ==> #[trigger] add_blobs(blobs, files)[i] == blobs[i],
    decreases files.len(),
{
    if files.len() > 0 {
        lemma_add_blobs_prefix(upsert_blob(blobs, files[0].content), files.drop_first());
    }
}

/// Looking a blob up in a concatenation: the left table wins.
pub proof fn lemma_blob_lookup_append(a: Seq<BlobView>, b: Seq<BlobView>, id: Seq<char>)
    ensures
        blob_lookup(a + b, id) == if blob_lookup(a, id) is Some {
            blob_lookup(a, id)
        } else {
            blob_lookup(b, id)
        },
    decreases a.len(),
{
    if a.len() == 0 {
        assert(a + b =~= b);
    } else {
        lemma_blob_lookup_append(a.drop_first(), b, id);
        assert((a + b).drop_first() =~= a.drop_first() + b);
    }
}

/// Looking up after one upsert: present values are kept, the stored
/// content's id resolves.
pub proof fn lemma_upsert_lookup(blobs: Seq<BlobView>, content: Seq<u8>, id: Seq<char>)
    ensures
        blob_lookup(blobs, id) is Some ==> blob_lookup(upsert_blob(blobs, content), id)
            == blob_lookup(blobs, id),
        blob_lookup(blobs, id) is None && id == blob_id_spec(content) ==> blob_lookup(
            upsert_blob(blobs, content),
            id,
        ) == Some(content),
        blob_lookup(blobs, id) is None && id != blob_id_spec(content) ==> blob_lookup(
            upsert_blob(blobs, content),
            id,
        ) is None,
{
    let x = BlobView { id: blob_id_spec(content), content: content };
    if blob_lookup(blobs, blob_id_spec(content)) is None {
        assert(upsert_blob(blobs, content) =~= blobs + seq![x]);
        lemma_blob_lookup_append(blobs, seq![x], id);
        assert(seq![x].drop_first() =~= Seq::<BlobView>::empty());
        assert(blob_lookup(Seq::<BlobView>::empty(), id) is None);
        assert(blob_lookup(seq![x], id) == if x.id == id {
            Some(x.content)
        } else {
            Option::<Seq<u8>>::None
        });
    }
}

/// Every value present before `add_blobs` is still found after it.
pub proof fn lemma_add_blobs_monotone(
    blobs: Seq<BlobView>,
    files: Seq<SnapshotFileView>,
    id: Seq<char>,
)
    requires
        blob_lookup(blobs, id) is Some,
    ensures
        blob_lookup(add_blobs(blobs, files), id) == blob_lookup(blobs, id),
    decreases files.len(),
{
    if files.len() > 0 {
        lemma_upsert_lookup(blobs, files[0].content, id);
        lemma_add_blobs_monotone(upsert_blob(blobs, files[0].content), files.drop_first(), id);
    }
}

/// After `add_blobs`, every snapshot file's blob id resolves; when it was
/// absent before and no other snapshot content shares the id, it resolves
/// to that file's bytes.
pub proof fn lemma_add_blobs_covers(
    blobs: Seq<BlobView>,
    files: Seq<SnapshotFileView>,
    k: int,
)
    requires
        0 <= k < files.len(),
    ensures
        blob_lookup(add_blobs(blobs, files), blob_id_spec(files[k].content)) is Some,
        (blob_lookup(blobs, blob_id_spec(files[k].content)) is None && (forall|j: int|
            0 <= j < files.len() && blob_id_spec(#[trigger] files[j].content) == blob_id_spec(
                files[k].content,
            ) ==> files[j].content == files[k].content)) ==> blob_lookup(
            add_blobs(blobs, files),
            blob_id_spec(files[k].content),
        ) == Some(files[k].content),
    decreases files.len(),
{
    let bid = blob_id_spec(files[k].content);
    let next = upsert_blob(blobs, files[0].content);
    let rest = files.drop_first();
    lemma_upsert_lookup(blobs, files[0].content, bid);
    assert(forall|j: int| 0 <= j < rest.len() ==> #[trigger] rest[j] == files[j + 1]);
    if k == 0 {
        if blob_lookup(next, bid) is Some {
            lemma_add_blobs_monotone(next, rest, bid);
        }
    } else {
        lemma_add_blobs_covers(next, rest, k - 1);
        assert(rest[k - 1] == files[k]);
        if blob_lookup(blobs, bid) is None && (forall|j: int|
            0 <= j < files.len() && blob_id_spec(#[trigger] files[j].content) == bid
                ==> files[j].content == files[k].content) {
            if blob_id_spec(files[0].content) == bid {
                assert(files[0].content == files[k].content);
                assert(blob_lookup(next, bid) == Some(files[k].content));
                lemma_add_blobs_monotone(next, rest, bid);
            } else {
                assert(blob_lookup(next, bid) is None);
            }
        }
    }
}


/// Law: a successful commit's id is distinct from every commit id that was
/// already in history.
pub proof fn lemma_commit_id_fresh(
    pre: StoreView,
    post: StoreView,
    files: Seq<SnapshotFileView>,
    message: Seq<char>,
    now_ms: int,
    id: Seq<char>,
)
    requires
        commit_ok(pre, post, files, message, now_ms, id),
    ensures
        forall|i: int| 0 <= i < pre.nodes.len() ==> (#[trigger] pre.nodes[i]).id != id,
{
}

/// One step of history: some successful commit led from one store to the
/// next.
pub open spec fn commit_step(pre: StoreView, post: StoreView) -> bool {
    exists|files: Seq<SnapshotFileView>, message: Seq<char>, now_ms: int, id: Seq<char>|
        commit_ok(pre, post, files, message, now_ms, id)
}

/// A history: an empty store followed by successful commits only.
pub open spec fn commit_chain(chain: Seq<StoreView>) -> bool {
    &&& chain.len() >= 1
    &&& chain[0] == StoreView::empty()
    &&& forall|i: int| 0 <= i < chain.len() - 1 ==> #[trigger] commit_step(chain[i], chain[i + 1])
}

/// Law: after `N` successful commits from an empty store, the store holds
/// exactly `N` commit nodes and the head is the id of the newest one, which
/// is what `repo_state` reports as `node_count` and `head`.
pub proof fn lemma_state_after_commit_chain(chain: Seq<StoreView>)
    requires
        commit_chain(chain),
    ensures
        chain.last().nodes.len() == chain.len() - 1,
        chain.len() > 1 ==> chain.last().head == Some(chain.last().nodes.last().id),
        chain.len() == 1 ==> chain.last().head is None,
    decreases chain.len(),
{
    if chain.len() > 1 {
        let prefix = chain.drop_last();
        assert(commit_chain(prefix)) by {
            assert(prefix[0] == chain[0]);
            assert forall|i: int| 0 <= i < prefix.len() - 1 implies #[trigger] commit_step(
                prefix[i],
                prefix[i + 1],
            ) by {
                assert(prefix[i] == chain[i] && prefix[i + 1] == chain[i + 1]);
                assert(commit_step(chain[i], chain[i + 1]));
            }
        }
        lemma_state_after_commit_chain(prefix);
        let pre = chain[chain.len() - 2];
        let post = chain.last();
        assert(commit_step(pre, post)) by {
            assert(chain[chain.len() - 2 + 1] == post);
        }
        let (files, message, now_ms, id) = choose|
            files: Seq<SnapshotFileView>,
            message: Seq<char>,
            now_ms: int,
            id: Seq<char>,
        | commit_ok(pre, post, files, message, now_ms, id);
        assert(prefix.last() == pre);
        assert(post.nodes.last().id == id);
    }
}

/// Law: a successful commit's parent list is exactly the previous head, or
/// empty for the very first commit; the log reports the new node with that
/// parent list.
pub proof fn lemma_new_commit_parents(
    pre: StoreView,
    post: StoreView,
    files: Seq<SnapshotFileView>,
    message: Seq<char>,
    now_ms: int,
    id: Seq<char>,
)
    requires
        pre.wf(),
        commit_ok(pre, post, files, message, now_ms, id),
    ensures
        post.parents_for(id) == (match pre.head {
            Some(h) => seq![h],
            None => Seq::<Seq<char>>::empty(),
        }),
{
    assert forall|i: int| 0 <= i < pre.parents.len() implies (#[trigger] pre.parents[i]).node_id
        != id by {
        if pre.parents[i].node_id == id {
            assert(pre.has_node(id));
        }
    }
    lemma_parent_ids_filter_none(pre.parents, id);
    match pre.head {
        Some(h) => {
            let link = ParentLinkView { node_id: id, parent_id: h, ord: 0 };
            assert(post.parents =~= pre.parents + seq![link]);
            lemma_parent_ids_filter_concat(pre.parents, seq![link], id);
            assert(seq![link].drop_first() =~= Seq::<ParentLinkView>::empty());
            assert(parent_ids_filter(Seq::<ParentLinkView>::empty(), id) == Seq::<
                Seq<char>,
            >::empty());
            assert(parent_ids_filter(seq![link], id) =~= seq![h]);
            assert(post.parents_for(id) =~= seq![h]);
        },
        None => {
            assert(post.parents == pre.parents);
        },
    }
}

/// Filtering parent links distributes over concatenation.
proof fn lemma_parent_ids_filter_concat(a: Seq<ParentLinkView>, b: Seq<ParentLinkView>, id: Seq<char>)
    ensures
        parent_ids_filter(a + b, id) == parent_ids_filter(a, id) + parent_ids_filter(b, id),
    decreases a.len(),
{
    if a.len() == 0 {
        assert(a + b =~= b);
        assert(parent_ids_filter(a, id) + parent_ids_filter(b, id) =~= parent_ids_filter(b, id));
    } else {
        lemma_parent_ids_filter_concat(a.drop_first(), b, id);
        assert((a + b).drop_first() =~= a.drop_first() + b);
        if a[0].node_id == id {
            assert(seq![a[0].parent_id] + (parent_ids_filter(a.drop_first(), id)
                + parent_ids_filter(b, id)) =~= (seq![a[0].parent_id] + parent_ids_filter(
                a.drop_first(),
                id,
            )) + parent_ids_filter(b, id));
        }
    }
}

/// No parent link of a foreign commit survives the filter.
proof fn lemma_parent_ids_filter_none(ps: Seq<ParentLinkView>, id: Seq<char>)
    requires
        forall|i: int| 0 <= i < ps.len() ==> (#[trigger] ps[i]).node_id != id,
    ensures
        parent_ids_filter(ps, id) == Seq::<Seq<char>>::empty(),
    decreases ps.len(),
{
    if ps.len() > 0 {
        assert(forall|i: int|
            0 <= i < ps.drop_first().len() ==> #[trigger] ps.drop_first()[i] == ps[i + 1]);
        lemma_parent_ids_filter_none(ps.drop_first(), id);
    }
}

} // verus!
